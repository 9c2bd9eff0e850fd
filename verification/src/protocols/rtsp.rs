//! RTSP (RFC 2326): the picture as RTP/JPEG (RFC 2435) and the card's audio as RTP L16
//! (RFC 3551), over TCP-interleaved or UDP transport, with RTCP sender reports so players can
//! line audio and video up. Here are the clocks, the parsing of requests and transports, the
//! per-connection session and the per-track senders; the caller owns the sockets and threads.
//!
//! URL: rtsp://HOST:PORT/live   (any path works)

use vstd::prelude::*;
use crate::bytes::{be16, be32, find_byte, find_byte_exec, lemma_find_byte_bounds};
use crate::hub::AudioFormat;
use crate::jpeg::{analyze, analyze_spec, jpeg_error_text, lemma_analyze_bounds};
use crate::rtp::{
    jpeg_packets, l16_packets, lemma_jpeg_packet_sizes, lemma_l16_packet_sizes, packetize_jpeg,
    packetize_l16, packets_view, sender_report, sender_report_bytes, seq_after,
};
use vstd::utf8::{decode_utf8, encode_utf8, valid_utf8};
use vstd::string::StringSliceAdditionalSpecFns;
use crate::text::{
    chars_of, dec_chars, hex_chars, push_hex, string_of, find_char, find_char_exec, lemma_find_char_bounds, lower_seq, parse_int,
    parse_range, push_dec, push_range, push_range_lower, range_eq, str_is, sub_chars, trim_bounds,
    trim_range, trimmed,
};

verus! {

/// Ties the monotonic clock to wall-clock time at the moment PLAY starts.
#[derive(Clone, Copy)]
pub struct Anchor {
    /// microseconds since the Unix epoch
    pub wall_us: i64,
    /// the monotonic clock at that moment, in microseconds
    pub inst_us: u64,
}

/// `a / b` rounded toward zero, as Rust's integer division does (`b > 0`).
pub open spec fn div_toward_zero(a: int, b: int) -> int {
    if a >= 0 {
        a / b
    } else {
        -((-a) / b)
    }
}

impl Anchor {
    /// `t - anchor` in microseconds, wrapped into an `i64`.
    pub open spec fn offset(&self, t_us: u64) -> i64 {
        (t_us - self.inst_us) as i64
    }

    /// Whether `t - anchor` can be negated as an `i64` (it always can, except exactly -2^63).
    pub open spec fn offset_ok(&self, t_us: u64) -> bool {
        t_us >= self.inst_us || self.inst_us - t_us != 0x8000_0000_0000_0000
    }

    /// The anchor for a wall clock reading (microseconds since the epoch; `None` for a clock
    /// before the epoch, taken as 0) and the monotonic clock read at the same moment.
    pub fn now(since_epoch_us: Option<u128>, inst_us: u64) -> (a: Anchor)
        ensures
            a.wall_us == match since_epoch_us {
                Some(us) => us as i64,
                None => 0i64,
            },
            a.inst_us == inst_us,
    {
        let wall_us: i64 = match since_epoch_us {
            Some(us) => us as i64,
            None => 0,
        };
        Anchor { wall_us, inst_us }
    }

    /// `t - anchor` in microseconds (negative if `t` is earlier).
    pub fn signed_micros(&self, t_us: u64) -> (r: i64)
        requires
            self.offset_ok(t_us),
        ensures
            r == self.offset(t_us),
    {
        if t_us >= self.inst_us {
            (t_us - self.inst_us) as i64
        } else {
            let d: u64 = self.inst_us - t_us;
            let x: i64 = d as i64;
            let ti = t_us;
            let ii = self.inst_us;
            assert(x != i64::MIN && -x == (ti - ii) as i64) by (bit_vector)
                requires
                    d == ii - ti,
                    ti < ii,
                    x == d as i64,
                    d != 0x8000_0000_0000_0000u64,
            ;
            -x
        }
    }

    /// The wall-clock time of `t`, in microseconds since the epoch.
    pub fn unix_us(&self, t_us: u64) -> (r: i64)
        requires
            self.offset_ok(t_us),
            i64::MIN <= self.wall_us + self.offset(t_us) <= i64::MAX,
        ensures
            r == self.wall_us + self.offset(t_us),
    {
        self.wall_us + self.signed_micros(t_us)
    }

    /// `t - anchor` on the 90 kHz RTP video clock.
    pub fn ticks_90k(&self, t_us: u64) -> (r: i64)
        requires
            self.offset_ok(t_us),
            i64::MIN <= self.offset(t_us) * 9 <= i64::MAX,
        ensures
            r == div_toward_zero(self.offset(t_us) * 9, 100),
    {
        let s = self.signed_micros(t_us);
        let m: i64 = s * 9;
        if m >= 0 {
            m / 100
        } else {
            let q: i64 = (-(m as i128) / 100) as i64;
            -q
        }
    }
}

/// An RTP or RTCP packet framed for the RTSP connection: `$`, the channel, the packet's
/// length (16 bits, big endian) and the packet.
pub fn interleaved_frame(ch: u8, pkt: &[u8]) -> (r: Vec<u8>)
    ensures
        r@ == seq![0x24u8, ch, ((pkt@.len() / 256) % 256) as u8, (pkt@.len() % 256) as u8] + pkt@,
{
    let n = pkt.len();
    let mut v: Vec<u8> = Vec::new();
    v.push(0x24u8);
    v.push(ch);
    v.push(((n / 256) % 256) as u8);
    v.push((n % 256) as u8);
    crate::bytes::push_all(&mut v, pkt);
    v
}

/// One RTSP request; header names are lower-cased.
pub struct Request {
    pub method: String,
    pub url: String,
    pub headers: Vec<(String, String)>,
}

/// Header (name, value) pairs by their text.
pub open spec fn headers_view(h: Seq<(String, String)>) -> Seq<(Seq<char>, Seq<char>)> {
    h.map_values(|p: (String, String)| (p.0@, p.1@))
}

/// Index of the first header called `name` at or after `i`.
pub open spec fn header_from(hs: Seq<(Seq<char>, Seq<char>)>, name: Seq<char>, i: int) -> Option<int>
    decreases hs.len() - i,
{
    if i < 0 || i >= hs.len() {
        None
    } else if hs[i].0 == name {
        Some(i)
    } else {
        header_from(hs, name, i + 1)
    }
}

/// The value of the first header called `name` (compared ignoring ASCII case).
pub open spec fn header_value(hs: Seq<(Seq<char>, Seq<char>)>, name: Seq<char>) -> Option<Seq<char>> {
    match header_from(hs, lower_seq(name), 0) {
        Some(i) => Some(hs[i].1),
        None => None,
    }
}

impl Request {
    /// The value of the first header called `name` (any ASCII case).
    pub fn header(&self, name: &str) -> (r: Option<&str>)
        ensures
            match header_value(headers_view(self.headers@), name@) {
                Some(v) => r matches Some(x) && x@ == v,
                None => r is None,
            },
    {
        let nc = chars_of(name);
        let mut n = String::new();
        push_range_lower(&mut n, name, &nc, 0, nc.len());
        assert(name@.subrange(0, name@.len() as int) =~= name@);
        let ghost hs = headers_view(self.headers@);
        let mut i: usize = 0;
        while i < self.headers.len()
            invariant
                i <= self.headers.len(),
                hs == headers_view(self.headers@),
                n@ == lower_seq(name@),
                header_from(hs, n@, 0) == header_from(hs, n@, i as int),
            decreases self.headers.len() - i,
        {
            if str_is(self.headers[i].0.as_str(), n.as_str()) {
                return Some(self.headers[i].1.as_str());
            }
            i += 1;
        }
        None
    }
}

/// The SDP description of the stream: JPEG video, and L16 audio when there is audio.
pub open spec fn sdp_text(audio: Option<AudioFormat>) -> Seq<char> {
    let video = "v=0\r\n"@ + "o=- 1 1 IN IP4 0.0.0.0\r\n"@ + "s=uvcweb\r\n"@ + "c=IN IP4 0.0.0.0\r\n"@
        + "t=0 0\r\n"@ + "a=control:*\r\n"@ + "a=range:npt=0-\r\n"@ + "m=video 0 RTP/AVP 26\r\n"@
        + "a=rtpmap:26 JPEG/90000\r\n"@ + "a=control:trackID=0\r\n"@;
    match audio {
        None => video,
        Some(f) => video + "m=audio 0 RTP/AVP 97\r\n"@ + "a=rtpmap:97 L16/"@ + dec_chars(f.rate as nat) + "/"@
            + dec_chars(f.channels as nat) + "\r\n"@ + "a=control:trackID=1\r\n"@,
    }
}

/// The SDP description of the stream.
pub fn build_sdp(audio: Option<AudioFormat>) -> (s: String)
    ensures
        s@ == sdp_text(audio),
{
    let mut s = String::new();
    s.append("v=0\r\n");
    s.append("o=- 1 1 IN IP4 0.0.0.0\r\n");
    s.append("s=uvcweb\r\n");
    s.append("c=IN IP4 0.0.0.0\r\n");
    s.append("t=0 0\r\n");
    s.append("a=control:*\r\n");
    s.append("a=range:npt=0-\r\n");
    s.append("m=video 0 RTP/AVP 26\r\n");
    s.append("a=rtpmap:26 JPEG/90000\r\n");
    s.append("a=control:trackID=0\r\n");
    if let Some(f) = audio {
        s.append("m=audio 0 RTP/AVP 97\r\n");
        s.append("a=rtpmap:97 L16/");
        push_dec(&mut s, f.rate as u64);
        s.append("/");
        push_dec(&mut s, f.channels as u64);
        s.append("\r\n");
        s.append("a=control:trackID=1\r\n");
    }
    s
}


/// The transport the server picked from a client's offers.
pub enum Chosen {
    /// interleaved on the RTSP connection: (RTP channel, RTCP channel)
    Tcp(u8, u8),
    /// UDP to the client's (RTP port, RTCP port)
    Udp(u16, u16),
}

/// `a-b`, each side trimmed and read as an unsigned number up to `hi`.
pub open spec fn pair_value(s: Seq<char>, hi: int) -> Option<(int, int)> {
    let p = find_char(s, '-', 0);
    if p >= s.len() {
        None
    } else {
        match (parse_int(trimmed(s, 0, p), false, 0, hi), parse_int(trimmed(s, p + 1, s.len() as int), false, 0, hi)) {
            (Some(a), Some(b)) => Some((a, b)),
            _ => None,
        }
    }
}

/// Reads `a-b` (each side an unsigned number up to `hi`).
pub fn parse_pair(s: &Vec<char>, hi: u16) -> (r: Option<(u16, u16)>)
    ensures
        match pair_value(s@, hi as int) {
            Some((a, b)) => r == Some((a as u16, b as u16)),
            None => r is None,
        },
{
    let p = find_char_exec(s, '-', 0);
    if p >= s.len() {
        return None;
    }
    let (x, y) = trim_bounds(s, 0, p);
    let a = match parse_range(s, x, y, false, 0, hi as i128) {
        Some(v) => v,
        None => return None,
    };
    let (x2, y2) = trim_bounds(s, p + 1, s.len());
    let b = match parse_range(s, x2, y2, false, 0, hi as i128) {
        Some(v) => v,
        None => return None,
    };
    Some((a as u16, b as u16))
}

/// Whether some `;`-separated token of the offer `o`, from index `i` on, is `word` once trimmed.
pub open spec fn has_token(o: Seq<char>, i: int, word: Seq<char>) -> bool
    decreases o.len() - i,
{
    if i < 0 || i > o.len() {
        false
    } else {
        let p = find_char(o, ';', i);
        if trimmed(o, i, p) == word {
            true
        } else if p < o.len() {
            proof {
                lemma_find_char_bounds(o, ';', i);
            }
            has_token(o, p + 1, word)
        } else {
            false
        }
    }
}

/// The rest of the first `;`-separated token of `o`, from index `i` on, that starts with `key`
/// once trimmed.
pub open spec fn token_value(o: Seq<char>, i: int, key: Seq<char>) -> Option<Seq<char>>
    decreases o.len() - i,
{
    if i < 0 || i > o.len() {
        None
    } else {
        let p = find_char(o, ';', i);
        let t = trimmed(o, i, p);
        if t.len() >= key.len() && t.subrange(0, key.len() as int) == key {
            Some(t.subrange(key.len() as int, t.len() as int))
        } else if p < o.len() {
            proof {
                lemma_find_char_bounds(o, ';', i);
            }
            token_value(o, p + 1, key)
        } else {
            None
        }
    }
}

/// What the server makes of one offer: none if it is multicast; interleaved TCP on the offered
/// channels (0-1 when they are missing or unreadable); UDP to the offered client ports, if
/// they can be read; nothing for any other profile.
pub open spec fn offer_choice(o: Seq<char>) -> Option<Chosen> {
    if has_token(o, 0, "multicast"@) {
        None
    } else {
        let proto = trimmed(o, 0, find_char(o, ';', 0));
        if proto == "RTP/AVP/TCP"@ {
            let pair = match token_value(o, 0, "interleaved="@) {
                Some(v) => pair_value(v, 255),
                None => None,
            };
            match pair {
                Some((a, b)) => Some(Chosen::Tcp(a as u8, b as u8)),
                None => Some(Chosen::Tcp(0, 1)),
            }
        } else if proto == "RTP/AVP"@ || proto == "RTP/AVP/UDP"@ {
            match token_value(o, 0, "client_port="@) {
                Some(v) => match pair_value(v, 65535) {
                    Some((a, b)) => Some(Chosen::Udp(a as u16, b as u16)),
                    None => None,
                },
                None => None,
            }
        } else {
            None
        }
    }
}

/// The first usable offer among the comma separated offers of `h` from index `i` on.
pub open spec fn transport_from(h: Seq<char>, i: int) -> Option<Chosen>
    decreases h.len() - i,
{
    if i < 0 || i > h.len() {
        None
    } else {
        let p = find_char(h, ',', i);
        match offer_choice(h.subrange(i, p)) {
            Some(c) => Some(c),
            None => if p < h.len() {
                proof {
                    lemma_find_char_bounds(h, ',', i);
                }
                transport_from(h, p + 1)
            } else {
                None
            },
        }
    }
}

/// Whether some token of `o` from `i` on is `word`.
fn has_token_exec(o: &Vec<char>, i: usize, word: &str) -> (r: bool)
    requires
        i <= o.len(),
    ensures
        r == has_token(o@, i as int, word@),
    decreases o.len() - i,
{
    let p = find_char_exec(o, ';', i);
    let (x, y) = trim_bounds(o, i, p);
    if range_eq(o, x, y, word) {
        return true;
    }
    if p < o.len() {
        has_token_exec(o, p + 1, word)
    } else {
        false
    }
}

/// The rest of the first token of `o` from `i` on that starts with `key`.
fn token_value_exec(o: &Vec<char>, i: usize, key: &str) -> (r: Option<Vec<char>>)
    requires
        i <= o.len(),
    ensures
        match token_value(o@, i as int, key@) {
            Some(v) => r matches Some(x) && x@ == v,
            None => r is None,
        },
    decreases o.len() - i,
{
    let p = find_char_exec(o, ';', i);
    let (x, y) = trim_bounds(o, i, p);
    let n = key.unicode_len();
    if y - x >= n && range_eq(o, x, x + n, key) {
        proof {
            assert(trimmed(o@, i as int, p as int).subrange(0, n as int) =~= o@.subrange(x as int, x + n));
            assert(trimmed(o@, i as int, p as int).subrange(n as int, y - x) =~= o@.subrange(x + n, y as int));
        }
        return Some(sub_chars(o, x + n, y));
    }
    proof {
        if y - x >= n {
            assert(trimmed(o@, i as int, p as int).subrange(0, n as int) =~= o@.subrange(x as int, x + n));
        }
    }
    if p < o.len() {
        token_value_exec(o, p + 1, key)
    } else {
        None
    }
}

/// What the server makes of one offer.
fn offer_choice_exec(o: &Vec<char>) -> (r: Option<Chosen>)
    ensures
        r == offer_choice(o@),
{
    if has_token_exec(o, 0, "multicast") {
        return None;
    }
    let p = find_char_exec(o, ';', 0);
    let (x, y) = trim_bounds(o, 0, p);
    if range_eq(o, x, y, "RTP/AVP/TCP") {
        let pair = match token_value_exec(o, 0, "interleaved=") {
            Some(v) => parse_pair(&v, 255),
            None => None,
        };
        match pair {
            Some((a, b)) => Some(Chosen::Tcp(a as u8, b as u8)),
            None => Some(Chosen::Tcp(0, 1)),
        }
    } else if range_eq(o, x, y, "RTP/AVP") || range_eq(o, x, y, "RTP/AVP/UDP") {
        match token_value_exec(o, 0, "client_port=") {
            Some(v) => match parse_pair(&v, 65535) {
                Some((a, b)) => Some(Chosen::Udp(a, b)),
                None => None,
            },
            None => None,
        }
    } else {
        None
    }
}

/// Picks the first transport the server can serve from the client's (possibly comma
/// separated) offers.
pub fn parse_transport(h: &str) -> (r: Option<Chosen>)
    ensures
        r == transport_from(h@, 0),
{
    let v = chars_of(h);
    let mut i: usize = 0;
    loop
        invariant
            i <= v.len(),
            v@ == h@,
            transport_from(h@, 0) == transport_from(h@, i as int),
        decreases v.len() - i,
    {
        let p = find_char_exec(&v, ',', i);
        let offer = sub_chars(&v, i, p);
        match offer_choice_exec(&offer) {
            Some(c) => return Some(c),
            None => {},
        }
        if p >= v.len() {
            return None;
        }
        i = p + 1;
    }
}

/// Index of the last occurrence of `pat` in `s` that starts at or before `j`.
pub open spec fn rfind_at(s: Seq<char>, pat: Seq<char>, j: int) -> Option<int>
    decreases j + 1,
{
    if j < 0 {
        None
    } else if j + pat.len() <= s.len() && s.subrange(j, j + pat.len()) == pat {
        Some(j)
    } else {
        rfind_at(s, pat, j - 1)
    }
}

/// End of the run of ASCII digits that starts at `i`.
pub open spec fn digits_end(s: Seq<char>, i: int) -> int
    decreases s.len() - i,
{
    if i < 0 || i >= s.len() {
        i
    } else if '0' <= s[i] && s[i] <= '9' {
        digits_end(s, i + 1)
    } else {
        i
    }
}

/// The track number of a URL such as `.../trackID=1`: the digits after its last `trackID=`.
pub open spec fn track_of(url: Seq<char>) -> Option<int> {
    let pat = "trackID="@;
    match rfind_at(url, pat, url.len() - pat.len()) {
        Some(i) => parse_int(url.subrange(i + pat.len(), digits_end(url, i + pat.len())), false, 0, usize::MAX as int),
        None => None,
    }
}

/// `.../trackID=1` -> 1
pub fn track_id(url: &str) -> (r: Option<usize>)
    ensures
        match track_of(url@) {
            Some(t) => r == Some(t as usize),
            None => r is None,
        },
{
    proof {
        reveal_strlit("trackID=");
    }
    let v = chars_of(url);
    if v.len() < 8 {
        assert(rfind_at(url@, "trackID="@, url@.len() - 8) is None) by {
            assert(url@.len() - 8 < 0);
        }
        return None;
    }
    let mut j: usize = v.len() - 8;
    while !range_eq(&v, j, j + 8, "trackID=")
        invariant
            v@ == url@,
            j + 8 <= v.len(),
            "trackID="@.len() == 8,
            rfind_at(url@, "trackID="@, url@.len() - 8) == rfind_at(url@, "trackID="@, j as int),
        decreases j,
    {
        if j == 0 {
            assert(rfind_at(url@, "trackID="@, -1) is None);
            return None;
        }
        j -= 1;
    }
    let start = j + 8;
    let mut e = start;
    while e < v.len() && '0' <= v[e] && v[e] <= '9'
        invariant
            start <= e <= v.len(),
            v@ == url@,
            digits_end(url@, start as int) == digits_end(url@, e as int),
        decreases v.len() - e,
    {
        e += 1;
    }
    match parse_range(&v, start, e, false, 0, usize::MAX as i128) {
        Some(n) => Some(n as usize),
        None => None,
    }
}


/// `std::str::from_utf8`: the text that `b` encodes, if `b` is valid UTF-8.
#[verifier::external_body]
fn utf8_text(b: &[u8]) -> (r: Option<&str>)
    ensures
        match r {
            Some(t) => valid_utf8(b@) && t@ == decode_utf8(b@),
            None => !valid_utf8(b@),
        },
{
    std::str::from_utf8(b).ok()
}

/// End of the line that starts at `pos` (just past its `\n`; when the stream has ended, a
/// last line may lack it), if the bytes hold the whole line.
pub open spec fn line_end(b: Seq<u8>, pos: int, eof: bool) -> Option<int> {
    let nl = find_byte(b, 10, pos);
    if nl < b.len() {
        Some(nl + 1)
    } else if eof && pos < b.len() {
        Some(b.len() as int)
    } else {
        None
    }
}

/// Whether the characters of a line are nothing but white space.
pub open spec fn is_blank(l: Seq<char>) -> bool {
    trim_range(l, 0, l.len() as int).0 == trim_range(l, 0, l.len() as int).1
}

/// How far reading got in the bytes received so far.
pub enum Scan {
    /// more bytes are needed
    More,
    /// the stream ended where a request could start: no request
    Closed,
    /// the stream cannot be read: text that is not UTF-8, or it ended inside a frame or body
    Failed,
    /// found: the line `start..end`
    Found(int, int),
}

/// The request line, from `pos` on: interleaved RTCP frames (`$`, channel, 16-bit length)
/// that TCP clients send on the same connection and blank lines come before it.
pub open spec fn request_line(b: Seq<u8>, pos: int, eof: bool) -> Scan
    decreases b.len() - pos,
{
    if pos < 0 || pos >= b.len() {
        if eof {
            Scan::Closed
        } else {
            Scan::More
        }
    } else if b[pos] == 0x24 {
        if pos + 4 > b.len() {
            if eof {
                Scan::Failed
            } else {
                Scan::More
            }
        } else {
            let e = pos + 4 + b[pos + 2] as int * 256 + b[pos + 3] as int;
            if e > b.len() {
                if eof {
                    Scan::Failed
                } else {
                    Scan::More
                }
            } else {
                request_line(b, e, eof)
            }
        }
    } else {
        match line_end(b, pos, eof) {
            None => Scan::More,
            Some(e) => if !valid_utf8(b.subrange(pos, e)) {
                Scan::Failed
            } else if is_blank(decode_utf8(b.subrange(pos, e))) {
                proof {
                    lemma_find_byte_bounds(b, 10, pos);
                }
                request_line(b, e, eof)
            } else {
                Scan::Found(pos, e)
            },
        }
    }
}

/// The header a header line holds: the text before its first `:` (trimmed, lower-cased) and
/// the text after it (trimmed); none if there is no `:`.
pub open spec fn header_of(l: Seq<char>) -> Option<(Seq<char>, Seq<char>)> {
    let (x, y) = trim_range(l, 0, l.len() as int);
    let k = find_char(l, ':', x);
    if k < y {
        Some((lower_seq(trimmed(l, x, k)), trimmed(l, k + 1, y)))
    } else {
        None
    }
}

/// How reading the header lines went.
pub enum HeadScan {
    More,
    Closed,
    Failed,
    /// the headers, and where the blank line that ends them ends
    Done(Seq<(Seq<char>, Seq<char>)>, int),
}

/// The header lines from `pos` on, added to `acc`, up to the blank line that ends them.
pub open spec fn header_lines(b: Seq<u8>, pos: int, eof: bool, acc: Seq<(Seq<char>, Seq<char>)>) -> HeadScan
    decreases b.len() - pos,
{
    if pos < 0 || pos > b.len() {
        HeadScan::Failed
    } else {
        match line_end(b, pos, eof) {
            None => if eof {
                HeadScan::Closed
            } else {
                HeadScan::More
            },
            Some(e) => if !valid_utf8(b.subrange(pos, e)) {
                HeadScan::Failed
            } else if is_blank(decode_utf8(b.subrange(pos, e))) {
                HeadScan::Done(acc, e)
            } else {
                proof {
                    lemma_find_byte_bounds(b, 10, pos);
                }
                match header_of(decode_utf8(b.subrange(pos, e))) {
                    Some(h) => header_lines(b, e, eof, acc.push(h)),
                    None => header_lines(b, e, eof, acc),
                }
            },
        }
    }
}

/// Request method, URL, headers and the number of bytes it took, or how reading stopped.
pub enum ReqView {
    More,
    Closed,
    Failed,
    Complete(Seq<char>, Seq<char>, Seq<(Seq<char>, Seq<char>)>, int),
}

/// The first word of the trimmed request line and the second one (empty if there is none),
/// words being separated by single spaces.
pub open spec fn method_and_url(l: Seq<char>) -> (Seq<char>, Seq<char>) {
    let (x, y) = trim_range(l, 0, l.len() as int);
    let f1 = find_char(l, ' ', x);
    let p1 = if f1 < y { f1 } else { y };
    let url = if p1 < y {
        let f2 = find_char(l, ' ', p1 + 1);
        let p2 = if f2 < y { f2 } else { y };
        l.subrange(p1 + 1, p2)
    } else {
        Seq::empty()
    };
    (l.subrange(x, p1), url)
}

/// The length of the body a request announces (`Content-Length`; 0 when missing or not a
/// number), of which at most 64 KiB are read.
pub open spec fn body_len(hs: Seq<(Seq<char>, Seq<char>)>) -> int {
    let n = match header_value(hs, "content-length"@) {
        Some(v) => match parse_int(v, false, 0, usize::MAX as int) {
            Some(n) => n,
            None => 0,
        },
        None => 0,
    };
    if n < 65536 {
        n
    } else {
        65536
    }
}

/// One request read from the start of the bytes received so far (`eof`: the stream has
/// ended): the request line, the header lines up to a blank line, and the body, skipped.
pub open spec fn request_from(b: Seq<u8>, eof: bool) -> ReqView {
    match request_line(b, 0, eof) {
        Scan::More => ReqView::More,
        Scan::Closed => ReqView::Closed,
        Scan::Failed => ReqView::Failed,
        Scan::Found(s, e) => {
            let (method, url) = method_and_url(decode_utf8(b.subrange(s, e)));
            match header_lines(b, e, eof, Seq::empty()) {
                HeadScan::More => ReqView::More,
                HeadScan::Closed => ReqView::Closed,
                HeadScan::Failed => ReqView::Failed,
                HeadScan::Done(hs, he) => if he + body_len(hs) <= b.len() {
                    ReqView::Complete(method, url, hs, he + body_len(hs))
                } else if eof {
                    ReqView::Failed
                } else {
                    ReqView::More
                },
            }
        },
    }
}

/// How reading one request went.
pub enum ReqRead {
    /// more bytes are needed
    More,
    /// the stream ended cleanly: no request
    Closed,
    /// the stream cannot be read as requests
    Failed,
    /// a request, and how many bytes of the buffer it took
    Complete(Request, usize),
}

/// The content of a read.
pub open spec fn read_view(r: ReqRead) -> ReqView {
    match r {
        ReqRead::More => ReqView::More,
        ReqRead::Closed => ReqView::Closed,
        ReqRead::Failed => ReqView::Failed,
        ReqRead::Complete(q, n) => ReqView::Complete(q.method@, q.url@, headers_view(q.headers@), n as int),
    }
}

fn line_end_exec(b: &[u8], pos: usize, eof: bool) -> (r: Option<usize>)
    requires
        pos <= b.len(),
    ensures
        match line_end(b@, pos as int, eof) {
            Some(e) => r == Some(e as usize) && pos < e <= b.len(),
            None => r is None,
        },
{
    let nl = find_byte_exec(b, 10, pos);
    if nl < b.len() {
        Some(nl + 1)
    } else if eof && pos < b.len() {
        Some(b.len())
    } else {
        None
    }
}

/// Where the request line is.
enum LineFind {
    More,
    Closed,
    Failed,
    Found(usize, usize),
}

/// Where the request line is, as [`request_line`] says.
fn find_request_line(b: &[u8], eof: bool) -> (r: LineFind)
    ensures
        match request_line(b@, 0, eof) {
            Scan::More => r is More,
            Scan::Closed => r is Closed,
            Scan::Failed => r is Failed,
            Scan::Found(s, e) => r matches LineFind::Found(x, y) && x == s && y == e && x < y <= b.len()
                && valid_utf8(b@.subrange(s, e)),
        },
{
    let mut pos: usize = 0;
    loop
        invariant
            pos <= b.len(),
            request_line(b@, 0, eof) == request_line(b@, pos as int, eof),
        decreases b.len() - pos,
    {
        if pos >= b.len() {
            return if eof { LineFind::Closed } else { LineFind::More };
        }
        if b[pos] == 0x24 {
            if b.len() - pos < 4 {
                return if eof { LineFind::Failed } else { LineFind::More };
            }
            let n: usize = b[pos + 2] as usize * 256 + b[pos + 3] as usize;
            if b.len() - pos - 4 < n {
                return if eof { LineFind::Failed } else { LineFind::More };
            }
            pos = pos + 4 + n;
        } else {
            match line_end_exec(b, pos, eof) {
                None => return LineFind::More,
                Some(e) => match utf8_text(&b[pos..e]) {
                    None => return LineFind::Failed,
                    Some(t) => {
                        let l = chars_of(t);
                        let (x, y) = trim_bounds(&l, 0, l.len());
                        if x != y {
                            return LineFind::Found(pos, e);
                        }
                        pos = e;
                    },
                },
            }
        }
    }
}

/// How reading the header lines went.
enum HeadRead {
    More,
    Closed,
    Failed,
    Done(Vec<(String, String)>, usize),
}

/// Reads the header lines from `pos` on, as [`header_lines`] says.
fn read_headers(b: &[u8], pos: usize, eof: bool) -> (r: HeadRead)
    requires
        pos <= b.len(),
    ensures
        match header_lines(b@, pos as int, eof, Seq::empty()) {
            HeadScan::More => r is More,
            HeadScan::Closed => r is Closed,
            HeadScan::Failed => r is Failed,
            HeadScan::Done(hs, e) => r matches HeadRead::Done(v, n) && headers_view(v@) == hs && n == e,
        },
        r matches HeadRead::Done(_, n) ==> n <= b.len(),
{
    let mut hs: Vec<(String, String)> = Vec::new();
    let ghost start = pos as int;
    let mut cur = pos;
    assert(headers_view(hs@) =~= Seq::<(Seq<char>, Seq<char>)>::empty());
    loop
        invariant
            cur <= b.len(),
            start == pos as int,
            header_lines(b@, start, eof, Seq::empty()) == header_lines(b@, cur as int, eof, headers_view(hs@)),
        decreases b.len() - cur,
    {
        let ghost acc = headers_view(hs@);
        match line_end_exec(b, cur, eof) {
            None => return if eof { HeadRead::Closed } else { HeadRead::More },
            Some(e) => match utf8_text(&b[cur..e]) {
                None => return HeadRead::Failed,
                Some(t) => {
                    let l = chars_of(t);
                    let (x, y) = trim_bounds(&l, 0, l.len());
                    if x == y {
                        return HeadRead::Done(hs, e);
                    }
                    let k = find_char_exec(&l, ':', x);
                    if k < y {
                        let (kx, ky) = trim_bounds(&l, x, k);
                        let (vx, vy) = trim_bounds(&l, k + 1, y);
                        let mut key = String::new();
                        push_range_lower(&mut key, t, &l, kx, ky);
                        let mut value = String::new();
                        push_range(&mut value, t, &l, vx, vy);
                        assert(key@ =~= lower_seq(trimmed(l@, x as int, k as int)));
                        assert(value@ =~= trimmed(l@, k + 1, y as int));
                        hs.push((key, value));
                        assert(headers_view(hs@) =~= acc.push((key@, value@)));
                    }
                    cur = e;
                },
            },
        }
    }
}


/// Reads one request from the start of `buf`, the bytes received so far (`eof`: the stream
/// has ended).
pub fn parse_request(buf: &[u8], eof: bool) -> (r: ReqRead)
    ensures
        read_view(r) == request_from(buf@, eof),
{
    let (s, e) = match find_request_line(buf, eof) {
        LineFind::More => return ReqRead::More,
        LineFind::Closed => return ReqRead::Closed,
        LineFind::Failed => return ReqRead::Failed,
        LineFind::Found(s, e) => (s, e),
    };
    let t = match utf8_text(&buf[s..e]) {
        Some(t) => t,
        None => return ReqRead::Failed,
    };
    let l = chars_of(t);
    let (x, y) = trim_bounds(&l, 0, l.len());
    let f1 = find_char_exec(&l, ' ', x);
    let p1 = if f1 < y { f1 } else { y };
    let mut method = String::new();
    push_range(&mut method, t, &l, x, p1);
    let mut url = String::new();
    if p1 < y {
        let f2 = find_char_exec(&l, ' ', p1 + 1);
        let p2 = if f2 < y { f2 } else { y };
        push_range(&mut url, t, &l, p1 + 1, p2);
    }
    assert(method@ =~= method_and_url(l@).0);
    assert(url@ =~= method_and_url(l@).1);
    let (hs, he) = match read_headers(buf, e, eof) {
        HeadRead::More => return ReqRead::More,
        HeadRead::Closed => return ReqRead::Closed,
        HeadRead::Failed => return ReqRead::Failed,
        HeadRead::Done(hs, he) => (hs, he),
    };
    let req = Request { method, url, headers: hs };
    let clen: usize = match req.header("content-length") {
        Some(v) => {
            let vc = chars_of(v);
            assert(vc@.subrange(0, vc@.len() as int) =~= vc@);
            match parse_range(&vc, 0, vc.len(), false, 0, usize::MAX as i128) {
                Some(n) => n as usize,
                None => 0,
            }
        },
        None => 0,
    };
    proof {
        assert(lower_seq("content-length"@) =~= "content-length"@) by {
            reveal_strlit("content-length");
        }
    }
    let body: usize = if clen < 65536 { clen } else { 65536 };
    if buf.len() - he >= body {
        ReqRead::Complete(req, he + body)
    } else if eof {
        ReqRead::Failed
    } else {
        ReqRead::More
    }
}


/// An RTSP response.
pub struct Response {
    pub code: u16,
    pub reason: String,
    /// the CSeq of the request it answers
    pub cseq: String,
    /// extra headers, in order
    pub headers: Vec<(String, String)>,
    pub body: Vec<u8>,
}

/// The content of a [`Response`].
#[verifier::ext_equal]
pub struct ResponseView {
    pub code: u16,
    pub reason: Seq<char>,
    pub cseq: Seq<char>,
    pub headers: Seq<(Seq<char>, Seq<char>)>,
    pub body: Seq<u8>,
}

impl View for Response {
    type V = ResponseView;

    open spec fn view(&self) -> ResponseView {
        ResponseView {
            code: self.code,
            reason: self.reason@,
            cseq: self.cseq@,
            headers: headers_view(self.headers@),
            body: self.body@,
        }
    }
}

/// Header lines `Name: value\r\n`.
pub open spec fn header_text(hs: Seq<(Seq<char>, Seq<char>)>) -> Seq<char>
    decreases hs.len(),
{
    if hs.len() == 0 {
        Seq::empty()
    } else {
        header_text(hs.drop_last()) + hs.last().0 + ": "@ + hs.last().1 + "\r\n"@
    }
}

/// The head of a response: status line, CSeq, server name, extra headers, body length.
pub open spec fn response_head(r: ResponseView) -> Seq<char> {
    "RTSP/1.0 "@ + dec_chars(r.code as nat) + " "@ + r.reason + "\r\nCSeq: "@ + r.cseq
        + "\r\nServer: uvcweb\r\n"@ + header_text(r.headers) + "Content-Length: "@
        + dec_chars(r.body.len()) + "\r\n\r\n"@
}

/// The bytes of a response: its head, UTF-8 encoded, then its body.
pub fn response_bytes(r: &Response) -> (b: Vec<u8>)
    ensures
        b@ == encode_utf8(response_head(r@)) + r.body@,
{
    let mut h = String::new();
    h.append("RTSP/1.0 ");
    push_dec(&mut h, r.code as u64);
    h.append(" ");
    h.append(r.reason.as_str());
    h.append("\r\nCSeq: ");
    h.append(r.cseq.as_str());
    h.append("\r\nServer: uvcweb\r\n");
    let ghost pre = h@;
    let mut i: usize = 0;
    while i < r.headers.len()
        invariant
            i <= r.headers.len(),
            h@ == pre + header_text(headers_view(r.headers@).subrange(0, i as int)),
        decreases r.headers.len() - i,
    {
        h.append(r.headers[i].0.as_str());
        h.append(": ");
        h.append(r.headers[i].1.as_str());
        h.append("\r\n");
        assert(headers_view(r.headers@).subrange(0, i + 1).drop_last() =~= headers_view(r.headers@).subrange(0, i as int));
        i += 1;
    }
    assert(headers_view(r.headers@).subrange(0, i as int) =~= headers_view(r.headers@));
    h.append("Content-Length: ");
    push_dec(&mut h, r.body.len() as u64);
    h.append("\r\n\r\n");
    let hb = h.as_str().as_bytes();
    let mut out: Vec<u8> = Vec::new();
    crate::bytes::push_all(&mut out, hb);
    crate::bytes::push_all(&mut out, r.body.as_slice());
    out
}

/// What the connection does once a response is sent.
pub enum After {
    Nothing,
    /// send `track` interleaved on the connection: (track, RTP channel, RTCP channel)
    UseTcp(usize, u8, u8),
    /// send `track` by UDP from the bound server ports: (track, client RTP port, client RTCP
    /// port, server RTP port)
    UseUdp(usize, u16, u16, u16),
    /// start the senders of the tracks that are set up
    StartPlay,
    /// the client tore the session down: close the connection
    Close,
}

/// What to do with a request.
pub enum Step {
    /// send this response, then do what `After` says
    Reply(Response, After),
    /// bind a pair of UDP ports for (track, client RTP port, client RTCP port) and hand the
    /// result to [`Session::udp_bound`] with the request's CSeq
    BindUdp(usize, u16, u16, String),
}

/// One client connection.
pub struct Session {
    /// the session id the client is told
    pub id: String,
    /// the audio format, if the run has audio
    pub audio: Option<AudioFormat>,
    /// whether the video track is set up and not yet started
    pub video_ready: bool,
    /// whether the audio track is set up and not yet started
    pub audio_ready: bool,
    pub playing: bool,
    /// the client tore the session down
    pub done: bool,
}

/// The content of a [`Session`].
#[verifier::ext_equal]
pub struct SessionView {
    pub id: Seq<char>,
    pub audio: Option<AudioFormat>,
    pub video_ready: bool,
    pub audio_ready: bool,
    pub playing: bool,
    pub done: bool,
}

impl View for Session {
    type V = SessionView;

    open spec fn view(&self) -> SessionView {
        SessionView {
            id: self.id@,
            audio: self.audio,
            video_ready: self.video_ready,
            audio_ready: self.audio_ready,
            playing: self.playing,
            done: self.done,
        }
    }
}

/// The content of a [`Step`].
#[verifier::ext_equal]
pub enum StepView {
    Reply(ResponseView, After),
    BindUdp(usize, u16, u16, Seq<char>),
}

/// The content of a step.
pub open spec fn step_view(s: Step) -> StepView {
    match s {
        Step::Reply(r, a) => StepView::Reply(r@, a),
        Step::BindUdp(t, a, b, c) => StepView::BindUdp(t, a, b, c@),
    }
}

/// A response with no body.
pub open spec fn answer(code: u16, reason: Seq<char>, cseq: Seq<char>, hs: Seq<(Seq<char>, Seq<char>)>) -> ResponseView {
    ResponseView { code, reason, cseq, headers: hs, body: Seq::empty() }
}

/// The methods the server answers.
pub open spec fn public_methods() -> Seq<char> {
    "OPTIONS, DESCRIBE, SETUP, PLAY, PAUSE, TEARDOWN, GET_PARAMETER, SET_PARAMETER"@
}

/// The CSeq of a request ("0" when it has none).
pub open spec fn cseq_of(hs: Seq<(Seq<char>, Seq<char>)>) -> Seq<char> {
    match header_value(hs, "cseq"@) {
        Some(v) => v,
        None => "0"@,
    }
}

/// The session after `track` is set up.
pub open spec fn with_ready(s: SessionView, track: usize) -> SessionView {
    if track == 0 {
        SessionView { video_ready: true, ..s }
    } else {
        SessionView { audio_ready: true, ..s }
    }
}

/// The `Session` header of a SETUP answer.
pub open spec fn setup_session(s: SessionView) -> Seq<char> {
    s.id + ";timeout=60"@
}

/// SETUP: the track must exist (video always, audio when the run has audio), and one of the
/// offered transports must be usable.
pub open spec fn setup_step(s: SessionView, url: Seq<char>, hs: Seq<(Seq<char>, Seq<char>)>) -> (SessionView, StepView) {
    let cseq = cseq_of(hs);
    match track_of(url) {
        Some(t) if t == 0 || (t == 1 && s.audio is Some) => {
            let offer = match header_value(hs, "transport"@) {
                Some(v) => v,
                None => Seq::empty(),
            };
            match transport_from(offer, 0) {
                None => (s, StepView::Reply(answer(461, "Unsupported Transport"@, cseq, Seq::empty()), After::Nothing)),
                Some(Chosen::Tcp(a, b)) => (
                    with_ready(s, t as usize),
                    StepView::Reply(
                        answer(200, "OK"@, cseq, seq![
                            ("Transport"@, "RTP/AVP/TCP;unicast;interleaved="@ + dec_chars(a as nat) + "-"@ + dec_chars(b as nat)),
                            ("Session"@, setup_session(s)),
                        ]),
                        After::UseTcp(t as usize, a, b),
                    ),
                ),
                Some(Chosen::Udp(a, b)) => (s, StepView::BindUdp(t as usize, a, b, cseq)),
            }
        },
        _ => (s, StepView::Reply(answer(404, "Not Found"@, cseq, Seq::empty()), After::Nothing)),
    }
}

/// How the session answers a request (`method`, `url`, headers).
pub open spec fn step_for(s: SessionView, method: Seq<char>, url: Seq<char>, hs: Seq<(Seq<char>, Seq<char>)>) -> (SessionView, StepView) {
    let cseq = cseq_of(hs);
    if method == "OPTIONS"@ {
        (s, StepView::Reply(answer(200, "OK"@, cseq, seq![("Public"@, public_methods())]), After::Nothing))
    } else if method == "DESCRIBE"@ {
        let base = if url.len() > 0 && url.last() == '/' { url } else { url + "/"@ };
        (s, StepView::Reply(
            ResponseView {
                code: 200,
                reason: "OK"@,
                cseq,
                headers: seq![("Content-Base"@, base), ("Content-Type"@, "application/sdp"@)],
                body: encode_utf8(sdp_text(s.audio)),
            },
            After::Nothing,
        ))
    } else if method == "SETUP"@ {
        setup_step(s, url, hs)
    } else if method == "PLAY"@ {
        if !s.playing && !s.video_ready && !s.audio_ready {
            (s, StepView::Reply(answer(455, "Method Not Valid in This State"@, cseq, Seq::empty()), After::Nothing))
        } else {
            (s, StepView::Reply(
                answer(200, "OK"@, cseq, seq![("Range"@, "npt=0.000-"@), ("Session"@, s.id)]),
                if s.playing { After::Nothing } else { After::StartPlay },
            ))
        }
    } else if method == "PAUSE"@ || method == "GET_PARAMETER"@ || method == "SET_PARAMETER"@ {
        (s, StepView::Reply(answer(200, "OK"@, cseq, seq![("Session"@, s.id)]), After::Nothing))
    } else if method == "TEARDOWN"@ {
        (SessionView { done: true, ..s }, StepView::Reply(answer(200, "OK"@, cseq, seq![("Session"@, s.id)]), After::Close))
    } else {
        (s, StepView::Reply(answer(501, "Not Implemented"@, cseq, Seq::empty()), After::Nothing))
    }
}

/// The answer to a UDP SETUP once the server tried to bind its ports (`port`: the RTP port of
/// the pair it got).
pub open spec fn udp_step(s: SessionView, track: usize, a: u16, b: u16, cseq: Seq<char>, port: Option<u16>) -> (SessionView, ResponseView, After) {
    match port {
        None => (s, answer(500, "Internal Server Error"@, cseq, Seq::empty()), After::Nothing),
        Some(sp) => (
            with_ready(s, track),
            answer(200, "OK"@, cseq, seq![
                ("Transport"@, "RTP/AVP;unicast;client_port="@ + dec_chars(a as nat) + "-"@ + dec_chars(b as nat)
                    + ";server_port="@ + dec_chars(sp as nat) + "-"@ + dec_chars(sp as nat + 1)),
                ("Session"@, setup_session(s)),
            ]),
            After::UseUdp(track, a, b, sp),
        ),
    }
}

/// A session id: eight upper-case hexadecimal digits of `r`.
pub fn session_id(r: u32) -> (s: String)
    ensures
        s@ == hex_chars(r as nat, 8, true),
{
    let mut s = String::new();
    push_hex(&mut s, r as u64, 8, true);
    s
}

/// A response with no body.
fn plain(code: u16, reason: &str, cseq: &String, headers: Vec<(String, String)>) -> (r: Response)
    ensures
        r@ == answer(code, reason@, cseq@, headers_view(headers@)),
{
    let r = Response { code, reason: string_of(reason), cseq: cseq.clone(), headers, body: Vec::new() };
    assert(r.body@ =~= Seq::<u8>::empty());
    r
}

/// No extra headers.
fn no_headers() -> (r: Vec<(String, String)>)
    ensures
        headers_view(r@) == Seq::<(Seq<char>, Seq<char>)>::empty(),
{
    let r: Vec<(String, String)> = Vec::new();
    assert(headers_view(r@) =~= Seq::<(Seq<char>, Seq<char>)>::empty());
    r
}

/// `a-b` in decimal.
fn pair_text(out: &mut String, a: u64, b: u64)
    ensures
        final(out)@ == old(out)@ + dec_chars(a as nat) + "-"@ + dec_chars(b as nat),
{
    push_dec(out, a);
    out.append("-");
    push_dec(out, b);
}

impl Session {
    /// A new connection's session, with the id made from `r`.
    pub fn new(r: u32, audio: Option<AudioFormat>) -> (s: Session)
        ensures
            s@ == (SessionView {
                id: hex_chars(r as nat, 8, true),
                audio,
                video_ready: false,
                audio_ready: false,
                playing: false,
                done: false,
            }),
    {
        Session { id: session_id(r), audio, video_ready: false, audio_ready: false, playing: false, done: false }
    }

    fn set_ready(&mut self, track: usize)
        ensures
            final(self)@ == with_ready(old(self)@, track),
    {
        if track == 0 {
            self.video_ready = true;
        } else {
            self.audio_ready = true;
        }
    }

    fn setup_session_text(&self) -> (r: String)
        ensures
            r@ == setup_session(self@),
    {
        let mut v = self.id.clone();
        v.append(";timeout=60");
        v
    }

    fn session_header(&self) -> (r: Vec<(String, String)>)
        ensures
            headers_view(r@) == seq![("Session"@, self@.id)],
    {
        let mut hs: Vec<(String, String)> = Vec::new();
        hs.push((string_of("Session"), self.id.clone()));
        assert(headers_view(hs@) =~= seq![("Session"@, self@.id)]);
        hs
    }

    /// SETUP.
    fn setup(&mut self, req: &Request, cseq: &String) -> (r: Step)
        requires
            cseq@ == cseq_of(headers_view(req.headers@)),
        ensures
            (final(self)@, step_view(r)) == setup_step(old(self)@, req.url@, headers_view(req.headers@)),
    {
        let tid = match track_id(req.url.as_str()) {
            Some(t) => t,
            None => return Step::Reply(plain(404, "Not Found", cseq, no_headers()), After::Nothing),
        };
        if !(tid == 0 || (tid == 1 && self.audio.is_some())) {
            return Step::Reply(plain(404, "Not Found", cseq, no_headers()), After::Nothing);
        }
        let offer: &str = match req.header("transport") {
            Some(v) => v,
            None => "",
        };
        proof {
            reveal_strlit("");
            assert(lower_seq("transport"@) =~= "transport"@) by {
                reveal_strlit("transport");
            }
        }
        let ghost hv = headers_view(req.headers@);
        assert(offer@ == match header_value(hv, "transport"@) { Some(v) => v, None => Seq::<char>::empty() });
        assert(track_of(req.url@) == Some(tid as int));
        match parse_transport(offer) {
            None => Step::Reply(plain(461, "Unsupported Transport", cseq, no_headers()), After::Nothing),
            Some(Chosen::Tcp(a, b)) => {
                let mut tr = string_of("RTP/AVP/TCP;unicast;interleaved=");
                pair_text(&mut tr, a as u64, b as u64);
                let mut hs: Vec<(String, String)> = Vec::new();
                hs.push((string_of("Transport"), tr));
                hs.push((string_of("Session"), self.setup_session_text()));
                self.set_ready(tid);
                assert(headers_view(hs@) =~= seq![
                    ("Transport"@, "RTP/AVP/TCP;unicast;interleaved="@ + dec_chars(a as nat) + "-"@ + dec_chars(b as nat)),
                    ("Session"@, setup_session(old(self)@)),
                ]);
                Step::Reply(plain(200, "OK", cseq, hs), After::UseTcp(tid, a, b))
            },
            Some(Chosen::Udp(a, b)) => Step::BindUdp(tid, a, b, cseq.clone()),
        }
    }

    /// How the session answers `req`.
    pub fn on_request(&mut self, req: &Request) -> (r: Step)
        ensures
            (final(self)@, step_view(r)) == step_for(old(self)@, req.method@, req.url@, headers_view(req.headers@)),
    {
        proof {
            assert(lower_seq("cseq"@) =~= "cseq"@) by {
                reveal_strlit("cseq");
            }
        }
        let cseq: String = match req.header("cseq") {
            Some(v) => string_of(v),
            None => string_of("0"),
        };
        let m = req.method.as_str();
        if str_is(m, "OPTIONS") {
            let mut hs: Vec<(String, String)> = Vec::new();
            hs.push((string_of("Public"), string_of("OPTIONS, DESCRIBE, SETUP, PLAY, PAUSE, TEARDOWN, GET_PARAMETER, SET_PARAMETER")));
            assert(headers_view(hs@) =~= seq![("Public"@, public_methods())]);
            Step::Reply(plain(200, "OK", &cseq, hs), After::Nothing)
        } else if str_is(m, "DESCRIBE") {
            let uc = chars_of(req.url.as_str());
            let mut base = req.url.clone();
            if !(uc.len() > 0 && uc[uc.len() - 1] == '/') {
                base.append("/");
            }
            let mut hs: Vec<(String, String)> = Vec::new();
            hs.push((string_of("Content-Base"), base));
            hs.push((string_of("Content-Type"), string_of("application/sdp")));
            let sdp = build_sdp(self.audio);
            let sb = sdp.as_str().as_bytes();
            let mut body: Vec<u8> = Vec::new();
            crate::bytes::push_all(&mut body, sb);
            let r = Response { code: 200, reason: string_of("OK"), cseq, headers: hs, body };
            assert(r.body@ =~= encode_utf8(sdp_text(self@.audio)));
            Step::Reply(r, After::Nothing)
        } else if str_is(m, "SETUP") {
            self.setup(req, &cseq)
        } else if str_is(m, "PLAY") {
            if !self.playing && !self.video_ready && !self.audio_ready {
                Step::Reply(plain(455, "Method Not Valid in This State", &cseq, no_headers()), After::Nothing)
            } else {
                let mut hs: Vec<(String, String)> = Vec::new();
                hs.push((string_of("Range"), string_of("npt=0.000-")));
                hs.push((string_of("Session"), self.id.clone()));
                assert(headers_view(hs@) =~= seq![("Range"@, "npt=0.000-"@), ("Session"@, self@.id)]);
                let after = if self.playing { After::Nothing } else { After::StartPlay };
                Step::Reply(plain(200, "OK", &cseq, hs), after)
            }
        } else if str_is(m, "PAUSE") || str_is(m, "GET_PARAMETER") || str_is(m, "SET_PARAMETER") {
            let hs = self.session_header();
            Step::Reply(plain(200, "OK", &cseq, hs), After::Nothing)
        } else if str_is(m, "TEARDOWN") {
            self.done = true;
            let hs = self.session_header();
            Step::Reply(plain(200, "OK", &cseq, hs), After::Close)
        } else {
            Step::Reply(plain(501, "Not Implemented", &cseq, no_headers()), After::Nothing)
        }
    }

    /// The answer to a UDP SETUP of (`track`, client ports `a`-`b`) once the server tried to
    /// bind a pair of ports (`port`: the RTP port of the pair, if it got one).
    pub fn udp_bound(&mut self, track: usize, a: u16, b: u16, cseq: &String, port: Option<u16>) -> (r: (Response, After))
        requires
            port matches Some(sp) ==> sp < u16::MAX,
        ensures
            (final(self)@, r.0@, r.1) == udp_step(old(self)@, track, a, b, cseq@, port),
    {
        match port {
            None => (plain(500, "Internal Server Error", cseq, no_headers()), After::Nothing),
            Some(sp) => {
                let mut tr = string_of("RTP/AVP;unicast;client_port=");
                pair_text(&mut tr, a as u64, b as u64);
                tr.append(";server_port=");
                pair_text(&mut tr, sp as u64, sp as u64 + 1);
                let mut hs: Vec<(String, String)> = Vec::new();
                hs.push((string_of("Transport"), tr));
                hs.push((string_of("Session"), self.setup_session_text()));
                self.set_ready(track);
                assert(headers_view(hs@) =~= seq![
                    ("Transport"@, "RTP/AVP;unicast;client_port="@ + dec_chars(a as nat) + "-"@ + dec_chars(b as nat)
                        + ";server_port="@ + dec_chars(sp as nat) + "-"@ + dec_chars(sp as nat + 1)),
                    ("Session"@, setup_session(old(self)@)),
                ]);
                (plain(200, "OK", cseq, hs), After::UseUdp(track, a, b, sp))
            },
        }
    }

    /// The PLAY answer went out: the set-up tracks start sending.
    pub fn play_started(&mut self)
        ensures
            final(self)@ == (SessionView { playing: true, video_ready: false, audio_ready: false, ..old(self)@ }),
    {
        self.playing = true;
        self.video_ready = false;
        self.audio_ready = false;
    }
}


/// RTP payload budget per video packet.
pub const VIDEO_PAYLOAD: usize = 1400;
/// RTP payload budget per audio packet.
pub const AUDIO_PAYLOAD: usize = 1200;
/// Time between RTCP sender reports, in microseconds.
pub const SR_INTERVAL_US: u64 = 2_000_000;

/// Bytes after the 12-byte RTP header, summed over the packets.
pub open spec fn payload_octets(p: Seq<Seq<u8>>) -> int
    decreases p.len(),
{
    if p.len() == 0 {
        0
    } else {
        payload_octets(p.drop_last()) + p.last().len() - 12
    }
}

/// `(a + b) mod 2^32`.
pub open spec fn add32(a: int, b: int) -> u32 {
    ((a + b) % 0x1_0000_0000) as u32
}

/// Adds the payload bytes of `pkts` to the RTCP octet count `octets` (modulo 2^32).
fn count_octets(octets: u32, pkts: &Vec<Vec<u8>>) -> (r: u32)
    requires
        forall|i: int| 0 <= i < pkts@.len() ==> #[trigger] pkts@[i]@.len() >= 12,
    ensures
        r == add32(octets as int, payload_octets(packets_view(pkts@))),
{
    let mut o = octets;
    let mut i: usize = 0;
    while i < pkts.len()
        invariant
            i <= pkts.len(),
            forall|j: int| 0 <= j < pkts@.len() ==> #[trigger] pkts@[j]@.len() >= 12,
            o == add32(octets as int, payload_octets(packets_view(pkts@).subrange(0, i as int))),
        decreases pkts.len() - i,
    {
        let d: usize = pkts[i].len() - 12;
        let ghost before = payload_octets(packets_view(pkts@).subrange(0, i as int));
        assert(packets_view(pkts@).subrange(0, i + 1).drop_last() =~= packets_view(pkts@).subrange(0, i as int));
        let d64 = d as u64;
        let d32 = #[verifier::truncate] (d64 as u32);
        proof {
            assert(d32 == d64 % 0x1_0000_0000) by (bit_vector)
                requires d32 == d64 as u32;
            vstd::arithmetic::div_mod::lemma_add_mod_noop(octets as int + before, d as int, 0x1_0000_0000);
            vstd::arithmetic::div_mod::lemma_mod_twice(d as int, 0x1_0000_0000);
        }
        o = o.wrapping_add(d32);
        i += 1;
    }
    assert(packets_view(pkts@).subrange(0, i as int) =~= packets_view(pkts@));
    o
}

/// The video track of a playing client: RTP state and RTCP counters.
pub struct VideoSender {
    pub ssrc: u32,
    /// next RTP sequence number
    pub seq: u16,
    /// RTP timestamp at the anchor
    pub base: u32,
    pub pkts_sent: u32,
    pub octets: u32,
    /// when the next sender report is due (monotonic microseconds)
    pub next_sr_us: u64,
    /// a frame that cannot be sent was already reported
    pub warned_err: bool,
    /// custom Huffman tables were already reported
    pub warned_huff: bool,
}

/// What to do with a video frame.
pub enum FrameOut {
    /// it cannot go out as RTP/JPEG; the reason, the first time only
    Skipped(Option<String>),
    /// the packets to send, and whether to warn (once) that the camera's own Huffman tables
    /// will show wrong colours in players
    Packets(Vec<Vec<u8>>, bool),
}

impl VideoSender {
    /// A sender with random `ssrc`, first sequence number and timestamp base; the first
    /// sender report is due at once.
    pub fn new(ssrc: u32, seq_seed: u32, base: u32, now_us: u64) -> (v: VideoSender)
        ensures
            v == (VideoSender {
                ssrc,
                seq: seq_seed as u16,
                base,
                pkts_sent: 0,
                octets: 0,
                next_sr_us: now_us,
                warned_err: false,
                warned_huff: false,
            }),
    {
        VideoSender {
            ssrc,
            seq: #[verifier::truncate] (seq_seed as u16),
            base,
            pkts_sent: 0,
            octets: 0,
            next_sr_us: now_us,
            warned_err: false,
            warned_huff: false,
        }
    }

    /// The packets for a frame whose arrival lies `ticks` (90 kHz clock) after the anchor.
    pub fn on_frame(&mut self, data: &[u8], ticks: i64) -> (r: FrameOut)
        ensures
            match analyze_spec(data@) {
                Err(e) => {
                    &&& *final(self) == VideoSender { warned_err: true, ..*old(self) }
                    &&& r matches FrameOut::Skipped(m)
                    &&& if old(self).warned_err {
                        m is None
                    } else {
                        m matches Some(t) && t@ == jpeg_error_text(e)
                    }
                },
                Ok(info) => {
                    let ts = old(self).base.wrapping_add(ticks as u32);
                    let pk = jpeg_packets(
                        info,
                        data@.subrange(info.scan_start as int, info.scan_end as int),
                        ts,
                        old(self).ssrc,
                        VIDEO_PAYLOAD,
                        0,
                        old(self).seq,
                    );
                    &&& r matches FrameOut::Packets(p, w) && packets_view(p@) == pk && w == (info.custom_huffman
                        && !old(self).warned_huff)
                    &&& *final(self) == VideoSender {
                        seq: seq_after(old(self).seq, pk.len() as int),
                        pkts_sent: add32(old(self).pkts_sent as int, pk.len() as int),
                        octets: add32(old(self).octets as int, payload_octets(pk)),
                        warned_huff: old(self).warned_huff || info.custom_huffman,
                        ..*old(self)
                    }
                },
            },
    {
        let _n = data.len();
        proof {
            lemma_analyze_bounds(data@);
        }
        match analyze(data) {
            Err(e) => {
                let first = !self.warned_err;
                self.warned_err = true;
                FrameOut::Skipped(if first { Some(e) } else { None })
            },
            Ok(info) => {
                let warn = info.custom_huffman && !self.warned_huff;
                if info.custom_huffman {
                    self.warned_huff = true;
                }
                let t32 = #[verifier::truncate] (ticks as u32);
                let ts = self.base.wrapping_add(t32);
                let ghost seq0 = self.seq;
                let pkts = packetize_jpeg(&info, data, ts, self.ssrc, &mut self.seq, VIDEO_PAYLOAD);
                proof {
                    lemma_jpeg_packet_sizes(
                        info@,
                        data@.subrange(info.scan_start as int, info.scan_end as int),
                        ts,
                        self.ssrc,
                        VIDEO_PAYLOAD,
                        0,
                        seq0,
                    );
                    assert forall|i: int| 0 <= i < pkts@.len() implies #[trigger] pkts@[i]@.len() >= 12 by {
                        assert(packets_view(pkts@)[i] == pkts@[i]@);
                    }
                }
                let n64 = pkts.len() as u64;
        let n32 = #[verifier::truncate] (n64 as u32);
                proof {
                    let n = n64;
                    assert(n32 == n % 0x1_0000_0000) by (bit_vector)
                        requires n32 == n as u32;
                    vstd::arithmetic::div_mod::lemma_add_mod_noop_right(self.pkts_sent as int, n as int, 0x1_0000_0000);
                }
                self.pkts_sent = self.pkts_sent.wrapping_add(n32);
                self.octets = count_octets(self.octets, &pkts);
                FrameOut::Packets(pkts, warn)
            },
        }
    }

    /// The RTCP sender report due at `now_us`, if one is: once a packet went out, every two
    /// seconds. `ticks` is `now` on the 90 kHz clock after the anchor, `unix_us` the wall
    /// clock at `now`, `av_offset_us` the configured shift of video against audio.
    pub fn report_due(&mut self, now_us: u64, ticks: i64, unix_us: i64, av_offset_us: i64) -> (r: Option<Vec<u8>>)
        requires
            old(self).pkts_sent > 0 && now_us >= old(self).next_sr_us ==> {
                &&& now_us + SR_INTERVAL_US <= u64::MAX
                &&& i64::MIN <= unix_us + av_offset_us <= i64::MAX
            },
        ensures
            if old(self).pkts_sent > 0 && now_us >= old(self).next_sr_us {
                &&& r matches Some(p) && p@ == sender_report_bytes(
                    old(self).ssrc,
                    (unix_us + av_offset_us) as i64,
                    old(self).base.wrapping_add(ticks as u32),
                    old(self).pkts_sent,
                    old(self).octets,
                    "uvcweb".spec_bytes(),
                )
                &&& *final(self) == VideoSender { next_sr_us: (now_us + SR_INTERVAL_US) as u64, ..*old(self) }
            } else {
                r is None && *final(self) == *old(self)
            },
    {
        if self.pkts_sent > 0 && now_us >= self.next_sr_us {
            let t32 = #[verifier::truncate] (ticks as u32);
            let ts = self.base.wrapping_add(t32);
            let sr = sender_report(self.ssrc, unix_us + av_offset_us, ts, self.pkts_sent, self.octets, "uvcweb");
            self.next_sr_us = now_us + SR_INTERVAL_US;
            Some(sr)
        } else {
            None
        }
    }
}

/// The audio track of a playing client: RTP state and RTCP counters.
pub struct AudioSender {
    pub ssrc: u32,
    /// next RTP sequence number
    pub seq: u16,
    /// RTP timestamp of the first chunk sent
    pub base: u32,
    pub chans: usize,
    /// sample position of the first chunk sent
    pub pos0: Option<u64>,
    pub pkts_sent: u32,
    pub octets: u32,
    /// when the next sender report is due (monotonic microseconds)
    pub next_sr_us: u64,
    /// (wall clock, RTP timestamp) at the end of the last chunk sent
    pub last_pair: Option<(i64, u32)>,
}

impl AudioSender {
    /// A sender with random `ssrc`, first sequence number and timestamp base; it starts at the
    /// live edge and reports once it has sent a chunk.
    pub fn new(ssrc: u32, seq_seed: u32, base: u32, fmt: AudioFormat, now_us: u64) -> (a: AudioSender)
        ensures
            a == (AudioSender {
                ssrc,
                seq: seq_seed as u16,
                base,
                chans: fmt.channels as usize,
                pos0: None,
                pkts_sent: 0,
                octets: 0,
                next_sr_us: now_us,
                last_pair: None,
            }),
    {
        AudioSender {
            ssrc,
            seq: #[verifier::truncate] (seq_seed as u16),
            base,
            chans: fmt.channels as usize,
            pos0: None,
            pkts_sent: 0,
            octets: 0,
            next_sr_us: now_us,
            last_pair: None,
        }
    }

    /// The sample position that timestamps count from: that of the first chunk.
    pub open spec fn start_pos(&self, pos: u64) -> u64 {
        match self.pos0 {
            Some(p) => p,
            None => pos,
        }
    }

    /// The packets of a chunk of PCM at sample position `pos`: RTP timestamps count sample
    /// frames from the start position, over the timestamp base.
    pub open spec fn chunk_packets(&self, data: Seq<u8>, pos: u64) -> Seq<Seq<u8>> {
        l16_packets(data, self.chans, pos, self.start_pos(pos), self.base, self.ssrc, AUDIO_PAYLOAD, 0, self.seq)
    }

    /// The sender once the chunk `data` at sample position `pos`, whose last sample arrived at
    /// `unix_at`, has gone out.
    pub open spec fn after_chunk(&self, data: Seq<u8>, pos: u64, unix_at: i64) -> AudioSender {
        let p0 = self.start_pos(pos);
        let pk = self.chunk_packets(data, pos);
        let frames = data.len() as int / (self.chans * 2);
        AudioSender {
            pos0: Some(p0),
            seq: seq_after(self.seq, pk.len() as int),
            pkts_sent: add32(self.pkts_sent as int, pk.len() as int),
            octets: add32(self.octets as int, payload_octets(pk)),
            last_pair: Some((unix_at, add32(self.base as int, pos - p0 + frames))),
            ..*self
        }
    }

    /// The packets for a chunk of PCM at sample position `pos`, whose last sample arrived at
    /// `unix_at` (wall clock, microseconds).
    #[verifier::rlimit(40)]
    pub fn on_chunk(&mut self, data: &[u8], pos: u64, unix_at: i64) -> (r: Vec<Vec<u8>>)
        requires
            old(self).chans > 0,
            old(self).chans <= 0xFFFF,
            old(self).start_pos(pos) <= pos,
            pos - old(self).start_pos(pos) + data@.len() <= u64::MAX,
        ensures
            packets_view(r@) == old(self).chunk_packets(data@, pos),
            *final(self) == old(self).after_chunk(data@, pos, unix_at),
    {
        let p0 = match self.pos0 {
            Some(p) => p,
            None => pos,
        };
        self.pos0 = Some(p0);
        let ghost seq0 = self.seq;
        let pkts = packetize_l16(data, self.chans, pos, p0, self.base, self.ssrc, &mut self.seq, AUDIO_PAYLOAD);
        proof {
            lemma_l16_packet_sizes(data@, self.chans, pos, p0, self.base, self.ssrc, AUDIO_PAYLOAD, 0, seq0);
            assert forall|i: int| 0 <= i < pkts@.len() implies #[trigger] pkts@[i]@.len() >= 12 by {
                assert(packets_view(pkts@)[i] == pkts@[i]@);
            }
        }
        self.octets = count_octets(self.octets, &pkts);
        let n64 = pkts.len() as u64;
        let n32 = #[verifier::truncate] (n64 as u32);
        proof {
            let n = n64;
            assert(n32 == n % 0x1_0000_0000) by (bit_vector)
                requires n32 == n as u32;
            vstd::arithmetic::div_mod::lemma_add_mod_noop_right(self.pkts_sent as int, n as int, 0x1_0000_0000);
        }
        self.pkts_sent = self.pkts_sent.wrapping_add(n32);
        let frame_bytes = self.chans * 2;
        let frames = (data.len() / frame_bytes) as u64;
        let span: u64 = pos - p0 + frames;
        let s32 = #[verifier::truncate] (span as u32);
        proof {
            assert(s32 == span % 0x1_0000_0000) by (bit_vector)
                requires s32 == span as u32;
            vstd::arithmetic::div_mod::lemma_add_mod_noop_right(self.base as int, span as int, 0x1_0000_0000);
        }
        let end_rtp = self.base.wrapping_add(s32);
        self.last_pair = Some((unix_at, end_rtp));
        pkts
    }

    /// The RTCP sender report due at `now_us`, if one is: every two seconds once a chunk was
    /// sent, pairing the wall clock and RTP timestamp at the end of the last chunk.
    pub fn report_due(&mut self, now_us: u64) -> (r: Option<Vec<u8>>)
        requires
            now_us >= old(self).next_sr_us && old(self).last_pair is Some ==> now_us + SR_INTERVAL_US <= u64::MAX,
        ensures
            match (now_us >= old(self).next_sr_us, old(self).last_pair) {
                (true, Some((us, ts))) => {
                    &&& r matches Some(p) && p@ == sender_report_bytes(
                        old(self).ssrc,
                        us,
                        ts,
                        old(self).pkts_sent,
                        old(self).octets,
                        "uvcweb".spec_bytes(),
                    )
                    &&& *final(self) == AudioSender { next_sr_us: (now_us + SR_INTERVAL_US) as u64, ..*old(self) }
                },
                _ => r is None && *final(self) == *old(self),
            },
    {
        if now_us >= self.next_sr_us {
            if let Some((us, ts)) = self.last_pair {
                let sr = sender_report(self.ssrc, us, ts, self.pkts_sent, self.octets, "uvcweb");
                self.next_sr_us = now_us + SR_INTERVAL_US;
                return Some(sr);
            }
        }
        None
    }
}


/// Audio that arrives without a gap keeps one RTP clock: after a chunk at position `pos1`,
/// the chunk that starts where it ended is stamped from the same start position, its first
/// packet carries the timestamp that the sender report pairs with the end of the first chunk,
/// and its sequence numbers go on from those of the first chunk.
pub proof fn lemma_audio_clock_continues(
    a: AudioSender,
    d1: Seq<u8>,
    pos1: u64,
    unix_at: i64,
    d2: Seq<u8>,
    pos2: u64,
)
    requires
        a.chans > 0,
        a.start_pos(pos1) <= pos1,
        pos2 == pos1 + d1.len() as int / (a.chans * 2),
        d2.len() >= a.chans * 2,
    ensures
        ({
            let a1 = a.after_chunk(d1, pos1, unix_at);
            let first = a1.chunk_packets(d2, pos2)[0];
            &&& a1.start_pos(pos2) == a.start_pos(pos1)
            &&& a1.seq == seq_after(a.seq, a.chunk_packets(d1, pos1).len() as int)
            &&& a1.chunk_packets(d2, pos2).len() >= 1
            &&& a1.last_pair matches Some((u, ts)) && u == unix_at
                && first.subrange(4, 8) == be32(ts)
            &&& first.subrange(2, 4) == be16(a1.seq)
        }),
{
    let a1 = a.after_chunk(d1, pos1, unix_at);
    let p0 = a.start_pos(pos1);
    let fb = a.chans * 2;
    assert(d2.len() as int / fb >= 1) by {
        vstd::arithmetic::div_mod::lemma_div_is_ordered(fb as int, d2.len() as int, fb as int);
        vstd::arithmetic::div_mod::lemma_div_by_self(fb as int);
    }
    let n = d2.len() as int / fb;
    let k = if crate::rtp::l16_frames_per_packet(a.chans, AUDIO_PAYLOAD) < n {
        crate::rtp::l16_frames_per_packet(a.chans, AUDIO_PAYLOAD)
    } else {
        n
    };
    let ts = ((a.base as int + pos2 as int - p0 as int + 0) % 0x1_0000_0000) as u32;
    let first = crate::rtp::rtp_header_bytes(false, crate::rtp::PT_L16, a1.seq, ts, a.ssrc)
        + crate::rtp::swap16(d2.subrange(0, k * fb));
    assert(a1.chunk_packets(d2, pos2)[0] == first);
    assert(first.subrange(4, 8) =~= be32(ts));
    assert(first.subrange(2, 4) =~= be16(a1.seq));
}

/// With audio, the description is the video description followed by the three audio lines:
/// the media line, the rtpmap with the card's rate and channels, and the control line.
pub proof fn lemma_sdp_audio_extends_video(f: AudioFormat)
    ensures
        sdp_text(Some(f)) == sdp_text(None) + "m=audio 0 RTP/AVP 97\r\n"@ + "a=rtpmap:97 L16/"@
            + dec_chars(f.rate as nat) + "/"@ + dec_chars(f.channels as nat) + "\r\n"@
            + "a=control:trackID=1\r\n"@,
{
}

/// Whether `pat` occurs in `s` at index `k`.
pub open spec fn occurs_at(s: Seq<char>, pat: Seq<char>, k: int) -> bool {
    0 <= k && k + pat.len() <= s.len() && s.subrange(k, k + pat.len()) == pat
}

proof fn lemma_rfind_at(s: Seq<char>, pat: Seq<char>, j: int)
    ensures
        match rfind_at(s, pat, j) {
            Some(i) => 0 <= i <= j && occurs_at(s, pat, i) && forall|k: int| i < k <= j ==> !#[trigger] occurs_at(s, pat, k),
            None => forall|k: int| 0 <= k <= j ==> !#[trigger] occurs_at(s, pat, k),
        },
    decreases j + 1,
{
    if j >= 0 && !(j + pat.len() <= s.len() && s.subrange(j, j + pat.len()) == pat) {
        lemma_rfind_at(s, pat, j - 1);
    }
}

proof fn lemma_digits_end(s: Seq<char>, i: int)
    requires
        0 <= i <= s.len(),
    ensures
        i <= digits_end(s, i) <= s.len(),
        forall|m: int| i <= m < digits_end(s, i) ==> '0' <= #[trigger] s[m] && s[m] <= '9',
        digits_end(s, i) == s.len() || !('0' <= s[digits_end(s, i)] && s[digits_end(s, i)] <= '9'),
    decreases s.len() - i,
{
    if i < s.len() && '0' <= s[i] && s[i] <= '9' {
        lemma_digits_end(s, i + 1);
    }
}

/// The track number is read from after the last `trackID=` in the URL: from the run of
/// digits that follows it, as far as the first non-digit; a URL without `trackID=` has none.
pub proof fn lemma_track_after_last_marker(url: Seq<char>)
    ensures
        (forall|k: int| !#[trigger] occurs_at(url, "trackID="@, k)) ==> track_of(url) is None,
        track_of(url) is Some ==> exists|i: int| {
            &&& #[trigger] occurs_at(url, "trackID="@, i)
            &&& forall|k: int| i < k ==> !#[trigger] occurs_at(url, "trackID="@, k)
            &&& {
                let e = digits_end(url, i + 8);
                &&& i + 8 < e <= url.len()
                &&& forall|m: int| i + 8 <= m < e ==> '0' <= #[trigger] url[m] && url[m] <= '9'
                &&& (e == url.len() || !('0' <= url[e] && url[e] <= '9'))
                &&& track_of(url) == parse_int(url.subrange(i + 8, e), false, 0, usize::MAX as int)
            }
        },
{
    reveal_strlit("trackID=");
    let pat = "trackID="@;
    lemma_rfind_at(url, pat, url.len() - pat.len());
    match rfind_at(url, pat, url.len() - pat.len()) {
        Some(i) => {
            lemma_digits_end(url, i + 8);
            assert forall|k: int| i < k implies !#[trigger] occurs_at(url, pat, k) by {
                if k > url.len() - pat.len() {
                    assert(!occurs_at(url, pat, k));
                }
            }
            if track_of(url) is Some {
                assert(digits_end(url, i + 8) > i + 8);
            }
        },
        None => {},
    }
}

/// The comma separated offers of `h` from index `i` on.
pub open spec fn offers_from(h: Seq<char>, i: int) -> Seq<Seq<char>>
    decreases h.len() - i,
{
    if i < 0 || i > h.len() {
        Seq::empty()
    } else {
        let p = find_char(h, ',', i);
        if p < h.len() {
            proof {
                lemma_find_char_bounds(h, ',', i);
            }
            seq![h.subrange(i, p)] + offers_from(h, p + 1)
        } else {
            seq![h.subrange(i, p)]
        }
    }
}

proof fn lemma_transport_first_offer(h: Seq<char>, i: int)
    requires
        0 <= i <= h.len(),
    ensures
        ({
            let os = offers_from(h, i);
            match transport_from(h, i) {
                Some(c) => exists|k: int|
                    0 <= k < os.len() && offer_choice(#[trigger] os[k]) == Some(c) && forall|j: int|
                        0 <= j < k ==> offer_choice(#[trigger] os[j]) is None,
                None => forall|k: int| 0 <= k < os.len() ==> offer_choice(#[trigger] os[k]) is None,
            }
        }),
    decreases h.len() - i,
{
    let p = find_char(h, ',', i);
    lemma_find_char_bounds(h, ',', i);
    let os = offers_from(h, i);
    assert(os[0] == h.subrange(i, p));
    if offer_choice(h.subrange(i, p)) is None && p < h.len() {
        lemma_transport_first_offer(h, p + 1);
        let rest = offers_from(h, p + 1);
        assert(os == seq![h.subrange(i, p)] + rest);
        assert forall|k: int| 1 <= k < os.len() implies os[k] == rest[k - 1] by {}
        match transport_from(h, p + 1) {
            Some(c) => {
                let k = choose|k: int|
                    0 <= k < rest.len() && offer_choice(#[trigger] rest[k]) == Some(c) && forall|j: int|
                        0 <= j < k ==> offer_choice(#[trigger] rest[j]) is None;
                assert(os[k + 1] == rest[k]);
                assert forall|j: int| 0 <= j < k + 1 implies offer_choice(#[trigger] os[j]) is None by {
                    if j > 0 {
                        assert(os[j] == rest[j - 1]);
                    }
                }
            },
            None => {
                assert forall|k: int| 0 <= k < os.len() implies offer_choice(#[trigger] os[k]) is None by {
                    if k > 0 {
                        assert(os[k] == rest[k - 1]);
                    }
                }
            },
        }
    }
}

/// The server takes the first offer it can serve: the answer is the choice for the first
/// comma separated offer that gives one, or none when no offer does. A multicast offer gives
/// none; an interleaved TCP offer without readable channels gets channels 0 and 1.
pub proof fn lemma_first_usable_transport(h: Seq<char>, o: Seq<char>)
    ensures
        ({
            let os = offers_from(h, 0);
            match transport_from(h, 0) {
                Some(c) => exists|k: int|
                    0 <= k < os.len() && offer_choice(#[trigger] os[k]) == Some(c) && forall|j: int|
                        0 <= j < k ==> offer_choice(#[trigger] os[j]) is None,
                None => forall|k: int| 0 <= k < os.len() ==> offer_choice(#[trigger] os[k]) is None,
            }
        }),
        has_token(o, 0, "multicast"@) ==> offer_choice(o) is None,
        !has_token(o, 0, "multicast"@) && trimmed(o, 0, find_char(o, ';', 0)) == "RTP/AVP/TCP"@
            && (token_value(o, 0, "interleaved="@) matches Some(v) ==> pair_value(v, 255) is None)
            ==> offer_choice(o) == Some(Chosen::Tcp(0, 1)),
{
    lemma_transport_first_offer(h, 0);
}

/// A candidate even port for a server RTP/RTCP pair, from a random number: 20000 to 39998.
pub fn udp_port_candidate(r: u32) -> (p: u16)
    ensures
        p as int == (20000 + r as int % 20000) / 2 * 2,
        p < u16::MAX,
{
    let v: u32 = 20000 + r % 20000;
    (v / 2 * 2) as u16
}


/// Every answer carries the CSeq of the request it answers ("0" when the request has none).
pub proof fn lemma_answers_echo_cseq(
    s: SessionView,
    method: Seq<char>,
    url: Seq<char>,
    hs: Seq<(Seq<char>, Seq<char>)>,
    track: usize,
    a: u16,
    b: u16,
    port: Option<u16>,
)
    ensures
        match step_for(s, method, url, hs).1 {
            StepView::Reply(r, _) => r.cseq == cseq_of(hs),
            StepView::BindUdp(_, _, _, c) => c == cseq_of(hs),
        },
        udp_step(s, track, a, b, cseq_of(hs), port).1.cseq == cseq_of(hs),
{
}

/// Before a track is set up, PLAY is refused and changes nothing; TEARDOWN always ends the
/// session with a success answer that closes the connection.
pub proof fn lemma_play_needs_setup_and_teardown_closes(
    s: SessionView,
    url: Seq<char>,
    hs: Seq<(Seq<char>, Seq<char>)>,
)
    ensures
        !s.playing && !s.video_ready && !s.audio_ready ==> step_for(s, "PLAY"@, url, hs) == (
            s,
            StepView::Reply(answer(455, "Method Not Valid in This State"@, cseq_of(hs), Seq::empty()), After::Nothing),
        ),
        step_for(s, "TEARDOWN"@, url, hs).0.done,
        step_for(s, "TEARDOWN"@, url, hs).1 matches StepView::Reply(r, After::Close) && r.code == 200,
{
    reveal_strlit("PLAY");
    reveal_strlit("TEARDOWN");
    reveal_strlit("OPTIONS");
    reveal_strlit("DESCRIBE");
    reveal_strlit("SETUP");
    assert("PLAY"@ != "OPTIONS"@ && "PLAY"@ != "DESCRIBE"@ && "PLAY"@ != "SETUP"@) by {
        assert("PLAY"@[0] != "OPTIONS"@[0]);
        assert("PLAY"@[0] != "DESCRIBE"@[0]);
        assert("PLAY"@[0] != "SETUP"@[0]);
    }
    reveal_strlit("PAUSE");
    reveal_strlit("GET_PARAMETER");
    reveal_strlit("SET_PARAMETER");
    assert("TEARDOWN"@ != "OPTIONS"@ && "TEARDOWN"@ != "DESCRIBE"@ && "TEARDOWN"@ != "SETUP"@
        && "TEARDOWN"@ != "PLAY"@ && "TEARDOWN"@ != "PAUSE"@ && "TEARDOWN"@ != "GET_PARAMETER"@
        && "TEARDOWN"@ != "SET_PARAMETER"@) by {
        assert("TEARDOWN"@[0] != "OPTIONS"@[0]);
        assert("TEARDOWN"@[0] != "DESCRIBE"@[0]);
        assert("TEARDOWN"@[0] != "SETUP"@[0]);
        assert("TEARDOWN"@[0] != "PLAY"@[0]);
        assert("TEARDOWN"@[0] != "PAUSE"@[0]);
        assert("TEARDOWN"@[0] != "GET_PARAMETER"@[0]);
        assert("TEARDOWN"@[0] != "SET_PARAMETER"@[0]);
    }
}


/// Senders start once per session: PLAY on a session that is set up but not yet playing
/// answers 200 and asks for the senders to start; PLAY on a playing session answers 200 and
/// starts nothing. Neither changes the session.
pub proof fn lemma_play_starts_senders_once(
    s: SessionView,
    url: Seq<char>,
    hs: Seq<(Seq<char>, Seq<char>)>,
)
    requires
        s.playing || s.video_ready || s.audio_ready,
    ensures
        step_for(s, "PLAY"@, url, hs).0 == s,
        step_for(s, "PLAY"@, url, hs).1 matches StepView::Reply(r, after) && r.code == 200
            && (after == (if s.playing { After::Nothing } else { After::StartPlay })),
{
    reveal_strlit("PLAY");
    reveal_strlit("OPTIONS");
    reveal_strlit("DESCRIBE");
    reveal_strlit("SETUP");
    assert("PLAY"@ != "OPTIONS"@ && "PLAY"@ != "DESCRIBE"@ && "PLAY"@ != "SETUP"@) by {
        assert("PLAY"@[0] != "OPTIONS"@[0]);
        assert("PLAY"@[0] != "DESCRIBE"@[0]);
        assert("PLAY"@[0] != "SETUP"@[0]);
    }
}

/// A read moved `d` bytes later in the stream.
pub open spec fn shift_read(r: ReqView, d: int) -> ReqView {
    match r {
        ReqView::Complete(m, u, h, n) => ReqView::Complete(m, u, h, n + d),
        _ => r,
    }
}

spec fn shift_scan(r: Scan, d: int) -> Scan {
    match r {
        Scan::Found(s, e) => Scan::Found(s + d, e + d),
        _ => r,
    }
}

spec fn shift_head(r: HeadScan, d: int) -> HeadScan {
    match r {
        HeadScan::Done(h, e) => HeadScan::Done(h, e + d),
        _ => r,
    }
}

proof fn lemma_find_byte_shift(f: Seq<u8>, b: Seq<u8>, c: u8, j: int)
    requires
        0 <= j <= b.len(),
    ensures
        find_byte(f + b, c, f.len() + j) == f.len() + find_byte(b, c, j),
    decreases b.len() - j,
{
    let x = f + b;
    if j < b.len() {
        assert(x[f.len() + j] == b[j]);
        if b[j] != c {
            lemma_find_byte_shift(f, b, c, j + 1);
        }
    }
}

proof fn lemma_line_end_shift(f: Seq<u8>, b: Seq<u8>, j: int, eof: bool)
    requires
        0 <= j <= b.len(),
    ensures
        line_end(f + b, f.len() + j, eof) == match line_end(b, j, eof) {
            Some(e) => Some(f.len() + e),
            None => None,
        },
        line_end(b, j, eof) matches Some(e) ==> j < e <= b.len(),
{
    lemma_find_byte_shift(f, b, 10, j);
    lemma_find_byte_bounds(b, 10, j);
}

proof fn lemma_request_line_shift(f: Seq<u8>, b: Seq<u8>, j: int, eof: bool)
    requires
        0 <= j <= b.len(),
    ensures
        request_line(f + b, f.len() + j, eof) == shift_scan(request_line(b, j, eof), f.len() as int),
    decreases b.len() - j,
{
    let x = f + b;
    let m = f.len() as int;
    if j < b.len() {
        assert(x[m + j] == b[j]);
        if b[j] == 0x24 {
            if j + 4 <= b.len() {
                assert(x[m + j + 2] == b[j + 2] && x[m + j + 3] == b[j + 3]);
                let e = j + 4 + b[j + 2] as int * 256 + b[j + 3] as int;
                if e <= b.len() {
                    lemma_request_line_shift(f, b, e, eof);
                }
            }
        } else {
            lemma_line_end_shift(f, b, j, eof);
            if let Some(e) = line_end(b, j, eof) {
                assert(x.subrange(m + j, m + e) =~= b.subrange(j, e));
                if valid_utf8(b.subrange(j, e)) && is_blank(decode_utf8(b.subrange(j, e))) {
                    lemma_request_line_shift(f, b, e, eof);
                }
            }
        }
    }
}

proof fn lemma_header_lines_shift(f: Seq<u8>, b: Seq<u8>, j: int, eof: bool, acc: Seq<(Seq<char>, Seq<char>)>)
    requires
        0 <= j <= b.len(),
    ensures
        header_lines(f + b, f.len() + j, eof, acc) == shift_head(header_lines(b, j, eof, acc), f.len() as int),
    decreases b.len() - j,
{
    let x = f + b;
    let m = f.len() as int;
    lemma_line_end_shift(f, b, j, eof);
    if let Some(e) = line_end(b, j, eof) {
        assert(x.subrange(m + j, m + e) =~= b.subrange(j, e));
        if valid_utf8(b.subrange(j, e)) && !is_blank(decode_utf8(b.subrange(j, e))) {
            match header_of(decode_utf8(b.subrange(j, e))) {
                Some(h) => lemma_header_lines_shift(f, b, e, eof, acc.push(h)),
                None => lemma_header_lines_shift(f, b, e, eof, acc),
            }
        }
    }
}

proof fn lemma_request_line_bounds(b: Seq<u8>, j: int, eof: bool)
    requires
        0 <= j,
    ensures
        request_line(b, j, eof) matches Scan::Found(s, e) ==> j <= s < e <= b.len(),
    decreases b.len() - j,
{
    if j < b.len() {
        if b[j] == 0x24 {
            if j + 4 <= b.len() {
                let e = j + 4 + b[j + 2] as int * 256 + b[j + 3] as int;
                if e <= b.len() {
                    lemma_request_line_bounds(b, e, eof);
                }
            }
        } else {
            lemma_find_byte_bounds(b, 10, j);
            if let Some(e) = line_end(b, j, eof) {
                if valid_utf8(b.subrange(j, e)) && is_blank(decode_utf8(b.subrange(j, e))) {
                    lemma_request_line_bounds(b, e, eof);
                }
            }
        }
    }
}

/// TCP clients send RTCP on the RTSP connection: a request that follows an interleaved frame
/// (as [`interleaved_frame`] writes it) reads as the same request, the frame counted in the
/// bytes it took.
pub proof fn lemma_frames_before_a_request_are_skipped(ch: u8, pkt: Seq<u8>, b: Seq<u8>, eof: bool)
    requires
        pkt.len() <= 0xFFFF,
    ensures
        ({
            let f = seq![0x24u8, ch, ((pkt.len() / 256) % 256) as u8, (pkt.len() % 256) as u8] + pkt;
            request_from(f + b, eof) == shift_read(request_from(b, eof), f.len() as int)
        }),
{
    let f = seq![0x24u8, ch, ((pkt.len() / 256) % 256) as u8, (pkt.len() % 256) as u8] + pkt;
    let x = f + b;
    let m = f.len() as int;
    assert(x[0] == 0x24u8 && x[2] == ((pkt.len() / 256) % 256) as u8 && x[3] == (pkt.len() % 256) as u8);
    assert(x[2] as int * 256 + x[3] as int == pkt.len());
    assert(request_line(x, 0, eof) == request_line(x, m, eof));
    lemma_request_line_shift(f, b, 0, eof);
    lemma_request_line_bounds(b, 0, eof);
    match request_line(b, 0, eof) {
        Scan::Found(s, e) => {
            assert(x.subrange(m + s, m + e) =~= b.subrange(s, e));
            lemma_header_lines_shift(f, b, e, eof, Seq::empty());
        },
        _ => {},
    }
}

} // verus!
