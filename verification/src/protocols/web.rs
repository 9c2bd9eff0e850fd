//! HTTP protocol: viewer page, MJPEG stream, WAV audio stream, snapshot, status.
//! Here are the request reading, the routing and the texts of the replies; the caller owns
//! the sockets.

use vstd::prelude::*;
use crate::bytes::{le16, le32, push_all, push_le16, push_le32};
use crate::text::{char_is_ws, chars_of, dec_chars, find_char, find_char_exec, is_ws, push_dec, range_eq, skip_ws};
use vstd::utf8::{decode_utf8, valid_utf8};

verus! {

/// How many bytes of a request head are read at most.
pub const HEAD_MAX: usize = 2048;

/// What `String::from_utf8_lossy` makes of `b`: its UTF-8 text, each invalid sequence
/// replaced by U+FFFD.
pub uninterp spec fn lossy_utf8(b: Seq<u8>) -> Seq<char>;

/// `String::from_utf8_lossy`: the text of `b`, invalid sequences replaced by U+FFFD; valid
/// UTF-8 is decoded as it is.
#[verifier::external_body]
fn lossy_text(b: &[u8]) -> (r: String)
    ensures
        r@ == lossy_utf8(b@),
        valid_utf8(b@) ==> r@ == decode_utf8(b@),
{
    String::from_utf8_lossy(b).into_owned()
}

/// Whether the bytes hold a complete request head (an empty line, `\r\n\r\n`).
pub open spec fn has_head_end(b: Seq<u8>) -> bool {
    exists|i: int| 0 <= i && i + 4 <= b.len() && #[trigger] b.subrange(i, i + 4) == seq![13u8, 10u8, 13u8, 10u8]
}

/// Whether the bytes received so far hold a complete request head.
pub fn head_complete(b: &[u8]) -> (r: bool)
    ensures
        r == has_head_end(b@),
{
    let mut i: usize = 0;
    while b.len() >= 4 && i <= b.len() - 4
        invariant
            i <= b.len(),
            forall|j: int| 0 <= j < i && j + 4 <= b@.len() ==> #[trigger] b@.subrange(j, j + 4) != seq![13u8, 10u8, 13u8, 10u8],
        decreases b.len() - i,
    {
        if b[i] == 13 && b[i + 1] == 10 && b[i + 2] == 13 && b[i + 3] == 10 {
            assert(b@.subrange(i as int, i + 4) =~= seq![13u8, 10u8, 13u8, 10u8]);
            return true;
        }
        assert(b@.subrange(i as int, i + 4) != seq![13u8, 10u8, 13u8, 10u8]) by {
            if b@.subrange(i as int, i + 4) == seq![13u8, 10u8, 13u8, 10u8] {
                assert(b@.subrange(i as int, i + 4)[0] == b@[i as int]);
                assert(b@.subrange(i as int, i + 4)[1] == b@[i + 1]);
                assert(b@.subrange(i as int, i + 4)[2] == b@[i + 2]);
                assert(b@.subrange(i as int, i + 4)[3] == b@[i + 3]);
            }
        }
        i += 1;
    }
    false
}

/// The first line of a text (`str::lines`): up to the first `\n`, without a `\r` just before
/// it; none for an empty text.
pub open spec fn first_line(t: Seq<char>) -> Option<Seq<char>> {
    if t.len() == 0 {
        None
    } else {
        let nl = find_char(t, '\n', 0);
        if nl < t.len() {
            let l = t.subrange(0, nl);
            Some(if l.len() > 0 && l.last() == '\r' { l.drop_last() } else { l })
        } else {
            Some(t)
        }
    }
}

/// End of the word that starts at `i`: the first white space at or after `i`.
pub open spec fn word_end(s: Seq<char>, i: int) -> int
    decreases s.len() - i,
{
    if i < 0 || i >= s.len() {
        i
    } else if is_ws(s[i]) {
        i
    } else {
        word_end(s, i + 1)
    }
}

/// The target of a `GET` request line: its second white-space separated word, when the first
/// is `GET`.
pub open spec fn get_target(l: Seq<char>) -> Option<Seq<char>> {
    let a = skip_ws(l, 0);
    let b = word_end(l, a);
    let c = skip_ws(l, b);
    if a >= l.len() || l.subrange(a, b) != "GET"@ || c >= l.len() {
        None
    } else {
        Some(l.subrange(c, word_end(l, c)))
    }
}

/// The requested path (query string included) of a request head.
pub open spec fn request_path_of(b: Seq<u8>) -> Option<Seq<char>> {
    match first_line(lossy_utf8(b)) {
        Some(l) => get_target(l),
        None => None,
    }
}

proof fn lemma_word_end_le(s: Seq<char>, i: int)
    requires
        0 <= i <= s.len(),
    ensures
        i <= word_end(s, i) <= s.len(),
    decreases s.len() - i,
{
    if i < s.len() && !is_ws(s[i]) {
        lemma_word_end_le(s, i + 1);
    }
}

fn skip_ws_exec(s: &Vec<char>, i: usize) -> (r: usize)
    requires
        i <= s.len(),
    ensures
        r == skip_ws(s@, i as int),
        i <= r <= s.len(),
{
    proof {
        crate::text::lemma_skip_ws_bounds(s@, i as int);
    }
    let mut k = i;
    while k < s.len() && char_is_ws(s[k])
        invariant
            i <= k <= s.len(),
            skip_ws(s@, i as int) == skip_ws(s@, k as int),
        decreases s.len() - k,
    {
        k += 1;
    }
    k
}

fn word_end_exec(s: &Vec<char>, i: usize) -> (r: usize)
    requires
        i <= s.len(),
    ensures
        r == word_end(s@, i as int),
        i <= r <= s.len(),
{
    proof {
        lemma_word_end_le(s@, i as int);
    }
    let mut k = i;
    while k < s.len() && !char_is_ws(s[k])
        invariant
            i <= k <= s.len(),
            word_end(s@, i as int) == word_end(s@, k as int),
        decreases s.len() - k,
    {
        k += 1;
    }
    k
}

/// The requested path (query string included) of a request head, if it is a `GET`.
pub fn request_path(head: &[u8]) -> (r: Option<String>)
    ensures
        match request_path_of(head@) {
            Some(p) => r matches Some(s) && s@ == p,
            None => r is None,
        },
{
    let text = lossy_text(head);
    let t = chars_of(text.as_str());
    if t.len() == 0 {
        return None;
    }
    let nl = find_char_exec(&t, '\n', 0);
    let mut end = nl;
    if nl < t.len() && nl > 0 && t[nl - 1] == '\r' {
        end = nl - 1;
    }
    let l = crate::text::sub_chars(&t, 0, end);
    proof {
        let ll = t@.subrange(0, nl as int);
        if nl < t.len() && nl > 0 && t@[nl - 1] == '\r' {
            assert(l@ =~= ll.drop_last());
        }
        assert(first_line(t@) == Some(l@));
    }
    let a = skip_ws_exec(&l, 0);
    let b = word_end_exec(&l, a);
    let c = skip_ws_exec(&l, b);
    if a >= l.len() || !range_eq(&l, a, b, "GET") || c >= l.len() {
        return None;
    }
    let d = word_end_exec(&l, c);
    let mut out = String::new();
    crate::text::push_range(&mut out, text.as_str(), &t, c, d);
    assert(out@ =~= l@.subrange(c as int, d as int));
    Some(out)
}

/// The pages the server knows.
pub enum Route {
    Page,
    Stream,
    Audio,
    Snapshot,
    Status,
    Favicon,
    NotFound,
}

/// The page a request target asks for: its path, without the query string.
pub open spec fn route_of(target: Seq<char>) -> Route {
    let path = target.subrange(0, find_char(target, '?', 0));
    if path == "/"@ {
        Route::Page
    } else if path == "/stream"@ {
        Route::Stream
    } else if path == "/audio"@ {
        Route::Audio
    } else if path == "/snapshot"@ {
        Route::Snapshot
    } else if path == "/status"@ {
        Route::Status
    } else if path == "/favicon.ico"@ {
        Route::Favicon
    } else {
        Route::NotFound
    }
}

/// The page a request target asks for.
pub fn route(target: &str) -> (r: Route)
    ensures
        r == route_of(target@),
{
    let t = chars_of(target);
    let q = find_char_exec(&t, '?', 0);
    if range_eq(&t, 0, q, "/") {
        Route::Page
    } else if range_eq(&t, 0, q, "/stream") {
        Route::Stream
    } else if range_eq(&t, 0, q, "/audio") {
        Route::Audio
    } else if range_eq(&t, 0, q, "/snapshot") {
        Route::Snapshot
    } else if range_eq(&t, 0, q, "/status") {
        Route::Status
    } else if range_eq(&t, 0, q, "/favicon.ico") {
        Route::Favicon
    } else {
        Route::NotFound
    }
}

/// The head of a complete reply.
pub open spec fn reply_head_text(status: Seq<char>, ctype: Seq<char>, len: nat) -> Seq<char> {
    "HTTP/1.1 "@ + status + "\r\nContent-Type: "@ + ctype + "\r\nContent-Length: "@ + dec_chars(len)
        + "\r\nCache-Control: no-store\r\nConnection: close\r\n\r\n"@
}

/// The head of a complete reply with a body of `len` bytes.
pub fn reply_head(status: &str, ctype: &str, len: usize) -> (r: String)
    ensures
        r@ == reply_head_text(status@, ctype@, len as nat),
{
    let mut h = String::new();
    h.append("HTTP/1.1 ");
    h.append(status);
    h.append("\r\nContent-Type: ");
    h.append(ctype);
    h.append("\r\nContent-Length: ");
    push_dec(&mut h, len as u64);
    h.append("\r\nCache-Control: no-store\r\nConnection: close\r\n\r\n");
    h
}

/// The head of the endless MJPEG reply.
pub const STREAM_HEAD: &'static str = "HTTP/1.1 200 OK\r\nContent-Type: multipart/x-mixed-replace; boundary=frame\r\nCache-Control: no-store\r\nConnection: close\r\n\r\n";

/// The head of the endless WAV reply.
pub const AUDIO_HEAD: &'static str = "HTTP/1.1 200 OK\r\nContent-Type: audio/wav\r\nCache-Control: no-store\r\nConnection: close\r\n\r\n";

/// The head of one picture of the MJPEG stream.
pub open spec fn part_head_text(len: nat) -> Seq<char> {
    "--frame\r\nContent-Type: image/jpeg\r\nContent-Length: "@ + dec_chars(len) + "\r\n\r\n"@
}

/// The head of one picture of `len` bytes in the MJPEG stream.
pub fn part_head(len: usize) -> (r: String)
    ensures
        r@ == part_head_text(len as nat),
{
    let mut h = String::new();
    h.append("--frame\r\nContent-Type: image/jpeg\r\nContent-Length: ");
    push_dec(&mut h, len as u64);
    h.append("\r\n\r\n");
    h
}

/// The 44-byte WAV header of a live PCM stream: RIFF and data lengths are "endless"
/// (0x7FFFFFFF); 16-bit PCM with the given rate and channel count.
pub open spec fn wav_header_bytes(rate: u32, channels: u16) -> Seq<u8> {
    seq![0x52u8, 0x49u8, 0x46u8, 0x46u8] + seq![0xFFu8, 0xFFu8, 0xFFu8, 0x7Fu8]
        + seq![0x57u8, 0x41u8, 0x56u8, 0x45u8] + seq![0x66u8, 0x6Du8, 0x74u8, 0x20u8] + le32(16)
        + le16(1) + le16(channels) + le32(rate) + le32((rate * channels * 2) as u32)
        + le16((channels * 2) as u16) + le16(16) + seq![0x64u8, 0x61u8, 0x74u8, 0x61u8]
        + seq![0xFFu8, 0xFFu8, 0xFFu8, 0x7Fu8]
}

/// 44-byte WAV header with "infinite" length fields, for live PCM.
pub fn wav_header(rate: u32, channels: u16) -> (h: Vec<u8>)
    requires
        rate * channels * 2 <= u32::MAX,
        channels * 2 <= u16::MAX,
    ensures
        h@ == wav_header_bytes(rate, channels),
{
    let ch32 = channels as u32;
    assert(rate * ch32 * 2 <= u32::MAX);
    let byte_rate: u32 = rate * ch32 * 2;
    let block_align: u16 = channels * 2;
    let mut h: Vec<u8> = Vec::with_capacity(44);
    push_all(&mut h, &[0x52u8, 0x49, 0x46, 0x46]);
    push_all(&mut h, &[0xFFu8, 0xFF, 0xFF, 0x7F]);
    push_all(&mut h, &[0x57u8, 0x41, 0x56, 0x45]);
    push_all(&mut h, &[0x66u8, 0x6D, 0x74, 0x20]);
    push_le32(&mut h, 16);
    push_le16(&mut h, 1);
    push_le16(&mut h, channels);
    push_le32(&mut h, rate);
    push_le32(&mut h, byte_rate);
    push_le16(&mut h, block_align);
    push_le16(&mut h, 16);
    push_all(&mut h, &[0x64u8, 0x61, 0x74, 0x61]);
    push_all(&mut h, &[0xFFu8, 0xFF, 0xFF, 0x7F]);
    assert(h@ =~= wav_header_bytes(rate, channels));
    h
}

} // verus!
