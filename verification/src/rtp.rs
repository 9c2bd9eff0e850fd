//! RTP / RTCP packet building shared by every RTP based protocol (RTSP today).

use vstd::prelude::*;
use crate::bytes::{be16, be32, push_all, push_be16, push_be32};
use crate::jpeg::{JpegInfo, JpegInfoSpec};
use vstd::string::StringSliceAdditionalSpecFns;

verus! {

/// Static payload type for RTP/JPEG.
pub const PT_JPEG: u8 = 26;
/// Dynamic payload type used for 16-bit PCM.
pub const PT_L16: u8 = 97;

/// The 12-byte RTP header: version 2, no padding, no extension, no CSRC.
pub open spec fn rtp_header_bytes(marker: bool, pt: u8, seq: u16, ts: u32, ssrc: u32) -> Seq<u8> {
    seq![0x80u8, if marker { 0x80u8 | pt } else { pt }] + be16(seq) + be32(ts) + be32(ssrc)
}

/// Appends an RTP header to `out`.
pub fn rtp_header(out: &mut Vec<u8>, marker: bool, pt: u8, seq: u16, ts: u32, ssrc: u32)
    ensures
        final(out)@ == old(out)@ + rtp_header_bytes(marker, pt, seq, ts, ssrc),
{
    out.push(0x80);
    out.push(if marker { 0x80 | pt } else { pt });
    push_be16(out, seq);
    push_be32(out, ts);
    push_be32(out, ssrc);
    assert(out@ =~= old(out)@ + rtp_header_bytes(marker, pt, seq, ts, ssrc));
}

/// The packets of a list, each by its bytes.
pub open spec fn packets_view(v: Seq<Vec<u8>>) -> Seq<Seq<u8>> {
    v.map_values(|p: Vec<u8>| p@)
}

/// `(s + n) mod 2^16`: a sequence number `n` steps after `s`.
pub open spec fn seq_after(s: u16, n: int) -> u16 {
    ((s as int + n) % 65536) as u16
}

/// The RTP/JPEG payload header (RFC 2435) for the fragment at offset `off`: the main header,
/// the restart marker header when the type says so, and the quantisation table header with
/// both tables in the first fragment only (Q = 255).
pub open spec fn jpeg_payload_header(info: JpegInfoSpec, off: usize) -> Seq<u8> {
    seq![
        0u8,
        (off >> 16usize) as u8,
        (off >> 8usize) as u8,
        off as u8,
        info.rtp_type,
        255u8,
        ((info.width as int + 7) / 8) as u8,
        ((info.height as int + 7) / 8) as u8,
    ] + (if info.rtp_type >= 64 {
        be16(info.dri) + seq![0xFFu8, 0xFFu8]
    } else {
        Seq::empty()
    }) + (if off == 0 {
        seq![0u8, 0u8] + be16(info.qtables.len() as u16) + info.qtables
    } else {
        Seq::empty()
    })
}

/// How many scan bytes a fragment carries: what the budget leaves after the header, at least 1.
pub open spec fn jpeg_room(max_payload: usize, header_len: int) -> int {
    if max_payload > header_len {
        max_payload - header_len
    } else {
        1
    }
}

/// Where the fragment that starts at `off` ends.
pub open spec fn jpeg_fragment_end(info: JpegInfoSpec, scan: Seq<u8>, max_payload: usize, off: int) -> int {
    let room = jpeg_room(max_payload, jpeg_payload_header(info, off as usize).len() as int);
    if off + room >= scan.len() {
        scan.len() as int
    } else {
        off + room
    }
}

/// The packets for the scan bytes from `off` on, the first with sequence number `seq`.
/// The last one carries the RTP marker bit.
pub open spec fn jpeg_packets(
    info: JpegInfoSpec,
    scan: Seq<u8>,
    ts: u32,
    ssrc: u32,
    max_payload: usize,
    off: int,
    seq: u16,
) -> Seq<Seq<u8>>
    decreases scan.len() - off,
{
    let end = jpeg_fragment_end(info, scan, max_payload, off);
    let last = end >= scan.len();
    let pkt = rtp_header_bytes(last, PT_JPEG, seq, ts, ssrc) + jpeg_payload_header(info, off as usize)
        + scan.subrange(off, end);
    if last || off < 0 || off >= scan.len() {
        seq![pkt]
    } else {
        seq![pkt] + jpeg_packets(info, scan, ts, ssrc, max_payload, end, seq.wrapping_add(1))
    }
}

proof fn lemma_seq_step(s0: u16, n: int, s: u16)
    requires
        s == seq_after(s0, n),
        n >= 0,
    ensures
        s.wrapping_add(1) == seq_after(s0, n + 1),
{
}

/// Splits one JPEG picture into RFC 2435 packets. `max_payload` is the RTP payload budget
/// (JPEG headers included). Quantisation tables travel in the first packet of every frame.
pub fn packetize_jpeg(
    info: &JpegInfo,
    data: &[u8],
    ts: u32,
    ssrc: u32,
    seq: &mut u16,
    max_payload: usize,
) -> (r: Vec<Vec<u8>>)
    requires
        info.scan_start <= info.scan_end <= data.len(),
        info.qtables.len() <= 65535,
    ensures
        packets_view(r@) == jpeg_packets(
            info@,
            data@.subrange(info.scan_start as int, info.scan_end as int),
            ts,
            ssrc,
            max_payload,
            0,
            *old(seq),
        ),
        *final(seq) == seq_after(*old(seq), r.len() as int),
{
    let scan = vstd::slice::slice_subrange(data, info.scan_start, info.scan_end);
    let w8 = (#[verifier::truncate] (((info.width as usize + 7) / 8) as u8));
    let h8 = (#[verifier::truncate] (((info.height as usize + 7) / 8) as u8));
    let ghost seq0 = *seq;
    let ghost whole = jpeg_packets(info@, scan@, ts, ssrc, max_payload, 0, seq0);
    let mut out: Vec<Vec<u8>> = Vec::new();
    let mut off: usize = 0;
    loop
        invariant
            off <= scan.len(),
            seq0 == *old(seq),
            scan@ == data@.subrange(info.scan_start as int, info.scan_end as int),
            whole == jpeg_packets(info@, scan@, ts, ssrc, max_payload, 0, seq0),
            packets_view(out@) + jpeg_packets(info@, scan@, ts, ssrc, max_payload, off as int, *seq) == whole,
            *seq == seq_after(seq0, out.len() as int),
            info.qtables.len() <= 65535,
            w8 == ((info.width as int + 7) / 8) as u8,
            h8 == ((info.height as int + 7) / 8) as u8,
        decreases scan.len() - off,
    {
        let mut hdr: Vec<u8> = Vec::new();
        hdr.push(0);
        hdr.push((off >> 16usize) as u8);
        hdr.push((off >> 8usize) as u8);
        hdr.push(off as u8);
        hdr.push(info.rtp_type);
        hdr.push(255);
        hdr.push(w8);
        hdr.push(h8);
        if info.rtp_type >= 64 {
            push_be16(&mut hdr, info.dri);
            hdr.push(0xFF);
            hdr.push(0xFF);
        }
        if off == 0 {
            hdr.push(0);
            hdr.push(0);
            push_be16(&mut hdr, info.qtables.len() as u16);
            push_all(&mut hdr, info.qtables.as_slice());
        }
        assert(hdr@ =~= jpeg_payload_header(info@, off));
        let room: usize = if max_payload > hdr.len() { max_payload - hdr.len() } else { 1 };
        let end: usize = if room >= scan.len() - off { scan.len() } else { off + room };
        let last = end >= scan.len();
        let mut p: Vec<u8> = Vec::new();
        rtp_header(&mut p, last, PT_JPEG, *seq, ts, ssrc);
        push_all(&mut p, hdr.as_slice());
        push_all(&mut p, vstd::slice::slice_subrange(scan, off, end));
        let ghost s_now = *seq;
        proof {
            lemma_seq_step(seq0, out.len() as int, *seq);
        }
        *seq = seq.wrapping_add(1);
        let ghost prev = out@;
        out.push(p);
        assert(packets_view(out@) =~= packets_view(prev).push(p@));
        if last {
            assert(jpeg_packets(info@, scan@, ts, ssrc, max_payload, off as int, s_now) == seq![p@]);
            assert(packets_view(out@) =~= whole);
            return out;
        }
        assert(jpeg_packets(info@, scan@, ts, ssrc, max_payload, off as int, s_now)
            =~= seq![p@] + jpeg_packets(info@, scan@, ts, ssrc, max_payload, end as int, *seq));
        assert(packets_view(out@) + jpeg_packets(info@, scan@, ts, ssrc, max_payload, end as int, *seq)
            =~= whole);
        off = end;
    }
}

/// Bytes of 16-bit samples with each pair swapped: little-endian samples in network order.
pub open spec fn swap16(s: Seq<u8>) -> Seq<u8> {
    Seq::new(s.len(), |j: int| if j % 2 == 0 { s[j + 1] } else { s[j - 1] })
}

/// Bytes per sample frame for `chans` channels (a zero channel count counts as one).
pub open spec fn l16_frame_bytes(chans: usize) -> int {
    2 * (if chans == 0 { 1 } else { chans as int })
}

/// Sample frames per packet for a payload budget.
pub open spec fn l16_frames_per_packet(chans: usize, max_payload: usize) -> int {
    let per = max_payload as int / l16_frame_bytes(chans);
    if per == 0 {
        1
    } else {
        per
    }
}

/// The L16 packets for the sample frames from frame `i` on, the first with sequence number
/// `seq`; frame `i` has RTP timestamp `base_ts + (pos - pos0) + i` (mod 2^32).
pub open spec fn l16_packets(
    pcm: Seq<u8>,
    chans: usize,
    pos: u64,
    pos0: u64,
    base_ts: u32,
    ssrc: u32,
    max_payload: usize,
    i: int,
    seq: u16,
) -> Seq<Seq<u8>>
    decreases pcm.len() as int / l16_frame_bytes(chans) - i,
{
    let fb = l16_frame_bytes(chans);
    let n = pcm.len() as int / fb;
    if i < 0 || i >= n {
        Seq::empty()
    } else {
        let k = if l16_frames_per_packet(chans, max_payload) < n - i {
            l16_frames_per_packet(chans, max_payload)
        } else {
            n - i
        };
        let ts = ((base_ts as int + pos as int - pos0 as int + i) % 0x1_0000_0000) as u32;
        seq![rtp_header_bytes(false, PT_L16, seq, ts, ssrc) + swap16(pcm.subrange(i * fb, (i + k) * fb))]
            + l16_packets(pcm, chans, pos, pos0, base_ts, ssrc, max_payload, i + k, seq.wrapping_add(1))
    }
}

/// Appends the samples of `pcm[from..to]` with the two bytes of each swapped.
fn push_swapped(out: &mut Vec<u8>, pcm: &[u8], from: usize, to: usize)
    requires
        from <= to <= pcm.len(),
        (to - from) % 2 == 0,
    ensures
        final(out)@ == old(out)@ + swap16(pcm@.subrange(from as int, to as int)),
{
    let mut j: usize = from;
    while j < to
        invariant
            from <= j <= to <= pcm.len(),
            (to - from) % 2 == 0,
            (j - from) % 2 == 0,
            out@ == old(out)@ + swap16(pcm@.subrange(from as int, j as int)),
        decreases to - j,
    {
        out.push(pcm[j + 1]);
        out.push(pcm[j]);
        j += 2;
        assert(out@ =~= old(out)@ + swap16(pcm@.subrange(from as int, j as int)));
    }
}

/// Splits interleaved little-endian S16 PCM into RTP L16 packets (network byte order, RFC 3551).
/// `pos` / `pos0` are running sample-frame counters; the RTP timestamp is `base_ts + (pos - pos0)`
/// plus the frame index. A trailing partial frame is not sent.
pub fn packetize_l16(
    pcm_le: &[u8],
    chans: usize,
    pos: u64,
    pos0: u64,
    base_ts: u32,
    ssrc: u32,
    seq: &mut u16,
    max_payload: usize,
) -> (r: Vec<Vec<u8>>)
    requires
        chans <= usize::MAX / 2,
        pos0 <= pos,
        pos - pos0 + pcm_le.len() <= u64::MAX,
    ensures
        packets_view(r@) == l16_packets(pcm_le@, chans, pos, pos0, base_ts, ssrc, max_payload, 0, *old(seq)),
        *final(seq) == seq_after(*old(seq), r.len() as int),
{
    let fb: usize = 2 * (if chans == 0 { 1 } else { chans });
    let per0 = max_payload / fb;
    let per: usize = if per0 == 0 { 1 } else { per0 };
    let n_frames = pcm_le.len() / fb;
    let ghost seq0 = *seq;
    assert(n_frames * fb <= pcm_le.len()) by (nonlinear_arith)
        requires n_frames == pcm_le.len() / fb, fb > 0;
    let ghost whole = l16_packets(pcm_le@, chans, pos, pos0, base_ts, ssrc, max_payload, 0, seq0);
    let mut out: Vec<Vec<u8>> = Vec::new();
    let mut i: usize = 0;
    while i < n_frames
        invariant
            seq0 == *old(seq),
            fb as int == l16_frame_bytes(chans),
            per as int == l16_frames_per_packet(chans, max_payload),
            n_frames as int == pcm_le@.len() as int / fb as int,
            n_frames * fb <= pcm_le.len(),
            i <= n_frames,
            pos0 <= pos,
            pos - pos0 + pcm_le.len() <= u64::MAX,
            whole == l16_packets(pcm_le@, chans, pos, pos0, base_ts, ssrc, max_payload, 0, seq0),
            packets_view(out@) + l16_packets(pcm_le@, chans, pos, pos0, base_ts, ssrc, max_payload, i as int, *seq) == whole,
            *seq == seq_after(seq0, out.len() as int),
        decreases n_frames - i,
    {
        let k: usize = if per < n_frames - i { per } else { n_frames - i };
        assert(i * fb <= pcm_le.len()) by (nonlinear_arith)
            requires i <= n_frames, n_frames * fb <= pcm_le.len(), fb > 0;
        assert((i + k) * fb <= n_frames * fb) by (nonlinear_arith)
            requires i + k <= n_frames, fb > 0;
        assert((i + k) * fb - i * fb == k * fb) by (nonlinear_arith);
        let ghost c: int = fb as int / 2;
        assert(k * fb == 2 * (k * c)) by (nonlinear_arith)
            requires fb == 2 * c;
        let off = (pos - pos0) + i as u64;
        let off32 = (#[verifier::truncate] (off as u32));
        let ts = base_ts.wrapping_add(off32);
        proof {
            assert(off32 == (off % 0x1_0000_0000) as u32) by (bit_vector)
                requires off32 == (off as u32);
            vstd::arithmetic::div_mod::lemma_add_mod_noop_right(base_ts as int, off as int, 0x1_0000_0000);
        }
        let mut p: Vec<u8> = Vec::new();
        rtp_header(&mut p, false, PT_L16, *seq, ts, ssrc);
        push_swapped(&mut p, pcm_le, i * fb, (i + k) * fb);
        proof {
            lemma_seq_step(seq0, out.len() as int, *seq);
        }
        let ghost s_now = *seq;
        *seq = seq.wrapping_add(1);
        let ghost prev = out@;
        out.push(p);
        assert(packets_view(out@) =~= packets_view(prev).push(p@));
        assert(ts == ((base_ts as int + pos as int - pos0 as int + i) % 0x1_0000_0000) as u32);
        assert(l16_packets(pcm_le@, chans, pos, pos0, base_ts, ssrc, max_payload, i as int, s_now)
            =~= seq![p@] + l16_packets(pcm_le@, chans, pos, pos0, base_ts, ssrc, max_payload, (i + k) as int, *seq));
        i = i + k;
        assert(packets_view(out@) + l16_packets(pcm_le@, chans, pos, pos0, base_ts, ssrc, max_payload, i as int, *seq)
            =~= whole);
    }
    assert(l16_packets(pcm_le@, chans, pos, pos0, base_ts, ssrc, max_payload, i as int, *seq) =~= Seq::<Seq<u8>>::empty());
    assert(packets_view(out@) =~= whole);
    out
}

/// NTP seconds (since 1900, modulo 2^32) for a Unix time in microseconds.
pub open spec fn ntp_seconds(us: i64) -> u32 {
    ((us as int / 1_000_000 + 2_208_988_800) % 0x1_0000_0000) as u32
}

/// NTP fraction of a second (units of 2^-32 s, rounded down) for a Unix time in microseconds.
pub open spec fn ntp_fraction(us: i64) -> u32 {
    ((us as int % 1_000_000) * 0x1_0000_0000 / 1_000_000) as u32
}

/// NTP timestamp (seconds since 1900, 32.32 fixed point) for a Unix time in microseconds.
pub fn ntp_from_unix_micros(us: i64) -> (r: (u32, u32))
    ensures
        r == (ntp_seconds(us), ntp_fraction(us)),
{
    let q = us.checked_div_euclid(1_000_000).unwrap();
    let rem = us.checked_rem_euclid(1_000_000).unwrap();
    let sec: i64 = q + 2_208_988_800;
    let rem64 = rem as u64;
    let frac = (rem64 * 0x1_0000_0000) / 1_000_000;
    assert(frac < 0x1_0000_0000) by (nonlinear_arith)
        requires rem64 < 1_000_000, frac == (rem64 * 0x1_0000_0000) / 1_000_000;
    let sec32 = (#[verifier::truncate] (sec as u32));
    proof {
        assert(sec32 == (sec % 0x1_0000_0000) as u32) by (bit_vector)
            requires sec32 == (sec as u32);
    }
    (sec32, frac as u32)
}

/// The RTCP SDES item for a CNAME: type 1, length, text, a terminating zero, then zeros
/// until the chunk (4-byte SSRC + item) is a whole number of 32-bit words.
pub open spec fn sdes_cname_item(cname: Seq<u8>) -> Seq<u8> {
    let base = seq![1u8, cname.len() as u8] + cname + seq![0u8];
    base + Seq::new(((4 - base.len() % 4) % 4) as nat, |i: int| 0u8)
}

/// An RTCP sender report followed by an SDES CNAME chunk (a valid compound packet).
pub open spec fn sender_report_bytes(
    ssrc: u32,
    unix_us: i64,
    rtp_ts: u32,
    pkt_count: u32,
    octet_count: u32,
    cname: Seq<u8>,
) -> Seq<u8> {
    let item = sdes_cname_item(cname);
    seq![0x80u8, 200u8, 0u8, 6u8] + be32(ssrc) + be32(ntp_seconds(unix_us)) + be32(ntp_fraction(unix_us))
        + be32(rtp_ts) + be32(pkt_count) + be32(octet_count) + seq![0x81u8, 202u8]
        + be16(((4 + 4 + item.len()) / 4 - 1) as u16) + be32(ssrc) + item
}

/// RTCP sender report followed by an SDES CNAME chunk (a valid compound packet).
/// It tells receivers which RTP timestamp corresponds to which wall-clock time, which is
/// how players line the audio and video streams up.
pub fn sender_report(
    ssrc: u32,
    unix_us: i64,
    rtp_ts: u32,
    pkt_count: u32,
    octet_count: u32,
    cname: &str,
) -> (p: Vec<u8>)
    ensures
        p@ == sender_report_bytes(ssrc, unix_us, rtp_ts, pkt_count, octet_count, cname.spec_bytes()),
{
    let (sec, frac) = ntp_from_unix_micros(unix_us);
    let mut p: Vec<u8> = Vec::with_capacity(48);
    p.push(0x80);
    p.push(200);
    p.push(0);
    p.push(6);
    push_be32(&mut p, ssrc);
    push_be32(&mut p, sec);
    push_be32(&mut p, frac);
    push_be32(&mut p, rtp_ts);
    push_be32(&mut p, pkt_count);
    push_be32(&mut p, octet_count);
    let name = cname.as_bytes();
    let mut item: Vec<u8> = Vec::new();
    item.push(1);
    item.push(#[verifier::truncate] (name.len() as u8));
    push_all(&mut item, name);
    item.push(0);
    let ghost base = item@;
    assert(base =~= seq![1u8, name@.len() as u8] + name@ + seq![0u8]);
    while item.len() % 4 != 0
        invariant
            item@.len() <= base.len() + 3,
            item@ == base + Seq::new((item@.len() - base.len()) as nat, |i: int| 0u8),
            item@.len() >= base.len(),
            (item@.len() - base.len()) <= (4 - base.len() % 4) % 4,
        decreases 4 - (item.len() - base.len()),
    {
        item.push(0);
        assert(item@ =~= base + Seq::new((item@.len() - base.len()) as nat, |i: int| 0u8));
    }
    assert(item@ =~= sdes_cname_item(name@));
    let words = item.len() / 4 + 1;
    p.push(0x81);
    p.push(202);
    push_be16(&mut p, #[verifier::truncate] (words as u16));
    push_be32(&mut p, ssrc);
    push_all(&mut p, item.as_slice());
    assert(p@ =~= sender_report_bytes(ssrc, unix_us, rtp_ts, pkt_count, octet_count, cname.spec_bytes()));
    p
}

/// The 64-bit finaliser of SplitMix64.
pub open spec fn mix64(x: u64) -> u64 {
    let a = x ^ (x >> 30u64);
    let b = a.wrapping_mul(0xBF58_476D_1CE4_E5B9);
    let c = b ^ (b >> 27u64);
    let d = c.wrapping_mul(0x94D0_49BB_1331_11EB);
    d ^ (d >> 31u64)
}

/// Good-enough random numbers for SSRCs, sequence numbers and session ids: the low 32 bits of
/// the SplitMix64 finaliser applied to a per-call counter value mixed with the clock
/// (nanoseconds since the Unix epoch).
pub fn rand_u32(counter: u64, clock_nanos: u64) -> (r: u32)
    ensures
        r == mix64(counter ^ clock_nanos) as u32,
{
    let mut x = counter ^ clock_nanos;
    x = x ^ (x >> 30u64);
    x = x.wrapping_mul(0xBF58_476D_1CE4_E5B9);
    x = x ^ (x >> 27u64);
    x = x.wrapping_mul(0x94D0_49BB_1331_11EB);
    x = x ^ (x >> 31u64);
    #[verifier::truncate]
    (x as u32)
}


/// Every RTP/JPEG packet of a frame starts with the 12-byte RTP header, and a frame always
/// gives at least one packet.
pub proof fn lemma_jpeg_packet_sizes(
    info: JpegInfoSpec,
    scan: Seq<u8>,
    ts: u32,
    ssrc: u32,
    max_payload: usize,
    off: int,
    seq: u16,
)
    ensures
        jpeg_packets(info, scan, ts, ssrc, max_payload, off, seq).len() >= 1,
        forall|i: int| 0 <= i < jpeg_packets(info, scan, ts, ssrc, max_payload, off, seq).len()
            ==> #[trigger] jpeg_packets(info, scan, ts, ssrc, max_payload, off, seq)[i].len() >= 12,
    decreases scan.len() - off,
{
    let end = jpeg_fragment_end(info, scan, max_payload, off);
    let last = end >= scan.len();
    if !(last || off < 0 || off >= scan.len()) {
        lemma_jpeg_packet_sizes(info, scan, ts, ssrc, max_payload, end, seq.wrapping_add(1));
        let rest = jpeg_packets(info, scan, ts, ssrc, max_payload, end, seq.wrapping_add(1));
        let all = jpeg_packets(info, scan, ts, ssrc, max_payload, off, seq);
        assert forall|i: int| 0 <= i < all.len() implies #[trigger] all[i].len() >= 12 by {
            if i > 0 {
                assert(all[i] == rest[i - 1]);
            }
        }
    }
}

/// Every RTP L16 packet starts with the 12-byte RTP header.
pub proof fn lemma_l16_packet_sizes(
    pcm: Seq<u8>,
    chans: usize,
    pos: u64,
    pos0: u64,
    base_ts: u32,
    ssrc: u32,
    max_payload: usize,
    i: int,
    seq: u16,
)
    ensures
        forall|k: int| 0 <= k < l16_packets(pcm, chans, pos, pos0, base_ts, ssrc, max_payload, i, seq).len()
            ==> #[trigger] l16_packets(pcm, chans, pos, pos0, base_ts, ssrc, max_payload, i, seq)[k].len() >= 12,
    decreases pcm.len() as int / l16_frame_bytes(chans) - i,
{
    let fb = l16_frame_bytes(chans);
    let n = pcm.len() as int / fb;
    if 0 <= i < n {
        let k = if l16_frames_per_packet(chans, max_payload) < n - i {
            l16_frames_per_packet(chans, max_payload)
        } else {
            n - i
        };
        lemma_l16_packet_sizes(pcm, chans, pos, pos0, base_ts, ssrc, max_payload, i + k, seq.wrapping_add(1));
        let rest = l16_packets(pcm, chans, pos, pos0, base_ts, ssrc, max_payload, i + k, seq.wrapping_add(1));
        let all = l16_packets(pcm, chans, pos, pos0, base_ts, ssrc, max_payload, i, seq);
        assert forall|j: int| 0 <= j < all.len() implies #[trigger] all[j].len() >= 12 by {
            if j > 0 {
                assert(all[j] == rest[j - 1]);
            }
        }
    }
}


/// The scan bytes each RTP/JPEG packet carries, from offset `off` on.
pub open spec fn jpeg_parts(info: JpegInfoSpec, scan: Seq<u8>, max_payload: usize, off: int) -> Seq<Seq<u8>>
    decreases scan.len() - off,
{
    let end = jpeg_fragment_end(info, scan, max_payload, off);
    let part = scan.subrange(off, end);
    if end >= scan.len() || off < 0 || off >= scan.len() {
        seq![part]
    } else {
        seq![part] + jpeg_parts(info, scan, max_payload, end)
    }
}

proof fn lemma_flatten_cons<A>(a: Seq<A>, r: Seq<Seq<A>>)
    ensures
        (seq![a] + r).flatten() == a + r.flatten(),
{
    let s = seq![a] + r;
    assert(s.drop_first() =~= r);
    assert(s.first() == a);
}

proof fn lemma_prefix_cons<A>(a: Seq<A>, r: Seq<Seq<A>>, k: int)
    requires
        1 <= k <= r.len() + 1,
    ensures
        (seq![a] + r).subrange(0, k).flatten() == a + r.subrange(0, k - 1).flatten(),
{
    assert((seq![a] + r).subrange(0, k) =~= seq![a] + r.subrange(0, k - 1));
    lemma_flatten_cons(a, r.subrange(0, k - 1));
}

proof fn lemma_seq_after_step(s: u16, n: int)
    requires
        n >= 0,
    ensures
        seq_after(s.wrapping_add(1), n) == seq_after(s, n + 1),
{
    if s as int + 1 > 65535 {
        assert(s.wrapping_add(1) as int == s as int + 1 - 65536);
        vstd::arithmetic::div_mod::lemma_mod_add_multiples_vanish(s as int + 1 - 65536 + n, 65536);
    }
}

proof fn lemma_fragment_end_bounds(info: JpegInfoSpec, scan: Seq<u8>, max_payload: usize, off: int)
    requires
        0 <= off <= scan.len(),
    ensures
        off <= jpeg_fragment_end(info, scan, max_payload, off) <= scan.len(),
        off < scan.len() ==> off < jpeg_fragment_end(info, scan, max_payload, off),
        jpeg_fragment_end(info, scan, max_payload, off) - off <= jpeg_room(
            max_payload,
            jpeg_payload_header(info, off as usize).len() as int,
        ),
{
}

/// Packet `k` of an RTP/JPEG frame whose scan fragments are `parts` (from offset `off`):
/// the RTP header (sequence number `seq + k`, marker on the last packet), the JPEG payload
/// header for the fragment's offset, and the fragment, no longer than the budget leaves.
pub open spec fn jpeg_packet_ok(
    info: JpegInfoSpec,
    ts: u32,
    ssrc: u32,
    max_payload: usize,
    off: int,
    seq: u16,
    p: Seq<Seq<u8>>,
    parts: Seq<Seq<u8>>,
    k: int,
) -> bool {
    let o = off + parts.subrange(0, k).flatten().len();
    &&& p[k] == rtp_header_bytes(k == p.len() - 1, PT_JPEG, seq_after(seq, k), ts, ssrc)
        + jpeg_payload_header(info, o as usize) + parts[k]
    &&& parts[k].len() <= jpeg_room(max_payload, jpeg_payload_header(info, o as usize).len() as int)
}

/// RTP/JPEG packets carry the scan in order, once: each packet is the RTP header (sequence
/// numbers counting up from `seq`, the marker bit on the last packet only), the JPEG payload
/// header for the fragment's offset, and the next stretch of scan bytes, at most what the
/// payload budget leaves after the headers; together the stretches are the whole scan.
pub proof fn lemma_jpeg_packets_carry_the_scan(
    info: JpegInfoSpec,
    scan: Seq<u8>,
    ts: u32,
    ssrc: u32,
    max_payload: usize,
    off: int,
    seq: u16,
)
    requires
        0 <= off <= scan.len(),
    ensures
        ({
            let p = jpeg_packets(info, scan, ts, ssrc, max_payload, off, seq);
            let parts = jpeg_parts(info, scan, max_payload, off);
            &&& p.len() == parts.len()
            &&& parts.flatten() == scan.subrange(off, scan.len() as int)
            &&& forall|k: int| 0 <= k < p.len() ==> #[trigger] jpeg_packet_ok(info, ts, ssrc, max_payload, off, seq, p, parts, k)
        }),
    decreases scan.len() - off,
{
    let end = jpeg_fragment_end(info, scan, max_payload, off);
    let last = end >= scan.len();
    lemma_fragment_end_bounds(info, scan, max_payload, off);
    let p = jpeg_packets(info, scan, ts, ssrc, max_payload, off, seq);
    let parts = jpeg_parts(info, scan, max_payload, off);
    let part = scan.subrange(off, end);
    let pkt = rtp_header_bytes(last, PT_JPEG, seq, ts, ssrc) + jpeg_payload_header(info, off as usize) + part;
    assert(seq_after(seq, 0) == seq);
    assert(parts.subrange(0, 0).flatten() =~= Seq::<u8>::empty()) by {
        assert(parts.subrange(0, 0) =~= Seq::<Seq<u8>>::empty());
    }
    if last || off < 0 || off >= scan.len() {
        assert(end == scan.len());
        parts.lemma_flatten_one_element();
        assert(p.len() == 1 && p[0] == pkt);
        assert(parts.len() == 1 && parts[0] == part);
        assert forall|k: int| 0 <= k < p.len() implies #[trigger] jpeg_packet_ok(info, ts, ssrc, max_payload, off, seq, p, parts, k) by {
            assert(k == 0);
        }
    } else {
        let seq1 = seq.wrapping_add(1);
        lemma_jpeg_packets_carry_the_scan(info, scan, ts, ssrc, max_payload, end, seq1);
        let rp = jpeg_packets(info, scan, ts, ssrc, max_payload, end, seq1);
        let rparts = jpeg_parts(info, scan, max_payload, end);
        assert(p == seq![pkt] + rp);
        assert(parts == seq![part] + rparts);
        lemma_flatten_cons(part, rparts);
        assert(part + scan.subrange(end, scan.len() as int) =~= scan.subrange(off, scan.len() as int));
        assert forall|k: int| 0 <= k < p.len() implies #[trigger] jpeg_packet_ok(info, ts, ssrc, max_payload, off, seq, p, parts, k) by {
            if k > 0 {
                assert(jpeg_packet_ok(info, ts, ssrc, max_payload, end, seq1, rp, rparts, k - 1));
                assert(p[k] == rp[k - 1]);
                assert(parts[k] == rparts[k - 1]);
                lemma_prefix_cons(part, rparts, k);
                lemma_seq_after_step(seq, k - 1);
                assert(off + parts.subrange(0, k).flatten().len() == end + rparts.subrange(0, k - 1).flatten().len());
            } else {
                assert(parts[0] == part);
                assert(p[0] == pkt);
            }
        }
    }
}

/// The sample bytes (byte-swapped) each L16 packet carries, from frame `i` on.
pub open spec fn l16_payloads(pcm: Seq<u8>, chans: usize, max_payload: usize, i: int) -> Seq<Seq<u8>>
    decreases pcm.len() as int / l16_frame_bytes(chans) - i,
{
    let fb = l16_frame_bytes(chans);
    let n = pcm.len() as int / fb;
    if i < 0 || i >= n {
        Seq::empty()
    } else {
        let k = if l16_frames_per_packet(chans, max_payload) < n - i {
            l16_frames_per_packet(chans, max_payload)
        } else {
            n - i
        };
        seq![swap16(pcm.subrange(i * fb, (i + k) * fb))] + l16_payloads(pcm, chans, max_payload, i + k)
    }
}

/// Swapping the bytes of two runs of whole samples one after the other is swapping each.
proof fn lemma_swap16_concat(a: Seq<u8>, b: Seq<u8>)
    requires
        a.len() % 2 == 0,
        b.len() % 2 == 0,
    ensures
        swap16(a + b) == swap16(a) + swap16(b),
{
    assert forall|j: int| 0 <= j < a.len() + b.len() implies #[trigger] swap16(a + b)[j] == (swap16(a) + swap16(b))[j] by {
        if j >= a.len() {
            assert((j - a.len()) % 2 == j % 2);
        }
    }
    assert(swap16(a + b) =~= swap16(a) + swap16(b));
}

/// Packet `k` of an L16 block whose payloads are `pl` (from frame `i` on): the RTP header
/// (sequence number `seq + k`, no marker, the timestamp of its first frame) and at most
/// `per` whole frames.
pub open spec fn l16_packet_ok(
    pos: u64,
    pos0: u64,
    base_ts: u32,
    ssrc: u32,
    i: int,
    seq: u16,
    per: int,
    fb: int,
    p: Seq<Seq<u8>>,
    pl: Seq<Seq<u8>>,
    k: int,
) -> bool {
    &&& p[k] == rtp_header_bytes(
        false,
        PT_L16,
        seq_after(seq, k),
        ((base_ts as int + pos as int - pos0 as int + i + k * per) % 0x1_0000_0000) as u32,
        ssrc,
    ) + pl[k]
    &&& pl[k].len() <= per * fb
}

/// RTP L16 packets carry the whole sample frames in order, byte-swapped to network order:
/// each is the RTP header (sequence numbers counting up from `seq`, no marker, the timestamp
/// of its first frame: `base_ts + (pos - pos0)` plus that frame's index, modulo 2^32) and at
/// most a budget's worth of whole frames; together they are every whole frame of the block.
pub proof fn lemma_l16_packets_carry_the_samples(
    pcm: Seq<u8>,
    chans: usize,
    pos: u64,
    pos0: u64,
    base_ts: u32,
    ssrc: u32,
    max_payload: usize,
    i: int,
    seq: u16,
)
    requires
        0 <= i <= pcm.len() as int / l16_frame_bytes(chans),
    ensures
        ({
            let fb = l16_frame_bytes(chans);
            let n = pcm.len() as int / fb;
            let per = l16_frames_per_packet(chans, max_payload);
            let p = l16_packets(pcm, chans, pos, pos0, base_ts, ssrc, max_payload, i, seq);
            let pl = l16_payloads(pcm, chans, max_payload, i);
            &&& p.len() == pl.len()
            &&& pl.flatten() == swap16(pcm.subrange(i * fb, n * fb))
            &&& forall|k: int| 0 <= k < p.len() ==> #[trigger] l16_packet_ok(pos, pos0, base_ts, ssrc, i, seq, per, fb, p, pl, k)
        }),
    decreases pcm.len() as int / l16_frame_bytes(chans) - i,
{
    let fb = l16_frame_bytes(chans);
    let n = pcm.len() as int / fb;
    let per = l16_frames_per_packet(chans, max_payload);
    let p = l16_packets(pcm, chans, pos, pos0, base_ts, ssrc, max_payload, i, seq);
    let pl = l16_payloads(pcm, chans, max_payload, i);
    assert(n * fb <= pcm.len()) by (nonlinear_arith)
        requires
            n == pcm.len() as int / fb,
            fb > 0,
    ;
    if i >= n {
        assert(i * fb == n * fb) by (nonlinear_arith)
            requires
                i == n,
        ;
        assert(pcm.subrange(i * fb, n * fb) =~= Seq::<u8>::empty());
        assert(swap16(Seq::<u8>::empty()) =~= Seq::<u8>::empty());
        assert(p.len() == 0);
        assert(pl.len() == 0);
        assert(pl.flatten() =~= Seq::<u8>::empty());
    } else {
        let k0 = if per < n - i { per } else { n - i };
        let a = pcm.subrange(i * fb, (i + k0) * fb);
        let ts = ((base_ts as int + pos as int - pos0 as int + i) % 0x1_0000_0000) as u32;
        assert(0 <= i * fb <= (i + k0) * fb <= n * fb) by (nonlinear_arith)
            requires
                0 <= i,
                0 < k0,
                i + k0 <= n,
                fb > 0,
        ;
        let seq1 = seq.wrapping_add(1);
        lemma_l16_packets_carry_the_samples(pcm, chans, pos, pos0, base_ts, ssrc, max_payload, i + k0, seq1);
        let rp = l16_packets(pcm, chans, pos, pos0, base_ts, ssrc, max_payload, i + k0, seq1);
        let rpl = l16_payloads(pcm, chans, max_payload, i + k0);
        assert(p == seq![rtp_header_bytes(false, PT_L16, seq, ts, ssrc) + swap16(a)] + rp);
        assert(pl == seq![swap16(a)] + rpl);
        lemma_flatten_cons(swap16(a), rpl);
        let b = pcm.subrange((i + k0) * fb, n * fb);
        let c = if chans == 0 { 1int } else { chans as int };
        assert(fb == 2 * c);
        assert((i + k0) * fb - i * fb == k0 * fb) by (nonlinear_arith);
        assert(n * fb - (i + k0) * fb == (n - i - k0) * fb) by (nonlinear_arith);
        assert(k0 * fb == 2 * (k0 * c)) by (nonlinear_arith)
            requires
                fb == 2 * c,
        ;
        assert((n - i - k0) * fb == 2 * ((n - i - k0) * c)) by (nonlinear_arith)
            requires
                fb == 2 * c,
        ;
        assert(a.len() % 2 == 0 && b.len() % 2 == 0);
        lemma_swap16_concat(a, b);
        assert(a + b =~= pcm.subrange(i * fb, n * fb));
        assert(k0 * fb <= per * fb) by (nonlinear_arith)
            requires
                k0 <= per,
                fb > 0,
        ;
        assert(seq_after(seq, 0) == seq);
        assert forall|k: int| 0 <= k < p.len() implies #[trigger] l16_packet_ok(pos, pos0, base_ts, ssrc, i, seq, per, fb, p, pl, k) by {
            if k > 0 {
                assert(l16_packet_ok(pos, pos0, base_ts, ssrc, i + k0, seq1, per, fb, rp, rpl, k - 1));
                assert(p[k] == rp[k - 1]);
                assert(pl[k] == rpl[k - 1]);
                lemma_seq_after_step(seq, k - 1);
                assert(k0 == per);
                assert(i + k0 + (k - 1) * per == i + k * per) by (nonlinear_arith)
                    requires
                        k0 == per,
                ;
            } else {
                assert(pl[0] == swap16(a));
                assert(swap16(a).len() == a.len());
                assert(0 * per == 0);
            }
        }
    }
}

/// The layout of a sender report with a CNAME of `n <= 255` bytes: a whole number of 32-bit
/// words, 36 + (n + 3 rounded up to 4) bytes; the SR header, the SSRC, the NTP time, RTP
/// timestamp and counters; then the SDES header whose length field counts the words after it,
/// the SSRC again, the CNAME item (type 1, length, text) and at least one zero of padding.
pub proof fn lemma_sender_report_layout(
    ssrc: u32,
    unix_us: i64,
    rtp_ts: u32,
    pkt_count: u32,
    octet_count: u32,
    cname: Seq<u8>,
)
    requires
        cname.len() <= 255,
    ensures
        ({
            let r = sender_report_bytes(ssrc, unix_us, rtp_ts, pkt_count, octet_count, cname);
            let n = cname.len() as int;
            &&& r.len() % 4 == 0
            &&& r.len() == 36 + (n + 3 + 3) / 4 * 4
            &&& r.subrange(0, 4) == seq![0x80u8, 200u8, 0u8, 6u8]
            &&& r.subrange(4, 8) == be32(ssrc)
            &&& r.subrange(8, 28) == be32(ntp_seconds(unix_us)) + be32(ntp_fraction(unix_us)) + be32(rtp_ts)
                + be32(pkt_count) + be32(octet_count)
            &&& r.subrange(28, 30) == seq![0x81u8, 202u8]
            &&& r.subrange(30, 32) == be16(((r.len() - 28) / 4 - 1) as u16)
            &&& r.subrange(32, 36) == be32(ssrc)
            &&& r[36] == 1 && r[37] == n
            &&& r.subrange(38, 38 + n) == cname
            &&& r.len() > 38 + n
            &&& forall|k: int| 38 + n <= k < r.len() ==> r[k] == 0
        }),
{
    let r = sender_report_bytes(ssrc, unix_us, rtp_ts, pkt_count, octet_count, cname);
    let n = cname.len() as int;
    let base = seq![1u8, cname.len() as u8] + cname + seq![0u8];
    let pad = (4 - base.len() % 4) % 4;
    let item = sdes_cname_item(cname);
    assert(item.len() == n + 3 + pad);
    assert(n + 3 + pad == (n + 3 + 3) / 4 * 4);
    let head = seq![0x80u8, 200u8, 0u8, 6u8] + be32(ssrc) + be32(ntp_seconds(unix_us)) + be32(ntp_fraction(unix_us))
        + be32(rtp_ts) + be32(pkt_count) + be32(octet_count) + seq![0x81u8, 202u8]
        + be16(((4 + 4 + item.len()) / 4 - 1) as u16) + be32(ssrc);
    assert(head.len() == 36);
    assert(r == head + item);
    assert(r.subrange(0, 4) =~= seq![0x80u8, 200u8, 0u8, 6u8]);
    assert(r.subrange(4, 8) =~= be32(ssrc));
    assert(r.subrange(8, 28) =~= be32(ntp_seconds(unix_us)) + be32(ntp_fraction(unix_us)) + be32(rtp_ts)
        + be32(pkt_count) + be32(octet_count));
    assert(r.subrange(28, 30) =~= seq![0x81u8, 202u8]);
    assert((r.len() - 28) / 4 - 1 == (4 + 4 + item.len()) / 4 - 1);
    assert(r.subrange(30, 32) =~= be16(((r.len() - 28) / 4 - 1) as u16));
    assert(r.subrange(32, 36) =~= be32(ssrc));
    assert(r[36] == item[0]);
    assert(r[37] == item[1]);
    assert(r.subrange(38, 38 + n) =~= cname) by {
        assert forall|k: int| 0 <= k < n implies r.subrange(38, 38 + n)[k] == cname[k] by {
            assert(r[38 + k] == item[2 + k]);
            assert(item[2 + k] == base[2 + k]);
        }
    }
    assert forall|k: int| 38 + n <= k < r.len() implies r[k] == 0 by {
        assert(r[k] == item[k - 36]);
        if k - 36 < base.len() {
            assert(item[k - 36] == base[k - 36]);
        }
    }
}

/// Every RTP/JPEG packet of a frame carries the RFC 2435 main header right after the 12-byte
/// RTP header: type-specific 0 (byte 12), the frame's RTP/JPEG type (byte 16), Q = 255 (byte
/// 17), then the width and the height in 8-pixel blocks, rounded up (bytes 18 and 19, in that
/// order).
pub proof fn lemma_jpeg_main_header(
    info: JpegInfoSpec,
    scan: Seq<u8>,
    ts: u32,
    ssrc: u32,
    max_payload: usize,
    off: int,
    seq: u16,
)
    requires
        0 <= off <= scan.len(),
    ensures
        forall|k: int| 0 <= k < jpeg_packets(info, scan, ts, ssrc, max_payload, off, seq).len() ==> {
            let p = #[trigger] jpeg_packets(info, scan, ts, ssrc, max_payload, off, seq)[k];
            &&& p.len() >= 20
            &&& p[12] == 0
            &&& p[16] == info.rtp_type
            &&& p[17] == 255
            &&& p[18] == ((info.width as int + 7) / 8) as u8
            &&& p[19] == ((info.height as int + 7) / 8) as u8
        },
    decreases scan.len() - off,
{
    let end = jpeg_fragment_end(info, scan, max_payload, off);
    let last = end >= scan.len();
    lemma_fragment_end_bounds(info, scan, max_payload, off);
    let hdr = jpeg_payload_header(info, off as usize);
    let rh = rtp_header_bytes(last, PT_JPEG, seq, ts, ssrc);
    assert(rh.len() == 12);
    let pkt = rh + hdr + scan.subrange(off, end);
    assert(pkt[12] == hdr[0] && pkt[16] == hdr[4] && pkt[17] == hdr[5] && pkt[18] == hdr[6] && pkt[19] == hdr[7]);
    let ps = jpeg_packets(info, scan, ts, ssrc, max_payload, off, seq);
    if !(last || off < 0 || off >= scan.len()) {
        lemma_jpeg_main_header(info, scan, ts, ssrc, max_payload, end, seq.wrapping_add(1));
        let rest = jpeg_packets(info, scan, ts, ssrc, max_payload, end, seq.wrapping_add(1));
        assert forall|k: int| 1 <= k < ps.len() implies ps[k] == rest[k - 1] by {}
    }
    assert(ps[0] == pkt);
}

} // verus!
