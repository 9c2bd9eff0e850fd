//! Audio straight from the capture card's own USB Audio Class interface, read with
//! isochronous transfers: how the alternate setting is described, the sampling-frequency
//! request, and which bytes of a finished transfer are sample data.

use vstd::prelude::*;
use crate::descriptors::{AudioAlt, AudioAltSpec};
use crate::text::{dec_chars, push_dec};

verus! {

/// Transfers kept in flight.
pub const XFERS: usize = 8;
/// Isochronous packets (about 1 ms each) per transfer.
pub const PKTS: usize = 10;

/// `r0/r1/.../rn` in decimal.
pub open spec fn rates_joined(r: Seq<u32>) -> Seq<char>
    decreases r.len(),
{
    if r.len() == 0 {
        Seq::empty()
    } else if r.len() == 1 {
        dec_chars(r[0] as nat)
    } else {
        rates_joined(r.drop_last()) + "/"@ + dec_chars(r.last() as nat)
    }
}

/// The rates of an alternate setting as the log shows them: the discrete rates joined by
/// `/`, or the continuous range, then ` Hz`.
pub open spec fn rates_text(a: AudioAltSpec) -> Seq<char> {
    if a.rates.len() == 0 {
        dec_chars(a.rate_min as nat) + "-"@ + dec_chars(a.rate_max as nat) + " Hz"@
    } else {
        rates_joined(a.rates) + " Hz"@
    }
}

/// The rates of an alternate setting, for the log.
pub fn describe_rates(a: &AudioAlt) -> (s: String)
    ensures
        s@ == rates_text(a@),
{
    let mut s = String::new();
    if a.rates.len() == 0 {
        push_dec(&mut s, a.rate_min as u64);
        s.append("-");
        push_dec(&mut s, a.rate_max as u64);
        s.append(" Hz");
        return s;
    }
    push_dec(&mut s, a.rates[0] as u64);
    let mut i: usize = 1;
    assert(a.rates@.subrange(0, 1).drop_last() =~= Seq::<u32>::empty());
    while i < a.rates.len()
        invariant
            1 <= i <= a.rates.len(),
            s@ == rates_joined(a.rates@.subrange(0, i as int)),
        decreases a.rates.len() - i,
    {
        s.append("/");
        push_dec(&mut s, a.rates[i] as u64);
        assert(a.rates@.subrange(0, i + 1).drop_last() =~= a.rates@.subrange(0, i as int));
        i += 1;
    }
    assert(a.rates@.subrange(0, i as int) =~= a.rates@);
    s.append(" Hz");
    s
}

/// The payload of the UAC1 SET_CUR sampling-frequency request: the rate in three bytes,
/// little endian.
pub fn rate_request(rate: u32) -> (b: Vec<u8>)
    ensures
        b@ == seq![(rate % 256) as u8, ((rate / 256) % 256) as u8, ((rate / 65536) % 256) as u8],
{
    let mut b: Vec<u8> = Vec::new();
    b.push((rate % 256) as u8);
    b.push(((rate / 256) % 256) as u8);
    b.push(((rate / 65536) % 256) as u8);
    b
}

/// One isochronous packet of a finished transfer, as the USB stack reports it.
#[derive(Clone, Copy)]
pub struct IsoPacket {
    /// bytes requested: packets sit at fixed offsets, the sum of the requested lengths
    pub length: u32,
    pub actual_length: u32,
    /// 0 = received
    pub status: i32,
}

/// The sample data of the packets from `i` on, the first at buffer offset `off`: for each
/// received packet, its whole sample frames of `fb` bytes, as (offset, length); empty ones are
/// left out.
pub open spec fn spans_from(p: Seq<IsoPacket>, fb: int, i: int, off: int) -> Seq<(int, int)>
    decreases p.len() - i,
{
    if i < 0 || i >= p.len() {
        Seq::empty()
    } else {
        let rest = spans_from(p, fb, i + 1, off + p[i].length);
        let got = p[i].actual_length as int;
        let usable = got - got % fb;
        if p[i].status == 0 && usable > 0 {
            seq![(off, usable)] + rest
        } else {
            rest
        }
    }
}

/// How many of the packets from `i` on were not received.
pub open spec fn errors_from(p: Seq<IsoPacket>, i: int) -> int
    decreases p.len() - i,
{
    if i < 0 || i >= p.len() {
        0
    } else {
        errors_from(p, i + 1) + if p[i].status != 0 { 1int } else { 0int }
    }
}

/// Sum of the requested lengths of the packets from `i` on.
pub open spec fn lengths_from(p: Seq<IsoPacket>, i: int) -> int
    decreases p.len() - i,
{
    if i < 0 || i >= p.len() {
        0
    } else {
        p[i].length + lengths_from(p, i + 1)
    }
}

proof fn lemma_lengths_nonneg(p: Seq<IsoPacket>, i: int)
    ensures
        lengths_from(p, i) >= 0,
    decreases p.len() - i,
{
    if 0 <= i < p.len() {
        lemma_lengths_nonneg(p, i + 1);
    }
}

/// The sample data of a finished transfer, with `fb` bytes per sample frame (at least 1), and
/// how many packets were lost.
pub fn usable_spans(p: &[IsoPacket], fb: usize) -> (r: (Vec<(usize, usize)>, u64))
    requires
        fb >= 1,
        lengths_from(p@, 0) <= usize::MAX,
        p@.len() <= u64::MAX,
    ensures
        r.0@.len() == spans_from(p@, fb as int, 0, 0).len(),
        forall|k: int| 0 <= k < r.0@.len() ==> (r.0@[k].0 as int, r.0@[k].1 as int) == #[trigger] spans_from(p@, fb as int, 0, 0)[k],
        r.1 == errors_from(p@, 0),
{
    let mut out: Vec<(usize, usize)> = Vec::new();
    let mut errors: u64 = 0;
    let mut off: usize = 0;
    let mut i: usize = 0;
    let ghost fbi = fb as int;
    while i < p.len()
        invariant
            i <= p@.len(),
            fb >= 1,
            fbi == fb as int,
            off as int + lengths_from(p@, i as int) == lengths_from(p@, 0),
            lengths_from(p@, 0) <= usize::MAX,
            p@.len() <= u64::MAX,
            errors as int + errors_from(p@, i as int) == errors_from(p@, 0),
            errors <= i,
            out@.len() + spans_from(p@, fbi, i as int, off as int).len() == spans_from(p@, fbi, 0, 0).len(),
            forall|k: int| 0 <= k < out@.len() ==> (out@[k].0 as int, out@[k].1 as int) == #[trigger] spans_from(p@, fbi, 0, 0)[k],
            forall|k: int| 0 <= k < spans_from(p@, fbi, i as int, off as int).len() ==>
                #[trigger] spans_from(p@, fbi, i as int, off as int)[k] == spans_from(p@, fbi, 0, 0)[out@.len() + k],
        decreases p.len() - i,
    {
        let d = p[i];
        proof {
            lemma_lengths_nonneg(p@, i + 1);
        }
        let ghost rest = spans_from(p@, fbi, i + 1, off + d.length);
        let ghost here = spans_from(p@, fbi, i as int, off as int);
        if d.status != 0 {
            errors = errors + 1;
        } else {
            let got = d.actual_length as usize;
            assert(got % fb <= got) by (nonlinear_arith)
                requires
                    fb >= 1,
            ;
            let usable = got - got % fb;
            if usable > 0 {
                assert(here[0] == (off as int, usable as int));
                out.push((off, usable));
                assert forall|k: int| 0 <= k < rest.len() implies #[trigger] rest[k] == spans_from(p@, fbi, 0, 0)[out@.len() + k] by {
                    assert(rest[k] == here[k + 1]);
                }
            }
        }
        off = off + d.length as usize;
        i += 1;
    }
    (out, errors)
}


/// When no packet reports more bytes than were requested, the sample data of a transfer lies
/// inside its buffer, in order and without overlap, each span a non-empty run of whole sample
/// frames.
pub proof fn lemma_spans_inside_buffer(p: Seq<IsoPacket>, fb: int, i: int, off: int)
    requires
        fb >= 1,
        0 <= i <= p.len(),
        forall|j: int| 0 <= j < p.len() ==> #[trigger] p[j].actual_length <= p[j].length,
    ensures
        ({
            let s = spans_from(p, fb, i, off);
            &&& forall|k: int| 0 <= k < s.len() ==> {
                &&& off <= #[trigger] s[k].0
                &&& s[k].0 + s[k].1 <= off + lengths_from(p, i)
                &&& s[k].1 > 0
                &&& s[k].1 % fb == 0
            }
            &&& forall|k: int| 0 <= k < s.len() - 1 ==> #[trigger] s[k].0 + s[k].1 <= s[k + 1].0
        }),
    decreases p.len() - i,
{
    if i < p.len() {
        lemma_spans_inside_buffer(p, fb, i + 1, off + p[i].length);
        lemma_lengths_nonneg(p, i + 1);
        let rest = spans_from(p, fb, i + 1, off + p[i].length);
        let s = spans_from(p, fb, i, off);
        let got = p[i].actual_length as int;
        let usable = got - got % fb;
        assert(got % fb <= got && usable % fb == 0) by (nonlinear_arith)
            requires
                fb >= 1,
                got >= 0,
                usable == got - got % fb,
        ;
        if p[i].status == 0 && usable > 0 {
            assert(s == seq![(off, usable)] + rest);
            assert forall|k: int| 0 <= k < s.len() - 1 implies #[trigger] s[k].0 + s[k].1 <= s[k + 1].0 by {
                if k > 0 {
                    assert(s[k] == rest[k - 1] && s[k + 1] == rest[k]);
                } else {
                    assert(s[1] == rest[0]);
                }
            }
            assert forall|k: int| 0 <= k < s.len() implies {
                &&& off <= #[trigger] s[k].0
                &&& s[k].0 + s[k].1 <= off + lengths_from(p, i)
                &&& s[k].1 > 0
                &&& s[k].1 % fb == 0
            } by {
                if k > 0 {
                    assert(s[k] == rest[k - 1]);
                }
            }
        }
    }
}

} // verus!
