//! USB descriptor handling: finds the UVC MJPEG modes a camera offers and the USB Audio
//! Class (v1) capture alt settings, from the configuration descriptor copied out of libusb.

use vstd::prelude::*;
use crate::bytes::{le16_at, le24_at, le32_at};

verus! {

/// One endpoint of an alternate setting.
pub struct RawEndpoint {
    pub address: u8,
    pub attributes: u8,
    pub max_packet: u16,
    /// class-specific bytes after the endpoint descriptor
    pub extra: Vec<u8>,
}

/// One alternate setting of one interface.
pub struct RawAlt {
    pub interface: u8,
    pub alt: u8,
    pub class: u8,
    pub subclass: u8,
    pub endpoints: Vec<RawEndpoint>,
    /// class-specific descriptors following the interface descriptor
    pub extra: Vec<u8>,
}

/// Whether a complete descriptor (length byte at least 2, inside the buffer) starts at `o`.
pub open spec fn desc_at(s: Seq<u8>, o: int) -> bool {
    0 <= o && o + 2 <= s.len() && s[o] >= 2 && o + s[o] <= s.len()
}

/// The descriptor that starts at `o`.
pub open spec fn desc(s: Seq<u8>, o: int) -> Seq<u8> {
    s.subrange(o, o + s[o])
}

/// One step of the walk over a run of descriptors: whether a complete descriptor starts at
/// `o` (at least two bytes left, a length byte of at least 2 that stays inside the run) and,
/// if so, the offset of the next one, `o` plus that length. The walk stops at the first
/// offset where none does.
pub fn next_desc(s: &[u8], o: usize) -> (r: Option<usize>)
    requires
        o <= s.len(),
    ensures
        r is Some <==> desc_at(s@, o as int),
        r matches Some(n) ==> n == o + s@[o as int] && n <= s.len(),
{
    if s.len() - o < 2 {
        return None;
    }
    let l = s[o] as usize;
    if l < 2 || l > s.len() - o {
        return None;
    }
    Some(o + l)
}

// ------------------------------------------------------------------ video

/// One MJPEG frame size of the camera.
#[derive(Clone, Copy, Debug)]
pub struct MjpegMode {
    pub width: u32,
    pub height: u32,
    /// default frame interval in 100 ns units
    pub interval: u32,
    pub is_default: bool,
}

/// What the walk over a VideoStreaming interface's descriptors has found so far.
pub struct VsWalk {
    pub modes: Seq<MjpegMode>,
    pub in_mjpeg: bool,
    pub done: bool,
    pub default_idx: u8,
}

/// The walk's state before the first descriptor.
pub open spec fn vs_init() -> VsWalk {
    VsWalk { modes: Seq::empty(), in_mjpeg: false, done: false, default_idx: 0 }
}

/// The effect of one class-specific descriptor `d` of a VideoStreaming interface: the first
/// MJPEG format's frame descriptors become modes; a second MJPEG format ends the walk;
/// uncompressed and frame-based formats end the current MJPEG format.
pub open spec fn vs_step(d: Seq<u8>, st: VsWalk) -> VsWalk {
    if d[1] != 0x24 || d.len() < 4 || st.done {
        st
    } else if d[2] == 0x06 {
        if st.modes.len() > 0 {
            VsWalk { done: true, ..st }
        } else if d.len() >= 7 {
            VsWalk { in_mjpeg: true, default_idx: d[6], ..st }
        } else {
            st
        }
    } else if d[2] == 0x04 || d[2] == 0x10 {
        VsWalk { in_mjpeg: false, ..st }
    } else if d[2] == 0x07 {
        if st.in_mjpeg && d.len() >= 25 {
            VsWalk {
                modes: st.modes.push(
                    MjpegMode {
                        width: le16_at(d, 5) as u32,
                        height: le16_at(d, 7) as u32,
                        interval: le32_at(d, 21) as u32,
                        is_default: d[3] == st.default_idx,
                    },
                ),
                ..st
            }
        } else {
            st
        }
    } else {
        st
    }
}

/// Walks the descriptor run `s` from offset `o`.
pub open spec fn vs_walk(s: Seq<u8>, o: int, st: VsWalk) -> VsWalk
    decreases s.len() - o,
{
    if !desc_at(s, o) {
        st
    } else {
        vs_walk(s, o + s[o], vs_step(desc(s, o), st))
    }
}

/// The modes of the first VideoStreaming alt setting (class 14, subclass 2) from index `i`
/// on that lists any.
pub open spec fn mjpeg_modes_from(alts: Seq<RawAlt>, i: int) -> Seq<MjpegMode>
    decreases alts.len() - i,
{
    if i < 0 || i >= alts.len() {
        Seq::empty()
    } else if alts[i].class == 14 && alts[i].subclass == 2 && vs_walk(alts[i].extra@, 0, vs_init()).modes.len() > 0 {
        vs_walk(alts[i].extra@, 0, vs_init()).modes
    } else {
        mjpeg_modes_from(alts, i + 1)
    }
}

/// The MJPEG modes listed by one VideoStreaming interface's descriptors.
fn vs_modes(extra: &[u8]) -> (m: Vec<MjpegMode>)
    ensures
        m@ == vs_walk(extra@, 0, vs_init()).modes,
{
    let mut modes: Vec<MjpegMode> = Vec::new();
    let mut in_mjpeg = false;
    let mut done = false;
    let mut default_idx: u8 = 0;
    let mut o: usize = 0;
    loop
        invariant
            o <= extra.len(),
            vs_walk(extra@, 0, vs_init()) == vs_walk(
                extra@,
                o as int,
                VsWalk { modes: modes@, in_mjpeg, done, default_idx },
            ),
        decreases extra.len() - o,
    {
        let next = match next_desc(extra, o) {
            Some(n) => n,
            None => {
                return modes;
            },
        };
        let d = vstd::slice::slice_subrange(extra, o, next);
        let ghost st = VsWalk { modes: modes@, in_mjpeg, done, default_idx };
        if d[1] != 0x24 || d.len() < 4 || done {
        } else if d[2] == 0x06 {
            if modes.len() > 0 {
                done = true;
            } else if d.len() >= 7 {
                in_mjpeg = true;
                default_idx = d[6];
            }
        } else if d[2] == 0x04 || d[2] == 0x10 {
            in_mjpeg = false;
        } else if d[2] == 0x07 {
            if in_mjpeg && d.len() >= 25 {
                modes.push(
                    MjpegMode {
                        width: (d[5] as u32) + (d[6] as u32) * 256,
                        height: (d[7] as u32) + (d[8] as u32) * 256,
                        interval: (d[21] as u32) + (d[22] as u32) * 256 + (d[23] as u32) * 65536
                            + (d[24] as u32) * 16777216,
                        is_default: d[3] == default_idx,
                    },
                );
            }
        }
        assert(VsWalk { modes: modes@, in_mjpeg, done, default_idx } == vs_step(d@, st));
        o = next;
    }
}

/// MJPEG frame sizes of the first MJPEG format of the UVC VideoStreaming interface.
pub fn mjpeg_modes(alts: &[RawAlt]) -> (m: Vec<MjpegMode>)
    ensures
        m@ == mjpeg_modes_from(alts@, 0),
{
    let mut i: usize = 0;
    while i < alts.len()
        invariant
            i <= alts.len(),
            mjpeg_modes_from(alts@, 0) == mjpeg_modes_from(alts@, i as int),
        decreases alts.len() - i,
    {
        let a = &alts[i];
        if a.class == 14 && a.subclass == 2 {
            let modes = vs_modes(a.extra.as_slice());
            if modes.len() > 0 {
                return modes;
            }
        }
        i += 1;
    }
    Vec::new()
}

/// The complete descriptors of a run from offset `o` on, in order, as the walk visits them.
pub open spec fn desc_list(s: Seq<u8>, o: int) -> Seq<Seq<u8>>
    decreases s.len() - o,
{
    if !desc_at(s, o) {
        Seq::empty()
    } else {
        seq![desc(s, o)] + desc_list(s, o + s[o])
    }
}

/// The VideoStreaming walk over a list of descriptors from index `i` on.
pub open spec fn vs_fold(ds: Seq<Seq<u8>>, i: int, st: VsWalk) -> VsWalk
    decreases ds.len() - i,
{
    if i < 0 || i >= ds.len() {
        st
    } else {
        vs_fold(ds, i + 1, vs_step(ds[i], st))
    }
}

/// A class-specific VideoStreaming descriptor with a subtype.
pub open spec fn vs_cs(d: Seq<u8>) -> bool {
    d[1] == 0x24 && d.len() >= 4
}

/// A format descriptor: MJPEG (0x06), uncompressed (0x04) or frame based (0x10).
pub open spec fn vs_closes(d: Seq<u8>) -> bool {
    vs_cs(d) && (d[2] == 0x06 || d[2] == 0x04 || d[2] == 0x10)
}

/// An MJPEG format descriptor.
pub open spec fn vs_format(d: Seq<u8>) -> bool {
    vs_cs(d) && d[2] == 0x06
}

/// An MJPEG frame descriptor long enough to read.
pub open spec fn vs_frame(d: Seq<u8>) -> bool {
    vs_cs(d) && d[2] == 0x07 && d.len() >= 25
}

/// The format that descriptor `j` belongs to: the last format descriptor before it, if that
/// is an MJPEG one.
pub open spec fn active_format(ds: Seq<Seq<u8>>, j: int) -> Option<int>
    decreases j,
{
    if j <= 0 || j > ds.len() {
        None
    } else if vs_closes(ds[j - 1]) {
        if vs_format(ds[j - 1]) {
            Some(j - 1)
        } else {
            None
        }
    } else {
        active_format(ds, j - 1)
    }
}

/// Whether descriptor `j` is a frame of an MJPEG format.
pub open spec fn is_mjpeg_frame_at(ds: Seq<Seq<u8>>, j: int) -> bool {
    0 <= j < ds.len() && vs_frame(ds[j]) && active_format(ds, j) is Some
}

/// The first frame of an MJPEG format from index `j` on.
pub open spec fn first_mjpeg_frame(ds: Seq<Seq<u8>>, j: int) -> Option<int>
    decreases ds.len() - j,
{
    if j < 0 || j >= ds.len() {
        None
    } else if is_mjpeg_frame_at(ds, j) {
        Some(j)
    } else {
        first_mjpeg_frame(ds, j + 1)
    }
}

/// The mode a frame descriptor describes, given its format's default frame index.
pub open spec fn frame_mode(d: Seq<u8>, default_idx: u8) -> MjpegMode {
    MjpegMode {
        width: le16_at(d, 5) as u32,
        height: le16_at(d, 7) as u32,
        interval: le32_at(d, 21) as u32,
        is_default: d[3] == default_idx,
    }
}

/// The modes of the frames of MJPEG format `f` among the first `n` descriptors, in order.
pub open spec fn format_modes(ds: Seq<Seq<u8>>, n: int, f: int) -> Seq<MjpegMode>
    decreases n,
{
    if n <= 0 || n > ds.len() {
        Seq::empty()
    } else {
        format_modes(ds, n - 1, f) + if is_mjpeg_frame_at(ds, n - 1) && active_format(ds, n - 1) == Some(f) {
            seq![frame_mode(ds[n - 1], ds[f][6])]
        } else {
            Seq::empty()
        }
    }
}

/// The modes of the first MJPEG format that has frames: those frames, in order, each marked
/// default when its index is the format's bDefaultFrameIndex; none when no format has any.
pub open spec fn first_format_modes(ds: Seq<Seq<u8>>) -> Seq<MjpegMode> {
    match first_mjpeg_frame(ds, 0) {
        Some(j) => format_modes(ds, ds.len() as int, active_format(ds, j)->0),
        None => Seq::empty(),
    }
}

proof fn lemma_desc_list_walk(s: Seq<u8>, o: int, st: VsWalk)
    ensures
        vs_walk(s, o, st) == vs_fold(desc_list(s, o), 0, st),
        forall|k: int| 0 <= k < desc_list(s, o).len() ==> #[trigger] desc_list(s, o)[k].len() >= 2,
    decreases s.len() - o,
{
    if desc_at(s, o) {
        let d = desc(s, o);
        let rest = desc_list(s, o + s[o]);
        lemma_desc_list_walk(s, o + s[o], vs_step(d, st));
        lemma_vs_fold_shift(d, rest, 0, vs_step(d, st));
        let l = seq![d] + rest;
        assert(l[0] == d);
        assert forall|k: int| 0 <= k < l.len() implies #[trigger] l[k].len() >= 2 by {
            if k > 0 {
                assert(l[k] == rest[k - 1]);
            }
        }
    }
}

proof fn lemma_vs_fold_shift(d: Seq<u8>, l: Seq<Seq<u8>>, k: int, st: VsWalk)
    requires
        0 <= k,
    ensures
        vs_fold(seq![d] + l, k + 1, st) == vs_fold(l, k, st),
    decreases l.len() - k,
{
    if k < l.len() {
        assert((seq![d] + l)[k + 1] == l[k]);
        lemma_vs_fold_shift(d, l, k + 1, vs_step(l[k], st));
    }
}

proof fn lemma_active_format(ds: Seq<Seq<u8>>, j: int)
    ensures
        active_format(ds, j) matches Some(f) ==> 0 <= f < j <= ds.len() && vs_format(ds[f]) && forall|k: int|
            f < k < j ==> !vs_closes(#[trigger] ds[k]),
    decreases j,
{
    if 0 < j <= ds.len() && !vs_closes(ds[j - 1]) {
        lemma_active_format(ds, j - 1);
    }
}

proof fn lemma_active_after_close(ds: Seq<Seq<u8>>, i: int, j: int)
    requires
        0 <= i < j <= ds.len(),
        vs_closes(ds[i]),
    ensures
        active_format(ds, j) matches Some(f) ==> f >= i,
    decreases j,
{
    if j - 1 > i && !vs_closes(ds[j - 1]) {
        lemma_active_after_close(ds, i, j - 1);
    }
}

proof fn lemma_first_mjpeg_frame(ds: Seq<Seq<u8>>, j: int)
    requires
        0 <= j,
    ensures
        match first_mjpeg_frame(ds, j) {
            Some(k) => j <= k < ds.len() && is_mjpeg_frame_at(ds, k) && forall|m: int| j <= m < k ==> !is_mjpeg_frame_at(ds, m),
            None => forall|m: int| j <= m < ds.len() ==> !is_mjpeg_frame_at(ds, m),
        },
    decreases ds.len() - j,
{
    if j < ds.len() && !is_mjpeg_frame_at(ds, j) {
        lemma_first_mjpeg_frame(ds, j + 1);
    }
}

proof fn lemma_format_modes_none(ds: Seq<Seq<u8>>, n: int, f: int)
    requires
        0 <= n <= ds.len(),
        forall|m: int| 0 <= m < n ==> !is_mjpeg_frame_at(ds, m),
    ensures
        format_modes(ds, n, f) == Seq::<MjpegMode>::empty(),
    decreases n,
{
    if n > 0 {
        lemma_format_modes_none(ds, n - 1, f);
        assert(format_modes(ds, n, f) =~= Seq::<MjpegMode>::empty());
    }
}

proof fn lemma_format_modes_rest(ds: Seq<Seq<u8>>, i: int, n: int, f: int)
    requires
        0 <= i <= n <= ds.len(),
        forall|m: int| i <= m < n ==> !(is_mjpeg_frame_at(ds, m) && active_format(ds, m) == Some(f)),
    ensures
        format_modes(ds, n, f) == format_modes(ds, i, f),
    decreases n,
{
    if n > i {
        lemma_format_modes_rest(ds, i, n - 1, f);
        assert(format_modes(ds, n, f) =~= format_modes(ds, n - 1, f));
    }
}

/// The state of the walk at descriptor `i` agrees with the first MJPEG format's frames seen so far.
pub open spec fn vs_inv(ds: Seq<Seq<u8>>, i: int, st: VsWalk) -> bool {
    if st.done {
        st.modes == first_format_modes(ds)
    } else {
        &&& st.in_mjpeg == active_format(ds, i) is Some
        &&& st.in_mjpeg ==> st.default_idx == ds[active_format(ds, i)->0][6]
        &&& st.modes.len() == 0 ==> forall|m: int| 0 <= m < i ==> !is_mjpeg_frame_at(ds, m)
        &&& st.modes.len() > 0 ==> (first_mjpeg_frame(ds, 0) matches Some(j1) && j1 < i && {
            let f = active_format(ds, j1)->0;
            &&& st.modes == format_modes(ds, i, f)
            &&& (active_format(ds, i) is None || active_format(ds, i) == Some(f))
            &&& forall|m: int| 0 <= m < i && is_mjpeg_frame_at(ds, m) ==> active_format(ds, m) == Some(f)
        })
    }
}

proof fn lemma_vs_fold_inv(ds: Seq<Seq<u8>>, i: int, st: VsWalk)
    requires
        0 <= i <= ds.len(),
        forall|k: int| 0 <= k < ds.len() ==> #[trigger] ds[k].len() >= 2,
        forall|k: int| 0 <= k < ds.len() && vs_format(#[trigger] ds[k]) ==> ds[k].len() >= 7,
        vs_inv(ds, i, st),
    ensures
        vs_fold(ds, i, st).modes == first_format_modes(ds),
    decreases ds.len() - i,
{
    lemma_first_mjpeg_frame(ds, 0);
    if i == ds.len() {
        if !st.done {
            if st.modes.len() == 0 {
                assert(first_mjpeg_frame(ds, 0) is None) by {
                    if let Some(k) = first_mjpeg_frame(ds, 0) {
                        assert(is_mjpeg_frame_at(ds, k));
                    }
                }
            }
        }
    } else {
        let d = ds[i];
        let st2 = vs_step(d, st);
        lemma_active_format(ds, i);
        lemma_active_format(ds, i + 1);
        if !st.done {
            if !vs_cs(d) {
                assert(active_format(ds, i + 1) == active_format(ds, i));
                assert(!is_mjpeg_frame_at(ds, i));
                if st.modes.len() > 0 {
                    let j1 = first_mjpeg_frame(ds, 0)->0;
                    let f = active_format(ds, j1)->0;
                    assert(format_modes(ds, i + 1, f) =~= format_modes(ds, i, f));
                }
            } else if d[2] == 0x06 {
                assert(!is_mjpeg_frame_at(ds, i));
                if st.modes.len() > 0 {
                    let j1 = first_mjpeg_frame(ds, 0)->0;
                    let f = active_format(ds, j1)->0;
                    lemma_active_format(ds, j1);
                    assert forall|m: int| i <= m < ds.len() implies !(is_mjpeg_frame_at(ds, m)
                        && active_format(ds, m) == Some(f)) by {
                        if m > i {
                            lemma_active_after_close(ds, i, m);
                        }
                    }
                    lemma_format_modes_rest(ds, i, ds.len() as int, f);
                    assert(st2.modes == first_format_modes(ds));
                } else {
                    assert(active_format(ds, i + 1) == Some(i));
                }
            } else if d[2] == 0x04 || d[2] == 0x10 {
                assert(active_format(ds, i + 1) is None);
                assert(!is_mjpeg_frame_at(ds, i));
                if st.modes.len() > 0 {
                    let j1 = first_mjpeg_frame(ds, 0)->0;
                    let f = active_format(ds, j1)->0;
                    assert(format_modes(ds, i + 1, f) =~= format_modes(ds, i, f));
                }
            } else {
                assert(active_format(ds, i + 1) == active_format(ds, i));
                if d[2] == 0x07 && st.in_mjpeg && d.len() >= 25 {
                    assert(is_mjpeg_frame_at(ds, i));
                    let m0 = frame_mode(d, st.default_idx);
                    if st.modes.len() == 0 {
                        assert(first_mjpeg_frame(ds, 0) == Some(i)) by {
                            if let Some(k) = first_mjpeg_frame(ds, 0) {
                                if k < i {
                                    assert(!is_mjpeg_frame_at(ds, k));
                                }
                            }
                        }
                        let f = active_format(ds, i)->0;
                        lemma_format_modes_none(ds, i, f);
                        assert(format_modes(ds, i + 1, f) =~= seq![m0]);
                        assert(st2.modes =~= seq![m0]);
                        assert forall|m: int| 0 <= m < i + 1 && is_mjpeg_frame_at(ds, m) implies active_format(ds, m)
                            == Some(f) by {
                            if m < i {
                                assert(!is_mjpeg_frame_at(ds, m));
                            }
                        }
                    } else {
                        let j1 = first_mjpeg_frame(ds, 0)->0;
                        let f = active_format(ds, j1)->0;
                        assert(active_format(ds, i) == Some(f));
                        assert(format_modes(ds, i + 1, f) =~= format_modes(ds, i, f).push(m0));
                    }
                } else {
                    assert(!is_mjpeg_frame_at(ds, i));
                    if st.modes.len() > 0 {
                        let j1 = first_mjpeg_frame(ds, 0)->0;
                        let f = active_format(ds, j1)->0;
                        assert(format_modes(ds, i + 1, f) =~= format_modes(ds, i, f));
                    }
                }
            }
        }
        assert(vs_inv(ds, i + 1, st2));
        lemma_vs_fold_inv(ds, i + 1, st2);
    }
}

/// The modes read from one VideoStreaming interface's descriptors are those of its first
/// MJPEG format that has frames: each frame descriptor after that format descriptor and
/// before the next format descriptor, in order, marked default when its frame index is the
/// format's bDefaultFrameIndex; none when no MJPEG format has frames. (For runs whose MJPEG
/// format descriptors hold their default frame index.)
pub proof fn lemma_vs_modes_first_format(s: Seq<u8>)
    requires
        formats_complete(s),
    ensures
        vs_walk(s, 0, vs_init()).modes == first_format_modes(desc_list(s, 0)),
{
    let ds = desc_list(s, 0);
    lemma_desc_list_walk(s, 0, vs_init());
    assert(vs_inv(ds, 0, vs_init()));
    lemma_vs_fold_inv(ds, 0, vs_init());
}

/// Whether every MJPEG format descriptor of a run holds its default frame index.
pub open spec fn formats_complete(s: Seq<u8>) -> bool {
    forall|k: int| 0 <= k < desc_list(s, 0).len() && vs_format(#[trigger] desc_list(s, 0)[k])
        ==> desc_list(s, 0)[k].len() >= 7
}

/// The modes of the first VideoStreaming alt setting (class 14, subclass 2) from index `i`
/// on whose first MJPEG format has frames.
pub open spec fn first_alt_modes(alts: Seq<RawAlt>, i: int) -> Seq<MjpegMode>
    decreases alts.len() - i,
{
    if i < 0 || i >= alts.len() {
        Seq::empty()
    } else if alts[i].class == 14 && alts[i].subclass == 2 && first_format_modes(desc_list(alts[i].extra@, 0)).len() > 0 {
        first_format_modes(desc_list(alts[i].extra@, 0))
    } else {
        first_alt_modes(alts, i + 1)
    }
}

/// The camera's modes are the frames of the first MJPEG format that has any, in the first
/// VideoStreaming alt setting that has such a format, scanning the alt settings in order;
/// none when there is none. (For alt settings whose MJPEG format descriptors are complete.)
pub proof fn lemma_mjpeg_modes_first_format(alts: Seq<RawAlt>, i: int)
    requires
        0 <= i,
        forall|k: int| 0 <= k < alts.len() && alts[k].class == 14 && alts[k].subclass == 2
            ==> formats_complete(#[trigger] alts[k].extra@),
    ensures
        mjpeg_modes_from(alts, i) == first_alt_modes(alts, i),
    decreases alts.len() - i,
{
    if i < alts.len() {
        if alts[i].class == 14 && alts[i].subclass == 2 {
            lemma_vs_modes_first_format(alts[i].extra@);
        }
        lemma_mjpeg_modes_first_format(alts, i + 1);
    }
}

/// Index of the first mode from `i` on marked as the default, if any.
pub open spec fn first_default_from(modes: Seq<MjpegMode>, i: int) -> Option<int>
    decreases modes.len() - i,
{
    if i < 0 || i >= modes.len() {
        None
    } else if modes[i].is_default {
        Some(i)
    } else {
        first_default_from(modes, i + 1)
    }
}

/// Frames per second for a frame interval in 100 ns units (30 when the interval is 0).
pub open spec fn fps_of(interval: u32) -> u32 {
    if interval > 0 {
        (10_000_000int / interval as int) as u32
    } else {
        30
    }
}

/// The card's own default mode: the first mode marked default, else the first mode.
pub open spec fn default_mode_spec(modes: Seq<MjpegMode>) -> Option<(u32, u32, u32)> {
    if modes.len() == 0 {
        None
    } else {
        let m = match first_default_from(modes, 0) {
            Some(i) => modes[i],
            None => modes[0],
        };
        Some((m.width, m.height, fps_of(m.interval)))
    }
}

/// Index of the first mode marked as the default.
fn find_default(modes: &[MjpegMode]) -> (r: Option<usize>)
    ensures
        opt_index(r) == first_default_from(modes@, 0),
{
    let mut i: usize = 0;
    while i < modes.len()
        invariant
            i <= modes.len(),
            first_default_from(modes@, 0) == first_default_from(modes@, i as int),
        decreases modes.len() - i,
    {
        if modes[i].is_default {
            return Some(i);
        }
        i += 1;
    }
    None
}

/// An optional index as an integer.
pub open spec fn opt_index(o: Option<usize>) -> Option<int> {
    match o {
        Some(i) => Some(i as int),
        None => None,
    }
}

proof fn lemma_first_default_bound(modes: Seq<MjpegMode>, i: int)
    ensures
        first_default_from(modes, i) matches Some(k) ==> i <= k < modes.len(),
    decreases modes.len() - i,
{
    if 0 <= i < modes.len() && !modes[i].is_default {
        lemma_first_default_bound(modes, i + 1);
    }
}

/// The card's own default mode: (width, height, fps).
pub fn default_mode(modes: &[MjpegMode]) -> (r: Option<(u32, u32, u32)>)
    ensures
        r == default_mode_spec(modes@),
{
    if modes.len() == 0 {
        return None;
    }
    proof {
        lemma_first_default_bound(modes@, 0);
    }
    let m = match find_default(modes) {
        Some(k) => modes[k],
        None => modes[0],
    };
    let fps = if m.interval > 0 { 10_000_000 / m.interval } else { 30 };
    Some((m.width, m.height, fps))
}

// ------------------------------------------------------------------ audio

/// One isochronous-IN AudioStreaming alt setting (UAC 1.0) and its PCM format.
#[derive(Clone, Debug)]
pub struct AudioAlt {
    pub interface: u8,
    pub alt: u8,
    pub endpoint: u8,
    pub max_packet: usize,
    pub channels: u8,
    pub subframe: u8,
    pub bits: u8,
    pub pcm: bool,
    /// discrete rates; empty = continuous rate_min..rate_max
    pub rates: Vec<u32>,
    pub rate_min: u32,
    pub rate_max: u32,
    /// endpoint accepts a SET_CUR sampling frequency
    pub freq_ctl: bool,
}

/// The mathematical content of an [`AudioAlt`].
pub struct AudioAltSpec {
    pub interface: u8,
    pub alt: u8,
    pub endpoint: u8,
    pub max_packet: usize,
    pub channels: u8,
    pub subframe: u8,
    pub bits: u8,
    pub pcm: bool,
    pub rates: Seq<u32>,
    pub rate_min: u32,
    pub rate_max: u32,
    pub freq_ctl: bool,
}

impl View for AudioAlt {
    type V = AudioAltSpec;

    open spec fn view(&self) -> AudioAltSpec {
        AudioAltSpec {
            interface: self.interface,
            alt: self.alt,
            endpoint: self.endpoint,
            max_packet: self.max_packet,
            channels: self.channels,
            subframe: self.subframe,
            bits: self.bits,
            pcm: self.pcm,
            rates: self.rates@,
            rate_min: self.rate_min,
            rate_max: self.rate_max,
            freq_ctl: self.freq_ctl,
        }
    }
}

/// The alt settings of a list, each by its view.
pub open spec fn audio_views(v: Seq<AudioAlt>) -> Seq<AudioAltSpec> {
    v.map_values(|a: AudioAlt| a@)
}

/// Whether the endpoint accepts a sampling-frequency SET_CUR, by its CS_ENDPOINT / EP_GENERAL
/// descriptors from `o` on (the last one wins; `cur` when there is none).
pub open spec fn ep_freq_ctl(s: Seq<u8>, o: int, cur: bool) -> bool
    decreases s.len() - o,
{
    if !desc_at(s, o) {
        cur
    } else {
        let d = desc(s, o);
        ep_freq_ctl(
            s,
            o + s[o],
            if d[1] == 0x25 && d.len() >= 4 && d[2] == 1 {
                d[3] & 1u8 != 0
            } else {
                cur
            },
        )
    }
}

/// The discrete sample rates of a FORMAT_TYPE_I descriptor from the `i`-th on: at most 8,
/// at most the `n` announced, as many as the descriptor holds.
pub open spec fn type_i_rates(d: Seq<u8>, n: int, i: int) -> Seq<u32>
    decreases 8 - i,
{
    if 0 <= i && i < n && i < 8 && 8 + 3 * i + 3 <= d.len() {
        seq![le24_at(d, 8 + 3 * i) as u32] + type_i_rates(d, n, i + 1)
    } else {
        Seq::empty()
    }
}

/// The effect of one class-specific AudioStreaming descriptor: AS_GENERAL tells whether the
/// format is PCM; FORMAT_TYPE_I gives channels, subframe size, bits and the rates.
pub open spec fn as_step(d: Seq<u8>, a: AudioAltSpec) -> AudioAltSpec {
    if d[1] != 0x24 || d.len() < 3 {
        a
    } else if d[2] == 0x01 && d.len() >= 7 {
        AudioAltSpec { pcm: le16_at(d, 5) == 1, ..a }
    } else if d[2] == 0x02 && d.len() >= 8 && d[3] == 1 {
        let a2 = AudioAltSpec { channels: d[4], subframe: d[5], bits: d[6], ..a };
        if d[7] == 0 {
            if d.len() >= 14 {
                AudioAltSpec { rate_min: le24_at(d, 8) as u32, rate_max: le24_at(d, 11) as u32, ..a2 }
            } else {
                a2
            }
        } else {
            AudioAltSpec { rates: a2.rates + type_i_rates(d, d[7] as int, 0), ..a2 }
        }
    } else {
        a
    }
}

/// Walks an AudioStreaming interface's descriptors from offset `o`.
pub open spec fn as_walk(s: Seq<u8>, o: int, a: AudioAltSpec) -> AudioAltSpec
    decreases s.len() - o,
{
    if !desc_at(s, o) {
        a
    } else {
        as_walk(s, o + s[o], as_step(desc(s, o), a))
    }
}

/// Bytes per isochronous interval of an endpoint: the packet size times the number of
/// transactions per microframe (bits 11..12 of wMaxPacketSize, plus one).
pub open spec fn iso_bytes(max_packet: u16) -> usize {
    ((max_packet & 0x7ffu16) as int * (((max_packet >> 11u16) & 3u16) as int + 1)) as usize
}

/// The audio capture description of an alt setting, if it is an isochronous-IN
/// AudioStreaming alt setting with an endpoint.
pub open spec fn audio_alt_of(a: RawAlt) -> Option<AudioAltSpec> {
    if a.class != 1 || a.subclass != 2 || a.endpoints@.len() == 0 {
        None
    } else {
        let ep = a.endpoints@[0];
        if ep.address & 0x80u8 == 0 || ep.attributes & 3u8 != 1 {
            None
        } else {
            let base = AudioAltSpec {
                interface: a.interface,
                alt: a.alt,
                endpoint: ep.address,
                max_packet: iso_bytes(ep.max_packet),
                channels: 0,
                subframe: 0,
                bits: 0,
                pcm: true,
                rates: Seq::empty(),
                rate_min: 0,
                rate_max: 0,
                freq_ctl: ep_freq_ctl(ep.extra@, 0, false),
            };
            Some(as_walk(a.extra@, 0, base))
        }
    }
}

/// The audio capture alt settings among `alts` from index `i` on, in order.
pub open spec fn audio_alts_from(alts: Seq<RawAlt>, i: int) -> Seq<AudioAltSpec>
    decreases alts.len() - i,
{
    if i < 0 || i >= alts.len() {
        Seq::empty()
    } else {
        match audio_alt_of(alts[i]) {
            Some(x) => seq![x] + audio_alts_from(alts, i + 1),
            None => audio_alts_from(alts, i + 1),
        }
    }
}

/// Whether an endpoint's class-specific descriptors enable sampling-frequency control.
fn endpoint_freq_ctl(s: &[u8]) -> (r: bool)
    ensures
        r == ep_freq_ctl(s@, 0, false),
{
    let mut cur = false;
    let mut o: usize = 0;
    loop
        invariant
            o <= s.len(),
            ep_freq_ctl(s@, 0, false) == ep_freq_ctl(s@, o as int, cur),
        decreases s.len() - o,
    {
        let next = match next_desc(s, o) {
            Some(n) => n,
            None => {
                return cur;
            },
        };
        let d = vstd::slice::slice_subrange(s, o, next);
        if d[1] == 0x25 && d.len() >= 4 && d[2] == 1 {
            cur = d[3] & 1u8 != 0;
        }
        o = next;
    }
}

/// Little-endian value of the three bytes at `i`.
fn le24(d: &[u8], i: usize) -> (v: u32)
    requires
        i + 3 <= d.len(),
    ensures
        v as int == le24_at(d@, i as int),
{
    (d[i] as u32) + (d[i + 1] as u32) * 256 + (d[i + 2] as u32) * 65536
}

/// Applies one class-specific AudioStreaming descriptor.
fn apply_as(d: &[u8], a: &mut AudioAlt)
    requires
        d.len() >= 2,
    ensures
        final(a)@ == as_step(d@, old(a)@),
{
    if d[1] != 0x24 || d.len() < 3 {
        return;
    }
    if d[2] == 0x01 && d.len() >= 7 {
        a.pcm = (d[5] as u32) + (d[6] as u32) * 256 == 1;
    } else if d[2] == 0x02 && d.len() >= 8 && d[3] == 1 {
        a.channels = d[4];
        a.subframe = d[5];
        a.bits = d[6];
        let n = d[7] as usize;
        if n == 0 {
            if d.len() >= 14 {
                a.rate_min = le24(d, 8);
                a.rate_max = le24(d, 11);
            }
        } else {
            let ghost r0 = a.rates@;
            let ghost a_mid = a@;
            let mut i: usize = 0;
            while i < n && i < 8 && 8 + 3 * i + 3 <= d.len()
                invariant
                    a@ == (AudioAltSpec { rates: a@.rates, ..a_mid }),
                    r0 == a_mid.rates,
                    i <= 8,
                    n == d@[7] as int,
                    d.len() >= 8,
                    r0 + type_i_rates(d@, n as int, 0) == a.rates@ + type_i_rates(d@, n as int, i as int),
                decreases 8 - i,
            {
                let ghost before = a.rates@;
                a.rates.push(le24(d, 8 + 3 * i));
                assert(before + type_i_rates(d@, n as int, i as int) =~= a.rates@ + type_i_rates(d@, n as int, i + 1));
                i += 1;
            }
            assert(type_i_rates(d@, n as int, i as int) =~= Seq::<u32>::empty());
            assert(a.rates@ =~= r0 + type_i_rates(d@, n as int, 0));
        }
    }
}

/// The audio capture description of one alt setting, if it is one.
fn audio_alt(a: &RawAlt) -> (r: Option<AudioAlt>)
    ensures
        match audio_alt_of(*a) {
            Some(x) => r matches Some(y) && y@ == x,
            None => r is None,
        },
{
    if a.class != 1 || a.subclass != 2 || a.endpoints.len() == 0 {
        return None;
    }
    let ep = &a.endpoints[0];
    if ep.address & 0x80u8 == 0 || ep.attributes & 3u8 != 1 {
        return None;
    }
    let mp = ep.max_packet;
    assert(mp & 0x7ffu16 <= 0x7ff && (mp >> 11u16) & 3u16 <= 3) by (bit_vector);
    let mult = (((mp >> 11u16) & 3u16) as usize) + 1;
    let low = (mp & 0x7ffu16) as usize;
    assert(low * mult <= 2047 * 4) by (nonlinear_arith)
        requires low <= 2047, mult <= 4;
    let mut alt = AudioAlt {
        interface: a.interface,
        alt: a.alt,
        endpoint: ep.address,
        max_packet: low * mult,
        channels: 0,
        subframe: 0,
        bits: 0,
        pcm: true,
        rates: Vec::new(),
        rate_min: 0,
        rate_max: 0,
        freq_ctl: false,
    };
    alt.freq_ctl = endpoint_freq_ctl(ep.extra.as_slice());
    let s = a.extra.as_slice();
    let mut o: usize = 0;
    loop
        invariant
            o <= s.len(),
            s@ == a.extra@,
            audio_alt_of(*a) == Some(as_walk(s@, o as int, alt@)),
        decreases s.len() - o,
    {
        let next = match next_desc(s, o) {
            Some(n) => n,
            None => {
                return Some(alt);
            },
        };
        let d = vstd::slice::slice_subrange(s, o, next);
        apply_as(d, &mut alt);
        o = next;
    }
}

/// Every isochronous-IN AudioStreaming alt setting (UAC 1.0), in descriptor order.
pub fn audio_alts(alts: &[RawAlt]) -> (r: Vec<AudioAlt>)
    ensures
        audio_views(r@) == audio_alts_from(alts@, 0),
{
    let mut out: Vec<AudioAlt> = Vec::new();
    let mut i: usize = 0;
    while i < alts.len()
        invariant
            i <= alts.len(),
            audio_views(out@) + audio_alts_from(alts@, i as int) == audio_alts_from(alts@, 0),
        decreases alts.len() - i,
    {
        let ghost prev = out@;
        match audio_alt(&alts[i]) {
            Some(x) => {
                out.push(x);
                assert(audio_views(out@) =~= audio_views(prev).push(x@));
                assert(audio_views(out@) + audio_alts_from(alts@, i + 1) =~= audio_views(prev)
                    + audio_alts_from(alts@, i as int));
            },
            None => {},
        }
        i += 1;
    }
    assert(audio_views(out@) =~= audio_alts_from(alts@, 0));
    out
}

/// Whether an alt setting is an isochronous-IN AudioStreaming one with an endpoint.
pub open spec fn is_audio_capture_alt(a: RawAlt) -> bool {
    &&& a.class == 1
    &&& a.subclass == 2
    &&& a.endpoints@.len() > 0
    &&& a.endpoints@[0].address & 0x80u8 != 0
    &&& a.endpoints@[0].attributes & 3u8 == 1
}

proof fn lemma_as_walk_keeps(s: Seq<u8>, o: int, a: AudioAltSpec)
    ensures
        ({
            let r = as_walk(s, o, a);
            r.interface == a.interface && r.alt == a.alt && r.endpoint == a.endpoint
                && r.max_packet == a.max_packet && r.freq_ctl == a.freq_ctl
        }),
    decreases s.len() - o,
{
    if desc_at(s, o) {
        lemma_as_walk_keeps(s, o + s[o], as_step(desc(s, o), a));
    }
}

proof fn lemma_filter_map_concat<A, B>(a: Seq<A>, b: Seq<A>, f: spec_fn(A) -> Option<B>)
    ensures
        (a + b).filter_map(f) == a.filter_map(f) + b.filter_map(f),
    decreases b.len(),
{
    if b.len() == 0 {
        assert(a + b =~= a);
        assert(a.filter_map(f) + b.filter_map(f) =~= a.filter_map(f));
    } else {
        assert((a + b).drop_last() =~= a + b.drop_last());
        assert((a + b).last() == b.last());
        lemma_filter_map_concat(a, b.drop_last(), f);
        match f(b.last()) {
            Some(x) => {
                assert(a.filter_map(f) + b.drop_last().filter_map(f) + seq![x] =~= a.filter_map(f) + (
                b.drop_last().filter_map(f) + seq![x]));
            },
            None => {},
        }
    }
}

proof fn lemma_audio_alts_from(alts: Seq<RawAlt>, i: int)
    requires
        0 <= i <= alts.len(),
    ensures
        audio_alts_from(alts, i) == alts.subrange(i, alts.len() as int).filter_map(|a: RawAlt| audio_alt_of(a)),
    decreases alts.len() - i,
{
    let f = |a: RawAlt| audio_alt_of(a);
    if i < alts.len() {
        lemma_audio_alts_from(alts, i + 1);
        let rest = alts.subrange(i + 1, alts.len() as int);
        assert(alts.subrange(i, alts.len() as int) =~= seq![alts[i]] + rest);
        lemma_filter_map_concat(seq![alts[i]], rest, f);
        Seq::<RawAlt>::lemma_filter_map_singleton(alts[i], f);
        match audio_alt_of(alts[i]) {
            Some(x) => {},
            None => {
                assert(seq![alts[i]].filter_map(f) + rest.filter_map(f) =~= rest.filter_map(f));
            },
        }
    } else {
        assert(alts.subrange(i, alts.len() as int) =~= Seq::<RawAlt>::empty());
    }
}

/// The audio alt settings are one entry for each isochronous-IN AudioStreaming alt setting
/// with an endpoint, in the order of the list.
pub proof fn lemma_audio_alts_in_order(alts: Seq<RawAlt>)
    ensures
        audio_alts_from(alts, 0) == alts.filter_map(|a: RawAlt| audio_alt_of(a)),
{
    lemma_audio_alts_from(alts, 0);
    assert(alts.subrange(0, alts.len() as int) =~= alts);
}

/// An alt setting gives an entry exactly when it is an isochronous-IN AudioStreaming alt
/// setting with an endpoint; the entry carries its interface and alt numbers, the endpoint
/// address, and the bytes per interval from wMaxPacketSize: the low 11 bits times one more
/// than bits 11..12.
pub proof fn lemma_audio_alt_entry(a: RawAlt)
    ensures
        audio_alt_of(a) is Some <==> is_audio_capture_alt(a),
        audio_alt_of(a) matches Some(x) ==> {
            let ep = a.endpoints@[0];
            &&& x.interface == a.interface
            &&& x.alt == a.alt
            &&& x.endpoint == ep.address
            &&& x.max_packet as int == (ep.max_packet & 0x7ffu16) as int * (((ep.max_packet >> 11u16) & 3u16) as int + 1)
        },
{
    if is_audio_capture_alt(a) {
        let ep = a.endpoints@[0];
        let mp = ep.max_packet;
        let base = AudioAltSpec {
            interface: a.interface,
            alt: a.alt,
            endpoint: ep.address,
            max_packet: iso_bytes(ep.max_packet),
            channels: 0,
            subframe: 0,
            bits: 0,
            pcm: true,
            rates: Seq::empty(),
            rate_min: 0,
            rate_max: 0,
            freq_ctl: ep_freq_ctl(ep.extra@, 0, false),
        };
        lemma_as_walk_keeps(a.extra@, 0, base);
        assert(mp & 0x7ffu16 <= 0x7ff && (mp >> 11u16) & 3u16 <= 3) by (bit_vector);
        let low = (mp & 0x7ffu16) as int;
        let mult = ((mp >> 11u16) & 3u16) as int + 1;
        assert(0 <= low * mult <= 2047 * 4) by (nonlinear_arith)
            requires 0 <= low <= 2047, 1 <= mult <= 4;
    }
}

/// `|a - b|`.
pub open spec fn rate_distance(a: u32, b: u32) -> int {
    if a > b {
        a - b
    } else {
        b - a
    }
}

/// Scans the discrete rates from index `i` with the best so far: the wanted rate as soon as it
/// is offered, else the first of the nearest ones.
pub open spec fn nearest_rate_from(rates: Seq<u32>, want: u32, i: int, best: u32) -> u32
    decreases rates.len() - i,
{
    if i < 0 || i >= rates.len() {
        best
    } else if rates[i] == want {
        want
    } else {
        nearest_rate_from(
            rates,
            want,
            i + 1,
            if rate_distance(rates[i], want) < rate_distance(best, want) {
                rates[i]
            } else {
                best
            },
        )
    }
}

/// The sample rate used for an alt setting given a preference: the preference clamped into a
/// continuous range, or the nearest discrete rate (the preference itself when offered).
pub open spec fn pick_rate_spec(a: AudioAltSpec, want: u32) -> u32 {
    if a.rates.len() == 0 {
        if want < a.rate_min {
            a.rate_min
        } else if a.rate_max != 0 && want > a.rate_max {
            a.rate_max
        } else {
            want
        }
    } else {
        nearest_rate_from(a.rates, want, 0, a.rates[0])
    }
}

fn abs_diff(a: u32, b: u32) -> (r: u32)
    ensures
        r as int == rate_distance(a, b),
{
    if a > b {
        a - b
    } else {
        b - a
    }
}

/// The sample rate we will use for `a` given a preference.
pub fn pick_rate(a: &AudioAlt, want: u32) -> (r: u32)
    ensures
        r == pick_rate_spec(a@, want),
{
    if a.rates.len() == 0 {
        if want < a.rate_min {
            return a.rate_min;
        }
        if a.rate_max != 0 && want > a.rate_max {
            return a.rate_max;
        }
        return want;
    }
    let mut best = a.rates[0];
    let mut i: usize = 0;
    while i < a.rates.len()
        invariant
            i <= a.rates.len(),
            a.rates@.len() > 0,
            pick_rate_spec(a@, want) == nearest_rate_from(a.rates@, want, i as int, best),
        decreases a.rates.len() - i,
    {
        let r = a.rates[i];
        if r == want {
            return want;
        }
        if abs_diff(r, want) < abs_diff(best, want) {
            best = r;
        }
        i += 1;
    }
    best
}

/// Whether an alt setting can be captured: 16-bit PCM in 2-byte subframes, mono or stereo,
/// with a non-zero packet size.
pub open spec fn usable_audio(a: AudioAltSpec) -> bool {
    a.pcm && a.subframe == 2 && a.bits == 16 && a.channels >= 1 && a.channels <= 2 && a.max_packet != 0
}

/// How well a usable alt setting matches the preference: 1, +4 when the wanted rate is
/// offered, +2 when the channel count matches.
pub open spec fn audio_score(a: AudioAltSpec, want_rate: u32, want_ch: u16) -> int {
    1 + (if pick_rate_spec(a, want_rate) == want_rate { 4int } else { 0int }) + (if a.channels as u16
        == want_ch {
        2int
    } else {
        0int
    })
}

/// Scans from index `i` with the best (index, score) so far; a later alt setting replaces the
/// best only with a strictly higher score.
pub open spec fn choose_audio_from(
    alts: Seq<AudioAltSpec>,
    want_rate: u32,
    want_ch: u16,
    i: int,
    best: Option<(int, int)>,
) -> Option<int>
    decreases alts.len() - i,
{
    if i < 0 || i >= alts.len() {
        match best {
            Some((k, _)) => Some(k),
            None => None,
        }
    } else if !usable_audio(alts[i]) {
        choose_audio_from(alts, want_rate, want_ch, i + 1, best)
    } else {
        let sc = audio_score(alts[i], want_rate, want_ch);
        let better = match best {
            Some((_, s)) => sc > s,
            None => true,
        };
        choose_audio_from(alts, want_rate, want_ch, i + 1, if better { Some((i, sc)) } else { best })
    }
}

/// Best usable alt setting: 16-bit PCM, mono or stereo; prefers the wanted rate / channels.
pub fn choose_audio(alts: &[AudioAlt], want_rate: u32, want_ch: u16) -> (r: Option<&AudioAlt>)
    ensures
        match choose_audio_from(audio_views(alts@), want_rate, want_ch, 0, None) {
            Some(k) => 0 <= k < alts@.len() && (r matches Some(a) && *a == alts@[k]),
            None => r is None,
        },
{
    let ghost views = audio_views(alts@);
    let mut best: Option<(usize, u32)> = None;
    let mut i: usize = 0;
    while i < alts.len()
        invariant
            i <= alts.len(),
            views == audio_views(alts@),
            best matches Some((k, _)) ==> k < i,
            choose_audio_from(views, want_rate, want_ch, 0, None) == choose_audio_from(
                views,
                want_rate,
                want_ch,
                i as int,
                match best {
                    Some((k, s)) => Some((k as int, s as int)),
                    None => None,
                },
            ),
        decreases alts.len() - i,
    {
        let a = &alts[i];
        assert(views[i as int] == a@);
        if !a.pcm || a.subframe != 2 || a.bits != 16 || a.channels < 1 || a.channels > 2 || a.max_packet == 0 {
            i += 1;
            continue;
        }
        let mut score: u32 = 1;
        if pick_rate(a, want_rate) == want_rate {
            score += 4;
        }
        if a.channels as u16 == want_ch {
            score += 2;
        }
        let better = match best {
            Some((_, s)) => score > s,
            None => true,
        };
        if better {
            best = Some((i, score));
        }
        i += 1;
    }
    match best {
        Some((k, _)) => Some(&alts[k]),
        None => None,
    }
}

proof fn lemma_nearest_rate(rates: Seq<u32>, want: u32, i: int, best: u32)
    requires
        0 <= i <= rates.len(),
        rates.contains(best),
        forall|j: int| 0 <= j < i ==> rate_distance(best, want) <= rate_distance(#[trigger] rates[j], want),
    ensures
        rates.contains(nearest_rate_from(rates, want, i, best)),
        forall|j: int|
            0 <= j < rates.len() ==> rate_distance(nearest_rate_from(rates, want, i, best), want)
                <= rate_distance(#[trigger] rates[j], want),
    decreases rates.len() - i,
{
    if i < rates.len() {
        if rates[i] == want {
            assert(rates.contains(rates[i]));
        } else {
            let nb = if rate_distance(rates[i], want) < rate_distance(best, want) {
                rates[i]
            } else {
                best
            };
            assert(rates.contains(rates[i]));
            lemma_nearest_rate(rates, want, i + 1, nb);
        }
    }
}

proof fn lemma_nearest_rate_first(rates: Seq<u32>, want: u32, i: int, best: u32, kb: int)
    requires
        0 <= i <= rates.len(),
        0 <= kb < rates.len(),
        kb < i || (kb == 0 && i == 0),
        rates[kb] == best,
        forall|j: int| 0 <= j < kb ==> rate_distance(best, want) < rate_distance(#[trigger] rates[j], want),
        forall|j: int| 0 <= j < i ==> rate_distance(best, want) <= rate_distance(#[trigger] rates[j], want),
        forall|j: int| 0 <= j < i ==> #[trigger] rates[j] != want,
    ensures
        exists|k: int|
            0 <= k < rates.len() && rates[k] == nearest_rate_from(rates, want, i, best) && forall|j: int|
                0 <= j < k ==> rate_distance(nearest_rate_from(rates, want, i, best), want) < rate_distance(
                    #[trigger] rates[j],
                    want,
                ),
    decreases rates.len() - i,
{
    if i < rates.len() {
        if rates[i] == want {
            assert forall|j: int| 0 <= j < i implies rate_distance(want, want) < rate_distance(#[trigger] rates[j], want) by {
                assert(rates[j] != want);
            }
            assert(rates[i] == nearest_rate_from(rates, want, i, best));
        } else if rate_distance(rates[i], want) < rate_distance(best, want) {
            lemma_nearest_rate_first(rates, want, i + 1, rates[i], i);
        } else {
            lemma_nearest_rate_first(rates, want, i + 1, best, kb);
        }
    } else {
        assert(rates[kb] == nearest_rate_from(rates, want, i, best));
    }
}

/// A card that lists discrete rates is run at one of them, the nearest to the preference
/// (the preference itself whenever it is offered); of several rates equally near, the first
/// listed wins.
pub proof fn lemma_pick_rate_nearest(a: AudioAltSpec, want: u32)
    requires
        a.rates.len() > 0,
    ensures
        a.rates.contains(pick_rate_spec(a, want)),
        forall|j: int|
            0 <= j < a.rates.len() ==> rate_distance(pick_rate_spec(a, want), want) <= rate_distance(
                #[trigger] a.rates[j],
                want,
            ),
        a.rates.contains(want) ==> pick_rate_spec(a, want) == want,
        exists|k: int|
            0 <= k < a.rates.len() && a.rates[k] == pick_rate_spec(a, want) && forall|j: int|
                0 <= j < k ==> rate_distance(pick_rate_spec(a, want), want) < rate_distance(
                    #[trigger] a.rates[j],
                    want,
                ),
{
    assert(a.rates.contains(a.rates[0]));
    lemma_nearest_rate(a.rates, want, 0, a.rates[0]);
    lemma_nearest_rate_first(a.rates, want, 0, a.rates[0], 0);
    if a.rates.contains(want) {
        let j = choose|j: int| 0 <= j < a.rates.len() && a.rates[j] == want;
        assert(rate_distance(a.rates[j], want) == 0);
    }
}

proof fn lemma_choose_audio(
    alts: Seq<AudioAltSpec>,
    wr: u32,
    wc: u16,
    i: int,
    best: Option<(int, int)>,
)
    requires
        0 <= i <= alts.len(),
        best matches Some((k, s)) ==> {
            &&& 0 <= k < i
            &&& usable_audio(alts[k])
            &&& s == audio_score(alts[k], wr, wc)
            &&& forall|j: int|
                0 <= j < i && usable_audio(#[trigger] alts[j]) ==> audio_score(alts[j], wr, wc) <= s && (j
                    < k ==> audio_score(alts[j], wr, wc) < s)
        },
        best is None ==> forall|j: int| 0 <= j < i ==> !usable_audio(#[trigger] alts[j]),
    ensures
        match choose_audio_from(alts, wr, wc, i, best) {
            Some(k) => {
                &&& 0 <= k < alts.len()
                &&& usable_audio(alts[k])
                &&& forall|j: int|
                    0 <= j < alts.len() && usable_audio(#[trigger] alts[j]) ==> audio_score(alts[j], wr, wc)
                        <= audio_score(alts[k], wr, wc) && (j < k ==> audio_score(alts[j], wr, wc)
                        < audio_score(alts[k], wr, wc))
            },
            None => forall|j: int| 0 <= j < alts.len() ==> !usable_audio(#[trigger] alts[j]),
        },
    decreases alts.len() - i,
{
    if i < alts.len() {
        if !usable_audio(alts[i]) {
            lemma_choose_audio(alts, wr, wc, i + 1, best);
        } else {
            let sc = audio_score(alts[i], wr, wc);
            let better = match best {
                Some((_, s)) => sc > s,
                None => true,
            };
            lemma_choose_audio(alts, wr, wc, i + 1, if better { Some((i, sc)) } else { best });
        }
    }
}

/// The alt setting chosen for capture is usable, no usable one scores higher, every usable one
/// listed before it scores lower; nothing is chosen only when no alt setting is usable.
pub proof fn lemma_choose_audio_best(alts: Seq<AudioAltSpec>, want_rate: u32, want_ch: u16)
    ensures
        match choose_audio_from(alts, want_rate, want_ch, 0, None) {
            Some(k) => {
                &&& 0 <= k < alts.len()
                &&& usable_audio(alts[k])
                &&& forall|j: int|
                    0 <= j < alts.len() && usable_audio(#[trigger] alts[j]) ==> audio_score(
                        alts[j],
                        want_rate,
                        want_ch,
                    ) <= audio_score(alts[k], want_rate, want_ch) && (j < k ==> audio_score(
                        alts[j],
                        want_rate,
                        want_ch,
                    ) < audio_score(alts[k], want_rate, want_ch))
            },
            None => forall|j: int| 0 <= j < alts.len() ==> !usable_audio(#[trigger] alts[j]),
        },
{
    lemma_choose_audio(alts, want_rate, want_ch, 0, None);
}

/// The alt setting chosen for capture is always 16-bit linear PCM in 2-byte subframes, mono or
/// stereo, with a non-zero packet size; there is none exactly when no alt setting is such.
pub proof fn lemma_chosen_audio_is_16_bit_pcm(alts: Seq<AudioAltSpec>, want_rate: u32, want_ch: u16)
    ensures
        match choose_audio_from(alts, want_rate, want_ch, 0, None) {
            Some(k) => {
                &&& 0 <= k < alts.len()
                &&& alts[k].pcm
                &&& alts[k].bits == 16
                &&& alts[k].subframe == 2
                &&& 1 <= alts[k].channels <= 2
                &&& alts[k].max_packet != 0
            },
            None => forall|j: int|
                0 <= j < alts.len() ==> !(#[trigger] alts[j].pcm && alts[j].bits == 16 && alts[j].subframe == 2
                    && 1 <= alts[j].channels <= 2 && alts[j].max_packet != 0),
        },
{
    lemma_choose_audio_best(alts, want_rate, want_ch);
    if choose_audio_from(alts, want_rate, want_ch, 0, None) is None {
        assert forall|j: int| 0 <= j < alts.len() implies !(#[trigger] alts[j].pcm && alts[j].bits == 16
            && alts[j].subframe == 2 && 1 <= alts[j].channels <= 2 && alts[j].max_packet != 0) by {
            assert(!usable_audio(alts[j]));
        }
    }
}

} // verus!
