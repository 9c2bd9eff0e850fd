//! The hub sits between the capture side (camera + USB audio) and the protocol servers.
//! Capture code publishes frames and audio chunks; every protocol subscribes independently.
//! This is the hub's state and the decisions it makes; the caller holds it under a lock,
//! supplies the clock (monotonic microseconds) and wakes the waiting subscribers.

use vstd::prelude::*;
use std::collections::VecDeque;
use std::sync::Arc;
use crate::bytes::{bytes_eq, copy_range};

verus! {

broadcast use vstd::std_specs::vecdeque::group_vec_dequeue_axioms;

/// One JPEG picture from the card.
pub struct VideoFrame {
    pub seq: u64,
    pub data: Vec<u8>,
    pub width: u32,
    pub height: u32,
    /// when it arrived from the camera (monotonic microseconds)
    pub at_us: u64,
}

/// A block of interleaved S16LE PCM straight from the USB audio interface.
pub struct AudioChunk {
    pub seq: u64,
    /// sample frames delivered before this chunk (running counter)
    pub pos: u64,
    pub data: Vec<u8>,
    /// when the last sample of the chunk arrived (monotonic microseconds)
    pub at_us: u64,
}

/// The audio format of a session.
#[derive(Clone, Copy, Debug)]
pub struct AudioFormat {
    pub rate: u32,
    pub channels: u16,
}

/// The mathematical content of a [`VideoFrame`].
pub struct FrameView {
    pub seq: u64,
    pub data: Seq<u8>,
    pub width: u32,
    pub height: u32,
    pub at_us: u64,
}

/// The mathematical content of an [`AudioChunk`].
pub struct ChunkView {
    pub seq: u64,
    pub pos: u64,
    pub data: Seq<u8>,
    pub at_us: u64,
}

impl View for VideoFrame {
    type V = FrameView;

    open spec fn view(&self) -> FrameView {
        FrameView { seq: self.seq, data: self.data@, width: self.width, height: self.height, at_us: self.at_us }
    }
}

impl View for AudioChunk {
    type V = ChunkView;

    open spec fn view(&self) -> ChunkView {
        ChunkView { seq: self.seq, pos: self.pos, data: self.data@, at_us: self.at_us }
    }
}

/// `Arc::clone`: another handle to the same shared value.
#[verifier::external_body]
fn share<T>(a: &Arc<T>) -> (r: Arc<T>)
    ensures
        r == *a,
{
    Arc::clone(a)
}

/// What a frame submission did.
pub enum Submitted {
    /// dropped as empty or not JPEG; the number of dropped frames so far
    Rejected(u64),
    /// published; the number of published frames so far
    Accepted(u64),
}

/// Frame counters for the status log.
pub struct VideoCounts {
    pub total: u64,
    pub bad: u64,
    pub same: u64,
    pub last_len: usize,
    pub viewers: i32,
    pub w: u32,
    pub h: u32,
}

/// The hub's state.
pub struct Hub {
    latest: Option<Arc<VideoFrame>>,
    seq: u64,
    total: u64,
    bad: u64,
    same: u64,
    bytes: u64,
    last_at_us: Option<u64>,
    viewers: i32,
    viewer_seq: i32,
    chunks: VecDeque<Arc<AudioChunk>>,
    next_seq: u64,
    next_pos: u64,
    audio_bytes: u64,
    queued: u128,
    audio_fmt: Option<AudioFormat>,
    stopped: bool,
}

/// The mathematical content of a [`Hub`].
pub struct HubState {
    pub latest: Option<FrameView>,
    pub seq: u64,
    pub total: u64,
    pub bad: u64,
    pub same: u64,
    pub bytes: u64,
    pub last_at_us: Option<u64>,
    pub viewers: i32,
    pub viewer_seq: i32,
    pub chunks: Seq<ChunkView>,
    pub next_seq: u64,
    pub next_pos: u64,
    pub audio_bytes: u64,
    pub queued: int,
    pub audio_fmt: Option<AudioFormat>,
    pub stopped: bool,
}

/// The chunks of a queue, each by its view.
pub open spec fn chunk_views(q: Seq<Arc<AudioChunk>>) -> Seq<ChunkView> {
    q.map_values(|c: Arc<AudioChunk>| c@)
}

/// Total bytes of the chunks.
pub open spec fn chunk_bytes(c: Seq<ChunkView>) -> int
    decreases c.len(),
{
    if c.len() == 0 {
        0
    } else {
        chunk_bytes(c.drop_last()) + c.last().data.len()
    }
}

/// Bytes per sample frame of a format.
pub open spec fn frame_bytes(f: AudioFormat) -> int {
    f.channels as int * 2
}

/// Sample frames in a chunk.
pub open spec fn chunk_frames(c: ChunkView, f: AudioFormat) -> int {
    c.data.len() as int / frame_bytes(f)
}

/// How many bytes of audio the hub keeps: about two seconds.
pub open spec fn audio_cap(f: AudioFormat) -> int {
    f.rate as int * frame_bytes(f) * 2
}

/// `(a + b) mod 2^64`.
pub open spec fn add64(a: int, b: int) -> u64 {
    ((a + b) % 0x1_0000_0000_0000_0000) as u64
}

impl View for Hub {
    type V = HubState;

    closed spec fn view(&self) -> HubState {
        HubState {
            latest: match self.latest {
                Some(f) => Some(f@),
                None => None,
            },
            seq: self.seq,
            total: self.total,
            bad: self.bad,
            same: self.same,
            bytes: self.bytes,
            last_at_us: self.last_at_us,
            viewers: self.viewers,
            viewer_seq: self.viewer_seq,
            chunks: chunk_views(self.chunks@),
            next_seq: self.next_seq,
            next_pos: self.next_pos,
            audio_bytes: self.audio_bytes,
            queued: self.queued as int,
            audio_fmt: self.audio_fmt,
            stopped: self.stopped,
        }
    }
}

/// What always holds of the hub: the latest frame carries the newest sequence number; the
/// queued chunks have consecutive sequence numbers ending just before the next one, their
/// sample positions follow on from each other, and the byte count is their total.
pub open spec fn hub_wf(s: HubState) -> bool {
    &&& (s.latest matches Some(f) ==> f.seq == s.seq)
    &&& (s.latest is None ==> s.seq == 0)
    &&& s.chunks.len() <= s.next_seq
    &&& (forall|i: int| 0 <= i < s.chunks.len() ==> #[trigger] s.chunks[i].seq == s.next_seq - s.chunks.len() + i)
    &&& s.queued == chunk_bytes(s.chunks)
    &&& (s.chunks.len() > 0 ==> s.audio_fmt is Some)
    &&& (s.audio_fmt matches Some(f) ==> {
        &&& f.channels > 0 ==> s.queued <= if audio_cap(f) > usize::MAX { audio_cap(f) } else { usize::MAX as int }
        &&& forall|i: int| 0 <= i < s.chunks.len() - 1 ==> #[trigger] s.chunks[i + 1].pos == add64(
            s.chunks[i].pos as int,
            chunk_frames(s.chunks[i], f),
        )
        &&& s.chunks.len() > 0 ==> s.next_pos == add64(
            s.chunks.last().pos as int,
            chunk_frames(s.chunks.last(), f),
        )
    })
}

impl Hub {
    /// Whether the hub's invariant holds.
    pub closed spec fn wf(&self) -> bool {
        hub_wf(self@)
    }

    /// An empty hub: no frame, no audio, no audio format, not stopped.
    pub fn new() -> (h: Hub)
        ensures
            h.wf(),
            h@.latest is None,
            h@.seq == 0 && h@.total == 0 && h@.bad == 0 && h@.same == 0 && h@.bytes == 0,
            h@.last_at_us is None,
            h@.viewers == 0 && h@.viewer_seq == 0,
            h@.chunks.len() == 0,
            h@.next_seq == 0 && h@.next_pos == 0 && h@.audio_bytes == 0,
            h@.audio_fmt is None,
            !h@.stopped,
    {
        let h = Hub {
            latest: None,
            seq: 0,
            total: 0,
            bad: 0,
            same: 0,
            bytes: 0,
            last_at_us: None,
            viewers: 0,
            viewer_seq: 0,
            chunks: VecDeque::new(),
            next_seq: 0,
            next_pos: 0,
            audio_bytes: 0,
            queued: 0,
            audio_fmt: None,
            stopped: false,
        };
        assert(h@.chunks =~= Seq::<ChunkView>::empty());
        h
    }

    /// Whether the session is being stopped.
    pub fn is_stopped(&self) -> (r: bool)
        ensures
            r == self@.stopped,
    {
        self.stopped
    }

    /// Marks the session as stopping; every subscriber call answers nothing from now on.
    pub fn request_stop(&mut self)
        requires
            old(self).wf(),
        ensures
            final(self).wf(),
            final(self)@ == (HubState { stopped: true, ..old(self)@ }),
    {
        self.stopped = true;
    }
}

/// Whether a frame is published: at least 1024 bytes starting with the JPEG SOI marker.
pub open spec fn is_publishable(d: Seq<u8>) -> bool {
    d.len() >= 1024 && d[0] == 0xFF && d[1] == 0xD8
}

/// The hub after a frame `d` (`w` x `h`) arrives at time `now_us`: a frame that is not
/// publishable only counts as bad; otherwise it becomes the latest frame with the next
/// sequence number, and `same` counts how many frames in a row repeat the previous one.
pub open spec fn after_submit(s: HubState, d: Seq<u8>, w: u32, h: u32, now_us: u64) -> HubState {
    if !is_publishable(d) {
        HubState { bad: s.bad.wrapping_add(1), ..s }
    } else {
        let repeat = s.latest matches Some(f) && f.data == d;
        let seq = s.seq.wrapping_add(1);
        HubState {
            latest: Some(FrameView { seq, data: d, width: w, height: h, at_us: now_us }),
            seq,
            total: s.total.wrapping_add(1),
            bytes: add64(s.bytes as int, d.len() as int),
            same: if repeat { s.same.wrapping_add(1) } else { 0 },
            last_at_us: Some(now_us),
            ..s
        }
    }
}

/// What a subscriber that has seen frame `last_seq` gets: nothing once stopped; otherwise the
/// latest frame if it is newer (so a slow subscriber skips frames, it never queues them).
pub open spec fn frame_for(s: HubState, last_seq: u64) -> Option<FrameView> {
    if s.stopped {
        None
    } else if s.seq > last_seq {
        s.latest
    } else {
        None
    }
}

impl Hub {
    /// Called for every frame the camera delivers; rejects empty / non-JPEG frames.
    pub fn submit_frame(&mut self, d: &[u8], w: u32, h: u32, now_us: u64) -> (r: Submitted)
        requires
            old(self).wf(),
        ensures
            final(self).wf(),
            final(self)@ == after_submit(old(self)@, d@, w, h, now_us),
            match r {
                Submitted::Rejected(n) => !is_publishable(d@) && n == final(self)@.bad,
                Submitted::Accepted(n) => is_publishable(d@) && n == final(self)@.total,
            },
    {
        if d.len() < 1024 || d[0] != 0xFF || d[1] != 0xD8 {
            self.bad = self.bad.wrapping_add(1);
            return Submitted::Rejected(self.bad);
        }
        let repeat = match &self.latest {
            Some(f) => bytes_eq(f.data.as_slice(), d),
            None => false,
        };
        self.seq = self.seq.wrapping_add(1);
        self.total = self.total.wrapping_add(1);
        let len64 = d.len() as u64;
        let nb = self.bytes.wrapping_add(len64);
        proof {
            assert(nb == add64(self.bytes as int, d.len() as int));
        }
        self.bytes = nb;
        self.same = if repeat { self.same.wrapping_add(1) } else { 0 };
        self.last_at_us = Some(now_us);
        let frame = VideoFrame { seq: self.seq, data: copy_range(d, 0, d.len()), width: w, height: h, at_us: now_us };
        assert(d@.subrange(0, d@.len() as int) =~= d@);
        self.latest = Some(Arc::new(frame));
        Submitted::Accepted(self.total)
    }

    /// The latest frame, if any.
    pub fn latest_frame(&self) -> (r: Option<Arc<VideoFrame>>)
        ensures
            match self@.latest {
                Some(f) => r matches Some(x) && x@ == f,
                None => r is None,
            },
    {
        match &self.latest {
            Some(f) => Some(share(f)),
            None => None,
        }
    }

    /// A frame newer than `*last_seq` (0 = "give me the current picture"), without waiting;
    /// on success `*last_seq` becomes its sequence number.
    pub fn next_frame(&self, last_seq: &mut u64) -> (r: Option<Arc<VideoFrame>>)
        requires
            self.wf(),
        ensures
            match frame_for(self@, *old(last_seq)) {
                Some(f) => r matches Some(x) && x@ == f && *final(last_seq) == f.seq,
                None => r is None && *final(last_seq) == *old(last_seq),
            },
    {
        if self.stopped {
            return None;
        }
        if self.seq > *last_seq {
            match &self.latest {
                Some(f) => {
                    *last_seq = f.seq;
                    return Some(share(f));
                },
                None => {},
            }
        }
        None
    }

    /// When the last frame arrived (monotonic microseconds), if any did.
    pub fn last_frame_at(&self) -> (r: Option<u64>)
        ensures
            r == self@.last_at_us,
    {
        self.last_at_us
    }

    /// The frame counters.
    pub fn video_counts(&self) -> (c: VideoCounts)
        ensures
            c.total == self@.total,
            c.bad == self@.bad,
            c.same == self@.same,
            c.viewers == self@.viewers,
            match self@.latest {
                Some(f) => c.last_len == f.data.len() && c.w == f.width && c.h == f.height,
                None => c.last_len == 0 && c.w == 0 && c.h == 0,
            },
    {
        let (last_len, w, hh) = match &self.latest {
            Some(f) => (f.data.len(), f.width, f.height),
            None => (0, 0, 0),
        };
        VideoCounts { total: self.total, bad: self.bad, same: self.same, last_len, viewers: self.viewers, w, h: hh }
    }

    /// A viewer joins: returns (viewer id, number of viewers now).
    pub fn viewer_join(&mut self) -> (r: (i32, i32))
        requires
            old(self).wf(),
        ensures
            final(self).wf(),
            final(self)@ == (HubState {
                viewer_seq: old(self)@.viewer_seq.wrapping_add(1),
                viewers: old(self)@.viewers.wrapping_add(1),
                ..old(self)@
            }),
            r == (final(self)@.viewer_seq, final(self)@.viewers),
    {
        self.viewer_seq = self.viewer_seq.wrapping_add(1);
        self.viewers = self.viewers.wrapping_add(1);
        (self.viewer_seq, self.viewers)
    }

    /// A viewer leaves.
    pub fn viewer_leave(&mut self)
        requires
            old(self).wf(),
        ensures
            final(self).wf(),
            final(self)@ == (HubState { viewers: old(self)@.viewers.wrapping_sub(1), ..old(self)@ }),
    {
        self.viewers = self.viewers.wrapping_sub(1);
    }
}


/// The queue after trimming: while it holds more than `cap` bytes and more than one chunk,
/// the oldest chunk leaves.
pub open spec fn trim_oldest(c: Seq<ChunkView>, cap: int) -> Seq<ChunkView>
    decreases c.len(),
{
    if chunk_bytes(c) > cap && c.len() > 1 {
        trim_oldest(c.drop_first(), cap)
    } else {
        c
    }
}

/// The hub after a block of PCM `d` arrives at time `now_us`. Without an audio format, with
/// zero channels or with no data nothing changes; otherwise the block becomes the newest chunk,
/// numbered and positioned after the previous one, and the oldest chunks leave until about
/// two seconds of audio remain.
pub open spec fn after_push(s: HubState, d: Seq<u8>, now_us: u64) -> HubState {
    match s.audio_fmt {
        None => s,
        Some(f) => if frame_bytes(f) == 0 || d.len() == 0 {
            s
        } else {
            let c = ChunkView { seq: s.next_seq, pos: s.next_pos, data: d, at_us: now_us };
            let q = trim_oldest(s.chunks.push(c), audio_cap(f));
            HubState {
                chunks: q,
                next_seq: (s.next_seq + 1) as u64,
                next_pos: add64(s.next_pos as int, d.len() as int / frame_bytes(f)),
                audio_bytes: add64(s.audio_bytes as int, d.len() as int),
                queued: chunk_bytes(q),
                ..s
            }
        },
    }
}

/// What an audio subscriber waiting for chunk `n` gets, and its next position: nothing once
/// stopped or while no chunk is queued; a subscriber that fell behind the oldest queued chunk
/// moves forward to it; it gets that chunk if it was already published, else nothing.
pub open spec fn chunk_for(s: HubState, n: u64) -> (Option<ChunkView>, u64) {
    if s.stopped || s.chunks.len() == 0 {
        (None, n)
    } else {
        let first = s.chunks[0].seq;
        let n1 = if n < first { first } else { n };
        if n1 < s.next_seq {
            (Some(s.chunks[n1 - first]), (n1 + 1) as u64)
        } else {
            (None, n1)
        }
    }
}

/// The bytes of a queue are its first chunk's bytes plus those of the rest.
pub proof fn lemma_chunk_bytes_first(c: Seq<ChunkView>)
    requires
        c.len() > 0,
    ensures
        chunk_bytes(c) == c[0].data.len() + chunk_bytes(c.drop_first()),
        chunk_bytes(c.drop_first()) >= 0,
    decreases c.len(),
{
    if c.len() == 1 {
        assert(c.drop_first() =~= Seq::<ChunkView>::empty());
        assert(c.drop_last() =~= Seq::<ChunkView>::empty());
    } else {
        lemma_chunk_bytes_first(c.drop_last());
        assert(c.drop_last().drop_first() =~= c.drop_first().drop_last());
    }
}

/// Trimming keeps a non-empty suffix of the queue, which holds at most `cap` bytes unless it
/// is the newest chunk alone.
pub proof fn lemma_trim_suffix(c: Seq<ChunkView>, cap: int)
    requires
        c.len() > 0,
    ensures
        exists|k: int| 0 <= k < c.len() && #[trigger] trim_oldest(c, cap) == c.subrange(k, c.len() as int),
        chunk_bytes(trim_oldest(c, cap)) <= cap || trim_oldest(c, cap).len() == 1,
    decreases c.len(),
{
    if chunk_bytes(c) > cap && c.len() > 1 {
        lemma_trim_suffix(c.drop_first(), cap);
        let k = choose|k: int| 0 <= k < c.drop_first().len() && #[trigger] trim_oldest(c.drop_first(), cap)
            == c.drop_first().subrange(k, c.drop_first().len() as int);
        assert(c.drop_first().subrange(k, c.drop_first().len() as int) =~= c.subrange(k + 1, c.len() as int));
    } else {
        assert(c.subrange(0, c.len() as int) =~= c);
    }
}

/// Every operation on the hub keeps its invariant: a push of audio among them.
pub proof fn lemma_push_keeps_wf(s: HubState, d: Seq<u8>, now_us: u64)
    requires
        hub_wf(s),
        s.next_seq < u64::MAX,
        d.len() <= usize::MAX,
    ensures
        hub_wf(after_push(s, d, now_us)),
{
    if let Some(f) = s.audio_fmt {
        if frame_bytes(f) != 0 && d.len() != 0 {
            let c = ChunkView { seq: s.next_seq, pos: s.next_pos, data: d, at_us: now_us };
            let p = s.chunks.push(c);
            let cap = audio_cap(f);
            lemma_trim_suffix(p, cap);
            let q = trim_oldest(p, cap);
            let k = choose|k: int| 0 <= k < p.len() && #[trigger] trim_oldest(p, cap) == p.subrange(k, p.len() as int);
            assert(q == p.subrange(k, p.len() as int));
            let t = after_push(s, d, now_us);
            assert(t.chunks == q);
            assert forall|i: int| 0 <= i < q.len() implies #[trigger] q[i].seq == t.next_seq - q.len() + i by {
                assert(q[i] == p[k + i]);
            }
            assert forall|i: int| 0 <= i < q.len() - 1 implies #[trigger] q[i + 1].pos == add64(
                q[i].pos as int,
                chunk_frames(q[i], f),
            ) by {
                assert(q[i] == p[k + i]);
                assert(q[i + 1] == p[k + i + 1]);
                if k + i + 1 == p.len() - 1 {
                    if s.chunks.len() > 0 {
                        assert(s.chunks.last() == p[k + i]);
                    }
                } else {
                    assert(p[k + i] == s.chunks[k + i]);
                    assert(p[k + i + 1] == s.chunks[k + i + 1]);
                }
            }
            assert(q.last() == c);
            if q.len() == 1 {
                assert(q =~= seq![c]);
                assert(q.drop_first() =~= Seq::<ChunkView>::empty());
                lemma_chunk_bytes_first(q);
            }
            assert(t.queued <= if cap > usize::MAX { cap } else { usize::MAX as int });
        }
    }
}

impl Hub {
    /// Sets the session's audio format; the first one set stays.
    pub fn set_audio_format(&mut self, f: AudioFormat)
        requires
            old(self).wf(),
        ensures
            final(self).wf(),
            final(self)@ == (HubState {
                audio_fmt: if old(self)@.audio_fmt is None { Some(f) } else { old(self)@.audio_fmt },
                ..old(self)@
            }),
    {
        if self.audio_fmt.is_none() {
            self.audio_fmt = Some(f);
        }
    }

    /// The session's audio format; `None` = this run has no audio.
    pub fn audio_format(&self) -> (r: Option<AudioFormat>)
        ensures
            r == self@.audio_fmt,
    {
        self.audio_fmt
    }

    /// Publishes a block of PCM that arrived at `now_us`, keeping about two seconds of audio.
    pub fn push_audio(&mut self, data: &[u8], now_us: u64)
        requires
            old(self).wf(),
            old(self)@.next_seq < u64::MAX,
        ensures
            final(self).wf(),
            final(self)@ == after_push(old(self)@, data@, now_us),
    {
        proof {
            lemma_push_keeps_wf(self@, data@, now_us);
        }
        let fmt = match self.audio_fmt {
            Some(f) => f,
            None => return ,
        };
        let fb: usize = fmt.channels as usize * 2;
        if fb == 0 || data.len() == 0 {
            return ;
        }
        let ghost s0 = self@;
        let r128 = fmt.rate as u128;
        let fb128 = fb as u128;
        assert(r128 * fb128 <= 0xffff_ffff * 0x2_0000) by (nonlinear_arith)
            requires
                r128 <= 0xffff_ffff,
                fb128 <= 0x2_0000,
        ;
        let cap: u128 = r128 * fb128 * 2;
        let seq = self.next_seq;
        let pos = self.next_pos;
        self.next_seq = seq + 1;
        let frames: u64 = (data.len() / fb) as u64;
        let np = pos.wrapping_add(frames);
        let nb = self.audio_bytes.wrapping_add(data.len() as u64);
        proof {
            assert(np == add64(pos as int, data.len() as int / frame_bytes(fmt)));
            assert(nb == add64(s0.audio_bytes as int, data.len() as int));
        }
        self.next_pos = np;
        self.audio_bytes = nb;
        self.queued = self.queued + data.len() as u128;
        let chunk = AudioChunk { seq, pos, data: copy_range(data, 0, data.len()), at_us: now_us };
        assert(data@.subrange(0, data@.len() as int) =~= data@);
        let ghost c = chunk@;
        self.chunks.push_back(Arc::new(chunk));
        let ghost target = trim_oldest(s0.chunks.push(c), audio_cap(fmt));
        let ghost t = after_push(s0, data@, now_us);
        proof {
            assert(chunk_views(self.chunks@) =~= s0.chunks.push(c));
            assert(chunk_views(self.chunks@).drop_last() =~= s0.chunks);
        }
        while self.queued > cap && self.chunks.len() > 1
            invariant
                trim_oldest(chunk_views(self.chunks@), audio_cap(fmt)) == target,
                self.queued as int == chunk_bytes(chunk_views(self.chunks@)),
                cap == audio_cap(fmt),
                self.chunks@.len() >= 1,
                self@ == (HubState { chunks: chunk_views(self.chunks@), queued: self.queued as int, ..t }),
                t.chunks == target,
            decreases self.chunks@.len(),
        {
            let ghost before = chunk_views(self.chunks@);
            proof {
                lemma_chunk_bytes_first(before);
            }
            match self.chunks.pop_front() {
                Some(old) => {
                    assert(chunk_views(self.chunks@) =~= before.drop_first());
                    self.queued = self.queued - old.data.len() as u128;
                },
                None => {},
            }
        }
    }

    /// Bytes of audio published so far (modulo 2^64).
    pub fn audio_bytes(&self) -> (r: u64)
        ensures
            r == self@.audio_bytes,
    {
        self.audio_bytes
    }

    /// Sequence number of the next chunk to be published: subscribing here means "live".
    pub fn audio_live_edge(&self) -> (r: u64)
        ensures
            r == self@.next_seq,
    {
        self.next_seq
    }

    /// The chunk with sequence `*next_seq`, without waiting. A subscriber that fell more than
    /// about two seconds behind is moved forward to the oldest chunk still available.
    pub fn next_chunk(&self, next_seq: &mut u64) -> (r: Option<Arc<AudioChunk>>)
        requires
            self.wf(),
        ensures
            ({
                let (want, n) = chunk_for(self@, *old(next_seq));
                &&& *final(next_seq) == n
                &&& match want {
                    Some(c) => r matches Some(x) && x@ == c,
                    None => r is None,
                }
            }),
    {
        if self.stopped || self.chunks.len() == 0 {
            return None;
        }
        let first = self.chunks[0].seq;
        proof {
            assert(chunk_views(self.chunks@)[0] == self.chunks@[0]@);
        }
        if *next_seq < first {
            *next_seq = first;
        }
        if *next_seq < self.next_seq {
            let idx = (*next_seq - first) as usize;
            proof {
                assert(chunk_views(self.chunks@)[idx as int] == self.chunks@[idx as int]@);
            }
            let c = share(&self.chunks[idx]);
            *next_seq = *next_seq + 1;
            return Some(c);
        }
        None
    }
}


/// A video subscriber is never handed a backlog: what it gets is the newest frame, newer than
/// the one it saw.
pub proof fn lemma_subscriber_gets_newest(s: HubState, last_seq: u64)
    requires
        hub_wf(s),
    ensures
        frame_for(s, last_seq) matches Some(f) ==> s.latest == Some(f) && f.seq == s.seq && f.seq > last_seq,
{
}

/// An audio subscriber that keeps up gets every chunk in order: waiting for a chunk that is
/// still queued gives exactly that chunk and moves on to the next number.
pub proof fn lemma_audio_gapless(s: HubState, n: u64)
    requires
        hub_wf(s),
        !s.stopped,
        s.chunks.len() > 0,
        s.chunks[0].seq <= n < s.next_seq,
    ensures
        chunk_for(s, n) matches (Some(c), m) && c.seq == n && m == n + 1,
{
    assert(s.chunks[n - s.chunks[0].seq].seq == n);
}

/// Two chunks handed out one after the other are consecutive and their sample positions
/// follow on from each other.
pub proof fn lemma_audio_positions_continue(s: HubState, n: u64)
    requires
        hub_wf(s),
        chunk_for(s, n).0 is Some,
        chunk_for(s, chunk_for(s, n).1).0 is Some,
    ensures
        ({
            let c1 = chunk_for(s, n).0.unwrap();
            let c2 = chunk_for(s, chunk_for(s, n).1).0.unwrap();
            &&& c2.seq == c1.seq + 1
            &&& c2.pos == add64(c1.pos as int, chunk_frames(c1, s.audio_fmt.unwrap()))
        }),
{
    let first = s.chunks[0].seq;
    let n1 = if n < first { first } else { n };
    let i = n1 - first;
    assert(s.chunks[i].seq == n1);
    assert(s.chunks[i + 1].seq == n1 + 1);
}

/// A subscriber at the live edge gets nothing until the next block is published, and then
/// exactly that block.
pub proof fn lemma_live_edge(s: HubState, d: Seq<u8>, now_us: u64)
    requires
        hub_wf(s),
        !s.stopped,
        s.next_seq < u64::MAX,
        d.len() <= usize::MAX,
        s.audio_fmt matches Some(f) && frame_bytes(f) > 0,
        d.len() > 0,
    ensures
        chunk_for(s, s.next_seq).0 is None,
        chunk_for(after_push(s, d, now_us), s.next_seq) == (
            Some(ChunkView { seq: s.next_seq, pos: s.next_pos, data: d, at_us: now_us }),
            (s.next_seq + 1) as u64,
        ),
{
    let f = s.audio_fmt.unwrap();
    let c = ChunkView { seq: s.next_seq, pos: s.next_pos, data: d, at_us: now_us };
    let p = s.chunks.push(c);
    lemma_trim_suffix(p, audio_cap(f));
    lemma_push_keeps_wf(s, d, now_us);
    let t = after_push(s, d, now_us);
    let q = t.chunks;
    let k = choose|k: int| 0 <= k < p.len() && #[trigger] trim_oldest(p, audio_cap(f)) == p.subrange(k, p.len() as int);
    assert(q.last() == c);
    assert(q[q.len() - 1].seq == s.next_seq);
}

/// The audio ring drops the oldest chunks and keeps the newest: after a push the queue is a
/// suffix of the old one followed by the new chunk, and it holds at most about two seconds of
/// audio unless the new chunk alone is larger.
pub proof fn lemma_ring_keeps_newest(s: HubState, d: Seq<u8>, now_us: u64)
    requires
        hub_wf(s),
        s.audio_fmt matches Some(f) && frame_bytes(f) > 0,
        d.len() > 0,
    ensures
        ({
            let f = s.audio_fmt.unwrap();
            let c = ChunkView { seq: s.next_seq, pos: s.next_pos, data: d, at_us: now_us };
            let q = after_push(s, d, now_us).chunks;
            &&& q.len() > 0
            &&& q.last() == c
            &&& exists|k: int| 0 <= k <= s.chunks.len() && #[trigger] s.chunks.push(c).subrange(k, s.chunks.len() + 1int) == q
            &&& chunk_bytes(q) <= audio_cap(f) || q.len() == 1
        }),
{
    let f = s.audio_fmt.unwrap();
    let c = ChunkView { seq: s.next_seq, pos: s.next_pos, data: d, at_us: now_us };
    let p = s.chunks.push(c);
    lemma_trim_suffix(p, audio_cap(f));
    let k = choose|k: int| 0 <= k < p.len() && #[trigger] trim_oldest(p, audio_cap(f)) == p.subrange(k, p.len() as int);
    assert(p.subrange(k, s.chunks.len() + 1int) == after_push(s, d, now_us).chunks);
}

/// Stopping is final: a stopped hub stays stopped whatever frame or audio arrives (the other
/// calls change only the fields their contracts name), and from then on no video subscriber
/// gets a frame and no audio subscriber gets a chunk or moves.
pub proof fn lemma_stop_is_final(
    s: HubState,
    d: Seq<u8>,
    w: u32,
    h: u32,
    now_us: u64,
    last_seq: u64,
    n: u64,
)
    requires
        s.stopped,
    ensures
        after_submit(s, d, w, h, now_us).stopped,
        after_push(s, d, now_us).stopped,
        frame_for(s, last_seq) is None,
        chunk_for(s, n) == (None::<ChunkView>, n),
{
}

/// A running hub hands a video subscriber its latest frame whenever that frame is newer than
/// the last one the subscriber saw, so a subscriber that keeps up gets every frame; it hands
/// nothing when the subscriber has already seen the latest one.
pub proof fn lemma_newer_frame_is_handed_out(s: HubState, last_seq: u64)
    requires
        hub_wf(s),
    ensures
        !s.stopped && s.latest is Some && s.seq > last_seq ==> frame_for(s, last_seq) == s.latest,
        s.seq <= last_seq ==> frame_for(s, last_seq) is None,
        s.latest matches Some(f) ==> f.seq == s.seq,
{
}

/// A subscriber that has seen the latest frame gets the next frame as soon as it is submitted:
/// that frame, numbered one more, with its data, size and arrival time.
pub proof fn lemma_next_submitted_frame_reaches_subscriber(
    s: HubState,
    d: Seq<u8>,
    w: u32,
    h: u32,
    now_us: u64,
)
    requires
        hub_wf(s),
        !s.stopped,
        s.seq < u64::MAX,
        d.len() >= 1024 && d[0] == 0xFF && d[1] == 0xD8,
    ensures
        frame_for(after_submit(s, d, w, h, now_us), s.seq) == Some(
            FrameView { seq: (s.seq + 1) as u64, data: d, width: w, height: h, at_us: now_us },
        ),
{
}

} // verus!
