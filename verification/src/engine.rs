//! The session supervisor's decisions: once a second it looks at the frame counters, says
//! what the log should report, and restarts the camera stream when the card goes quiet.
//! The caller runs the loop, reads the clock (monotonic microseconds) and does the work.

use vstd::prelude::*;

verus! {

/// No frame for this long counts as stopped.
pub const STALL_US: u64 = 3_000_000;
/// No frame for this long since the stream (re)started restarts it.
pub const QUIET_US: u64 = 4_000_000;
/// This many identical frames in a row mean a static picture.
pub const SAME_LIMIT: u64 = 90;

/// What the supervisor remembers between checks.
pub struct Watch {
    /// when the session started
    pub start_us: u64,
    /// when the previous check ran
    pub prev_us: u64,
    /// frame count at the previous check
    pub prev_frames: u64,
    /// checks so far
    pub tick: u32,
    /// frames are reported as stopped
    pub stalled: bool,
    /// the picture is reported as static
    pub flagged_same: bool,
    /// when the stream was last (re)started
    pub stream_us: u64,
    pub restarts: u32,
}

/// What one check found.
pub struct Check {
    /// frames since the previous check, and the time since it (for the frame rate)
    pub frames: u64,
    pub elapsed_us: u64,
    /// no frame has arrived yet (reported every fifth check)
    pub no_frames_yet: bool,
    /// frames stopped arriving
    pub stopped: bool,
    /// frames arrive again
    pub resumed: bool,
    /// the last frames are identical
    pub identical: bool,
    /// the picture changes again
    pub changing: bool,
    /// time for the status line (every fifth check)
    pub status_line: bool,
    /// restart the stream: how long the card was quiet, and the restart's number
    pub restart: Option<(u64, u32)>,
}

/// `a - b`, or 0 when `b` is later.
pub open spec fn since(a: u64, b: u64) -> u64 {
    if a >= b { (a - b) as u64 } else { 0 }
}

/// What a check at `now_us` may assume: the frame count does not go backwards and the
/// counters have room.
pub open spec fn check_ok(w: Watch, now_us: u64, total: u64) -> bool {
    since(now_us, w.prev_us) >= 1_000_000 ==> {
        &&& total >= w.prev_frames
        &&& w.tick < u32::MAX
        &&& w.restarts < u32::MAX
    }
}

/// The supervisor after a check at `now_us`, and what the check found: nothing when less
/// than a second passed since the previous one. Otherwise: no frames yet (reported every
/// fifth check); frames stopped (no frame for 3 s; reported once); frames resumed; the
/// picture is static (90 identical frames; reported once) or changes again; the status line
/// every fifth check; and a restart when nothing arrived for 4 s since the last frame or the
/// last (re)start of the stream.
pub open spec fn check_spec(o: Watch, now_us: u64, total: u64, same: u64, last_frame_us: Option<u64>) -> (Watch, Option<Check>) {
    if since(now_us, o.prev_us) < 1_000_000 {
        (o, None)
    } else {
        let tick = (o.tick + 1) as u32;
        let age = match last_frame_us {
            Some(t) => since(now_us, t),
            None => 0,
        };
        let nothing = total == 0;
        let stop = !nothing && age > STALL_US;
        let live = !nothing && !stop;
        let identical = live && same >= SAME_LIMIT && !o.flagged_same;
        let changing = live && !identical && same == 0 && o.flagged_same;
        let last_act = match last_frame_us {
            Some(t) => if t > o.stream_us { t } else { o.stream_us },
            None => o.stream_us,
        };
        let quiet = since(now_us, last_act);
        let restart = quiet > QUIET_US;
        (
            Watch {
                prev_us: now_us,
                prev_frames: total,
                tick,
                stalled: if stop { true } else if live { false } else { o.stalled },
                flagged_same: if identical { true } else if changing { false } else { o.flagged_same },
                restarts: if restart { (o.restarts + 1) as u32 } else { o.restarts },
                ..o
            },
            Some(Check {
                frames: (total - o.prev_frames) as u64,
                elapsed_us: since(now_us, o.prev_us),
                no_frames_yet: nothing && tick % 5 == 0,
                stopped: stop && !o.stalled,
                resumed: live && o.stalled,
                identical,
                changing,
                status_line: live && tick % 5 == 0,
                restart: if restart { Some((quiet, (o.restarts + 1) as u32)) } else { None },
            }),
        )
    }
}

/// A stall is reported once: after a check that reports frames stopped, the next check does
/// not report it again; likewise a static picture.
pub proof fn lemma_reported_once(
    w: Watch,
    now1: u64,
    total1: u64,
    same1: u64,
    last1: Option<u64>,
    now2: u64,
    total2: u64,
    same2: u64,
    last2: Option<u64>,
)
    ensures
        ({
            let (w1, c1) = check_spec(w, now1, total1, same1, last1);
            let c2 = check_spec(w1, now2, total2, same2, last2).1;
            &&& (c1 matches Some(x) && x.stopped) ==> !(c2 matches Some(y) && y.stopped)
            &&& (c1 matches Some(x) && x.identical) ==> !(c2 matches Some(y) && y.identical)
        }),
{
}

impl Watch {
    /// A supervisor for a session that started (and started streaming) at `now_us`.
    pub fn new(now_us: u64) -> (w: Watch)
        ensures
            w == (Watch {
                start_us: now_us,
                prev_us: now_us,
                prev_frames: 0,
                tick: 0,
                stalled: false,
                flagged_same: false,
                stream_us: now_us,
                restarts: 0,
            }),
    {
        Watch {
            start_us: now_us,
            prev_us: now_us,
            prev_frames: 0,
            tick: 0,
            stalled: false,
            flagged_same: false,
            stream_us: now_us,
            restarts: 0,
        }
    }

    /// The check at `now_us`, given the frame counters (`total` published, `same` identical
    /// in a row) and when the last frame arrived; none when less than a second passed since
    /// the previous check.
    pub fn check(&mut self, now_us: u64, total: u64, same: u64, last_frame_us: Option<u64>) -> (r: Option<Check>)
        requires
            check_ok(*old(self), now_us, total),
        ensures
            (*final(self), r) == check_spec(*old(self), now_us, total, same, last_frame_us),
    {
        let elapsed = if now_us >= self.prev_us { now_us - self.prev_us } else { 0 };
        if elapsed < 1_000_000 {
            return None;
        }
        let frames = total - self.prev_frames;
        self.prev_frames = total;
        self.prev_us = now_us;
        self.tick = self.tick + 1;
        let age: u64 = match last_frame_us {
            Some(t) => if now_us >= t { now_us - t } else { 0 },
            None => 0,
        };
        let mut no_frames_yet = false;
        let mut stopped = false;
        let mut resumed = false;
        let mut identical = false;
        let mut changing = false;
        let mut status_line = false;
        if total == 0 {
            no_frames_yet = self.tick % 5 == 0;
        } else if age > STALL_US {
            if !self.stalled {
                stopped = true;
                self.stalled = true;
            }
        } else {
            if self.stalled {
                resumed = true;
                self.stalled = false;
            }
            if same >= SAME_LIMIT && !self.flagged_same {
                identical = true;
                self.flagged_same = true;
            } else if same == 0 && self.flagged_same {
                changing = true;
                self.flagged_same = false;
            }
            status_line = self.tick % 5 == 0;
        }
        let last_act = match last_frame_us {
            Some(t) => if t > self.stream_us { t } else { self.stream_us },
            None => self.stream_us,
        };
        let quiet = if now_us >= last_act { now_us - last_act } else { 0 };
        let restart = if quiet > QUIET_US {
            self.restarts = self.restarts + 1;
            Some((quiet, self.restarts))
        } else {
            None
        };
        Some(Check { frames, elapsed_us: elapsed, no_frames_yet, stopped, resumed, identical, changing, status_line, restart })
    }

    /// The stream was restarted at `now_us`.
    pub fn stream_restarted(&mut self, now_us: u64)
        ensures
            *final(self) == (Watch { stream_us: now_us, ..*old(self) }),
    {
        self.stream_us = now_us;
    }
}

/// The audio part of the status line: the kilobytes received, a warning when nothing was,
/// or nothing when the run has no audio.
pub open spec fn audio_note_text(has_audio: bool, bytes: u64) -> Seq<char> {
    if !has_audio {
        Seq::empty()
    } else if bytes > 0 {
        ", audio "@ + crate::text::dec_chars((bytes / 1024) as nat) + " KB"@
    } else {
        ", audio: NO DATA"@
    }
}

/// The audio part of the status line.
pub fn audio_note(has_audio: bool, bytes: u64) -> (s: String)
    ensures
        s@ == audio_note_text(has_audio, bytes),
{
    let mut s = String::new();
    if has_audio {
        if bytes > 0 {
            s.append(", audio ");
            crate::text::push_dec(&mut s, bytes / 1024);
            s.append(" KB");
        } else {
            s.append(", audio: NO DATA");
        }
    }
    proof {
        if !has_audio {
            assert(s@ =~= Seq::<char>::empty());
        }
    }
    s
}

} // verus!
