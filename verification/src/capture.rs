//! Camera side: which MJPEG mode to ask the card for, and the card's USB ids. Opening the
//! card and streaming are done by the caller through libuvc.

use vstd::prelude::*;
use crate::bytes::le16_at;
use crate::config::Config;
use crate::descriptors::{default_mode, default_mode_spec, MjpegMode};

verus! {

/// The mode to ask the card for, as (width, height, fps).
pub enum ModeChoice {
    /// the card's default MJPEG mode (the frame rate from the command line when given)
    CardDefault(i32, i32, i32),
    /// the mode given on the command line (30 fps when no rate was given)
    Requested(i32, i32, i32),
    /// no size was given and the card lists no MJPEG mode
    NoMjpeg,
}

/// The mode to ask for: the one given on the command line when it names a size, else the
/// card's default among `modes` (what its descriptors list).
pub open spec fn mode_for(width: u32, height: u32, fps: u32, modes: Seq<MjpegMode>) -> ModeChoice {
    if width == 0 || height == 0 {
        match default_mode_spec(modes) {
            Some((w, h, f)) => ModeChoice::CardDefault(
                w as i32,
                h as i32,
                if fps > 0 { fps as i32 } else { f as i32 },
            ),
            None => ModeChoice::NoMjpeg,
        }
    } else {
        ModeChoice::Requested(width as i32, height as i32, if fps > 0 { fps as i32 } else { 30i32 })
    }
}

/// The mode to ask the card for.
pub fn choose_mode(cfg: &Config, modes: &[MjpegMode]) -> (r: ModeChoice)
    ensures
        r == mode_for(cfg.width, cfg.height, cfg.fps, modes@),
{
    if cfg.width == 0 || cfg.height == 0 {
        match default_mode(modes) {
            Some((w, h, f)) => {
                let f2 = if cfg.fps > 0 { cfg.fps } else { f };
                ModeChoice::CardDefault(
                    #[verifier::truncate] (w as i32),
                    #[verifier::truncate] (h as i32),
                    #[verifier::truncate] (f2 as i32),
                )
            },
            None => ModeChoice::NoMjpeg,
        }
    } else {
        let f: i32 = if cfg.fps > 0 { #[verifier::truncate] (cfg.fps as i32) } else { 30 };
        ModeChoice::Requested(#[verifier::truncate] (cfg.width as i32), #[verifier::truncate] (cfg.height as i32), f)
    }
}

/// The vendor and product ids of a standard device descriptor of which `n` bytes arrived
/// (idVendor at bytes 8-9, idProduct at 10-11); none when fewer than 12 bytes arrived.
pub fn device_ids(desc: &[u8], n: i32) -> (r: Option<(u16, u16)>)
    requires
        desc@.len() >= 12,
    ensures
        match r {
            Some((v, p)) => n >= 12 && v == le16_at(desc@, 8) && p == le16_at(desc@, 10),
            None => n < 12,
        },
{
    if n < 12 {
        return None;
    }
    let v = desc[8] as u16 + desc[9] as u16 * 256;
    let p = desc[10] as u16 + desc[11] as u16 * 256;
    Some((v, p))
}

/// A size given on the command line is what the card is asked for, at the given frame rate
/// (30 fps when none is given); without a size the card's own default mode is asked for, at the
/// given frame rate when there is one.
pub proof fn lemma_requested_mode_is_used(width: u32, height: u32, fps: u32, modes: Seq<MjpegMode>)
    ensures
        width > 0 && height > 0 && fps > 0 ==> mode_for(width, height, fps, modes) == ModeChoice::Requested(
            width as i32,
            height as i32,
            fps as i32,
        ),
        width > 0 && height > 0 && fps == 0 ==> mode_for(width, height, fps, modes) == ModeChoice::Requested(
            width as i32,
            height as i32,
            30i32,
        ),
        (width == 0 || height == 0) && fps > 0 ==> (mode_for(width, height, fps, modes) matches ModeChoice::CardDefault(
            _,
            _,
            f,
        ) ==> f == fps as i32),
        (width == 0 || height == 0) ==> (mode_for(width, height, fps, modes) is NoMjpeg <==> modes.len() == 0),
{
}

} // verus!
