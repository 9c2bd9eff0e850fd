//! uvcweb core: the verified logic of a UVC MJPEG capture-card server that streams the
//! picture and the card's own USB audio to a web browser and to RTSP players.

pub mod bytes;
pub mod capture;
pub mod config;
pub mod descriptors;
pub mod engine;
pub mod hub;
pub mod jpeg;
pub mod log;
pub mod protocols;
pub mod rtp;
pub mod text;
pub mod usbaudio;
