//! The protocol registry: which protocols can be served, under which names and default ports.
//! The command line (`-P name`, `-p name=port`, `--help`) is driven by this list.

use vstd::prelude::*;

pub mod rtsp;
pub mod web;

verus! {

/// One servable protocol.
#[derive(Clone, Copy)]
pub struct ProtocolInfo {
    pub name: &'static str,
    pub about: &'static str,
    pub default_port: u16,
}

impl View for ProtocolInfo {
    type V = (Seq<char>, Seq<char>, u16);

    open spec fn view(&self) -> (Seq<char>, Seq<char>, u16) {
        (self.name@, self.about@, self.default_port)
    }
}

/// The registry: (name, description, default port) of each protocol, in order.
pub open spec fn registry_spec() -> Seq<(Seq<char>, Seq<char>, u16)> {
    seq![
        ("web"@, "HTTP viewer page, MJPEG /stream, WAV /audio, /snapshot, /status"@, 8080u16),
        ("rtsp"@, "RTSP server: MJPEG (RTP/JPEG) + PCM audio, over TCP or UDP"@, 8554u16),
    ]
}

/// Index of the registry entry called `name`, if any.
pub open spec fn registry_index(name: Seq<char>) -> Option<int> {
    if name == registry_spec()[0].0 {
        Some(0)
    } else if name == registry_spec()[1].0 {
        Some(1)
    } else {
        None
    }
}

/// Number of registered protocols.
pub fn registry_len() -> (n: usize)
    ensures
        n == registry_spec().len(),
{
    2
}

/// The registry entry at `i`.
pub fn registry_entry(i: usize) -> (p: ProtocolInfo)
    requires
        i < registry_spec().len(),
    ensures
        p@ == registry_spec()[i as int],
{
    if i == 0 {
        ProtocolInfo {
            name: "web",
            about: "HTTP viewer page, MJPEG /stream, WAV /audio, /snapshot, /status",
            default_port: 8080,
        }
    } else {
        ProtocolInfo {
            name: "rtsp",
            about: "RTSP server: MJPEG (RTP/JPEG) + PCM audio, over TCP or UDP",
            default_port: 8554,
        }
    }
}

/// The registered protocol called `name`.
pub fn find(name: &str) -> (r: Option<ProtocolInfo>)
    ensures
        match registry_index(name@) {
            Some(i) => r matches Some(p) && p@ == registry_spec()[i],
            None => r is None,
        },
{
    if crate::text::str_is(name, "web") {
        Some(registry_entry(0))
    } else if crate::text::str_is(name, "rtsp") {
        Some(registry_entry(1))
    } else {
        None
    }
}

/// Whether the two registered names differ (so a name picks at most one protocol).
pub proof fn lemma_registry_names_distinct()
    ensures
        registry_spec()[0].0 != registry_spec()[1].0,
{
    reveal_strlit("web");
    reveal_strlit("rtsp");
    assert(registry_spec()[0].0.len() != registry_spec()[1].0.len());
}

} // verus!
