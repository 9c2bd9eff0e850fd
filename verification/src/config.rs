//! Command line parsing. Protocol names and ports come from the protocol registry, so adding a
//! protocol never requires touching this file.

use vstd::prelude::*;
use crate::bytes::{last_where, lemma_last_where_concat, lemma_last_where_found, lemma_last_where_single};
use crate::protocols::{registry_entry, registry_index, registry_len, registry_spec};
use crate::text::{
    chars_of, dec_chars, find_char, find_char_exec, parse_int, parse_range, push_dec, push_range, range_eq, str_is,
    string_from, to_lower, trim_bounds, trim_range, unicode_lower,
};

verus! {

/// What the program is asked to do.
pub struct Config {
    pub fd: i32,
    /// 0 = use the card's default MJPEG mode
    pub width: u32,
    pub height: u32,
    pub fps: u32,
    pub audio: bool,
    /// preferred; the card's own rate wins if it differs
    pub audio_rate: u32,
    pub audio_channels: u16,
    /// listen on all interfaces instead of loopback
    pub lan: bool,
    /// chosen protocols with their ports
    pub protocols: Vec<(String, u16)>,
    /// RTSP: shift video timestamps later (+) / earlier (-)
    pub av_offset_ms: i32,
}

/// The mathematical content of a [`Config`].
pub struct ConfigSpec {
    pub fd: i32,
    pub width: u32,
    pub height: u32,
    pub fps: u32,
    pub audio: bool,
    pub audio_rate: u32,
    pub audio_channels: u16,
    pub lan: bool,
    pub protocols: Seq<(Seq<char>, u16)>,
    pub av_offset_ms: i32,
}

impl View for Config {
    type V = ConfigSpec;

    open spec fn view(&self) -> ConfigSpec {
        ConfigSpec {
            fd: self.fd,
            width: self.width,
            height: self.height,
            fps: self.fps,
            audio: self.audio,
            audio_rate: self.audio_rate,
            audio_channels: self.audio_channels,
            lan: self.lan,
            protocols: self.protocols@.map_values(|p: (String, u16)| (p.0@, p.1)),
            av_offset_ms: self.av_offset_ms,
        }
    }
}

/// Library defaults: web viewer on port 8080, audio on at 48 kHz stereo, the card's own mode.
pub open spec fn for_fd_spec(fd: i32) -> ConfigSpec {
    ConfigSpec {
        fd,
        width: 0,
        height: 0,
        fps: 0,
        audio: true,
        audio_rate: 48000,
        audio_channels: 2,
        lan: false,
        protocols: seq![("web"@, 8080u16)],
        av_offset_ms: 0,
    }
}

impl Config {
    /// Defaults for library use (the Android app fills in what it needs afterwards):
    /// web viewer on port 8080, audio on, the card's own video mode.
    pub fn for_fd(fd: i32) -> (c: Config)
        ensures
            c@ == for_fd_spec(fd),
    {
        let mut protocols: Vec<(String, u16)> = Vec::new();
        protocols.push((String::from_str("web"), 8080));
        let c = Config {
            fd,
            width: 0,
            height: 0,
            fps: 0,
            audio: true,
            audio_rate: 48000,
            audio_channels: 2,
            lan: false,
            protocols,
            av_offset_ms: 0,
        };
        assert(c@.protocols =~= seq![("web"@, 8080u16)]);
        c
    }
}

/// `name` left-aligned in a field of 6 characters.
pub open spec fn pad6(name: Seq<char>) -> Seq<char> {
    if name.len() < 6 {
        name + Seq::new((6 - name.len()) as nat, |i: int| ' ')
    } else {
        name
    }
}

/// The help line of one registered protocol.
pub open spec fn protocol_line(p: (Seq<char>, Seq<char>, u16)) -> Seq<char> {
    "  "@ + pad6(p.0) + " "@ + p.1 + " (default port "@ + dec_chars(p.2 as nat) + ")\n"@
}

/// The help lines of the registered protocols from index `i` on.
pub open spec fn protocol_lines(i: int) -> Seq<char>
    decreases registry_spec().len() - i,
{
    if i < 0 || i >= registry_spec().len() {
        Seq::empty()
    } else {
        protocol_line(registry_spec()[i]) + protocol_lines(i + 1)
    }
}

/// The help text.
pub open spec fn usage_text() -> Seq<char> {
    "usage: termux-usb -r -e \"./uvcweb [options]\" DEVICE\n\nvideo / audio:\n  -w W -h H -f FPS   MJPEG mode (default: the card's own default mode)\n  -a usb|off         audio from the card's USB audio interface (default) or none\n  -ar RATE -ac CH    preferred audio rate / channels (the card's own values win)\n\nserving:\n  -P LIST            protocols to serve, comma separated (default: web)\n  -p [NAME=]PORT     port; use NAME=PORT when serving several protocols\n  -l                 listen on the LAN too (no password!)\n  -o MS              RTSP audio/video offset in ms (+ = video later)\n\navailable protocols:\n"@ + protocol_lines(0) + "\nexamples:\n  -w 640 -h 480 -f 30                 web viewer only\n  -w 640 -h 480 -f 30 -P rtsp         RTSP only\n  -w 640 -h 480 -f 30 -P web,rtsp -l  both, reachable from the LAN\n"@
}

/// The help lists the registered protocols one line each, in registry order: the list in the
/// help is the lines of the registry entries joined in turn.
pub proof fn lemma_usage_lists_registry()
    ensures
        protocol_lines(0) == registry_spec().fold_left(
            Seq::<char>::empty(),
            |acc: Seq<char>, p: (Seq<char>, Seq<char>, u16)| acc + protocol_line(p),
        ),
{
    let f = |acc: Seq<char>, p: (Seq<char>, Seq<char>, u16)| acc + protocol_line(p);
    let r = registry_spec();
    assert(r.subrange(0, 0).fold_left(Seq::<char>::empty(), f) == Seq::<char>::empty());
    assert(r.subrange(0, 1).drop_last() =~= r.subrange(0, 0));
    assert(r.subrange(0, 2).drop_last() =~= r.subrange(0, 1));
    assert(r.subrange(0, 2) =~= r);
    assert(r.subrange(0, 1).fold_left(Seq::<char>::empty(), f) == Seq::<char>::empty() + protocol_line(r[0]));
    assert(r.fold_left(Seq::<char>::empty(), f) == Seq::<char>::empty() + protocol_line(r[0]) + protocol_line(r[1]));
    assert(protocol_lines(2) == Seq::<char>::empty());
    assert(protocol_lines(1) =~= protocol_line(r[1]));
    assert(protocol_lines(0) =~= Seq::<char>::empty() + protocol_line(r[0]) + protocol_line(r[1]));
}

/// The help text: options, the registered protocols, examples.
pub fn usage() -> (s: String)
    ensures
        s@ == usage_text(),
{
    let mut s = String::from_str("usage: termux-usb -r -e \"./uvcweb [options]\" DEVICE\n\nvideo / audio:\n  -w W -h H -f FPS   MJPEG mode (default: the card's own default mode)\n  -a usb|off         audio from the card's USB audio interface (default) or none\n  -ar RATE -ac CH    preferred audio rate / channels (the card's own values win)\n\nserving:\n  -P LIST            protocols to serve, comma separated (default: web)\n  -p [NAME=]PORT     port; use NAME=PORT when serving several protocols\n  -l                 listen on the LAN too (no password!)\n  -o MS              RTSP audio/video offset in ms (+ = video later)\n\navailable protocols:\n");
    let n = registry_len();
    let mut i: usize = 0;
    while i < n
        invariant
            i <= n,
            n == registry_spec().len(),
            s@ + protocol_lines(i as int) == "usage: termux-usb -r -e \"./uvcweb [options]\" DEVICE\n\nvideo / audio:\n  -w W -h H -f FPS   MJPEG mode (default: the card's own default mode)\n  -a usb|off         audio from the card's USB audio interface (default) or none\n  -ar RATE -ac CH    preferred audio rate / channels (the card's own values win)\n\nserving:\n  -P LIST            protocols to serve, comma separated (default: web)\n  -p [NAME=]PORT     port; use NAME=PORT when serving several protocols\n  -l                 listen on the LAN too (no password!)\n  -o MS              RTSP audio/video offset in ms (+ = video later)\n\navailable protocols:\n"@ + protocol_lines(0),
        decreases n - i,
    {
        let p = registry_entry(i);
        let ghost before = s@;
        s.append("  ");
        s.append(p.name);
        let w = p.name.unicode_len();
        let mut k = w;
        while k < 6
            invariant
                w <= k <= 6 || (w > 6 && k == w),
                w == p.name@.len(),
                s@ == before + "  "@ + p.name@ + Seq::new((k - w) as nat, |j: int| ' '),
            decreases 6 - k,
        {
            s.append(" ");
            proof { reveal_strlit(" "); }
            k += 1;
            assert(s@ =~= before + "  "@ + p.name@ + Seq::new((k - w) as nat, |j: int| ' '));
        }
        assert(before + "  "@ + p.name@ + Seq::new((k - w) as nat, |j: int| ' ') =~= before + "  "@ + pad6(p.name@));
        s.append(" ");
        s.append(p.about);
        s.append(" (default port ");
        push_dec(&mut s, p.default_port as u64);
        s.append(")\n");
        assert(s@ =~= before + protocol_line(registry_spec()[i as int]));
        i += 1;
    }
    s.append("\nexamples:\n  -w 640 -h 480 -f 30                 web viewer only\n  -w 640 -h 480 -f 30 -P rtsp         RTSP only\n  -w 640 -h 480 -f 30 -P web,rtsp -l  both, reachable from the LAN\n");
    s
}

/// The registered protocol names separated by ", ", from index `i` on.
pub open spec fn names_from(i: int) -> Seq<char>
    decreases registry_spec().len() - i,
{
    if i < 0 || i >= registry_spec().len() {
        Seq::empty()
    } else if i == registry_spec().len() - 1 {
        registry_spec()[i].0
    } else {
        registry_spec()[i].0 + ", "@ + names_from(i + 1)
    }
}

/// The registered protocol names, comma separated.
pub fn protocol_names() -> (s: String)
    ensures
        s@ == names_from(0),
{
    let mut s = String::new();
    let n = registry_len();
    let mut i: usize = 0;
    while i < n
        invariant
            i <= n,
            n == registry_spec().len(),
            s@ + names_from(i as int) == names_from(0),
        decreases n - i,
    {
        let p = registry_entry(i);
        let ghost before = s@;
        s.append(p.name);
        if i + 1 < n {
            s.append(", ");
            assert(s@ + names_from(i + 1) =~= before + names_from(i as int));
        } else {
            assert(s@ + names_from(i + 1) =~= before + names_from(i as int));
        }
        i += 1;
    }
    assert(s@ =~= s@ + names_from(n as int));
    s
}

/// The protocol a `-p` argument names: any (`-p PORT`), or the one given as `-p NAME=PORT`
/// (argument index and the character range of the trimmed name).
#[derive(Clone, Copy)]
pub enum PortName {
    Any,
    Named(usize, usize, usize),
}

/// Why a command line is refused. Indices point into the argument list; ranges are character
/// ranges inside that argument.
#[derive(Clone, Copy)]
pub enum ConfigError {
    /// too few arguments, or `--help`
    Usage,
    /// the option at this index has no value
    NeedsValue(usize),
    /// option index, value index, character range of the number
    BadNumber(usize, usize, usize, usize),
    /// the last argument (the file descriptor) is not a number
    BadFd(usize),
    /// `-a` with a value other than `usb` or `off` (value index)
    AudioMode(usize),
    /// `-P` names an unknown protocol (value index, range of the trimmed name)
    UnknownProtocol(usize, usize, usize),
    /// not an option (index)
    UnknownOption(usize),
    /// `-p NAME=PORT` names an unknown protocol (value index, range of the trimmed name)
    UnknownPortProtocol(usize, usize, usize),
    /// `-p PORT` while serving several protocols
    AmbiguousPort,
    /// two protocols would get the same port (port, registry index of the second)
    PortClash(u16, usize),
}

/// What the options read so far have set.
pub struct OptState {
    pub width: u32,
    pub height: u32,
    pub fps: u32,
    pub audio: bool,
    pub audio_rate: u32,
    pub audio_channels: u16,
    pub lan: bool,
    pub av_offset_ms: i32,
    /// registry indices of the protocols asked for, each once, in order
    pub names: Seq<int>,
    /// the `-p` arguments, in order
    pub ports: Seq<(PortName, u16)>,
}

/// The option state before the first option.
pub open spec fn opts_init() -> OptState {
    OptState {
        width: 0,
        height: 0,
        fps: 0,
        audio: true,
        audio_rate: 48000,
        audio_channels: 2,
        lan: false,
        av_offset_ms: 0,
        names: Seq::empty(),
        ports: Seq::empty(),
    }
}

/// The protocols of a `-P` list (value `v` at argument index `arg`) from character `start` on,
/// added to `names`: pieces between commas, trimmed; empty pieces are skipped; names are
/// lower-cased (Unicode); a name already listed is not added again.
pub open spec fn proto_list(v: Seq<char>, arg: usize, start: int, names: Seq<int>) -> Result<Seq<int>, ConfigError>
    decreases v.len() - start,
{
    if start < 0 || start > v.len() {
        Ok(names)
    } else {
        let c = find_char(v, ',', start);
        let (a, b) = trim_range(v, start, c);
        let step: Result<Seq<int>, ConfigError> = if a == b {
            Ok(names)
        } else {
            match registry_index(unicode_lower(v.subrange(a, b))) {
                None => Err(ConfigError::UnknownProtocol(arg, a as usize, b as usize)),
                Some(k) => Ok(
                    if names.contains(k) {
                        names
                    } else {
                        names.push(k)
                    },
                ),
            }
        };
        match step {
            Err(e) => Err(e),
            Ok(n2) => if c < start || c >= v.len() {
                Ok(n2)
            } else {
                proto_list(v, arg, c + 1, n2)
            },
        }
    }
}

/// A `-p` argument (option at `opt`, value at `opt + 1`): `NAME=PORT` splits at the first `=`,
/// the name trimmed, the port the rest as it is; otherwise the whole value is the port.
pub open spec fn port_arg(args: Seq<Seq<char>>, opt: usize) -> Result<(PortName, u16), ConfigError> {
    let val = (opt + 1) as usize;
    let v = args[val as int];
    let e = find_char(v, '=', 0);
    if e < v.len() {
        let (a, b) = trim_range(v, 0, e);
        match parse_int(v.subrange(e + 1, v.len() as int), false, 0, 65535) {
            Some(p) => Ok((PortName::Named(val, a as usize, b as usize), p as u16)),
            None => Err(ConfigError::BadNumber(opt, val, (e + 1) as usize, v.len() as usize)),
        }
    } else {
        match parse_int(v, false, 0, 65535) {
            Some(p) => Ok((PortName::Any, p as u16)),
            None => Err(ConfigError::BadNumber(opt, val, 0, v.len() as usize)),
        }
    }
}

/// The value of a numeric option at `opt` (value at `opt + 1`) in range `lo..=hi`.
pub open spec fn num_opt(args: Seq<Seq<char>>, opt: usize, signed: bool, lo: int, hi: int) -> Result<int, ConfigError> {
    let v = args[opt + 1];
    match parse_int(v, signed, lo, hi) {
        Some(x) => Ok(x),
        None => Err(ConfigError::BadNumber(opt, (opt + 1) as usize, 0, v.len() as usize)),
    }
}

/// Whether `a` is an option that takes a value.
pub open spec fn takes_value(a: Seq<char>) -> bool {
    a == "-w"@ || a == "-h"@ || a == "-f"@ || a == "-ar"@ || a == "-ac"@ || a == "-o"@ || a == "-a"@
        || a == "-P"@ || a == "-p"@
}

/// The effect of the option at `i`, whose value is at `i + 1`.
pub open spec fn value_option(args: Seq<Seq<char>>, i: usize, st: OptState) -> Result<OptState, ConfigError> {
    let a = args[i as int];
    let v = args[i + 1];
    if a == "-w"@ {
        match num_opt(args, i, false, 0, 0xFFFF_FFFF) {
            Ok(x) => Ok(OptState { width: x as u32, ..st }),
            Err(e) => Err(e),
        }
    } else if a == "-h"@ {
        match num_opt(args, i, false, 0, 0xFFFF_FFFF) {
            Ok(x) => Ok(OptState { height: x as u32, ..st }),
            Err(e) => Err(e),
        }
    } else if a == "-f"@ {
        match num_opt(args, i, false, 0, 0xFFFF_FFFF) {
            Ok(x) => Ok(OptState { fps: x as u32, ..st }),
            Err(e) => Err(e),
        }
    } else if a == "-ar"@ {
        match num_opt(args, i, false, 0, 0xFFFF_FFFF) {
            Ok(x) => Ok(OptState { audio_rate: x as u32, ..st }),
            Err(e) => Err(e),
        }
    } else if a == "-ac"@ {
        match num_opt(args, i, false, 0, 0xFFFF) {
            Ok(x) => Ok(OptState { audio_channels: x as u16, ..st }),
            Err(e) => Err(e),
        }
    } else if a == "-o"@ {
        match num_opt(args, i, true, -0x8000_0000, 0x7FFF_FFFF) {
            Ok(x) => Ok(OptState { av_offset_ms: x as i32, ..st }),
            Err(e) => Err(e),
        }
    } else if a == "-a"@ {
        if v == "usb"@ {
            Ok(OptState { audio: true, ..st })
        } else if v == "off"@ {
            Ok(OptState { audio: false, ..st })
        } else {
            Err(ConfigError::AudioMode((i + 1) as usize))
        }
    } else if a == "-P"@ {
        match proto_list(v, (i + 1) as usize, 0, st.names) {
            Ok(names) => Ok(OptState { names, ..st }),
            Err(e) => Err(e),
        }
    } else {
        match port_arg(args, i) {
            Ok(p) => Ok(OptState { ports: st.ports.push(p), ..st }),
            Err(e) => Err(e),
        }
    }
}

/// Reads the options from index `i` up to (not including) the last argument.
pub open spec fn parse_opts(args: Seq<Seq<char>>, last: int, i: int, st: OptState) -> Result<OptState, ConfigError>
    decreases last - i,
{
    if i < 1 || i >= last {
        Ok(st)
    } else if args[i] == "-l"@ {
        parse_opts(args, last, i + 1, OptState { lan: true, ..st })
    } else if takes_value(args[i]) {
        if i + 1 >= last {
            Err(ConfigError::NeedsValue(i as usize))
        } else {
            match value_option(args, i as usize, st) {
                Ok(st2) => parse_opts(args, last, i + 2, st2),
                Err(e) => Err(e),
            }
        }
    } else {
        Err(ConfigError::UnknownOption(i as usize))
    }
}

/// The registry index a `-p NAME=PORT` name stands for, if any.
pub open spec fn port_name_index(args: Seq<Seq<char>>, n: PortName) -> Option<int> {
    match n {
        PortName::Any => None,
        PortName::Named(arg, a, b) => registry_index(unicode_lower(args[arg as int].subrange(a as int, b as int))),
    }
}

/// The first `-p NAME=PORT` from index `j` on whose name is not a registered protocol.
pub open spec fn check_port_names(args: Seq<Seq<char>>, ports: Seq<(PortName, u16)>, j: int) -> Result<(), ConfigError>
    decreases ports.len() - j,
{
    if j < 0 || j >= ports.len() {
        Ok(())
    } else {
        match ports[j].0 {
            PortName::Named(arg, a, b) => if port_name_index(args, ports[j].0) is None {
                Err(ConfigError::UnknownPortProtocol(arg, a, b))
            } else {
                check_port_names(args, ports, j + 1)
            },
            PortName::Any => check_port_names(args, ports, j + 1),
        }
    }
}

/// The port of protocol `n`: the last `-p` that names it, or a plain `-p PORT` when it is the
/// only protocol (a plain `-p PORT` with several protocols is an error); else `cur`.
pub open spec fn port_for(
    args: Seq<Seq<char>>,
    ports: Seq<(PortName, u16)>,
    n: int,
    single: bool,
    j: int,
    cur: u16,
) -> Result<u16, ConfigError>
    decreases ports.len() - j,
{
    if j < 0 || j >= ports.len() {
        Ok(cur)
    } else {
        match ports[j].0 {
            PortName::Any => if single {
                port_for(args, ports, n, single, j + 1, ports[j].1)
            } else {
                Err(ConfigError::AmbiguousPort)
            },
            PortName::Named(_, _, _) => if port_name_index(args, ports[j].0) == Some(n) {
                port_for(args, ports, n, single, j + 1, ports[j].1)
            } else {
                port_for(args, ports, n, single, j + 1, cur)
            },
        }
    }
}

/// Whether some protocol already has port `p`.
pub open spec fn port_taken(acc: Seq<(int, u16)>, p: u16) -> bool {
    exists|j: int| 0 <= j < acc.len() && #[trigger] acc[j].1 == p
}

/// Gives every chosen protocol from index `k` on its port; two protocols on one port are refused.
pub open spec fn assign_ports(
    args: Seq<Seq<char>>,
    names: Seq<int>,
    ports: Seq<(PortName, u16)>,
    k: int,
    acc: Seq<(int, u16)>,
) -> Result<Seq<(int, u16)>, ConfigError>
    decreases names.len() - k,
{
    if k < 0 || k >= names.len() {
        Ok(acc)
    } else {
        match port_for(args, ports, names[k], names.len() == 1, 0, registry_spec()[names[k]].2) {
            Err(e) => Err(e),
            Ok(p) => if port_taken(acc, p) {
                Err(ConfigError::PortClash(p, names[k] as usize))
            } else {
                assign_ports(args, names, ports, k + 1, acc.push((names[k], p)))
            },
        }
    }
}

/// The protocols, by registry index, that the options ask for (web when none).
pub open spec fn chosen_names(st: OptState) -> Seq<int> {
    if st.names.len() == 0 {
        seq![0int]
    } else {
        st.names
    }
}

/// The whole command line (`args[0]` is the program, the last argument the USB file descriptor).
pub open spec fn parse_spec(args: Seq<Seq<char>>) -> Result<ConfigSpec, ConfigError> {
    if args.len() < 2 || args.contains("--help"@) {
        Err(ConfigError::Usage)
    } else {
        let last = args.len() - 1;
        match parse_int(args[last], true, -0x8000_0000, 0x7FFF_FFFF) {
            None => Err(ConfigError::BadFd(last as usize)),
            Some(fd) => match parse_opts(args, last, 1, opts_init()) {
                Err(e) => Err(e),
                Ok(st) => match check_port_names(args, st.ports, 0) {
                    Err(e) => Err(e),
                    Ok(_) => match assign_ports(args, chosen_names(st), st.ports, 0, Seq::empty()) {
                        Err(e) => Err(e),
                        Ok(ps) => Ok(
                            ConfigSpec {
                                fd: fd as i32,
                                width: st.width,
                                height: st.height,
                                fps: st.fps,
                                audio: st.audio,
                                audio_rate: st.audio_rate,
                                audio_channels: st.audio_channels,
                                lan: st.lan,
                                protocols: ps.map_values(|p: (int, u16)| (registry_spec()[p.0].0, p.1)),
                                av_offset_ms: st.av_offset_ms,
                            },
                        ),
                    },
                },
            },
        }
    }
}

/// The text of each refusal.
pub open spec fn config_error_text(args: Seq<Seq<char>>, e: ConfigError) -> Seq<char> {
    match e {
        ConfigError::Usage => usage_text(),
        ConfigError::NeedsValue(i) => args[i as int] + " needs a value"@,
        ConfigError::BadNumber(o, v, a, b) => args[o as int] + ": bad number '"@ + args[v as int].subrange(
            a as int,
            b as int,
        ) + "'"@,
        ConfigError::BadFd(v) => "fd: bad number '"@ + args[v as int] + "'"@,
        ConfigError::AudioMode(v) => "-a "@ + args[v as int] + ": only 'usb' (default) or 'off' are supported"@,
        ConfigError::UnknownProtocol(v, a, b) => "unknown protocol '"@ + unicode_lower(
            args[v as int].subrange(a as int, b as int),
        ) + "' (available: "@ + names_from(0) + ")"@,
        ConfigError::UnknownOption(i) => "unknown option: "@ + args[i as int] + "\n\n"@ + usage_text(),
        ConfigError::UnknownPortProtocol(v, a, b) => "-p "@ + unicode_lower(
            args[v as int].subrange(a as int, b as int),
        ) + "=...: unknown protocol (available: "@ + names_from(0) + ")"@,
        ConfigError::AmbiguousPort => "-p PORT is ambiguous with several protocols; use -p NAME=PORT"@,
        ConfigError::PortClash(p, n) => "port "@ + dec_chars(p as nat) + " is used by two protocols; set another with -p "@
            + registry_spec()[n as int].0 + "=PORT"@,
    }
}

/// The arguments as character sequences.
pub open spec fn args_view(args: Seq<String>) -> Seq<Seq<char>> {
    args.map_values(|s: String| s@)
}

/// Whether the indices and ranges an error carries point into the arguments.
pub open spec fn error_in_bounds(args: Seq<Seq<char>>, e: ConfigError) -> bool {
    match e {
        ConfigError::Usage => true,
        ConfigError::NeedsValue(i) => i < args.len(),
        ConfigError::BadNumber(o, v, a, b) => o < args.len() && v < args.len() && a <= b <= args[v as int].len(),
        ConfigError::BadFd(v) => v < args.len(),
        ConfigError::AudioMode(v) => v < args.len(),
        ConfigError::UnknownProtocol(v, a, b) => v < args.len() && a <= b <= args[v as int].len(),
        ConfigError::UnknownOption(i) => i < args.len(),
        ConfigError::UnknownPortProtocol(v, a, b) => v < args.len() && a <= b <= args[v as int].len(),
        ConfigError::AmbiguousPort => true,
        ConfigError::PortClash(_, n) => n < registry_spec().len(),
    }
}

/// Argument characters, each by its view.
pub open spec fn chars_view(v: Seq<Vec<char>>) -> Seq<Seq<char>> {
    v.map_values(|c: Vec<char>| c@)
}

/// Registry indices as integers.
pub open spec fn index_view(v: Seq<usize>) -> Seq<int> {
    v.map_values(|i: usize| i as int)
}

fn char_args(args: &[String]) -> (v: Vec<Vec<char>>)
    ensures
        chars_view(v@) == args_view(args@),
{
    let mut v: Vec<Vec<char>> = Vec::new();
    let mut i: usize = 0;
    while i < args.len()
        invariant
            i <= args.len(),
            chars_view(v@) == args_view(args@).subrange(0, i as int),
        decreases args.len() - i,
    {
        let c = chars_of(args[i].as_str());
        assert(c@ == args@[i as int]@);
        let ghost before = v@;
        v.push(c);
        assert(chars_view(v@) =~= chars_view(before).push(c@));
        i += 1;
        assert(chars_view(v@) =~= args_view(args@).subrange(0, i as int));
    }
    assert(args_view(args@).subrange(0, i as int) =~= args_view(args@));
    v
}

fn is_lit(v: &Vec<char>, lit: &str) -> (r: bool)
    ensures
        r == (v@ == lit@),
{
    assert(v@.subrange(0, v@.len() as int) =~= v@);
    range_eq(v, 0, v.len(), lit)
}


/// Registry index of `v[a..b]` once lower-cased.
fn lookup_lower(v: &Vec<char>, a: usize, b: usize) -> (r: Option<usize>)
    requires
        a <= b <= v.len(),
    ensures
        match registry_index(unicode_lower(v@.subrange(a as int, b as int))) {
            Some(k) => r == Some(k as usize),
            None => r is None,
        },
{
    let piece = string_from(v, a, b);
    let low = to_lower(piece.as_str());
    if str_is(low.as_str(), "web") {
        Some(0)
    } else if str_is(low.as_str(), "rtsp") {
        Some(1)
    } else {
        None
    }
}

fn contains_index(names: &Vec<usize>, k: usize) -> (r: bool)
    ensures
        r == index_view(names@).contains(k as int),
{
    let mut j: usize = 0;
    while j < names.len()
        invariant
            j <= names.len(),
            forall|m: int| 0 <= m < j ==> names@[m] != k,
        decreases names.len() - j,
    {
        if names[j] == k {
            assert(index_view(names@)[j as int] == k as int);
            return true;
        }
        j += 1;
    }
    false
}

/// Adds the protocols of a `-P` list to `names`.
fn read_proto_list(v: &Vec<char>, arg: usize, names: &mut Vec<usize>) -> (r: Result<(), ConfigError>)
    requires
        forall|k: int| 0 <= k < old(names).len() ==> #[trigger] old(names)@[k] < registry_spec().len(),
    ensures
        forall|k: int| 0 <= k < final(names).len() ==> #[trigger] final(names)@[k] < registry_spec().len(),
        r matches Err(e) ==> (e matches ConfigError::UnknownProtocol(x, a, b) && x == arg && a <= b <= v.len()),
        match proto_list(v@, arg, 0, index_view(old(names)@)) {
            Ok(n2) => r is Ok && index_view(final(names)@) == n2,
            Err(e) => r == Err::<(), ConfigError>(e),
        },
{
    let ghost n0 = index_view(names@);
    let mut start: usize = 0;
    loop
        invariant
            start <= v.len(),
            n0 == index_view(old(names)@),
            forall|k: int| 0 <= k < names.len() ==> #[trigger] names@[k] < registry_spec().len(),
            proto_list(v@, arg, 0, n0) == proto_list(v@, arg, start as int, index_view(names@)),
        decreases v.len() - start,
    {
        let c = find_char_exec(v, ',', start);
        let (a, b) = trim_bounds(v, start, c);
        if a != b {
            match lookup_lower(v, a, b) {
                None => {
                    return Err(ConfigError::UnknownProtocol(arg, a, b));
                },
                Some(k) => {
                    if !contains_index(names, k) {
                        let ghost before = index_view(names@);
                        names.push(k);
                        assert(index_view(names@) =~= before.push(k as int));
                    }
                },
            }
        }
        if c >= v.len() {
            return Ok(());
        }
        start = c + 1;
    }
}

/// Reads a `-p` argument.
fn read_port_arg(args: &Vec<Vec<char>>, opt: usize) -> (r: Result<(PortName, u16), ConfigError>)
    requires
        opt + 1 < args.len(),
    ensures
        r == port_arg(chars_view(args@), opt),
        r matches Ok((PortName::Named(arg, a, b), _)) ==> arg < args.len() && a <= b <= args@[arg as int].len(),
        r matches Err(e) ==> error_in_bounds(chars_view(args@), e),
{
    let val = opt + 1;
    let v = &args[val];
    assert(chars_view(args@)[val as int] == v@);
    let e = find_char_exec(v, '=', 0);
    if e < v.len() {
        let (a, b) = trim_bounds(v, 0, e);
        match parse_range(v, e + 1, v.len(), false, 0, 65535) {
            Some(p) => Ok((PortName::Named(val, a, b), p as u16)),
            None => Err(ConfigError::BadNumber(opt, val, e + 1, v.len())),
        }
    } else {
        assert(v@.subrange(0, v@.len() as int) =~= v@);
        match parse_range(v, 0, v.len(), false, 0, 65535) {
            Some(p) => Ok((PortName::Any, p as u16)),
            None => Err(ConfigError::BadNumber(opt, val, 0, v.len())),
        }
    }
}

/// The value of a numeric option.
fn read_num(args: &Vec<Vec<char>>, opt: usize, signed: bool, lo: i128, hi: i128) -> (r: Result<i128, ConfigError>)
    requires
        opt + 1 < args.len(),
        -0x1_0000_0000_0000_0000 <= lo <= 0,
        0 <= hi <= 0x1_0000_0000_0000_0000,
    ensures
        match num_opt(chars_view(args@), opt, signed, lo as int, hi as int) {
            Ok(x) => r == Ok::<i128, ConfigError>(x as i128),
            Err(e) => r == Err::<i128, ConfigError>(e),
        },
        r matches Err(e) ==> error_in_bounds(chars_view(args@), e),
{
    let v = &args[opt + 1];
    assert(chars_view(args@)[opt + 1] == v@);
    assert(v@.subrange(0, v@.len() as int) =~= v@);
    match parse_range(v, 0, v.len(), signed, lo, hi) {
        Some(x) => Ok(x),
        None => Err(ConfigError::BadNumber(opt, opt + 1, 0, v.len())),
    }
}

/// The options read so far.
struct Opts {
    width: u32,
    height: u32,
    fps: u32,
    audio: bool,
    audio_rate: u32,
    audio_channels: u16,
    lan: bool,
    av_offset_ms: i32,
    names: Vec<usize>,
    ports: Vec<(PortName, u16)>,
}

impl Opts {
    spec fn wf(&self, args: Seq<Seq<char>>) -> bool {
        &&& ports_in_bounds(args, self.ports@)
        &&& forall|k: int| 0 <= k < self.names.len() ==> #[trigger] self.names@[k] < registry_spec().len()
    }

    spec fn opt_view(&self) -> OptState {
        OptState {
            width: self.width,
            height: self.height,
            fps: self.fps,
            audio: self.audio,
            audio_rate: self.audio_rate,
            audio_channels: self.audio_channels,
            lan: self.lan,
            av_offset_ms: self.av_offset_ms,
            names: index_view(self.names@),
            ports: self.ports@,
        }
    }
}

/// Applies the option at `i`, whose value is at `i + 1`.
fn apply_value_option(args: &Vec<Vec<char>>, i: usize, st: &mut Opts) -> (r: Result<(), ConfigError>)
    requires
        i + 1 < args.len(),
        takes_value(chars_view(args@)[i as int]),
        old(st).wf(chars_view(args@)),
    ensures
        final(st).wf(chars_view(args@)),
        r matches Err(e) ==> error_in_bounds(chars_view(args@), e),
        match value_option(chars_view(args@), i, old(st).opt_view()) {
            Ok(s2) => r is Ok && final(st).opt_view() == s2,
            Err(e) => r == Err::<(), ConfigError>(e),
        },
{
    let a = &args[i];
    let v = &args[i + 1];
    assert(chars_view(args@)[i as int] == a@);
    assert(chars_view(args@)[i + 1] == v@);
    if is_lit(a, "-w") {
        st.width = read_num(args, i, false, 0, 0xFFFF_FFFF)? as u32;
    } else if is_lit(a, "-h") {
        st.height = read_num(args, i, false, 0, 0xFFFF_FFFF)? as u32;
    } else if is_lit(a, "-f") {
        st.fps = read_num(args, i, false, 0, 0xFFFF_FFFF)? as u32;
    } else if is_lit(a, "-ar") {
        st.audio_rate = read_num(args, i, false, 0, 0xFFFF_FFFF)? as u32;
    } else if is_lit(a, "-ac") {
        st.audio_channels = read_num(args, i, false, 0, 0xFFFF)? as u16;
    } else if is_lit(a, "-o") {
        st.av_offset_ms = read_num(args, i, true, -0x8000_0000, 0x7FFF_FFFF)? as i32;
    } else if is_lit(a, "-a") {
        if is_lit(v, "usb") {
            st.audio = true;
        } else if is_lit(v, "off") {
            st.audio = false;
        } else {
            return Err(ConfigError::AudioMode(i + 1));
        }
    } else if is_lit(a, "-P") {
        read_proto_list(v, i + 1, &mut st.names)?;
    } else {
        let p = read_port_arg(args, i)?;
        let ghost before = st.ports@;
        st.ports.push(p);
        assert(forall|j: int| 0 <= j < before.len() ==> st.ports@[j] == before[j]);
    }
    Ok(())
}

fn is_help(args: &Vec<Vec<char>>) -> (r: bool)
    ensures
        r == chars_view(args@).contains("--help"@),
{
    let mut i: usize = 0;
    while i < args.len()
        invariant
            i <= args.len(),
            forall|m: int| 0 <= m < i ==> chars_view(args@)[m] != "--help"@,
        decreases args.len() - i,
    {
        if is_lit(&args[i], "--help") {
            assert(chars_view(args@)[i as int] == "--help"@);
            return true;
        }
        i += 1;
    }
    false
}

fn read_opts(args: &Vec<Vec<char>>, last: usize) -> (r: Result<Opts, ConfigError>)
    requires
        1 <= last < args.len(),
    ensures
        match parse_opts(chars_view(args@), last as int, 1, opts_init()) {
            Ok(st) => r matches Ok(o) && o.opt_view() == st,
            Err(e) => r matches Err(e2) && e2 == e,
        },
        r matches Ok(o) ==> o.wf(chars_view(args@)),
        r matches Err(e) ==> error_in_bounds(chars_view(args@), e),
{
    let mut st = Opts {
        width: 0,
        height: 0,
        fps: 0,
        audio: true,
        audio_rate: 48000,
        audio_channels: 2,
        lan: false,
        av_offset_ms: 0,
        names: Vec::new(),
        ports: Vec::new(),
    };
    assert(st.opt_view().names =~= opts_init().names);
    assert(st.opt_view().ports =~= opts_init().ports);
    let mut i: usize = 1;
    while i < last
        invariant
            1 <= i,
            last < args.len(),
            st.wf(chars_view(args@)),
            parse_opts(chars_view(args@), last as int, 1, opts_init()) == parse_opts(
                chars_view(args@),
                last as int,
                i as int,
                st.opt_view(),
            ),
        decreases last - i,
    {
        let a = &args[i];
        assert(chars_view(args@)[i as int] == a@);
        if is_lit(a, "-l") {
            st.lan = true;
            i += 1;
        } else if is_lit(a, "-w") || is_lit(a, "-h") || is_lit(a, "-f") || is_lit(a, "-ar") || is_lit(a, "-ac")
            || is_lit(a, "-o") || is_lit(a, "-a") || is_lit(a, "-P") || is_lit(a, "-p") {
            if i + 1 >= last {
                return Err(ConfigError::NeedsValue(i));
            }
            match apply_value_option(args, i, &mut st) {
                Ok(()) => {},
                Err(e) => {
                    return Err(e);
                },
            }
            i += 2;
        } else {
            return Err(ConfigError::UnknownOption(i));
        }
    }
    Ok(st)
}

fn port_name_lookup(args: &Vec<Vec<char>>, n: PortName) -> (r: Option<usize>)
    requires
        n matches PortName::Named(arg, a, b) ==> arg < args.len() && a <= b <= args@[arg as int].len(),
    ensures
        match port_name_index(chars_view(args@), n) {
            Some(k) => r == Some(k as usize),
            None => r is None,
        },
{
    match n {
        PortName::Any => None,
        PortName::Named(arg, a, b) => {
            assert(chars_view(args@)[arg as int] == args@[arg as int]@);
            lookup_lower(&args[arg], a, b)
        },
    }
}

/// Every `-p NAME=...` names an argument and a range inside it.
pub open spec fn ports_in_bounds(args: Seq<Seq<char>>, ports: Seq<(PortName, u16)>) -> bool {
    forall|j: int|
        0 <= j < ports.len() ==> ((#[trigger] ports[j]).0 matches PortName::Named(arg, a, b) ==> arg
            < args.len() && a <= b <= args[arg as int].len())
}

fn check_ports(args: &Vec<Vec<char>>, ports: &Vec<(PortName, u16)>) -> (r: Result<(), ConfigError>)
    requires
        ports_in_bounds(chars_view(args@), ports@),
    ensures
        r == check_port_names(chars_view(args@), ports@, 0),
        r matches Err(e) ==> error_in_bounds(chars_view(args@), e),
{
    let mut j: usize = 0;
    while j < ports.len()
        invariant
            j <= ports.len(),
            ports_in_bounds(chars_view(args@), ports@),
            check_port_names(chars_view(args@), ports@, 0) == check_port_names(chars_view(args@), ports@, j as int),
        decreases ports.len() - j,
    {
        let (n, _) = ports[j];
        assert(ports@[j as int].0 == n);
        match n {
            PortName::Named(arg, a, b) => {
                if port_name_lookup(args, n).is_none() {
                    return Err(ConfigError::UnknownPortProtocol(arg, a, b));
                }
            },
            PortName::Any => {},
        }
        j += 1;
    }
    Ok(())
}

fn port_of(args: &Vec<Vec<char>>, ports: &Vec<(PortName, u16)>, n: usize, single: bool, dflt: u16) -> (r: Result<u16, ConfigError>)
    requires
        ports_in_bounds(chars_view(args@), ports@),
    ensures
        r == port_for(chars_view(args@), ports@, n as int, single, 0, dflt),
        r matches Err(e) ==> error_in_bounds(chars_view(args@), e),
{
    let mut cur = dflt;
    let mut j: usize = 0;
    while j < ports.len()
        invariant
            j <= ports.len(),
            ports_in_bounds(chars_view(args@), ports@),
            port_for(chars_view(args@), ports@, n as int, single, 0, dflt) == port_for(
                chars_view(args@),
                ports@,
                n as int,
                single,
                j as int,
                cur,
            ),
        decreases ports.len() - j,
    {
        let (pn, p) = ports[j];
        assert(ports@[j as int] == (pn, p));
        match pn {
            PortName::Any => {
                if single {
                    cur = p;
                } else {
                    return Err(ConfigError::AmbiguousPort);
                }
            },
            PortName::Named(_, _, _) => {
                match port_name_lookup(args, pn) {
                    Some(k) => {
                        if k == n {
                            cur = p;
                        }
                    },
                    None => {},
                }
            },
        }
        j += 1;
    }
    Ok(cur)
}

/// The (registry index, port) pairs by their integer view.
pub open spec fn assigned_view(v: Seq<(usize, u16)>) -> Seq<(int, u16)> {
    v.map_values(|p: (usize, u16)| (p.0 as int, p.1))
}

#[verifier::loop_isolation(false)]
fn assign(args: &Vec<Vec<char>>, names: &Vec<usize>, ports: &Vec<(PortName, u16)>) -> (r: Result<Vec<(usize, u16)>, ConfigError>)
    requires
        ports_in_bounds(chars_view(args@), ports@),
        forall|k: int| 0 <= k < names.len() ==> #[trigger] names@[k] < registry_spec().len(),
    ensures
        match assign_ports(chars_view(args@), index_view(names@), ports@, 0, Seq::empty()) {
            Ok(ps) => r matches Ok(v) && assigned_view(v@) == ps,
            Err(e) => r matches Err(e2) && e2 == e,
        },
        r matches Ok(v) ==> forall|m: int| 0 <= m < v.len() ==> #[trigger] v@[m].0 < registry_spec().len(),
        r matches Err(e) ==> error_in_bounds(chars_view(args@), e),
{
    let mut acc: Vec<(usize, u16)> = Vec::new();
    let mut k: usize = 0;
    assert(assigned_view(acc@) =~= Seq::<(int, u16)>::empty());
    while k < names.len()
        invariant
            k <= names.len(),
            ports_in_bounds(chars_view(args@), ports@),
            forall|m: int| 0 <= m < names.len() ==> #[trigger] names@[m] < registry_spec().len(),
            forall|m: int| 0 <= m < acc.len() ==> #[trigger] acc@[m].0 < registry_spec().len(),
            assign_ports(chars_view(args@), index_view(names@), ports@, 0, Seq::empty()) == assign_ports(
                chars_view(args@),
                index_view(names@),
                ports@,
                k as int,
                assigned_view(acc@),
            ),
        decreases names.len() - k,
    {
        let n = names[k];
        let info = registry_entry(n);
        let p = match port_of(args, ports, n, names.len() == 1, info.default_port) {
            Ok(p) => p,
            Err(e) => {
                return Err(e);
            },
        };
        let mut j: usize = 0;
        while j < acc.len()
            invariant
                j <= acc.len(),
                forall|m: int| 0 <= m < j ==> assigned_view(acc@)[m].1 != p,
            decreases acc.len() - j,
        {
            if acc[j].1 == p {
                assert(assigned_view(acc@)[j as int].1 == p);
                return Err(ConfigError::PortClash(p, n));
            }
            j += 1;
        }
        let ghost before = assigned_view(acc@);
        acc.push((n, p));
        assert(assigned_view(acc@) =~= before.push((n as int, p)));
        k += 1;
    }
    Ok(acc)
}

/// Reads a command line; the error says why it is refused.
pub fn parse_config(args: &[String]) -> (r: Result<Config, ConfigError>)
    ensures
        match parse_spec(args_view(args@)) {
            Ok(c) => r matches Ok(x) && x@ == c,
            Err(e) => r matches Err(e2) && e2 == e,
        },
        r matches Err(e) ==> error_in_bounds(args_view(args@), e),
{
    let argv = char_args(args);
    if argv.len() < 2 || is_help(&argv) {
        return Err(ConfigError::Usage);
    }
    let last = argv.len() - 1;
    let fdv = &argv[last];
    assert(chars_view(argv@)[last as int] == fdv@);
    assert(fdv@.subrange(0, fdv@.len() as int) =~= fdv@);
    let fd = match parse_range(fdv, 0, fdv.len(), true, -0x8000_0000, 0x7FFF_FFFF) {
        Some(x) => x as i32,
        None => {
            return Err(ConfigError::BadFd(last));
        },
    };
    let mut st = read_opts(&argv, last)?;
    check_ports(&argv, &st.ports)?;
    if st.names.len() == 0 {
        st.names.push(0);
        assert(index_view(st.names@) =~= seq![0int]);
    }
    let ps = assign(&argv, &st.names, &st.ports)?;
    let mut protocols: Vec<(String, u16)> = Vec::new();
    let mut k: usize = 0;
    while k < ps.len()
        invariant
            k <= ps.len(),
            forall|m: int| 0 <= m < ps.len() ==> #[trigger] ps@[m].0 < registry_spec().len(),
            protocols@.map_values(|p: (String, u16)| (p.0@, p.1)) == assigned_view(ps@).subrange(
                0,
                k as int,
            ).map_values(|p: (int, u16)| (registry_spec()[p.0].0, p.1)),
        decreases ps.len() - k,
    {
        let (n, port) = ps[k];
        let info = registry_entry(n);
        let ghost before = protocols@;
        let name = String::from_str(info.name);
        assert(name@ == registry_spec()[n as int].0);
        protocols.push((name, port));
        assert(protocols@.map_values(|p: (String, u16)| (p.0@, p.1)) =~= before.map_values(|p: (String, u16)| (p.0@, p.1)).push((registry_spec()[n as int].0, port)));
        assert(assigned_view(ps@).subrange(0, k + 1) =~= assigned_view(ps@).subrange(0, k as int).push((n as int, port)));
        assert(protocols@.map_values(|p: (String, u16)| (p.0@, p.1)) =~= assigned_view(ps@).subrange(
            0,
            k + 1,
        ).map_values(|p: (int, u16)| (registry_spec()[p.0].0, p.1)));
        k += 1;
    }
    assert(assigned_view(ps@).subrange(0, ps@.len() as int) =~= assigned_view(ps@));
    Ok(Config {
        fd,
        width: st.width,
        height: st.height,
        fps: st.fps,
        audio: st.audio,
        audio_rate: st.audio_rate,
        audio_channels: st.audio_channels,
        lan: st.lan,
        protocols,
        av_offset_ms: st.av_offset_ms,
    })
}

/// The text of a refusal.
pub fn error_text(args: &[String], e: ConfigError) -> (m: String)
    requires
        error_in_bounds(args_view(args@), e),
    ensures
        m@ == config_error_text(args_view(args@), e),
{
    proof {
        assert(forall|i: int| 0 <= i < args@.len() ==> #[trigger] args_view(args@)[i] == args@[i]@);
    }
    match e {
        ConfigError::Usage => usage(),
        ConfigError::NeedsValue(i) => {
            let mut m = String::from_str(args[i].as_str());
            m.append(" needs a value");
            m
        },
        ConfigError::BadNumber(o, v, a, b) => {
            let mut m = String::from_str(args[o].as_str());
            m.append(": bad number '");
            let chars = chars_of(args[v].as_str());
            push_range(&mut m, args[v].as_str(), &chars, a, b);
            m.append("'");
            m
        },
        ConfigError::BadFd(v) => {
            let mut m = String::from_str("fd: bad number '");
            m.append(args[v].as_str());
            m.append("'");
            m
        },
        ConfigError::AudioMode(v) => {
            let mut m = String::from_str("-a ");
            m.append(args[v].as_str());
            m.append(": only 'usb' (default) or 'off' are supported");
            m
        },
        ConfigError::UnknownProtocol(v, a, b) => {
            let mut m = String::from_str("unknown protocol '");
            let chars = chars_of(args[v].as_str());
            let mut piece = String::new();
            push_range(&mut piece, args[v].as_str(), &chars, a, b);
            let low = to_lower(piece.as_str());
            m.append(low.as_str());
            m.append("' (available: ");
            let names = protocol_names();
            m.append(names.as_str());
            m.append(")");
            m
        },
        ConfigError::UnknownOption(i) => {
            let mut m = String::from_str("unknown option: ");
            m.append(args[i].as_str());
            m.append("\n\n");
            let u = usage();
            m.append(u.as_str());
            m
        },
        ConfigError::UnknownPortProtocol(v, a, b) => {
            let mut m = String::from_str("-p ");
            let chars = chars_of(args[v].as_str());
            let mut piece = String::new();
            push_range(&mut piece, args[v].as_str(), &chars, a, b);
            let low = to_lower(piece.as_str());
            m.append(low.as_str());
            m.append("=...: unknown protocol (available: ");
            let names = protocol_names();
            m.append(names.as_str());
            m.append(")");
            m
        },
        ConfigError::AmbiguousPort => String::from_str("-p PORT is ambiguous with several protocols; use -p NAME=PORT"),
        ConfigError::PortClash(p, n) => {
            let mut m = String::from_str("port ");
            push_dec(&mut m, p as u64);
            m.append(" is used by two protocols; set another with -p ");
            m.append(registry_entry(n).name);
            m.append("=PORT");
            m
        },
    }
}

/// Reads the command line (`args[0]` is the program, the last argument the USB file descriptor
/// that termux-usb appends). The error is the text to print: the help text for `--help` or too
/// few arguments.
pub fn parse(args: &[String]) -> (r: Result<Config, String>)
    ensures
        match parse_spec(args_view(args@)) {
            Ok(c) => r matches Ok(x) && x@ == c,
            Err(e) => r matches Err(m) && m@ == config_error_text(args_view(args@), e),
        },
{
    match parse_config(args) {
        Ok(c) => Ok(c),
        Err(e) => Err(error_text(args, e)),
    }
}


/// Registry indices, each a registered protocol and listed once.
pub open spec fn valid_names(n: Seq<int>) -> bool {
    &&& forall|i: int| 0 <= i < n.len() ==> 0 <= #[trigger] n[i] < registry_spec().len()
    &&& n.no_duplicates()
}

proof fn lemma_registry_index_valid(name: Seq<char>)
    ensures
        registry_index(name) matches Some(k) ==> 0 <= k < registry_spec().len(),
{
}

proof fn lemma_proto_list_valid(v: Seq<char>, arg: usize, start: int, names: Seq<int>)
    requires
        valid_names(names),
    ensures
        proto_list(v, arg, start, names) matches Ok(n2) ==> valid_names(n2),
    decreases v.len() - start,
{
    if 0 <= start <= v.len() {
        let c = find_char(v, ',', start);
        let (a, b) = trim_range(v, start, c);
        if a != b {
            let name = unicode_lower(v.subrange(a, b));
            lemma_registry_index_valid(name);
            if let Some(k) = registry_index(name) {
                if !names.contains(k) {
                    let n2 = names.push(k);
                    assert forall|i: int, j: int| 0 <= i < n2.len() && 0 <= j < n2.len() && i != j implies n2[i] != n2[j] by {
                        if i == names.len() as int {
                            assert(names[j] == n2[j]);
                        } else if j == names.len() as int {
                            assert(names[i] == n2[i]);
                        }
                    }
                    if !(c < start || c >= v.len()) {
                        lemma_proto_list_valid(v, arg, c + 1, n2);
                    }
                } else if !(c < start || c >= v.len()) {
                    lemma_proto_list_valid(v, arg, c + 1, names);
                }
            }
        } else if !(c < start || c >= v.len()) {
            lemma_proto_list_valid(v, arg, c + 1, names);
        }
    }
}

proof fn lemma_parse_opts_valid(args: Seq<Seq<char>>, last: int, i: int, st: OptState)
    requires
        valid_names(st.names),
        last < args.len() <= usize::MAX,
    ensures
        parse_opts(args, last, i, st) matches Ok(s2) ==> valid_names(s2.names),
    decreases last - i,
{
    if 1 <= i < last {
        if args[i] == "-l"@ {
            lemma_parse_opts_valid(args, last, i + 1, OptState { lan: true, ..st });
        } else if takes_value(args[i]) && i + 1 < last {
            if args[i] == "-P"@ {
                lemma_proto_list_valid(args[i + 1], (i + 1) as usize, 0, st.names);
            }
            let iu = i as usize;
            assert(iu as int == i);
            assert((iu + 1) as usize as int == i + 1);
            if let Ok(st2) = value_option(args, iu, st) {
                if args[i] != "-P"@ {
                    assert(st2.names == st.names);
                }
                lemma_parse_opts_valid(args, last, i + 2, st2);
            }
        }
    }
}

proof fn lemma_assign_ports_valid(
    args: Seq<Seq<char>>,
    names: Seq<int>,
    ports: Seq<(PortName, u16)>,
    k: int,
    acc: Seq<(int, u16)>,
)
    requires
        0 <= k <= names.len(),
        acc.len() == k,
        forall|j: int| 0 <= j < k ==> #[trigger] acc[j].0 == names[j],
        forall|a: int, b: int| 0 <= a < b < acc.len() ==> acc[a].1 != acc[b].1,
    ensures
        assign_ports(args, names, ports, k, acc) matches Ok(r) ==> {
            &&& r.len() == names.len()
            &&& forall|j: int| 0 <= j < r.len() ==> #[trigger] r[j].0 == names[j]
            &&& forall|a: int, b: int| 0 <= a < b < r.len() ==> r[a].1 != r[b].1
            &&& forall|j: int| k <= j < r.len() ==> #[trigger] r[j].1 == port_from_args(args, ports, names[j], names.len() == 1)
            &&& forall|j: int| 0 <= j < k ==> #[trigger] r[j] == acc[j]
            &&& (k < names.len() && names.len() != 1) ==> forall|j: int| 0 <= j < ports.len() ==> !(#[trigger] ports[j].0 is Any)
        },
    decreases names.len() - k,
{
    if k < names.len() {
        lemma_port_for_last(args, ports, names[k], names.len() == 1, 0, registry_spec()[names[k]].2);
        assert(ports.subrange(0, ports.len() as int) =~= ports);
        if let Ok(p) = port_for(args, ports, names[k], names.len() == 1, 0, registry_spec()[names[k]].2) {
            if !port_taken(acc, p) {
                let acc2 = acc.push((names[k], p));
                assert forall|a: int, b: int| 0 <= a < b < acc2.len() implies acc2[a].1 != acc2[b].1 by {
                    if b == acc.len() as int {
                        assert(acc[a] == acc2[a]);
                        assert(!(acc[a].1 == p));
                    } else {
                        assert(acc[a] == acc2[a] && acc[b] == acc2[b]);
                    }
                }
                assert forall|j: int| 0 <= j < k + 1 implies #[trigger] acc2[j].0 == names[j] by {
                    if j < k {
                        assert(acc2[j] == acc[j]);
                    }
                }
                lemma_assign_ports_valid(args, names, ports, k + 1, acc2);
                if let Ok(r) = assign_ports(args, names, ports, k + 1, acc2) {
                    assert(r[k] == acc2[k]);
                    assert forall|j: int| 0 <= j < k implies #[trigger] r[j] == acc[j] by {
                        assert(r[j] == acc2[j]);
                    }
                }
            }
        }
    }
}

/// Whether a `-p` argument sets the port of protocol `n`: it names `n`, or it names none and
/// `n` is the only protocol served.
pub open spec fn sets_port_of(args: Seq<Seq<char>>, x: (PortName, u16), n: int, single: bool) -> bool {
    (single && x.0 is Any) || port_name_index(args, x.0) == Some(n)
}

/// The port protocol `n` gets from the `-p` arguments `ports`: that of the last one that sets
/// it, else the registry's default port.
pub open spec fn port_from_args(args: Seq<Seq<char>>, ports: Seq<(PortName, u16)>, n: int, single: bool) -> u16 {
    match last_where(ports, |x: (PortName, u16)| sets_port_of(args, x, n, single)) {
        Some(k) => ports[k].1,
        None => registry_spec()[n].2,
    }
}

/// The option state a command line leads to (meaningful when its options are accepted).
pub open spec fn opt_state(args: Seq<Seq<char>>) -> OptState {
    parse_opts(args, args.len() - 1, 1, opts_init())->Ok_0
}

proof fn lemma_port_for_last(
    args: Seq<Seq<char>>,
    ports: Seq<(PortName, u16)>,
    n: int,
    single: bool,
    j: int,
    cur: u16,
)
    requires
        0 <= j <= ports.len(),
    ensures
        port_for(args, ports, n, single, j, cur) matches Ok(p) ==> {
            let rest = ports.subrange(j, ports.len() as int);
            &&& p == match last_where(rest, |x: (PortName, u16)| sets_port_of(args, x, n, single)) {
                Some(k) => rest[k].1,
                None => cur,
            }
            &&& !single ==> forall|k: int| j <= k < ports.len() ==> !(#[trigger] ports[k].0 is Any)
        },
    decreases ports.len() - j,
{
    let pr = |x: (PortName, u16)| sets_port_of(args, x, n, single);
    let rest = ports.subrange(j, ports.len() as int);
    if j < ports.len() {
        let x = ports[j];
        let tail = ports.subrange(j + 1, ports.len() as int);
        assert(rest =~= seq![x] + tail);
        lemma_last_where_concat(seq![x], tail, pr);
        lemma_last_where_single(x, pr);
        lemma_last_where_found(tail, pr);
        let nxt = match x.0 {
            PortName::Any => x.1,
            PortName::Named(_, _, _) => if port_name_index(args, x.0) == Some(n) { x.1 } else { cur },
        };
        lemma_port_for_last(args, ports, n, single, j + 1, nxt);
        if let Ok(p) = port_for(args, ports, n, single, j, cur) {
            match last_where(tail, pr) {
                Some(k) => {
                    assert(rest[1 + k] == tail[k]);
                },
                None => {
                    assert(rest[0] == x);
                },
            }
            if !single {
                assert forall|k: int| j <= k < ports.len() implies !(#[trigger] ports[k].0 is Any) by {
                    if k > j {
                        assert(tail[k - j - 1] == ports[k]);
                    }
                }
            }
        }
    } else {
        assert(rest =~= Seq::<(PortName, u16)>::empty());
    }
}

/// The protocols a `-P` value names from character `start` on, by registry index, in order:
/// the trimmed pieces between commas, empty ones skipped.
pub open spec fn list_mentions(v: Seq<char>, start: int) -> Seq<int>
    decreases v.len() - start,
{
    if start < 0 || start > v.len() {
        Seq::empty()
    } else {
        let c = find_char(v, ',', start);
        let (a, b) = trim_range(v, start, c);
        let here: Seq<int> = if a == b {
            Seq::empty()
        } else {
            seq![registry_index(unicode_lower(v.subrange(a, b)))->0]
        };
        if c < start || c >= v.len() {
            here
        } else {
            here + list_mentions(v, c + 1)
        }
    }
}

/// The protocols the `-P` options from index `i` on name, in order, walking the options as
/// the parser does.
pub open spec fn option_mentions(args: Seq<Seq<char>>, last: int, i: int) -> Seq<int>
    decreases last - i,
{
    if i < 1 || i >= last {
        Seq::empty()
    } else if args[i] == "-l"@ {
        option_mentions(args, last, i + 1)
    } else if takes_value(args[i]) && i + 1 < last {
        (if args[i] == "-P"@ { list_mentions(args[i + 1], 0) } else { Seq::empty() }) + option_mentions(args, last, i + 2)
    } else {
        Seq::empty()
    }
}

/// Each element of `ms` at its first occurrence, in order.
pub open spec fn first_mentions(ms: Seq<int>) -> Seq<int>
    decreases ms.len(),
{
    if ms.len() == 0 {
        Seq::empty()
    } else if ms.drop_last().contains(ms.last()) {
        first_mentions(ms.drop_last())
    } else {
        first_mentions(ms.drop_last()).push(ms.last())
    }
}

/// `ns` extended by the elements of `ms` it does not hold yet, in turn.
pub open spec fn add_new(ns: Seq<int>, ms: Seq<int>) -> Seq<int>
    decreases ms.len(),
{
    if ms.len() == 0 {
        ns
    } else {
        add_new(if ns.contains(ms[0]) { ns } else { ns.push(ms[0]) }, ms.drop_first())
    }
}

proof fn lemma_first_mentions_contains(ms: Seq<int>, x: int)
    ensures
        first_mentions(ms).contains(x) <==> ms.contains(x),
    decreases ms.len(),
{
    if ms.len() > 0 {
        let d = ms.drop_last();
        lemma_first_mentions_contains(d, x);
        lemma_first_mentions_contains(d, ms.last());
        if ms.contains(x) {
            let k = choose|k: int| 0 <= k < ms.len() && ms[k] == x;
            if k < ms.len() - 1 {
                assert(d[k] == x);
            }
        }
        if d.contains(x) {
            let k = choose|k: int| 0 <= k < d.len() && d[k] == x;
            assert(ms[k] == x);
        }
        if !d.contains(ms.last()) {
            let r = first_mentions(d);
            if r.push(ms.last()).contains(x) {
                let k = choose|k: int| 0 <= k < r.len() + 1 && r.push(ms.last())[k] == x;
                if k < r.len() {
                    assert(r[k] == x);
                }
            }
            if r.contains(x) {
                let k = choose|k: int| 0 <= k < r.len() && r[k] == x;
                assert(r.push(ms.last())[k] == x);
            }
            assert(r.push(ms.last())[r.len() as int] == ms.last());
        }
    }
}

proof fn lemma_add_new_first_mentions(pre: Seq<int>, ms: Seq<int>)
    ensures
        add_new(first_mentions(pre), ms) == first_mentions(pre + ms),
    decreases ms.len(),
{
    if ms.len() == 0 {
        assert(pre + ms =~= pre);
    } else {
        let x = ms[0];
        let p2 = pre.push(x);
        assert(p2.drop_last() =~= pre);
        lemma_first_mentions_contains(pre, x);
        lemma_add_new_first_mentions(p2, ms.drop_first());
        assert(p2 + ms.drop_first() =~= pre + ms);
    }
}

proof fn lemma_add_new_concat(ns: Seq<int>, a: Seq<int>, b: Seq<int>)
    ensures
        add_new(add_new(ns, a), b) == add_new(ns, a + b),
    decreases a.len(),
{
    if a.len() == 0 {
        assert(a + b =~= b);
    } else {
        let n1 = if ns.contains(a[0]) { ns } else { ns.push(a[0]) };
        lemma_add_new_concat(n1, a.drop_first(), b);
        assert((a + b)[0] == a[0]);
        assert((a + b).drop_first() =~= a.drop_first() + b);
    }
}

proof fn lemma_proto_list_mentions(v: Seq<char>, arg: usize, start: int, names: Seq<int>)
    requires
        0 <= start <= v.len(),
    ensures
        proto_list(v, arg, start, names) matches Ok(n2) ==> n2 == add_new(names, list_mentions(v, start)),
    decreases v.len() - start,
{
    let c = find_char(v, ',', start);
    crate::text::lemma_find_char_bounds(v, ',', start);
    let (a, b) = trim_range(v, start, c);
    if let Ok(n2) = proto_list(v, arg, start, names) {
        let here: Seq<int> = if a == b {
            Seq::empty()
        } else {
            seq![registry_index(unicode_lower(v.subrange(a, b)))->0]
        };
        let n1 = add_new(names, here);
        if a != b {
            let k = registry_index(unicode_lower(v.subrange(a, b)))->0;
            let step = if names.contains(k) { names } else { names.push(k) };
            assert(here.drop_first() =~= Seq::<int>::empty());
            assert(here[0] == k);
            assert(add_new(step, Seq::<int>::empty()) == step);
            assert(n1 == step);
        }
        if c < start || c >= v.len() {
        } else {
            lemma_proto_list_mentions(v, arg, c + 1, n1);
            lemma_add_new_concat(names, here, list_mentions(v, c + 1));
        }
    }
}

proof fn lemma_parse_opts_mentions(args: Seq<Seq<char>>, last: int, i: int, st: OptState)
    requires
        last < args.len(),
        args.len() <= usize::MAX,
    ensures
        parse_opts(args, last, i, st) matches Ok(s2) ==> s2.names == add_new(st.names, option_mentions(args, last, i)),
    decreases last - i,
{
    if i < 1 || i >= last {
    } else if args[i] == "-l"@ {
        lemma_parse_opts_mentions(args, last, i + 1, OptState { lan: true, ..st });
    } else if takes_value(args[i]) && i + 1 < last {
        if let Ok(st2) = value_option(args, i as usize, st) {
            lemma_parse_opts_mentions(args, last, i + 2, st2);
            let here: Seq<int> = if args[i] == "-P"@ { list_mentions(args[i + 1], 0) } else { Seq::empty() };
            if args[i] == "-P"@ {
                lemma_proto_list_mentions(args[i + 1], (i + 1) as usize, 0, st.names);
                reveal_strlit("-P");
                reveal_strlit("-w");
                reveal_strlit("-h");
                reveal_strlit("-f");
                reveal_strlit("-ar");
                reveal_strlit("-ac");
                reveal_strlit("-o");
                reveal_strlit("-a");
                assert(args[i][1] == 'P');
                assert(args[i] != "-w"@ && args[i] != "-h"@ && args[i] != "-f"@ && args[i] != "-ar"@
                    && args[i] != "-ac"@ && args[i] != "-o"@ && args[i] != "-a"@);
                assert(st2.names == add_new(st.names, here));
            } else {
                assert(add_new(st.names, Seq::<int>::empty()) == st.names);
                assert(st2.names == st.names);
            }
            assert(st2.names == add_new(st.names, here));
            lemma_add_new_concat(st.names, here, option_mentions(args, last, i + 2));
        }
    }
}

/// An accepted command line serves at least one protocol; every protocol it serves is a
/// registered one, named once, on a port of its own. The protocols are those the `-P` lists
/// ask for, in the order the options collected them, or only web when none is asked for. Each
/// gets the port of the last `-p` that names it (a bare `-p PORT` counts only when one protocol
/// is served, and is refused otherwise), else its default port. The file descriptor is the
/// last argument read as a number.
pub proof fn lemma_accepted_config(args: Seq<Seq<char>>)
    requires
        args.len() <= usize::MAX,
    ensures
        parse_spec(args) matches Ok(c) ==> {
            let st = opt_state(args);
            let names = chosen_names(st);
            &&& c.protocols.len() >= 1
            &&& forall|i: int| 0 <= i < c.protocols.len() ==> #[trigger] registry_index(c.protocols[i].0) is Some
            &&& forall|i: int, j: int| 0 <= i < j < c.protocols.len() ==> c.protocols[i].0 != c.protocols[j].0
            &&& forall|i: int, j: int| 0 <= i < j < c.protocols.len() ==> c.protocols[i].1 != c.protocols[j].1
            &&& c.fd as int == parse_int(args[args.len() - 1], true, -0x8000_0000, 0x7FFF_FFFF)->0
            &&& st.names == first_mentions(option_mentions(args, args.len() - 1, 1))
            &&& (st.names.len() == 0 ==> names == seq![0int])
            &&& c.protocols.len() == names.len()
            &&& forall|i: int| 0 <= i < c.protocols.len() ==> #[trigger] c.protocols[i] == (
                registry_spec()[names[i]].0,
                port_from_args(args, st.ports, names[i], names.len() == 1),
            )
            &&& names.len() != 1 ==> forall|j: int| 0 <= j < st.ports.len() ==> !(#[trigger] st.ports[j].0 is Any)
        },
{
    if let Ok(c) = parse_spec(args) {
        let last = args.len() - 1;
        lemma_parse_opts_valid(args, last, 1, opts_init());
        assert(valid_names(opts_init().names)) by {
            assert(opts_init().names.no_duplicates());
        }
        let st = parse_opts(args, last, 1, opts_init())->Ok_0;
        lemma_parse_opts_mentions(args, last, 1, opts_init());
        lemma_add_new_first_mentions(Seq::empty(), option_mentions(args, last, 1));
        assert(first_mentions(Seq::<int>::empty()) == Seq::<int>::empty());
        assert(Seq::<int>::empty() + option_mentions(args, last, 1) =~= option_mentions(args, last, 1));
        let names = chosen_names(st);
        assert(valid_names(names));
        lemma_assign_ports_valid(args, names, st.ports, 0, Seq::empty());
        let ps = assign_ports(args, names, st.ports, 0, Seq::empty())->Ok_0;
        crate::protocols::lemma_registry_names_distinct();
        assert forall|i: int| 0 <= i < c.protocols.len() implies #[trigger] registry_index(c.protocols[i].0) is Some by {
            assert(c.protocols[i].0 == registry_spec()[ps[i].0].0);
            assert(ps[i].0 == names[i]);
        }
        assert forall|i: int, j: int| 0 <= i < j < c.protocols.len() implies c.protocols[i].0 != c.protocols[j].0 by {
            assert(ps[i].0 == names[i] && ps[j].0 == names[j]);
            assert(names[i] != names[j]);
        }
    }
}

} // verus!
