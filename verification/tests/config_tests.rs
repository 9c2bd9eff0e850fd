use uvcweb_core::config::{parse, usage, Config};

fn a(s: &str) -> Vec<String> {
    s.split_whitespace().map(|x| x.to_string()).collect()
}

#[test]
fn default_is_web_on_8080() {
    let c = parse(&a("uvcweb -w 640 -h 480 -f 30 7")).unwrap();
    assert_eq!((c.width, c.height, c.fps, c.fd), (640, 480, 30, 7));
    assert_eq!(c.protocols, vec![("web".to_string(), 8080)]);
    assert!(c.audio);
}

#[test]
fn several_protocols_and_ports() {
    let c = parse(&a("uvcweb -P web,rtsp -p rtsp=9000 -l 7")).unwrap();
    assert_eq!(c.protocols, vec![("web".to_string(), 8080), ("rtsp".to_string(), 9000)]);
    assert!(c.lan);
    assert!(parse(&a("uvcweb -P web,rtsp -p 9000 7")).is_err());
    assert!(parse(&a("uvcweb -P nope 7")).is_err());
    assert!(parse(&a("uvcweb -P web,rtsp -p web=8554 7")).is_err()); // port clash
}

#[test]
fn old_command_lines_still_work() {
    let c = parse(&a("uvcweb -w 640 -h 480 -f 30 -a usb 7")).unwrap();
    assert!(c.audio);
    let c = parse(&a("uvcweb -a off -p 8081 7")).unwrap();
    assert!(!c.audio);
    assert_eq!(c.protocols, vec![("web".to_string(), 8081)]);
    assert!(parse(&a("uvcweb -a default 7")).is_err());
}

#[test]
fn for_fd_gives_the_defaults() {
    let c = Config::for_fd(5);
    assert_eq!((c.fd, c.width, c.height, c.fps), (5, 0, 0, 0));
    assert!(c.audio && !c.lan);
    assert_eq!((c.audio_rate, c.audio_channels, c.av_offset_ms), (48000, 2, 0));
    assert_eq!(c.protocols, vec![("web".to_string(), 8080)]);
}

#[test]
fn help_and_usage_errors() {
    let u = usage();
    assert!(u.contains("web"));
    assert!(u.contains("rtsp"));
    assert!(u.contains("8554"));
    assert!(parse(&a("uvcweb --help")).is_err());
    assert!(parse(&a("uvcweb")).is_err());
    assert!(parse(&a("uvcweb -w")).is_err());
    assert!(parse(&a("uvcweb -w x 7")).is_err());
}

#[test]
fn duplicate_protocol_names_count_once() {
    let c = parse(&a("uvcweb -P rtsp,RTSP,web 3")).unwrap();
    assert_eq!(c.protocols, vec![("rtsp".to_string(), 8554), ("web".to_string(), 8080)]);
}

#[test]
fn every_refusal_says_why() {
    let err = |s: &str| parse(&a(s)).err().unwrap();
    assert_eq!(err("uvcweb --help 7"), usage());
    assert_eq!(err("uvcweb -f 7"), "-f needs a value");
    assert_eq!(err("uvcweb -w 64x 7"), "-w: bad number '64x'");
    assert_eq!(err("uvcweb -p web=80a 7"), "-p: bad number '80a'");
    assert_eq!(err("uvcweb -l x7"), "fd: bad number 'x7'");
    assert_eq!(err("uvcweb -a alsa 7"), "-a alsa: only 'usb' (default) or 'off' are supported");
    assert_eq!(err("uvcweb -P web,HLS 7"), "unknown protocol 'hls' (available: web, rtsp)");
    assert_eq!(err("uvcweb -x 7"), format!("unknown option: -x\n\n{}", usage()));
    assert_eq!(err("uvcweb -p  Foo=1 7"), "-p foo=...: unknown protocol (available: web, rtsp)");
    assert_eq!(err("uvcweb -P web,rtsp -p 1 7"), "-p PORT is ambiguous with several protocols; use -p NAME=PORT");
    assert_eq!(
        err("uvcweb -P web,rtsp -p web=8554 7"),
        "port 8554 is used by two protocols; set another with -p rtsp=PORT"
    );
}

#[test]
fn numbers_follow_rust_parsing() {
    let c = parse(&a("uvcweb -w +640 -o -20 -ac 1 -ar 96000 -f 0 -7")).unwrap();
    assert_eq!((c.width, c.av_offset_ms, c.audio_channels, c.audio_rate, c.fps, c.fd), (640, -20, 1, 96000, 0, -7));
    assert!(parse(&a("uvcweb -ac 65536 7")).is_err());
    assert!(parse(&a("uvcweb -w -1 7")).is_err());
    assert!(parse(&a("uvcweb -o + 7")).is_err());
}

#[test]
fn unknown_names_are_lower_cased_as_unicode() {
    assert_eq!(
        parse(&a("uvcweb -P WEB,ÀB 7")).err().unwrap(),
        "unknown protocol 'àb' (available: web, rtsp)"
    );
    assert_eq!(
        parse(&a("uvcweb -p ÉX=1 7")).err().unwrap(),
        "-p éx=...: unknown protocol (available: web, rtsp)"
    );
}

#[test]
fn last_port_wins_and_names_keep_first_mention_order() {
    let c = parse(&a("uvcweb -P rtsp -p rtsp=9000 -P web,rtsp -p rtsp=9100 -p web=81 5")).unwrap();
    assert_eq!(c.protocols, vec![("rtsp".to_string(), 9100), ("web".to_string(), 81)]);
    assert_eq!(c.fd, 5);
    let c = parse(&a("uvcweb -P rtsp -p 1000 -p 2000 -5")).unwrap();
    assert_eq!(c.protocols, vec![("rtsp".to_string(), 2000)]);
    assert_eq!(c.fd, -5);
    let u = usage();
    let web = u.find("\n  web ").unwrap();
    let rtsp = u.find("\n  rtsp ").unwrap();
    assert!(web < rtsp);
}
