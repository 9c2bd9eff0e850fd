use uvcweb_core::hub::AudioFormat;
use uvcweb_core::protocols::rtsp::{
    build_sdp, interleaved_frame, parse_request, parse_transport, response_bytes, track_id, udp_port_candidate,
    After, Anchor, Chosen, ReqRead, Session, Step,
};

#[test]
fn sdp_matches_the_ffmpeg_tested_reference() {
    let got = build_sdp(Some(AudioFormat { rate: 96000, channels: 1 }));
    let want = "v=0\r\no=- 1 1 IN IP4 0.0.0.0\r\ns=uvcweb\r\nc=IN IP4 0.0.0.0\r\nt=0 0\r\na=control:*\r\na=range:npt=0-\r\n\
m=video 0 RTP/AVP 26\r\na=rtpmap:26 JPEG/90000\r\na=control:trackID=0\r\n\
m=audio 0 RTP/AVP 97\r\na=rtpmap:97 L16/96000/1\r\na=control:trackID=1\r\n";
    assert_eq!(got, want);
    assert!(!build_sdp(None).contains("m=audio"));
}

#[test]
fn transport_negotiation() {
    match parse_transport("RTP/AVP/TCP;unicast;interleaved=2-3") {
        Some(Chosen::Tcp(2, 3)) => {}
        _ => panic!("tcp"),
    }
    match parse_transport("RTP/AVP;unicast;client_port=5000-5001") {
        Some(Chosen::Udp(5000, 5001)) => {}
        _ => panic!("udp"),
    }
    // several offers: multicast is skipped, the first usable one wins
    match parse_transport("RTP/AVP;multicast;port=1-2, RTP/AVP/UDP;unicast;client_port=6000-6001, RTP/AVP/TCP;interleaved=0-1") {
        Some(Chosen::Udp(6000, 6001)) => {}
        _ => panic!("offer list"),
    }
    assert!(parse_transport("RTP/AVP;multicast").is_none());
    assert!(parse_transport("").is_none());
    assert_eq!(track_id("rtsp://h:8554/live/trackID=1"), Some(1));
    assert_eq!(track_id("rtsp://h:8554/live"), None);
}

#[test]
fn clock_anchor_math() {
    let a = Anchor::now(Some(1_700_000_000_123_456), 5_000_000);
    let later = a.inst_us + 100_000;
    assert_eq!(a.signed_micros(later), 100_000);
    assert_eq!(a.ticks_90k(later), 9_000);
    assert_eq!(a.unix_us(later), a.wall_us + 100_000);
}

#[test]
fn request_parser_skips_interleaved_frames() {
    let mut buf: Vec<u8> = b"$\x00\x00\x04abcd".to_vec(); // an RTCP receiver report from the client
    buf.extend_from_slice(b"OPTIONS rtsp://x/live RTSP/1.0\r\nCSeq: 5\r\nUser-Agent: t\r\n\r\n");
    match parse_request(&buf, false) {
        ReqRead::Complete(r, n) => {
            assert_eq!((r.method.as_str(), r.url.as_str(), r.header("CSeq")), ("OPTIONS", "rtsp://x/live", Some("5")));
            assert_eq!(n, buf.len());
            assert!(matches!(parse_request(&buf[n..], true), ReqRead::Closed));
        }
        _ => panic!("request"),
    }
}

#[test]
fn anchor_before_and_after() {
    let a = Anchor::now(None, 1_000_000);
    assert_eq!(a.wall_us, 0);
    assert_eq!(a.signed_micros(999_989), -11);
    assert_eq!(a.ticks_90k(999_989), 0); // -99 / 100 rounds toward zero
    assert_eq!(a.ticks_90k(999_800), -18);
    assert_eq!(a.ticks_90k(1_000_011), 0);
    assert_eq!(a.ticks_90k(1_000_012), 1);
    assert_eq!(a.unix_us(900_000), -100_000);
}

#[test]
fn transport_defaults_and_failures() {
    match parse_transport("RTP/AVP/TCP;unicast") {
        Some(Chosen::Tcp(0, 1)) => {}
        _ => panic!("default channels"),
    }
    match parse_transport("RTP/AVP/TCP;interleaved=300-301") {
        Some(Chosen::Tcp(0, 1)) => {}
        _ => panic!("channels out of range fall back"),
    }
    assert!(parse_transport("RTP/AVP;unicast").is_none());
    assert!(parse_transport("RTP/AVP;client_port=70000-70001").is_none());
    match parse_transport(" RTP/AVP ; client_port = 7000 - 7001 ") {
        None => {} // the key must start the token: "client_port =" is not "client_port="
        _ => panic!("spaced key"),
    }
    match parse_transport("RTP/AVP;client_port= 7000 - 7001 ") {
        Some(Chosen::Udp(7000, 7001)) => {}
        _ => panic!("spaced numbers"),
    }
    assert_eq!(track_id("x/trackID=12/trackID=3a"), Some(3));
    assert_eq!(track_id("x/trackID="), None);
    assert_eq!(track_id("trackID=99999999999999999999999"), None);
}

#[test]
fn partial_and_broken_requests() {
    let req = b"DESCRIBE rtsp://h/live RTSP/1.0\r\nCSeq: 2\r\n";
    assert!(matches!(parse_request(req, false), ReqRead::More));
    assert!(matches!(parse_request(req, true), ReqRead::Closed));
    assert!(matches!(parse_request(b"", false), ReqRead::More));
    assert!(matches!(parse_request(b"", true), ReqRead::Closed));
    assert!(matches!(parse_request(b"$\x01\x00", true), ReqRead::Failed));
    assert!(matches!(parse_request(b"\xff\xfe\r\n", false), ReqRead::Failed));
    let with_body = b"SET_PARAMETER x RTSP/1.0\r\nContent-Length: 4\r\n\r\nab";
    assert!(matches!(parse_request(with_body, false), ReqRead::More));
    assert!(matches!(parse_request(with_body, true), ReqRead::Failed));
    let whole = b"\r\n  \r\nSET_PARAMETER x RTSP/1.0\r\nContent-Length: 4\r\nBad line\r\n\r\nabcdNEXT";
    match parse_request(whole, false) {
        ReqRead::Complete(r, n) => {
            assert_eq!(n, whole.len() - 4);
            assert_eq!(r.headers.len(), 1);
            assert_eq!(r.header("content-LENGTH"), Some("4"));
        }
        _ => panic!("body"),
    }
}

fn req(text: &str) -> uvcweb_core::protocols::rtsp::Request {
    match parse_request(text.as_bytes(), true) {
        ReqRead::Complete(r, _) => r,
        _ => panic!("request"),
    }
}

fn reply_text(step: Step) -> (String, After) {
    match step {
        Step::Reply(r, a) => (String::from_utf8(response_bytes(&r)).unwrap(), a),
        Step::BindUdp(..) => panic!("reply expected"),
    }
}

#[test]
fn a_session_from_describe_to_teardown() {
    let mut s = Session::new(0xBEEF, Some(AudioFormat { rate: 8000, channels: 1 }));
    assert_eq!(s.id, "0000BEEF");
    let (t, _) = reply_text(s.on_request(&req("OPTIONS * RTSP/1.0\r\nCSeq: 1\r\n\r\n")));
    assert!(t.starts_with("RTSP/1.0 200 OK\r\nCSeq: 1\r\nServer: uvcweb\r\nPublic: OPTIONS, DESCRIBE"));
    let (t, _) = reply_text(s.on_request(&req("DESCRIBE rtsp://h/live RTSP/1.0\r\nCSeq: 2\r\n\r\n")));
    assert!(t.contains("Content-Base: rtsp://h/live/\r\n"));
    assert!(t.contains("L16/8000/1"));
    let (t, _) = reply_text(s.on_request(&req("PLAY rtsp://h/live RTSP/1.0\r\nCSeq: 3\r\n\r\n")));
    assert!(t.starts_with("RTSP/1.0 455 Method Not Valid in This State\r\n"));
    let (t, a) = reply_text(s.on_request(&req(
        "SETUP rtsp://h/live/trackID=0 RTSP/1.0\r\nCSeq: 4\r\nTransport: RTP/AVP/TCP;unicast;interleaved=0-1\r\n\r\n",
    )));
    assert!(t.contains("Transport: RTP/AVP/TCP;unicast;interleaved=0-1\r\nSession: 0000BEEF;timeout=60\r\n"));
    assert!(matches!(a, After::UseTcp(0, 0, 1)));
    let (t, _) = reply_text(s.on_request(&req("SETUP rtsp://h/live/trackID=2 RTSP/1.0\r\nCSeq: 5\r\n\r\n")));
    assert!(t.starts_with("RTSP/1.0 404 Not Found\r\nCSeq: 5\r\n"));
    let (t, _) = reply_text(s.on_request(&req("SETUP rtsp://h/live/trackID=1 RTSP/1.0\r\nCSeq: 6\r\nTransport: RTP/AVP;multicast\r\n\r\n")));
    assert!(t.starts_with("RTSP/1.0 461 Unsupported Transport\r\n"));
    match s.on_request(&req("SETUP rtsp://h/live/trackID=1 RTSP/1.0\r\nCSeq: 7\r\nTransport: RTP/AVP;client_port=5000-5001\r\n\r\n")) {
        Step::BindUdp(1, 5000, 5001, cseq) => {
            let (r, a) = s.udp_bound(1, 5000, 5001, &cseq, Some(30000));
            let t = String::from_utf8(response_bytes(&r)).unwrap();
            assert!(t.contains("Transport: RTP/AVP;unicast;client_port=5000-5001;server_port=30000-30001\r\n"));
            assert!(matches!(a, After::UseUdp(1, 5000, 5001, 30000)));
            let (r, _) = s.udp_bound(1, 5000, 5001, &cseq, None);
            assert_eq!(r.code, 500);
        }
        _ => panic!("udp"),
    }
    let (t, a) = reply_text(s.on_request(&req("PLAY rtsp://h/live RTSP/1.0\r\nCSeq: 8\r\n\r\n")));
    assert!(t.contains("Range: npt=0.000-\r\nSession: 0000BEEF\r\nContent-Length: 0\r\n\r\n"));
    assert!(matches!(a, After::StartPlay));
    s.play_started();
    let (_, a) = reply_text(s.on_request(&req("PLAY rtsp://h/live RTSP/1.0\r\nCSeq: 9\r\n\r\n")));
    assert!(matches!(a, After::Nothing));
    let (t, _) = reply_text(s.on_request(&req("PAUSE rtsp://h/live RTSP/1.0\r\nCSeq: 10\r\n\r\n")));
    assert!(t.starts_with("RTSP/1.0 200 OK\r\nCSeq: 10\r\n"));
    let (t, _) = reply_text(s.on_request(&req("RECORD rtsp://h/live RTSP/1.0\r\n\r\n")));
    assert!(t.starts_with("RTSP/1.0 501 Not Implemented\r\nCSeq: 0\r\n"));
    let (t, a) = reply_text(s.on_request(&req("TEARDOWN rtsp://h/live RTSP/1.0\r\nCSeq: 11\r\n\r\n")));
    assert!(t.starts_with("RTSP/1.0 200 OK\r\nCSeq: 11\r\n"));
    assert!(matches!(a, After::Close));
    assert!(s.done);
}

#[test]
fn audio_track_needs_audio() {
    let mut s = Session::new(1, None);
    let (t, _) = reply_text(s.on_request(&req(
        "SETUP rtsp://h/live/trackID=1 RTSP/1.0\r\nCSeq: 1\r\nTransport: RTP/AVP/TCP;interleaved=2-3\r\n\r\n",
    )));
    assert!(t.starts_with("RTSP/1.0 404 Not Found"));
    let (t, _) = reply_text(s.on_request(&req("DESCRIBE rtsp://h/live/ RTSP/1.0\r\nCSeq: 2\r\n\r\n")));
    assert!(t.contains("Content-Base: rtsp://h/live/\r\n"));
    assert!(!t.contains("m=audio"));
}

#[test]
fn interleaved_framing() {
    let f = interleaved_frame(3, &[9u8; 300]);
    assert_eq!(&f[0..4], &[b'$', 3, 1, 44]);
    assert_eq!(f.len(), 304);
}

#[test]
fn udp_ports_are_even() {
    assert_eq!(udp_port_candidate(0), 20000);
    assert_eq!(udp_port_candidate(19999), 39998);
    assert_eq!(udp_port_candidate(20001), 20000);
    assert_eq!(udp_port_candidate(7), 20006);
}

#[test]
fn the_first_usable_offer_wins() {
    match parse_transport("RTP/AVP;multicast, RTP/AVP/TCP;unicast, RTP/AVP;client_port=7000-7001") {
        Some(Chosen::Tcp(0, 1)) => {}
        _ => panic!("tcp default channels"),
    }
    assert_eq!(track_id("rtsp://h/live/trackID=1/trackID=0"), Some(0));
    assert_eq!(track_id("rtsp://h/live/trackID=12a"), Some(12));
    assert_eq!(track_id("rtsp://h/live/trackID=x"), None);
    let video = build_sdp(None);
    let both = build_sdp(Some(AudioFormat { rate: 48000, channels: 2 }));
    assert_eq!(both, video + "m=audio 0 RTP/AVP 97\r\na=rtpmap:97 L16/48000/2\r\na=control:trackID=1\r\n");
}
