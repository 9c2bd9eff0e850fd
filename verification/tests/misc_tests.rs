use uvcweb_core::capture::{choose_mode, device_ids, ModeChoice};
use uvcweb_core::config::Config;
use uvcweb_core::descriptors::{audio_alts, MjpegMode, RawAlt};
use uvcweb_core::engine::{audio_note, Watch};
use uvcweb_core::log::{log, stamp_text};
use uvcweb_core::usbaudio::{describe_rates, rate_request, usable_spans, IsoPacket};

fn mode(w: u32, h: u32, interval: u32, is_default: bool) -> MjpegMode {
    MjpegMode { width: w, height: h, interval, is_default }
}

#[test]
fn mode_choice() {
    let mut cfg = Config::for_fd(3);
    let modes = vec![mode(1920, 1080, 333333, false), mode(1280, 720, 166666, true)];
    assert!(matches!(choose_mode(&cfg, &modes), ModeChoice::CardDefault(1280, 720, 60)));
    cfg.fps = 25;
    assert!(matches!(choose_mode(&cfg, &modes), ModeChoice::CardDefault(1280, 720, 25)));
    assert!(matches!(choose_mode(&cfg, &[]), ModeChoice::NoMjpeg));
    cfg.width = 640;
    cfg.height = 480;
    cfg.fps = 0;
    assert!(matches!(choose_mode(&cfg, &[]), ModeChoice::Requested(640, 480, 30)));
}

#[test]
fn usb_ids() {
    let d = [18u8, 1, 0, 2, 0, 0, 0, 64, 0x4B, 0x53, 0x09, 0x21, 0, 1, 1, 2, 3, 1];
    assert_eq!(device_ids(&d, 18), Some((0x534B, 0x2109)));
    assert_eq!(device_ids(&d, 11), None);
}

#[test]
fn rates_for_the_log() {
    let mut extra = vec![7, 0x24, 0x01, 1, 1, 1, 0];
    extra.extend_from_slice(&[14, 0x24, 0x02, 1, 2, 2, 16, 2, 0x44, 0xAC, 0x00, 0x80, 0xBB, 0x00]);
    let alts = vec![RawAlt {
        interface: 3,
        alt: 1,
        class: 1,
        subclass: 2,
        endpoints: vec![uvcweb_core::descriptors::RawEndpoint { address: 0x82, attributes: 5, max_packet: 192, extra: vec![] }],
        extra,
    }];
    let mut a = audio_alts(&alts);
    assert_eq!(describe_rates(&a[0]), "44100/48000 Hz");
    a[0].rates = vec![];
    a[0].rate_min = 8000;
    a[0].rate_max = 96000;
    assert_eq!(describe_rates(&a[0]), "8000-96000 Hz");
    assert_eq!(rate_request(96000), vec![0x00, 0x77, 0x01]);
}

#[test]
fn iso_packets_to_spans() {
    let p = [
        IsoPacket { length: 192, actual_length: 192, status: 0 },
        IsoPacket { length: 192, actual_length: 190, status: 0 },
        IsoPacket { length: 192, actual_length: 100, status: -1 },
        IsoPacket { length: 192, actual_length: 3, status: 0 },
        IsoPacket { length: 192, actual_length: 8, status: 0 },
    ];
    let (spans, errors) = usable_spans(&p, 4);
    assert_eq!(spans, vec![(0, 192), (192, 188), (768, 8)]);
    assert_eq!(errors, 1);
}

#[test]
fn supervisor_reports() {
    let mut w = Watch::new(0);
    assert!(w.check(500_000, 0, 0, None).is_none());
    for k in 1..5u64 {
        let c = w.check(k * 1_000_000, 0, 0, None).unwrap();
        assert!(!c.no_frames_yet);
        assert_eq!(c.restart.is_some(), k * 1_000_000 > 4_000_000);
    }
    let c = w.check(5_000_000, 0, 0, None).unwrap();
    assert!(c.no_frames_yet);
    assert_eq!(c.restart, Some((5_000_000, 1)));
    w.stream_restarted(5_100_000);
    let c = w.check(6_100_000, 30, 0, Some(6_000_000)).unwrap();
    assert_eq!((c.frames, c.elapsed_us), (30, 1_100_000));
    assert!(!c.stopped && !c.resumed && c.restart.is_none());
    let c = w.check(10_200_000, 30, 0, Some(6_000_000)).unwrap();
    assert!(c.stopped);
    assert_eq!(c.restart, Some((4_200_000, 2)));
    w.stream_restarted(10_300_000);
    let c = w.check(11_300_000, 30, 0, Some(6_000_000)).unwrap();
    assert!(!c.stopped); // reported once
    let c = w.check(12_300_000, 120, 95, Some(12_200_000)).unwrap();
    assert!(c.resumed && c.identical);
    let c = w.check(13_300_000, 150, 120, Some(13_200_000)).unwrap();
    assert!(!c.identical && c.status_line); // tenth check
    let c = w.check(14_300_000, 180, 0, Some(14_200_000)).unwrap();
    assert!(c.changing);
}

#[test]
fn log_lines() {
    assert_eq!(stamp_text(7, 5, 30), "07:05:30");
    assert_eq!(stamp_text(23, 59, 60), "23:59:60");
    assert_eq!(stamp_text(-1, 100, 0), "-1:100:00");
    assert_eq!(log("07:05:30", "hello"), "[07:05:30] hello");
    assert_eq!(audio_note(true, 4096), ", audio 4 KB");
    assert_eq!(audio_note(true, 0), ", audio: NO DATA");
    assert_eq!(audio_note(false, 9), "");
}
