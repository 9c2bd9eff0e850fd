use uvcweb_core::hub::{AudioFormat, Hub, Submitted};

fn jpegish(n: usize, fill: u8) -> Vec<u8> {
    let mut v = vec![fill; n];
    v[0] = 0xFF;
    v[1] = 0xD8;
    v
}

#[test]
fn frames_are_validated_and_counted() {
    let mut h = Hub::new();
    h.submit_frame(&[0u8; 10], 1, 1, 0); // too small
    h.submit_frame(&vec![1u8; 2000], 1, 1, 0); // not a JPEG
    assert_eq!(h.video_counts().bad, 2);
    h.submit_frame(&jpegish(2000, 7), 640, 480, 10);
    h.submit_frame(&jpegish(2000, 7), 640, 480, 20); // identical
    let s = h.video_counts();
    assert_eq!((s.total, s.same, s.w, s.h), (2, 1, 640, 480));
    h.submit_frame(&jpegish(2000, 8), 640, 480, 30);
    assert_eq!(h.video_counts().same, 0);
}

#[test]
fn video_subscriber_skips_ahead() {
    let mut h = Hub::new();
    let mut last = 0u64;
    assert!(h.next_frame(&mut last).is_none());
    h.submit_frame(&jpegish(2000, 1), 1, 1, 1);
    h.submit_frame(&jpegish(2000, 2), 1, 1, 2);
    let f = h.next_frame(&mut last).unwrap();
    assert_eq!(f.seq, 2); // got the newest, not a backlog
    assert!(h.next_frame(&mut last).is_none());
}

#[test]
fn audio_subscriber_is_live_and_gapless() {
    let mut h = Hub::new();
    h.set_audio_format(AudioFormat { rate: 8000, channels: 1 });
    h.push_audio(&[0u8; 100], 1); // published before anyone subscribed
    let mut next = h.audio_live_edge();
    assert!(h.next_chunk(&mut next).is_none());
    h.push_audio(&[1u8; 100], 2);
    h.push_audio(&[2u8; 100], 3);
    let a = h.next_chunk(&mut next).unwrap();
    let b = h.next_chunk(&mut next).unwrap();
    assert_eq!((a.data[0], a.pos, b.data[0], b.pos), (1, 50, 2, 100));
}

#[test]
fn audio_ring_drops_oldest() {
    let mut h = Hub::new();
    h.set_audio_format(AudioFormat { rate: 100, channels: 1 }); // cap = 400 bytes
    for i in 0..20u8 {
        h.push_audio(&[i; 100], i as u64);
    }
    let mut next = 0u64; // a subscriber that is far behind
    let c = h.next_chunk(&mut next).unwrap();
    assert!(c.seq >= 16);
}

#[test]
fn ring_keeps_exactly_two_seconds() {
    let mut h = Hub::new();
    h.set_audio_format(AudioFormat { rate: 100, channels: 1 });
    for i in 0..20u8 {
        h.push_audio(&[i; 100], 0);
    }
    let mut next = 0u64;
    let c = h.next_chunk(&mut next).unwrap();
    assert_eq!((c.seq, c.pos, c.data[0]), (16, 800, 16));
    assert_eq!(next, 17);
    assert_eq!(h.audio_bytes(), 2000);
}

#[test]
fn a_single_oversized_chunk_stays() {
    let mut h = Hub::new();
    h.set_audio_format(AudioFormat { rate: 10, channels: 1 }); // cap = 40 bytes
    h.push_audio(&[5u8; 100], 0);
    let mut next = 0u64;
    let c = h.next_chunk(&mut next).unwrap();
    assert_eq!((c.seq, c.data.len()), (0, 100));
}

#[test]
fn audio_needs_a_format_and_data() {
    let mut h = Hub::new();
    h.push_audio(&[1u8; 10], 0); // no format yet: dropped
    assert_eq!(h.audio_live_edge(), 0);
    h.set_audio_format(AudioFormat { rate: 8000, channels: 2 });
    h.set_audio_format(AudioFormat { rate: 44100, channels: 1 }); // the first format stays
    assert_eq!(h.audio_format().unwrap().rate, 8000);
    h.push_audio(&[], 0); // nothing to publish
    assert_eq!(h.audio_live_edge(), 0);
    h.push_audio(&[1u8; 10], 0);
    assert_eq!(h.audio_live_edge(), 1);
    let mut next = 0u64;
    let c = h.next_chunk(&mut next).unwrap();
    assert_eq!((c.pos, c.data.len()), (0, 10));
    h.push_audio(&[1u8; 10], 0);
    let d = h.next_chunk(&mut next).unwrap();
    assert_eq!(d.pos, 2); // 10 bytes of 16-bit stereo are 2 whole frames
}

#[test]
fn stopping_silences_subscribers() {
    let mut h = Hub::new();
    h.submit_frame(&jpegish(1024, 3), 2, 2, 5);
    assert!(!h.is_stopped());
    h.request_stop();
    assert!(h.is_stopped());
    let mut last = 0u64;
    assert!(h.next_frame(&mut last).is_none());
    assert_eq!(last, 0);
    assert!(h.latest_frame().is_some());
    assert_eq!(h.last_frame_at(), Some(5));
}

#[test]
fn submission_outcomes_and_viewers() {
    let mut h = Hub::new();
    match h.submit_frame(&jpegish(1023, 0), 1, 1, 0) {
        Submitted::Rejected(n) => assert_eq!(n, 1),
        Submitted::Accepted(_) => panic!("too small"),
    }
    match h.submit_frame(&jpegish(1024, 0), 1, 1, 0) {
        Submitted::Accepted(n) => assert_eq!(n, 1),
        Submitted::Rejected(_) => panic!("a JPEG"),
    }
    assert_eq!(h.viewer_join(), (1, 1));
    assert_eq!(h.viewer_join(), (2, 2));
    h.viewer_leave();
    assert_eq!(h.video_counts().viewers, 1);
    assert_eq!(h.video_counts().last_len, 1024);
}

#[test]
fn stopping_is_final() {
    let mut h = Hub::new();
    h.set_audio_format(AudioFormat { rate: 8000, channels: 1 });
    h.request_stop();
    h.submit_frame(&jpegish(2048, 1), 2, 2, 9);
    h.push_audio(&[0u8; 16], 9);
    assert!(h.is_stopped());
    let mut last = 0u64;
    assert!(h.next_frame(&mut last).is_none());
    let mut next = 0u64;
    assert!(h.next_chunk(&mut next).is_none());
    assert_eq!(next, 0);
}
