use uvcweb_core::jpeg::{analyze, analyze_frame, std_table, JpegError};
use uvcweb_core::protocols::rtsp::{AudioSender, FrameOut, VideoSender};
use uvcweb_core::hub::AudioFormat;
use uvcweb_core::rtp::{ntp_from_unix_micros, packetize_jpeg, packetize_l16, rand_u32, rtp_header, sender_report};

/// A small baseline JPEG: two quantisation tables, a 3-component frame header with the given
/// luma sampling, an optional restart interval, a scan header and `scan` bytes of data.
fn jpeg(w: u16, h: u16, luma: u8, dri: Option<u16>, scan: usize) -> Vec<u8> {
    let mut d = vec![0xFF, 0xD8];
    d.extend_from_slice(&[0xFF, 0xDB, 0x00, 0x84]);
    d.push(0x00);
    d.extend((0..64).map(|i| i as u8 + 1));
    d.push(0x01);
    d.extend((0..64).map(|i| i as u8 + 100));
    d.extend_from_slice(&[0xFF, 0xC0, 0x00, 0x11, 8]);
    d.extend_from_slice(&h.to_be_bytes());
    d.extend_from_slice(&w.to_be_bytes());
    d.extend_from_slice(&[3, 1, luma, 0, 2, 0x11, 1, 3, 0x11, 1]);
    if let Some(n) = dri {
        d.extend_from_slice(&[0xFF, 0xDD, 0x00, 0x04]);
        d.extend_from_slice(&n.to_be_bytes());
    }
    d.extend_from_slice(&[0xFF, 0xDA, 0x00, 0x0C, 3, 1, 0x00, 2, 0x11, 3, 0x11, 0, 63, 0]);
    d.extend((0..scan).map(|i| (i % 251) as u8));
    d.extend_from_slice(&[0xFF, 0xD9]);
    d
}

#[test]
fn analysis_of_a_420_frame() {
    let d = jpeg(64, 48, 0x22, None, 100);
    let i = analyze(&d).unwrap();
    assert_eq!((i.width, i.height, i.rtp_type, i.dri, i.custom_huffman), (64, 48, 1, 0, false));
    assert_eq!(i.qtables.len(), 128);
    assert_eq!((i.qtables[0], i.qtables[64]), (1, 100));
    assert_eq!(i.scan_end - i.scan_start, 100);
    assert_eq!(i.scan_end, d.len() - 2);
}

#[test]
fn analysis_of_a_422_frame_with_restarts() {
    let i = analyze(&jpeg(640, 480, 0x21, Some(8), 10)).unwrap();
    assert_eq!((i.rtp_type, i.dri), (64, 8));
}

#[test]
fn analysis_errors() {
    assert_eq!(analyze(&[0, 1, 2]).err().unwrap(), "not a JPEG");
    assert!(matches!(analyze_frame(&jpeg(64, 48, 0x11, None, 10)), Err(JpegError::Sampling(0x11))));
    assert_eq!(
        analyze(&jpeg(64, 48, 0x11, None, 10)).err().unwrap(),
        "unsupported sampling 11 (RTP/JPEG only carries 4:2:2 and 4:2:0)"
    );
    assert!(matches!(analyze_frame(&jpeg(0, 48, 0x22, None, 10)), Err(JpegError::PictureSize(0, 48))));
    assert!(matches!(analyze_frame(&jpeg(64, 48, 0x22, None, 0)), Err(JpegError::EmptyScan)));
    let mut bad = jpeg(64, 48, 0x22, None, 10);
    bad[2] = 0x00;
    assert!(matches!(analyze_frame(&bad), Err(JpegError::BadMarker(2))));
    let mut prog = jpeg(64, 48, 0x22, None, 10);
    let sof = prog.iter().position(|&b| b == 0xC0).unwrap();
    prog[sof] = 0xC2;
    assert!(matches!(analyze_frame(&prog), Err(JpegError::NotBaseline)));
}

#[test]
fn standard_tables() {
    let (bits, vals) = std_table(0, 0).unwrap();
    assert_eq!(bits.len(), 16);
    assert_eq!(vals.len(), 12);
    let (bits, vals) = std_table(1, 1).unwrap();
    assert_eq!((bits.len(), vals.len()), (16, 162));
    assert!(std_table(2, 0).is_none());
}

#[test]
fn jpeg_packets_reassemble_the_scan() {
    let d = jpeg(64, 48, 0x22, Some(4), 3000);
    let i = analyze(&d).unwrap();
    let mut seq = 65534u16;
    let pkts = packetize_jpeg(&i, &d, 1000, 0xABCD, &mut seq, 1400);
    assert_eq!(seq, 65534u16.wrapping_add(pkts.len() as u16));
    let mut scan = Vec::new();
    for (k, p) in pkts.iter().enumerate() {
        let last = k + 1 == pkts.len();
        assert_eq!(p[1], if last { 0x80 | 26 } else { 26 });
        assert!(p.len() - 12 <= 1400);
        let off = ((p[13] as usize) << 16) | ((p[14] as usize) << 8) | p[15] as usize;
        assert_eq!(off, scan.len());
        let hdr = 12 + 8 + 4 + if off == 0 { 4 + 128 } else { 0 };
        scan.extend_from_slice(&p[hdr..]);
    }
    assert_eq!(&scan[..], &d[i.scan_start..i.scan_end]);
    assert_eq!(u16::from_be_bytes([pkts[1][2], pkts[1][3]]), 65535);
    assert_eq!(u16::from_be_bytes([pkts[2][2], pkts[2][3]]), 0);
}

#[test]
fn l16_packets_swap_and_count() {
    let pcm: Vec<u8> = (0..2402u32).map(|i| i as u8).collect(); // 600 stereo frames + 2 stray bytes
    let mut seq = 7u16;
    let pkts = packetize_l16(&pcm, 2, 1000, 400, 50, 9, &mut seq, 1200);
    assert_eq!(pkts.len(), 2);
    assert_eq!(seq, 9);
    assert_eq!(pkts[0].len(), 12 + 1200);
    assert_eq!(pkts[1].len(), 12 + 1200);
    assert_eq!(u32::from_be_bytes([pkts[0][4], pkts[0][5], pkts[0][6], pkts[0][7]]), 50 + 600);
    assert_eq!(u32::from_be_bytes([pkts[1][4], pkts[1][5], pkts[1][6], pkts[1][7]]), 50 + 600 + 300);
    assert_eq!((pkts[0][12], pkts[0][13]), (1, 0));
}

#[test]
fn rtcp_sender_report_layout() {
    let sr = sender_report(1, 0, 2, 3, 4, "uvcweb");
    assert_eq!(sr.len(), 28 + 4 + 4 + 12);
    assert_eq!(&sr[0..4], &[0x80, 200, 0, 6]);
    assert_eq!(u32::from_be_bytes([sr[8], sr[9], sr[10], sr[11]]), 2_208_988_800);
    assert_eq!(&sr[28..30], &[0x81, 202]);
    assert_eq!(ntp_from_unix_micros(1_500_000), (2_208_988_801, 0x8000_0000));
    assert_eq!(ntp_from_unix_micros(-1), (2_208_988_799, 4294963001));
}

#[test]
fn rtp_header_and_random() {
    let mut h = Vec::new();
    rtp_header(&mut h, true, 97, 0x0102, 0x03040506, 0x0708090A);
    assert_eq!(h, vec![0x80, 0x80 | 97, 1, 2, 3, 4, 5, 6, 7, 8, 9, 10]);
    assert_ne!(rand_u32(1, 0), rand_u32(2, 0));
    assert_eq!(rand_u32(5, 5), rand_u32(0, 0));
}

#[test]
fn video_sender_counts_and_reports() {
    let d = jpeg(64, 48, 0x22, None, 3000);
    let mut v = VideoSender::new(0x1111, 0x1_0005, 100, 0);
    assert_eq!(v.seq, 5);
    assert!(v.report_due(10, 0, 0, 0).is_none()); // nothing sent yet
    match v.on_frame(&d, 90) {
        FrameOut::Packets(p, warn) => {
            assert!(!warn);
            assert_eq!(v.pkts_sent as usize, p.len());
            let payload: usize = p.iter().map(|x| x.len() - 12).sum();
            assert_eq!(v.octets as usize, payload);
            assert_eq!(u32::from_be_bytes([p[0][4], p[0][5], p[0][6], p[0][7]]), 190);
        }
        FrameOut::Skipped(_) => panic!("frame"),
    }
    let sr = v.report_due(20, 0, 1_000_000, 500).unwrap();
    assert_eq!(u32::from_be_bytes([sr[12], sr[13], sr[14], sr[15]]), ((1_000_500u64 % 1_000_000) * (1u64 << 32) / 1_000_000) as u32);
    assert_eq!(v.next_sr_us, 2_000_020);
    assert!(v.report_due(30, 0, 0, 0).is_none());
    match v.on_frame(&[1, 2, 3], 0) {
        FrameOut::Skipped(Some(m)) => assert_eq!(m, "not a JPEG"),
        _ => panic!("first error"),
    }
    assert!(matches!(v.on_frame(&[1, 2, 3], 0), FrameOut::Skipped(None)));
}

#[test]
fn audio_sender_timestamps_follow_positions() {
    let mut a = AudioSender::new(2, 0, 1000, AudioFormat { rate: 8000, channels: 1 }, 0);
    assert!(a.report_due(5).is_none()); // nothing sent yet
    let p = a.on_chunk(&[0u8; 200], 500, 77);
    assert_eq!(p.len(), 1);
    assert_eq!(a.pos0, Some(500));
    assert_eq!(a.last_pair, Some((77, 1100)));
    let q = a.on_chunk(&[0u8; 200], 600, 88);
    assert_eq!(u32::from_be_bytes([q[0][4], q[0][5], q[0][6], q[0][7]]), 1100);
    assert_eq!(u16::from_be_bytes([q[0][2], q[0][3]]), u16::from_be_bytes([p[0][2], p[0][3]]) + 1);
    assert_eq!(a.last_pair, Some((88, 1200)));
    assert_eq!((a.pkts_sent, a.octets), (2, 400));
    let sr = a.report_due(10).unwrap();
    assert_eq!(u32::from_be_bytes([sr[16], sr[17], sr[18], sr[19]]), 1200);
    assert!(a.report_due(11).is_none());
}

/// Replaces the segment with marker `m` (the first one) by `seg` (payload after the length).
fn with_segment(d: &[u8], m: u8, seg: &[u8]) -> Vec<u8> {
    let mut i = 2;
    while !(d[i] == 0xFF && d[i + 1] == m) {
        let n = ((d[i + 2] as usize) << 8) | d[i + 3] as usize;
        i += 2 + n;
    }
    let n = ((d[i + 2] as usize) << 8) | d[i + 3] as usize;
    let mut out = d[..i + 2].to_vec();
    out.extend_from_slice(&((seg.len() + 2) as u16).to_be_bytes());
    out.extend_from_slice(seg);
    out.extend_from_slice(&d[i + 2 + n..]);
    out
}

#[test]
fn every_analysis_error() {
    let d = jpeg(64, 48, 0x22, None, 10);
    let mut t = d.clone();
    t[5] = 0xFF; // DQT length past the end
    assert!(matches!(analyze_frame(&t), Err(JpegError::Truncated)));
    let mut p16 = vec![0x10];
    p16.extend([1u8; 128]);
    assert!(matches!(analyze_frame(&with_segment(&d, 0xDB, &p16)), Err(JpegError::Precision16)));
    assert!(matches!(analyze_frame(&with_segment(&d, 0xDB, &[0x00, 1, 2])), Err(JpegError::BadDqt)));
    let sof = [12u8, 0, 48, 0, 64, 3, 1, 0x22, 0, 2, 0x11, 1, 3, 0x11, 1];
    assert!(matches!(analyze_frame(&with_segment(&d, 0xC0, &sof)), Err(JpegError::NotEightBit)));
    let sof1 = [8u8, 0, 48, 0, 64, 1, 1, 0x22, 0];
    assert!(matches!(analyze_frame(&with_segment(&d, 0xC0, &sof1)), Err(JpegError::NeedThreeComponents)));
    let no_sof = with_segment(&d, 0xC0, &[]);
    assert!(matches!(analyze_frame(&no_sof), Err(JpegError::NotEightBit)));
    let no_scan: Vec<u8> = d[..d.len() - 14 - 10 - 2].to_vec();
    assert!(matches!(analyze_frame(&no_scan), Err(JpegError::NoFrameOrScan)));
    let chroma = [8u8, 0, 48, 0, 64, 3, 1, 0x22, 0, 2, 0x21, 1, 3, 0x11, 1];
    assert!(matches!(analyze_frame(&with_segment(&d, 0xC0, &chroma)), Err(JpegError::ChromaNotOneByOne)));
    let differ = [8u8, 0, 48, 0, 64, 3, 1, 0x22, 0, 2, 0x11, 1, 3, 0x11, 0];
    assert!(matches!(analyze_frame(&with_segment(&d, 0xC0, &differ)), Err(JpegError::ChromaTablesDiffer)));
    let missing = [8u8, 0, 48, 0, 64, 3, 1, 0x22, 2, 2, 0x11, 1, 3, 0x11, 1];
    assert!(matches!(analyze_frame(&with_segment(&d, 0xC0, &missing)), Err(JpegError::MissingTable)));
    assert!(matches!(analyze_frame(&jpeg(2041, 8, 0x22, None, 10)), Err(JpegError::PictureSize(2041, 8))));
    assert_eq!(analyze(&jpeg(2041, 8, 0x22, None, 10)).err().unwrap(), "picture size 2041x8 cannot be described by RTP/JPEG (max 2040)");
}

#[test]
fn the_last_restart_interval_and_table_count() {
    let mut d = jpeg(64, 48, 0x21, Some(4), 20);
    let sos = d.windows(2).position(|w| w == [0xFF, 0xDA]).unwrap();
    d.splice(sos..sos, [0xFF, 0xDD, 0x00, 0x04, 0x00, 0x00]); // a later DRI with interval 0
    let i = analyze(&d).unwrap();
    assert_eq!((i.rtp_type, i.dri), (0, 0));
    let mut e = jpeg(64, 48, 0x22, None, 20);
    let sos = e.windows(2).position(|w| w == [0xFF, 0xDA]).unwrap();
    let mut dqt = vec![0xFF, 0xDB, 0x00, 0x43, 0x00];
    dqt.extend(std::iter::repeat(9u8).take(64)); // table 0 again, redefined
    e.splice(sos..sos, dqt);
    let i = analyze(&e).unwrap();
    assert_eq!((i.qtables[0], i.qtables[63], i.qtables[64]), (9, 9, 100));
    assert!(i.scan_start >= 6);
}
