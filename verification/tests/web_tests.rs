use uvcweb_core::protocols::web::{head_complete, part_head, reply_head, request_path, route, wav_header, Route};

#[test]
fn wav_header_layout_matches_what_the_page_parses() {
    let h = wav_header(96000, 1);
    assert_eq!(h.len(), 44);
    assert_eq!(&h[0..4], b"RIFF");
    // the page reads channels at byte 22 and the rate at bytes 24..28
    assert_eq!(u16::from_le_bytes([h[22], h[23]]), 1);
    assert_eq!(u32::from_le_bytes([h[24], h[25], h[26], h[27]]), 96000);
    assert_eq!(u32::from_le_bytes([h[28], h[29], h[30], h[31]]), 192000); // byte rate
    assert_eq!(&h[36..40], b"data");
}

#[test]
fn wav_header_stereo() {
    let h = wav_header(48000, 2);
    assert_eq!(&h[8..16], b"WAVEfmt ");
    assert_eq!(u32::from_le_bytes([h[28], h[29], h[30], h[31]]), 192000);
    assert_eq!(u16::from_le_bytes([h[32], h[33]]), 4); // block align
    assert_eq!(u16::from_le_bytes([h[34], h[35]]), 16);
    assert_eq!(&h[40..44], &[0xFF, 0xFF, 0xFF, 0x7F]);
}

#[test]
fn request_heads() {
    assert!(!head_complete(b"GET / HTTP/1.1\r\nHost: x\r\n"));
    assert!(head_complete(b"GET / HTTP/1.1\r\nHost: x\r\n\r\n"));
    assert_eq!(request_path(b"GET /stream?x=1 HTTP/1.1\r\n\r\n"), Some("/stream?x=1".to_string()));
    assert_eq!(request_path(b"  GET   /a\tHTTP/1.1"), Some("/a".to_string()));
    assert_eq!(request_path(b"POST / HTTP/1.1\r\n\r\n"), None);
    assert_eq!(request_path(b"GET\r\n/x"), None);
    assert_eq!(request_path(b""), None);
    assert_eq!(request_path(b"GET /\xff HTTP/1.1\r\n"), Some("/\u{fffd}".to_string()));
}

#[test]
fn routes() {
    assert!(matches!(route("/"), Route::Page));
    assert!(matches!(route("/stream?t=1"), Route::Stream));
    assert!(matches!(route("/audio"), Route::Audio));
    assert!(matches!(route("/snapshot"), Route::Snapshot));
    assert!(matches!(route("/status"), Route::Status));
    assert!(matches!(route("/favicon.ico"), Route::Favicon));
    assert!(matches!(route("/Stream"), Route::NotFound));
    assert!(matches!(route("?/"), Route::NotFound));
}

#[test]
fn reply_texts() {
    assert_eq!(
        reply_head("404 Not Found", "text/plain", 10),
        "HTTP/1.1 404 Not Found\r\nContent-Type: text/plain\r\nContent-Length: 10\r\nCache-Control: no-store\r\nConnection: close\r\n\r\n"
    );
    assert_eq!(part_head(1234), "--frame\r\nContent-Type: image/jpeg\r\nContent-Length: 1234\r\n\r\n");
}
