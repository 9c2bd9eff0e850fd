# uvcweb_core

A UVC MJPEG capture card served to a web browser and to RTSP players, with live audio read
straight from the card's own USB audio interface.

`src/` is the library, verified with Verus: command line parsing, USB descriptor parsing,
JPEG analysis, RTP/JPEG and RTP L16 packetization with RTCP sender reports, the hub that
publishes pictures and audio to subscribers, the RTSP request parser and session, the HTTP
routing and reply texts, and the supervisor's decisions. `app/` is the `uvcweb` program around
it: libuvc / libusb bindings, sockets, threads, clocks and logging. `tests/` exercises the
library.

    src/config.rs          command line
    src/descriptors.rs     UVC MJPEG modes, USB Audio Class alternate settings
    src/jpeg.rs, rtp.rs    what RTP/JPEG needs of a frame; RTP / RTCP packets
    src/hub.rs             latest picture + audio queue; publish / subscribe
    src/protocols/         registry (protocols.rs), rtsp.rs, web.rs
    src/capture.rs, usbaudio.rs, engine.rs, log.rs   decisions of the capture session
    src/text.rs, bytes.rs  character and byte helpers
