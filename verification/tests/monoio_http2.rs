//! HTTP/2 on the thread-per-core data plane.

use std::io::Read;

use lb::proxy_monoio::http2::{detect_h2, PrefixedIo, H2_PREFACE};

#[test]
fn preface_detection_is_decisive_only_once_it_can_be() {
    assert_eq!(detect_h2(&H2_PREFACE), Some(true));
    assert_eq!(detect_h2(b"GET / HTTP/1.1\r\n"), Some(false));
    // A partial preface is undecidable, and must not be parsed as HTTP/1.
    assert_eq!(detect_h2(b"PRI * HT"), None);
    assert_eq!(detect_h2(b""), None);
    // A prefix that diverges is decisively not h2.
    assert_eq!(detect_h2(b"PRI * HTTX"), Some(false));
}

#[test]
fn preface_detection_handles_trailing_data() {
    let mut buf = H2_PREFACE.to_vec();
    buf.extend_from_slice(b"\x00\x00\x00\x04\x00\x00\x00\x00\x00");
    assert_eq!(detect_h2(&buf), Some(true));
}

/// What a reader with so much room at a time sees of a connection whose first bytes
/// were read ahead.
fn read_to_end(io: &mut PrefixedIo<std::io::Cursor<Vec<u8>>>, room: usize) -> Vec<u8> {
    let mut out = Vec::new();
    loop {
        if io.remaining_prefix() > 0 {
            out.extend(io.replay(room));
            continue;
        }
        assert!(io.replay(room).is_empty());
        let mut buf = vec![0u8; room];
        let n = io.inner_mut().read(&mut buf).expect("read");
        if n == 0 {
            return out;
        }
        out.extend_from_slice(&buf[..n]);
    }
}

#[test]
fn prefixed_io_replays_the_buffer_then_the_stream() {
    let inner = std::io::Cursor::new(b"world".to_vec());
    let mut io = PrefixedIo::new(b"hello ".to_vec(), inner);
    assert_eq!(io.remaining_prefix(), 6);

    let out = read_to_end(&mut io, 32);
    assert_eq!(out, b"hello world");
    assert_eq!(io.remaining_prefix(), 0);
}

#[test]
fn prefixed_io_with_an_empty_prefix_is_transparent() {
    let inner = std::io::Cursor::new(b"payload".to_vec());
    let mut io = PrefixedIo::new(Vec::new(), inner);
    let out = read_to_end(&mut io, 32);
    assert_eq!(out, b"payload");
}

#[test]
fn prefixed_io_handles_a_short_destination_buffer() {
    let inner = std::io::Cursor::new(b"CD".to_vec());
    let mut io = PrefixedIo::new(b"AB".to_vec(), inner);
    assert_eq!(io.replay(1), b"A");
    assert_eq!(io.remaining_prefix(), 1);
    assert_eq!(read_to_end(&mut io, 1), b"BCD");
}
