//! Framing of chunked bodies.

use lb::proxy_native::chunked::{ChunkState, ChunkedScan};

fn scan_all(parts: &[&[u8]]) -> ChunkedScan {
    let mut s = ChunkedScan::new();
    for p in parts {
        s.consume(p);
    }
    s
}

#[test]
fn a_complete_body_is_detected() {
    let s = scan_all(&[b"5\r\nhello\r\n0\r\n\r\n"]);
    assert!(s.is_complete());
}

#[test]
fn an_incomplete_body_is_not_complete() {
    let s = scan_all(&[b"5\r\nhello\r\n"]);
    assert!(!s.is_complete());
}

#[test]
fn framing_survives_being_split_across_reads() {
    let s = scan_all(&[b"5\r\nhel", b"lo\r\n0\r", b"\n\r\n"]);
    assert!(
        s.is_complete(),
        "chunk framing must not depend on read boundaries"
    );
}

#[test]
fn the_terminator_inside_chunk_data_does_not_end_the_body() {
    // Chunk data that literally contains "0\r\n\r\n"; a naive scan for
    // that byte string would truncate the response here.
    let s = scan_all(&[b"5\r\n0\r\n\r\n\r\n"]);
    assert!(!s.is_complete());
    let mut s = s;
    s.consume(b"0\r\n\r\n");
    assert!(s.is_complete());
}

#[test]
fn chunk_extensions_are_skipped() {
    let s = scan_all(&[b"5;name=value\r\nhello\r\n0\r\n\r\n"]);
    assert!(s.is_complete());
}

#[test]
fn multiple_chunks_are_framed() {
    let s = scan_all(&[b"3\r\nabc\r\n4\r\ndefg\r\n0\r\n\r\n"]);
    assert!(s.is_complete());
}

#[test]
fn malformed_size_stops_the_scan() {
    let s = scan_all(&[b"zz\r\n"]);
    assert!(s.is_complete(), "a failed scan must terminate, not hang");
}

#[test]
fn extensions_may_stand_on_every_size_line() {
    let body = b"3;a=\"b\"\r\nabc\r\n0;last\r\nt: v\r\n\r\n";
    assert!(scan_all(&[body]).is_complete());
    assert!(!scan_all(&[&body[..body.len() - 1]]).is_complete());
}

#[test]
fn a_size_of_more_than_sixteen_digits_is_malformed() {
    let long = b"10000000000000000\r\n";
    let s = scan_all(&[long]);
    assert_eq!(s.state, ChunkState::Failed);
    let s = scan_all(&[b"0000000000000003\r\nabc\r\n0\r\n\r\n"]);
    assert_eq!(s.state, ChunkState::Done);
}
