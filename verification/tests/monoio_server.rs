//! Connections on the thread-per-core data plane.

use lb::proxy_monoio::http1::{BodyLength, RequestHead};
use lb::proxy_monoio::server::{
    body_prefix_len, grow_for_read, path_of, split_target, WorkerConfig, IO_BUF_INITIAL,
    IO_BUF_SIZE,
};

#[test]
fn path_extraction_drops_the_query() {
    assert_eq!(path_of("/api/v1"), "/api/v1");
    assert_eq!(path_of("/api/v1?x=1&y=2"), "/api/v1");
    assert_eq!(path_of("/?"), "/");
}

#[test]
fn target_splitting_round_trips() {
    assert_eq!(split_target("/a/b"), ("/a/b", None));
    assert_eq!(split_target("/a/b?c=d"), ("/a/b", Some("c=d")));
    assert_eq!(split_target("/a?"), ("/a", Some("")));
}

#[test]
fn read_buffers_start_small_and_grow_geometrically() {
    let mut buf = Vec::with_capacity(IO_BUF_INITIAL);
    grow_for_read(&mut buf, 0);
    assert_eq!(buf.len(), IO_BUF_INITIAL, "an idle connection must not preallocate 32 KiB");

    // Streaming: it should climb, but never past the ceiling above `filled`.
    let mut filled = 0usize;
    for _ in 0..12 {
        grow_for_read(&mut buf, filled);
        assert!(
            buf.len() <= filled + IO_BUF_SIZE,
            "buffer overshot the ceiling: {} > {}",
            buf.len(),
            filled + IO_BUF_SIZE
        );
        filled = buf.len();
    }
    assert!(buf.len() >= IO_BUF_SIZE, "buffer never reached the ceiling");
}

#[test]
fn grow_is_a_no_op_when_there_is_already_headroom() {
    let mut buf = vec![0u8; 64 * 1024];
    let before = buf.len();
    grow_for_read(&mut buf, 0);
    assert_eq!(buf.len(), before);
}

#[test]
fn worker_default_uses_every_core() {
    let cfg = WorkerConfig::new("127.0.0.1:0", num_cpus::get());
    assert_eq!(cfg.workers, num_cpus::get());
}

#[test]
fn body_prefix_length_matches_framing() {
    let head = |body| RequestHead {
        head_len: 0,
        method: "GET".into(),
        target: "/".into(),
        host: None,
        body,
        close_requested: false,
        target_span: (0, 0),
    };
    assert_eq!(body_prefix_len(&head(BodyLength::Empty), 100), 0);
    assert_eq!(body_prefix_len(&head(BodyLength::Fixed(10)), 100), 10);
    assert_eq!(body_prefix_len(&head(BodyLength::Fixed(500)), 100), 100);
    assert_eq!(body_prefix_len(&head(BodyLength::Chunked), 100), 100);
}
