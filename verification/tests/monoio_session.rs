//! Whole exchanges on the thread-per-core data plane.

use bytes::BytesMut;
use lb::lb_core::config::RouteConfig;
use lb::lb_core::route_table::RouteTable;
use lb::proxy_monoio::server::{next_backoff, Act, Refusal, Session};

fn table() -> RouteTable {
    RouteConfig::single_upstream("127.0.0.1:9090").compile()
}

/// A connection: its state, what the client sends and what the upstream sends.
struct Rig {
    session: Session,
    cbuf: Vec<u8>,
    ubuf: Vec<u8>,
    table: RouteTable,
}

impl Rig {
    fn new(table: RouteTable) -> Self {
        Rig {
            session: Session::new("203.0.113.7", true, BytesMut::new()),
            cbuf: Vec::new(),
            ubuf: Vec::new(),
            table,
        }
    }

    fn begin(&mut self) -> Act {
        self.session.begin(&mut self.cbuf, &self.table)
    }

    fn client(&mut self, act: Act, bytes: &[u8]) -> Act {
        match act {
            Act::ReadClient { from, to } => {
                assert!(bytes.len() <= to - from);
                self.cbuf[from..from + bytes.len()].copy_from_slice(bytes);
                self.session
                    .on_client_read(bytes.len(), &mut self.cbuf, &mut self.ubuf, &self.table)
            }
            other => panic!("expected a read from the client, got {other:?}"),
        }
    }

    fn upstream(&mut self, act: Act, bytes: &[u8]) -> Act {
        match act {
            Act::ReadUpstream { from, to } => {
                assert!(bytes.len() <= to - from);
                self.ubuf[from..from + bytes.len()].copy_from_slice(bytes);
                self.session
                    .on_upstream_read(bytes.len(), &mut self.cbuf, &mut self.ubuf)
            }
            other => panic!("expected a read from the upstream, got {other:?}"),
        }
    }

    fn written(&mut self) -> Act {
        self.session.on_written(&mut self.cbuf, &mut self.ubuf)
    }

    fn head(&self) -> String {
        String::from_utf8(self.session.head().to_vec()).unwrap()
    }
}

#[test]
fn a_request_is_relayed_and_the_connection_kept() {
    let mut rig = Rig::new(table());
    let act = rig.begin();
    let act = rig.client(act, b"GET /a?x=1 HTTP/1.1\r\nHost: h\r\nKeep-Alive: t=5\r\n\r\n");
    assert_eq!(act, Act::Acquire);
    assert_eq!(rig.session.upstream_addr(), "127.0.0.1:9090");
    assert_eq!(rig.session.on_acquired(true), Act::SendHead);
    let head = rig.head();
    assert!(head.starts_with("GET /a?x=1 HTTP/1.1\r\n"), "{head}");
    assert!(head.contains("Host: 127.0.0.1:9090\r\n"), "{head}");
    assert!(head.contains("X-Forwarded-For: 203.0.113.7\r\n"), "{head}");
    assert!(!head.contains("Keep-Alive"), "{head}");

    let act = rig.written();
    let act = rig.upstream(act, b"HTTP/1.1 200 OK\r\nContent-Length: 5\r\n\r\nhello");
    assert_eq!(act, Act::ReturnHead);
    assert!(rig.head().contains("Connection: keep-alive\r\n"));
    let act = rig.written();
    match act {
        Act::WriteClient { from, to } => assert_eq!(&rig.ubuf[from..to], b"hello"),
        other => panic!("expected the body, got {other:?}"),
    }
    assert_eq!(rig.written(), Act::Finish { park: true, close: false });
}

#[test]
fn a_request_body_is_relayed_to_the_byte() {
    let mut rig = Rig::new(table());
    let act = rig.begin();
    let act = rig.client(act, b"POST / HTTP/1.1\r\nHost: h\r\nContent-Length: 8\r\n\r\nabc");
    assert_eq!(act, Act::Acquire);
    assert_eq!(rig.session.on_acquired(true), Act::SendHead);
    let mut body = Vec::new();
    let mut act = rig.written();
    loop {
        match act {
            Act::WriteUpstream { from, to } => {
                body.extend_from_slice(&rig.cbuf[from..to]);
                act = rig.written();
            }
            Act::ReadClient { .. } => act = rig.client(act, b"defgh"),
            other => {
                assert!(matches!(other, Act::ReadUpstream { .. }), "{other:?}");
                break;
            }
        }
    }
    assert_eq!(body, b"abcdefgh");
}

#[test]
fn a_response_body_is_relayed_to_the_byte() {
    let mut rig = Rig::new(table());
    let act = rig.begin();
    let act = rig.client(act, b"GET / HTTP/1.1\r\nHost: h\r\n\r\n");
    assert_eq!(act, Act::Acquire);
    assert_eq!(rig.session.on_acquired(true), Act::SendHead);
    let act = rig.written();
    let act = rig.upstream(
        act,
        b"HTTP/1.1 200 OK\r\nTransfer-Encoding: chunked\r\n\r\n5\r\nhe",
    );
    assert_eq!(act, Act::ReturnHead);
    let pieces: [&[u8]; 4] = [b"ll", b"o\r\n", b"0\r", b"\n\r\n"];
    let mut next = 0;
    let mut body = Vec::new();
    let mut act = rig.written();
    loop {
        match act {
            Act::WriteClient { from, to } => {
                body.extend_from_slice(&rig.ubuf[from..to]);
                act = rig.written();
            }
            Act::ReadUpstream { .. } => {
                act = rig.upstream(act, pieces[next]);
                next += 1;
            }
            other => {
                assert_eq!(other, Act::Finish { park: true, close: false });
                break;
            }
        }
    }
    assert_eq!(next, 4);
    assert_eq!(body, b"5\r\nhello\r\n0\r\n\r\n");
}

#[test]
fn a_head_may_come_in_pieces() {
    let mut rig = Rig::new(table());
    let act = rig.begin();
    let act = rig.client(act, b"GET / HT");
    let act = rig.client(act, b"TP/1.1\r\nHost: h\r\n");
    assert_eq!(rig.session.filled(), 25);
    let act = rig.client(act, b"\r\n");
    assert_eq!(act, Act::Acquire);
}

#[test]
fn requests_that_cannot_be_served_are_refused() {
    let mut rig = Rig::new(table());
    let act = rig.begin();
    assert_eq!(
        rig.client(act, b"\x01\x02\r\n\r\n"),
        Act::Refuse(Refusal::BadRequest)
    );

    let mut rig = Rig::new(RouteTable::empty());
    let act = rig.begin();
    let act = rig.client(act, b"GET / HTTP/1.1\r\nHost: h\r\n\r\n");
    assert_eq!(act, Act::Refuse(Refusal::NotFound));

    let mut rig = Rig::new(table());
    let act = rig.begin();
    let act = rig.client(act, b"GET / HTTP/1.1\r\nHost: h\r\n\r\n");
    assert_eq!(act, Act::Acquire);
    assert_eq!(
        rig.session.on_acquired(false),
        Act::Refuse(Refusal::BadGateway)
    );
}

#[test]
fn refusals_have_fixed_answers() {
    let text = |r: Refusal| String::from_utf8(r.response()).unwrap();
    let end = "\r\nContent-Length: 0\r\nConnection: close\r\n\r\n";
    assert_eq!(text(Refusal::BadRequest), format!("HTTP/1.1 400 Bad Request{end}"));
    assert_eq!(text(Refusal::NotFound), format!("HTTP/1.1 404 Not Found{end}"));
    assert_eq!(
        text(Refusal::HeadTooLarge),
        format!("HTTP/1.1 431 Request Header Fields Too Large{end}")
    );
    assert_eq!(text(Refusal::BadGateway), format!("HTTP/1.1 502 Bad Gateway{end}"));
}

#[test]
fn http2_is_handed_over() {
    let mut rig = Rig::new(table());
    let act = rig.begin();
    let act = rig.client(act, b"PRI * HTTP/2.0\r\n\r\nSM\r\n\r\n");
    assert_eq!(act, Act::UpgradeH2);
}

#[test]
fn a_client_that_goes_away_between_requests_closes_quietly() {
    let mut rig = Rig::new(table());
    let act = rig.begin();
    assert_eq!(rig.client(act, b""), Act::Close);
}

#[test]
fn a_response_without_a_length_ends_with_its_connection() {
    let mut rig = Rig::new(table());
    let act = rig.begin();
    rig.client(act, b"GET / HTTP/1.1\r\nHost: h\r\n\r\n");
    rig.session.on_acquired(true);
    let act = rig.written();
    let act = rig.upstream(act, b"HTTP/1.1 200 OK\r\n\r\nab");
    assert_eq!(act, Act::ReturnHead);
    let act = rig.written();
    assert!(matches!(act, Act::WriteClient { .. }));
    let act = rig.written();
    let act = rig.upstream(act, b"");
    assert_eq!(act, Act::Finish { park: false, close: true });
}

#[test]
fn watchers_back_off_to_half_a_minute() {
    let mut secs = 1;
    let mut seen = vec![secs];
    for _ in 0..6 {
        secs = next_backoff(secs);
        seen.push(secs);
    }
    assert_eq!(seen, [1, 2, 4, 8, 16, 30, 30]);
}
