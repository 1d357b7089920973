//! Whole exchanges on the native data plane.

use lb::lb_core::config::RouteConfig;
use lb::lb_core::route_table::RouteTable;
use lb::proxy_native::worker::{Step, Submit, Worker};

const BUF: usize = 4096;

fn table() -> RouteTable {
    RouteConfig::single_upstream("127.0.0.1:9090").compile()
}

/// A worker with one connection that waits for its first request.
fn accepted() -> (Worker, Step) {
    let mut worker = Worker::new(4, 8, BUF).unwrap();
    assert!(!worker.accept_armed());
    let tag = worker.arm_accept();
    assert!(worker.accept_armed());
    assert!(worker.expects(tag, 10));
    let step = worker.dispatch(tag, 10, true, "203.0.113.7", &table());
    (worker, step)
}

/// Complete a read with these bytes.
fn read(worker: &mut Worker, submit: Submit, bytes: &[u8]) -> Step {
    match submit {
        Submit::ReadFixed { buf, offset, len, user_data, .. } => {
            assert!(bytes.len() <= len);
            let at = buf as usize * BUF + offset;
            worker.memory_mut()[at..at + bytes.len()].copy_from_slice(bytes);
            let n = bytes.len() as i32;
            assert!(worker.expects(user_data, n));
            worker.dispatch(user_data, n, false, "", &table())
        }
        other => panic!("expected a read, got {other:?}"),
    }
}

/// Complete a write of the prepared bytes, and give them.
fn sent(worker: &mut Worker, step: Step) -> (Vec<u8>, Step) {
    match step.submit {
        Submit::Send { offset, len, user_data, .. } => {
            let bytes = worker.out(step.index)[offset..offset + len].to_vec();
            let next = worker.dispatch(user_data, len as i32, false, "", &table());
            (bytes, next)
        }
        other => panic!("expected a write, got {other:?}"),
    }
}

/// Carry a request to an upstream that was not connected yet.
fn connect(worker: &mut Worker, step: Step, fd: i32) -> Step {
    assert_eq!(step.submit, Submit::Resolve);
    assert_eq!(worker.upstream_addr(step.index), Some("127.0.0.1:9090"));
    let step = worker.on_resolved(step.index, true);
    assert_eq!(step.submit, Submit::Open);
    let step = worker.on_open(step.index, fd);
    match step.submit {
        Submit::Connect { fd: used, user_data } => {
            assert_eq!(used, fd);
            worker.dispatch(user_data, 0, false, "", &table())
        }
        other => panic!("expected a connect, got {other:?}"),
    }
}

#[test]
fn a_request_is_forwarded_and_its_response_returned() {
    let (mut worker, step) = accepted();
    let step = read(
        &mut worker,
        step.submit,
        b"GET /a HTTP/1.1\r\nHost: x\r\nConnection: keep-alive\r\n\r\n",
    );
    let step = connect(&mut worker, step, 20);
    let (request, step) = sent(&mut worker, step);
    let request = String::from_utf8(request).unwrap();
    assert!(request.starts_with("GET /a HTTP/1.1\r\nhost: 127.0.0.1:9090\r\n"), "{request}");
    assert!(request.contains("x-forwarded-for: 203.0.113.7\r\n"), "{request}");
    assert!(!request.to_lowercase().contains("connection:"), "{request}");

    let step = read(
        &mut worker,
        step.submit,
        b"HTTP/1.1 200 OK\r\nContent-Length: 5\r\n\r\nhello",
    );
    let (response, step) = sent(&mut worker, step);
    let response = String::from_utf8(response).unwrap();
    assert!(response.starts_with("HTTP/1.1 200 OK\r\n"), "{response}");
    assert!(response.ends_with("\r\n\r\nhello"), "{response}");
    assert_eq!(worker.requests(), 1);

    // The client's connection waits for the next request, which takes the idle
    // upstream socket without connecting again.
    assert!(step.close.is_empty());
    let step = read(&mut worker, step.submit, b"GET /b HTTP/1.1\r\nHost: x\r\n\r\n");
    assert_eq!(step.submit, Submit::Resolve);
    let step = worker.on_resolved(step.index, true);
    match step.submit {
        Submit::Send { fd, .. } => assert_eq!(fd, 20, "idle sockets are reused"),
        other => panic!("expected a write, got {other:?}"),
    }
}

#[test]
fn a_split_response_is_returned_to_the_byte() {
    let (mut worker, step) = accepted();
    let step = read(&mut worker, step.submit, b"GET / HTTP/1.1\r\nHost: x\r\n\r\n");
    let step = connect(&mut worker, step, 20);
    let (_, step) = sent(&mut worker, step);
    let step = read(
        &mut worker,
        step.submit,
        b"HTTP/1.1 200 OK\r\nTransfer-Encoding: chunked\r\n\r\n5\r\nhel",
    );
    let (mut body, mut step) = sent(&mut worker, step);
    let step2 = loop {
        match step.submit {
            Submit::Send { .. } => {
                let (more, next) = sent(&mut worker, step);
                body.extend(more);
                step = next;
            }
            Submit::WriteFixed { buf, offset, len, user_data, .. } => {
                let at = buf as usize * BUF + offset;
                body.extend_from_slice(&worker.memory_mut()[at..at + len].to_vec());
                step = worker.dispatch(user_data, len as i32, false, "", &table());
            }
            _ => break step,
        }
    };
    let step = read(&mut worker, step2.submit, b"lo\r\n0\r\n\r\n");
    match step.submit {
        Submit::Send { .. } => {
            let (more, _) = sent(&mut worker, step);
            body.extend(more);
        }
        Submit::WriteFixed { buf, offset, len, .. } => {
            let at = buf as usize * BUF + offset;
            body.extend_from_slice(&worker.memory_mut()[at..at + len].to_vec());
        }
        other => panic!("expected a write, got {other:?}"),
    }
    let text = String::from_utf8(body).unwrap();
    assert!(text.ends_with("\r\n\r\n5\r\nhello\r\n0\r\n\r\n"), "{text}");
}

#[test]
fn a_malformed_request_is_answered_by_the_proxy() {
    let (mut worker, step) = accepted();
    let step = read(&mut worker, step.submit, b"\x01\x02\r\n\r\n");
    let (answer, _) = sent(&mut worker, step);
    assert_eq!(
        answer,
        b"HTTP/1.1 400 Bad Request\r\ncontent-length: 0\r\nconnection: keep-alive\r\n\r\n"
    );
}

#[test]
fn an_unreachable_upstream_is_answered_with_a_gateway_error() {
    let (mut worker, step) = accepted();
    let step = read(&mut worker, step.submit, b"GET / HTTP/1.1\r\nHost: x\r\n\r\n");
    let step = worker.on_resolved(step.index, true);
    let step = worker.on_open(step.index, 20);
    let step = match step.submit {
        Submit::Connect { user_data, .. } => worker.dispatch(user_data, -111, false, "", &table()),
        other => panic!("expected a connect, got {other:?}"),
    };
    let (answer, _) = sent(&mut worker, step);
    assert!(answer.starts_with(b"HTTP/1.1 502 Bad Gateway\r\n"));
}

#[test]
fn a_client_that_goes_away_is_let_go() {
    let (mut worker, step) = accepted();
    let tag = match step.submit {
        Submit::ReadFixed { user_data, .. } => user_data,
        other => panic!("expected a read, got {other:?}"),
    };
    let step = worker.dispatch(tag, 0, false, "", &table());
    assert_eq!(step.close, [10]);
    assert_eq!(step.submit, Submit::Nothing);

    // A late completion of the connection that is gone changes nothing.
    let step = worker.dispatch(tag, 5, false, "", &table());
    assert!(step.close.is_empty());
    assert_eq!(step.submit, Submit::Nothing);
}
