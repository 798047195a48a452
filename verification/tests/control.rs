use http3bench::control::{
    read_reply, request_bytes, response, tried, AfterTry, Request, Route, SamplerSlot,
    MAX_CONTROL_BODY, NOT_FOUND,
};
use std::time::Duration;

#[test]
fn requests_are_written_out() {
    assert_eq!(
        request_bytes("POST", "/init", "1.2.3.4:5", b"abc"),
        b"POST /init HTTP/1.0\r\nHost: 1.2.3.4:5\r\nContent-Length: 3\r\n\r\nabc".to_vec()
    );
    assert_eq!(
        request_bytes("GET", "/ps", "[::1]:5", b""),
        b"GET /ps HTTP/1.0\r\nHost: [::1]:5\r\n\r\n".to_vec()
    );
}

#[test]
fn replies_are_read() {
    assert_eq!(
        read_reply(&b"HTTP/1.0 200 OK\r\nX: y\r\n\r\nbody\r\n\r\nmore".to_vec()),
        Ok((200, b"body\r\n\r\nmore".to_vec()))
    );
    assert_eq!(read_reply(&b"HTTP/1.0 404\r\n\r\n".to_vec()), Ok((404, vec![])));
    assert_eq!(read_reply(&b"HTTP/1.0 200 OK\r\n".to_vec()).unwrap_err(), "malformed response");
    assert_eq!(read_reply(&b"".to_vec()).unwrap_err(), "malformed response");
    assert_eq!(
        read_reply(&b"HTTP/1.0 twenty\r\nX\r\n\r\n".to_vec()).unwrap_err(),
        "malformed status line: Some(\"HTTP/1.0 twenty\")"
    );
    assert_eq!(read_reply(&b"\r\n\r\n".to_vec()).unwrap_err(), "malformed status line: None");
    assert_eq!(
        read_reply(&b"\xff \xfe\r\n\r\n".to_vec()).unwrap_err(),
        "malformed status line: Some(\"\u{fffd} \u{fffd}\")"
    );
}

#[test]
fn what_the_server_writes_the_client_reads() {
    for reply in ["", "4711", "{\"cpu\":[1.5],\"mem\":[]}", "h\u{e9}llo \u{1f600}", "a\r\n\r\nb"] {
        for found in [true, false] {
            let text = response(found, reply);
            let want = if found { 200 } else { 404 };
            assert_eq!(read_reply(&text.into_bytes()), Ok((want, reply.as_bytes().to_vec())));
        }
    }
    assert_eq!(
        response(false, NOT_FOUND),
        "HTTP/1.1 404 Not Found\r\nContent-Type: text/plain; charset=utf-8\r\nContent-Length: 19\r\nConnection: close\r\n\r\n404 page not found\n"
    );
    assert_eq!(
        response(true, "\u{e9}"),
        "HTTP/1.1 200 OK\r\nContent-Type: text/plain; charset=utf-8\r\nContent-Length: 2\r\nConnection: close\r\n\r\n\u{e9}"
    );
}

#[test]
fn what_the_client_writes_the_server_reads() {
    let bytes = request_bytes("POST", "/init?x=1", "h:1", b"0123456789");
    let text = String::from_utf8(bytes).unwrap();
    let mut lines = text.split_inclusive('\n');
    let mut r = Request::new(lines.next().unwrap());
    for h in lines {
        if r.header(h) {
            break;
        }
    }
    assert_eq!((r.method.as_str(), r.path.as_str(), r.length), ("POST", "/init", 10));
    assert_eq!(r.route(), Route::Init);
    assert_eq!(r.body_length(), 10);
}

#[test]
fn request_edges() {
    let r = Request::new("");
    assert_eq!((r.method.as_str(), r.path.as_str()), ("", ""));
    assert_eq!(r.route(), Route::Missing);
    assert_eq!(Request::new("GET /ps HTTP/1.1\r\n").route(), Route::Ps);
    assert_eq!(Request::new("GET /other\r\n").route(), Route::Missing);
    let mut r = Request::new("PUT /init\n");
    assert!(!r.header("cOnTeNt-LeNgTh:  5000000 \r\n"));
    assert_eq!((r.length, r.body_length()), (5_000_000, MAX_CONTROL_BODY));
    assert!(!r.header("Content-Length: nine\r\n"));
    assert_eq!(r.length, 0);
    assert!(!r.header("Content-Length: 9\r\n"));
    assert!(!r.header("Content-Type: x\r\n"));
    assert!(!r.header("no colon\r\n"));
    assert_eq!(r.length, 9);
    assert!(r.header("\r\n"));
    assert!(r.header("\n"));
    assert!(r.header(""));
    assert_eq!(r.length, 9);
}

#[test]
fn failed_requests_are_tried_four_times() {
    let mut waits = Vec::new();
    let mut attempt = 1;
    let last = loop {
        match tried("a:1", "/ps", attempt, Err("refused".to_string())) {
            AfterTry::Again { seconds, note } => {
                assert_eq!(
                    note,
                    format!("control request failed, retrying ({attempt}/4): http://a:1/ps: refused")
                );
                waits.push(seconds);
                attempt += 1;
            }
            AfterTry::Failed(e) => break e,
            AfterTry::Done(_) => panic!("done"),
        }
    };
    assert_eq!(last, "http://a:1/ps: refused");
    assert_eq!((attempt, waits), (4, vec![2, 4, 6]));
    assert!(matches!(tried("a:1", "/ps", 1, Ok((200, b"x".to_vec()))), AfterTry::Done(b) if b == b"x"));
    assert!(matches!(
        tried("a:1", "/ps", 1, Ok((404, b" not here\n".to_vec()))),
        AfterTry::Failed(e) if e == "http://a:1/ps: status 404: not here"
    ));
}

#[test]
fn sampling_starts_once() {
    let reading = |n| Ok((Duration::from_nanos(n), 1));
    let mut slot = SamplerSlot::new();
    let (reply, note) = slot.init(7, Duration::from_millis(1), Err("no /proc".to_string()), 5);
    assert_eq!(reply, "7");
    assert_eq!(note.unwrap(), "starting the ps sampler failed: pid 7: no /proc");
    assert!(slot.sampler.is_none());
    let (reply, note) = slot.init(7, Duration::from_millis(1), reading(10), 5);
    assert_eq!((reply.as_str(), note), ("7", None));
    assert_eq!(slot.sampler.as_ref().unwrap().next(), Some(1_000_005));
    let (_, note) = slot.init(8, Duration::from_millis(9), reading(20), 50);
    assert_eq!(note.unwrap(), "/init called again; the ps counter is already running");
    let s = slot.sampler.as_ref().unwrap();
    assert_eq!((s.pid(), s.next()), (7, Some(1_000_005)));
}
