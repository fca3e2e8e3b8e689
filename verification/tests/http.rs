use acestream_audio::http::{
    body_kind, get, get_text, parse_url, read_head, redirect, request_text, Answer, Body, BodyKind,
    BodyRead, Fault, FaultKind, Head, HeadRead, Headers, Response, Url, MAX_HEADER_BYTES, TEXT_LIMIT,
};
use bytes::Bytes;

fn url(s: &str) -> Url {
    parse_url(s).unwrap()
}

fn head_of(raw: &[u8]) -> (Head, usize) {
    match read_head(raw, true) {
        HeadRead::Done { head, used } => (head, used),
        other => panic!("no head: {other:?}"),
    }
}

fn head_fault(raw: &[u8]) -> Fault {
    match read_head(raw, true) {
        HeadRead::Fail(f) => f,
        other => panic!("no fault: {other:?}"),
    }
}

/// Reads a body to its end, in reads of up to `cap` bytes.
fn read_all(body: &mut Body, cap: usize) -> Result<Vec<u8>, Fault> {
    let mut out = Vec::new();
    loop {
        match body.read(cap) {
            BodyRead::Data(d) => {
                assert!(!d.is_empty() && d.len() <= cap);
                out.extend_from_slice(&d);
            }
            BodyRead::End => return Ok(out),
            BodyRead::Wait => panic!("a closed body must not wait"),
            BodyRead::Fail(f) => return Err(f),
        }
    }
}

fn read_all_chunked(raw: &[u8]) -> Result<Vec<u8>, Fault> {
    let mut b = Body::chunked(Bytes::copy_from_slice(raw));
    b.close();
    read_all(&mut b, 4096)
}

#[test]
fn parses_urls_with_and_without_ports() {
    let u = parse_url("http://engine:6878/ace/getstream?id=abc").unwrap();
    assert_eq!(u.host, "engine");
    assert_eq!(u.port, 6878);
    assert_eq!(u.target, "/ace/getstream?id=abc");

    let u = parse_url("http://127.0.0.1/x").unwrap();
    assert_eq!(u.port, 80);

    let u = parse_url("http://engine:6878").unwrap();
    assert_eq!(u.target, "/", "a bare authority must still request /");
}

#[test]
fn rejects_non_http_urls() {
    assert!(parse_url("https://engine/x").is_err());
    assert!(parse_url("ftp://engine/x").is_err());
    assert!(parse_url("http:///x").is_err());
    assert!(parse_url("http://engine:notaport/x").is_err());
}

#[test]
fn url_faults_name_the_url() {
    let f = parse_url("https://engine/x").unwrap_err();
    assert_eq!(f.kind, FaultKind::InvalidInput);
    assert_eq!(f.message, "only http:// urls are supported: https://engine/x");
    assert_eq!(parse_url("http:///x").unwrap_err().message, "url has no host: http:///x");
    assert_eq!(
        parse_url("http://engine:65536/x").unwrap_err().message,
        "invalid port in http://engine:65536/x"
    );
    assert_eq!(parse_url("http://engine:/x").unwrap_err().message, "invalid port in http://engine:/x");
    assert_eq!(url("http://engine:+80/").port, 80);
}

#[test]
fn the_port_stands_behind_the_last_colon() {
    let u = url("http://a:b:65535/c:1");
    assert_eq!(u.host, "a:b");
    assert_eq!(u.port, 65535);
    assert_eq!(u.target, "/c:1");
}

#[test]
fn urls_read_back() {
    let u = Url { host: "engine".to_string(), port: 8080, target: "/a?b=c".to_string() };
    assert_eq!(url("http://engine:8080/a?b=c"), u);
}

#[test]
fn decodes_chunked_bodies() {
    let raw = b"5\r\nhello\r\n6\r\n world\r\n0\r\n\r\n";
    assert_eq!(read_all_chunked(raw).unwrap(), b"hello world");
}

#[test]
fn ignores_chunk_extensions() {
    let raw = b"5;name=value\r\nhello\r\n0\r\n\r\n";
    assert_eq!(read_all_chunked(raw).unwrap(), b"hello");
}

#[test]
fn consumes_chunked_trailers() {
    let raw = b"3\r\nabc\r\n0\r\nX-Trailer: 1\r\n\r\n";
    assert_eq!(read_all_chunked(raw).unwrap(), b"abc");
}

#[test]
fn rejects_malformed_chunk_sizes() {
    assert!(read_all_chunked(b"zz\r\nabc\r\n").is_err());
}

#[test]
fn chunked_faults_say_what_is_wrong() {
    let f = read_all_chunked(b"z\"z\r\nabc\r\n").unwrap_err();
    assert_eq!(f.kind, FaultKind::InvalidInput);
    assert_eq!(f.message, "malformed chunk size \"z\\\"z\"");

    let f = read_all_chunked(b"5\r\nhe").unwrap_err();
    assert_eq!(f.kind, FaultKind::UnexpectedEof);
    assert_eq!(f.message, "chunk shorter than declared");

    let f = read_all_chunked(b"2\r\nhe\r\n").unwrap_err();
    assert_eq!(f.kind, FaultKind::UnexpectedEof);
    assert_eq!(f.message, "chunked body ended mid-stream");

    let f = read_all_chunked(b"\xff\xfe\r\n").unwrap_err();
    assert_eq!(f.kind, FaultKind::InvalidData);
    assert_eq!(f.message, "stream did not contain valid UTF-8");

    // One more than fits into 64 bits.
    assert!(read_all_chunked(b"10000000000000000\r\n").is_err());
}

#[test]
fn chunk_sizes_are_hexadecimal_in_either_case() {
    let mut raw = b"1a\r\n".to_vec();
    raw.extend_from_slice(&[7; 26]);
    raw.extend_from_slice(b"\r\nA\r\n0123456789\r\n0\r\n\r\n");
    let out = read_all_chunked(&raw).unwrap();
    assert_eq!(out.len(), 36);
    assert_eq!(&out[26..], b"0123456789");
}

#[test]
fn a_last_chunk_without_its_end_ends_the_body() {
    assert_eq!(read_all_chunked(b"1\r\nx\r\n0\r\n").unwrap(), b"x");
    assert_eq!(read_all_chunked(b"1\r\nx\r\n0").unwrap(), b"x");
}

#[test]
fn trailers_may_be_lost_but_nothing_before_them() {
    // Lost among the trailers, the connection ends the body.
    for raw in [&b"3\r\nabc\r\n0\r\n"[..], b"3\r\nabc\r\n0\r\nX-Sum: 1\r\nX-La"] {
        let mut b = Body::chunked(Bytes::copy_from_slice(raw));
        assert!(b.cut_off(), "there is a chunk to read");
        assert!(matches!(b.read(10), BodyRead::Data(_)));
        assert!(matches!(b.read(10), BodyRead::Wait));
        assert!(!b.cut_off());
        assert!(matches!(b.read(10), BodyRead::End));
    }
    // Lost anywhere else, it breaks it.
    for raw in [&b""[..], b"\r", b"0", b"\r\n0\r", b"3\r\n"] {
        let mut b = Body::chunked(Bytes::copy_from_slice(raw));
        assert!(matches!(b.read(10), BodyRead::Wait), "{raw:?}");
        assert!(b.cut_off(), "{raw:?}");
    }
    assert!(Body::new(BodyKind::Length(0), Bytes::new()).cut_off());
    assert!(Body::new(BodyKind::ToClose, Bytes::new()).cut_off());
}

#[test]
fn a_truncated_chunked_body_never_passes_for_complete() {
    let raw = b"1a\r\nabcdefghijklmnopqrstuvwxyz\r\n3\r\n123\r\n0\r\n\r\n";
    let whole = b"abcdefghijklmnopqrstuvwxyz123";
    for cap in [1, 4, 1000] {
        for cut in 0..=raw.len() - 5 {
            let mut body = Body::chunked(Bytes::copy_from_slice(&raw[..cut]));
            body.close();
            let mut got = Vec::new();
            let f = loop {
                match body.read(cap) {
                    BodyRead::Data(b) => got.extend_from_slice(&b),
                    BodyRead::Fail(f) => break f,
                    other => panic!("cut at {cut}: {other:?}"),
                }
            };
            assert_eq!(f.kind, FaultKind::UnexpectedEof, "cut at {cut}");
            assert!(whole.starts_with(&got), "cut at {cut}");
        }
    }
    // A size line that is cut reads as a smaller size, of which nothing comes.
    let f = read_all_chunked(b"1").unwrap_err();
    assert_eq!(f.message, "chunk shorter than declared");
}

#[test]
fn a_body_reads_the_same_in_reads_of_any_size() {
    let raw = b"5\r\nhello\r\n6\r\n world\r\n0\r\n\r\n";
    for cap in 1..20 {
        let mut b = Body::chunked(Bytes::from_static(raw));
        b.close();
        assert_eq!(read_all(&mut b, cap).unwrap(), b"hello world", "cap {cap}");
    }
}

#[test]
fn a_body_may_arrive_in_any_pieces() {
    let raw = b"5\r\nhello\r\n6\r\n world\r\n0\r\nX-Trailer: 1\r\n\r\n";
    for size in 1..raw.len() {
        let mut b = Body::chunked(Bytes::new());
        let mut out = Vec::new();
        let mut ended = false;
        for piece in raw.chunks(size) {
            b.feed(Bytes::copy_from_slice(piece));
            loop {
                match b.read(4096) {
                    BodyRead::Data(d) => out.extend_from_slice(&d),
                    BodyRead::Wait => break,
                    BodyRead::End => {
                        ended = true;
                        break;
                    }
                    BodyRead::Fail(f) => panic!("pieces of {size}: {f:?}"),
                }
            }
        }
        assert_eq!(out, b"hello world", "pieces of {size}");
        assert!(ended, "pieces of {size}");
    }
}

#[test]
fn a_body_of_known_length_ends_there() {
    let mut b = Body::new(BodyKind::Length(5), Bytes::from_static(b"hello, and more"));
    assert_eq!(read_all(&mut b, 2).unwrap(), b"hello");
    assert!(matches!(b.read(10), BodyRead::End));

    let mut b = Body::new(BodyKind::Length(5), Bytes::from_static(b"hel"));
    assert!(matches!(b.read(10), BodyRead::Data(_)));
    assert!(matches!(b.read(10), BodyRead::Wait));
    b.close();
    match b.read(10) {
        BodyRead::Fail(f) => {
            assert_eq!(f.kind, FaultKind::UnexpectedEof);
            assert_eq!(f.message, "body shorter than content-length");
        }
        other => panic!("{other:?}"),
    }
    assert!(matches!(b.read(10), BodyRead::End), "a body breaks off once");
}

#[test]
fn a_body_without_delimiter_runs_to_the_close() {
    let mut b = Body::new(BodyKind::ToClose, Bytes::from_static(b"abc"));
    assert!(matches!(b.read(0), BodyRead::End));
    match b.read(2) {
        BodyRead::Data(d) => assert_eq!(&d[..], b"ab"),
        other => panic!("{other:?}"),
    }
    b.feed(Bytes::from_static(b"de"));
    match b.read(10) {
        BodyRead::Data(d) => assert_eq!(&d[..], b"cde"),
        other => panic!("{other:?}"),
    }
    assert!(matches!(b.read(10), BodyRead::Wait));
    b.close();
    assert!(matches!(b.read(10), BodyRead::End));
}

#[test]
fn detects_body_framing_from_headers() {
    let mut h = Headers::new();
    assert_eq!(body_kind(&h), BodyKind::ToClose);

    h.insert("content-length".into(), "42".into());
    assert_eq!(body_kind(&h), BodyKind::Length(42));

    h.insert("transfer-encoding".into(), "chunked".into());
    assert_eq!(body_kind(&h), BodyKind::Chunked, "chunked outranks length");
}

#[test]
fn framing_is_read_leniently() {
    let mut h = Headers::new();
    h.insert("content-length".into(), "4x2".into());
    assert_eq!(body_kind(&h), BodyKind::ToClose);
    h.insert("content-length".into(), "18446744073709551615".into());
    assert_eq!(body_kind(&h), BodyKind::Length(u64::MAX));
    h.insert("content-length".into(), "18446744073709551616".into());
    assert_eq!(body_kind(&h), BodyKind::ToClose);
    h.insert("transfer-encoding".into(), "gzip, CHUNKED".into());
    assert_eq!(body_kind(&h), BodyKind::Chunked);
}

#[test]
fn parses_status_line_and_headers() {
    let raw = b"HTTP/1.1 200 OK\r\nContent-Type: video/mp2t\r\nContent-Length: 5\r\n\r\nhello";
    let (head, used) = head_of(raw);
    assert_eq!(head.status, 200);
    assert_eq!(head.headers.get("content-type").unwrap(), "video/mp2t");
    // Header names are matched case-insensitively.
    assert_eq!(head.headers.get("content-length").unwrap(), "5");
    assert_eq!(&raw[used..], b"hello");
}

#[test]
fn the_last_of_two_equal_fields_counts() {
    let (head, _) = head_of(b"HTTP/1.1 200 OK\nX: 1\nno colon\n x :  2 \n\n");
    assert_eq!(head.headers.get("x").unwrap(), "2");
    assert_eq!(head.headers.get("no colon"), None);
    assert_eq!(head.headers.get("X"), None);
}

#[test]
fn heads_wait_until_they_are_complete() {
    let raw = b"HTTP/1.1 204 No Content\r\nA: b\r\n\r\n";
    for n in 0..raw.len() {
        assert!(matches!(read_head(&raw[..n], false), HeadRead::More), "{n} bytes");
    }
    assert!(matches!(read_head(raw, false), HeadRead::Done { used: 33, .. }));
    // What follows a head does not change it.
    let mut longer = raw.to_vec();
    longer.extend_from_slice(b"Content-Length: 3\r\n\r\n");
    for eof in [false, true] {
        match read_head(&longer, eof) {
            HeadRead::Done { head, used } => {
                assert_eq!(used, 33);
                assert_eq!(head.headers.get("content-length"), None);
            }
            other => panic!("{other:?}"),
        }
    }
}

#[test]
fn field_names_may_be_written_in_any_case() {
    for name in ["content-length", "CONTENT-LENGTH", "Content-length"] {
        let (head, _) = head_of(format!("HTTP/1.1 200 OK\r\n{name}: 7\r\n\r\n").as_bytes());
        assert_eq!(head.headers.get("content-length"), Some("7"));
    }
}

#[test]
fn head_faults_say_what_is_wrong() {
    let f = head_fault(b"");
    assert_eq!(f.kind, FaultKind::UnexpectedEof);
    assert_eq!(f.message, "no response from engine");

    let f = head_fault(b"HTTP/1.1 200 OK\r\nA: b\r\n");
    assert_eq!(f.kind, FaultKind::UnexpectedEof);
    assert_eq!(f.message, "headers ended mid-stream");

    let f = head_fault(b"garbage\r\n\r\n");
    assert_eq!(f.kind, FaultKind::InvalidInput);
    assert_eq!(f.message, "malformed status line \"garbage\\r\\n\"");
    assert_eq!(head_fault(b"HTTP/1.1 65536\n\n").message, "malformed status line \"HTTP/1.1 65536\\n\"");

    let f = head_fault(b"HTTP/1.1 200 OK\r\nA: \xff\r\n\r\n");
    assert_eq!(f.kind, FaultKind::InvalidData);
    assert_eq!(f.message, "stream did not contain valid UTF-8");

    let mut raw = b"HTTP/1.1 200 OK\r\nA: ".to_vec();
    raw.extend(vec![b'x'; MAX_HEADER_BYTES]);
    raw.extend_from_slice(b"\r\n\r\n");
    let f = head_fault(&raw);
    assert_eq!(f.kind, FaultKind::InvalidInput);
    assert_eq!(f.message, "response headers too large");
}

#[test]
fn requests_name_the_host_and_the_target() {
    assert_eq!(
        request_text(&url("http://engine:6878/ace?x=1")),
        "GET /ace?x=1 HTTP/1.1\r\nHost: engine:6878\r\nUser-Agent: rust-acestream-proxy\r\n\
         Connection: close\r\nAccept: */*\r\n\r\n"
    );
}

#[test]
fn follows_one_redirect() {
    let u = url("http://engine:6878/a");
    for status in [301, 302, 303, 307, 308] {
        let (head, _) = head_of(format!("HTTP/1.1 {status} Moved\r\nLocation: /b\r\n\r\n").as_bytes());
        assert_eq!(redirect(&u, 0, &head).as_deref(), Some("http://engine:6878/b"));
        assert_eq!(redirect(&u, 1, &head), None, "a second redirect is not followed");
    }
    let (head, _) = head_of(b"HTTP/1.1 302 Found\r\nLocation: http://other/c\r\n\r\n");
    assert_eq!(redirect(&u, 0, &head).as_deref(), Some("http://other/c"));
    let (head, _) = head_of(b"HTTP/1.1 302 Found\r\n\r\n");
    assert_eq!(redirect(&u, 0, &head), None);
    let (head, _) = head_of(b"HTTP/1.1 200 OK\r\nLocation: /b\r\n\r\n");
    assert_eq!(redirect(&u, 0, &head), None);
}

#[test]
fn an_answer_is_a_redirect_or_a_response() {
    let u = url("http://engine:6878/a");
    let moved = Bytes::from_static(b"HTTP/1.1 307 Moved\r\nLocation: /b\r\n\r\n");
    match get(&u, 0, moved.clone(), false) {
        Answer::Redirect(to) => assert_eq!(to, "http://engine:6878/b"),
        other => panic!("{other:?}"),
    }
    match get(&u, 1, moved, true) {
        Answer::Done(r) => assert_eq!(r.status, 307),
        other => panic!("{other:?}"),
    }
    assert!(matches!(get(&u, 0, Bytes::from_static(b"HTTP/1.1 200"), false), Answer::More));
    assert!(matches!(get(&u, 0, Bytes::new(), true), Answer::Fail(_)));
    let whole = Bytes::from_static(b"HTTP/1.1 200 OK\r\nContent-Length: 2\r\n\r\nhi!");
    match get(&u, 0, whole, true) {
        Answer::Done(mut r) => {
            assert_eq!(r.status, 200);
            assert_eq!(read_all(&mut r.body, 100).unwrap(), b"hi");
        }
        other => panic!("{other:?}"),
    }
}

fn response(status: u16, body: Body) -> Response {
    Response { status, body }
}

#[test]
fn texts_are_read_to_their_end() {
    let mut r = response(200, Body::new(BodyKind::ToClose, Bytes::from_static(b"he")));
    let mut got = Vec::new();
    assert_eq!(get_text(&mut r, &mut got), None);
    r.body.feed(Bytes::from_static("llo \u{e9}".as_bytes()));
    assert_eq!(get_text(&mut r, &mut got), None);
    r.body.close();
    assert_eq!(get_text(&mut r, &mut got), Some(Ok("hello \u{e9}".to_string())));
}

#[test]
fn texts_are_read_up_to_a_limit() {
    let mut r = response(200, Body::new(BodyKind::ToClose, Bytes::from(vec![b'a'; TEXT_LIMIT + 1])));
    let mut got = Vec::new();
    // Not at its end, and never will be.
    match get_text(&mut r, &mut got) {
        Some(Ok(s)) => assert_eq!(s.len(), TEXT_LIMIT),
        other => panic!("{:?}", other.is_some()),
    }
}

#[test]
fn texts_that_cannot_be_read_say_why() {
    let mut got = Vec::new();
    let mut r = response(404, Body::new(BodyKind::ToClose, Bytes::new()));
    assert_eq!(get_text(&mut r, &mut got), Some(Err("http 404".to_string())));

    let mut r = response(200, Body::new(BodyKind::ToClose, Bytes::from_static(b"\xff")));
    r.body.close();
    assert_eq!(
        get_text(&mut r, &mut got),
        Some(Err("stream did not contain valid UTF-8".to_string()))
    );

    let mut got = Vec::new();
    let mut r = response(200, Body::new(BodyKind::Length(3), Bytes::from_static(b"ab")));
    r.body.close();
    assert_eq!(
        get_text(&mut r, &mut got),
        Some(Err("body shorter than content-length".to_string()))
    );
}
