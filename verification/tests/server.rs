use net_tools::server::{Reply, Server, SimpleServer, Upstream};
use reqwest::header::{HeaderMap, HeaderName, HeaderValue};
use std::sync::atomic::Ordering;
use std::sync::Arc;

#[test]
fn new_server_is_taken_to_be_alive() {
    let server = SimpleServer::new("http://localhost:8001".to_string());
    assert_eq!(server.address(), "http://localhost:8001");
    assert!(server.alive_flag().load(Ordering::Relaxed));
}

#[test]
fn only_success_is_a_sign_of_life() {
    let server = SimpleServer::new("a".to_string());
    for (probe, alive) in [
        (Some(200), true),
        (Some(299), true),
        (Some(199), false),
        (Some(300), false),
        (Some(404), false),
        (Some(500), false),
        (None, false),
        (Some(204), true),
    ] {
        assert_eq!(server.is_alive(probe), alive);
        assert_eq!(server.alive_flag().load(Ordering::Relaxed), alive);
        assert_eq!(server.address(), "a");
    }
}

#[test]
fn later_checks_are_seen_through_the_flag() {
    let server = SimpleServer::new("a".to_string());
    let flag = server.alive_flag();
    assert!(flag.load(Ordering::Relaxed));
    server.is_alive(Some(500));
    assert!(!flag.load(Ordering::Relaxed));
    server.is_alive(Some(200));
    assert!(flag.load(Ordering::Relaxed));
    flag.store(false, Ordering::Relaxed);
    assert!(!server.alive_flag().load(Ordering::Relaxed));
    assert!(Arc::ptr_eq(&flag, &server.alive_flag()));
    let other = SimpleServer::new("a".to_string());
    assert!(!Arc::ptr_eq(&flag, &other.alive_flag()));
    assert!(other.alive_flag().load(Ordering::Relaxed));
}

#[test]
fn requests_go_on_to_the_server() {
    let server = SimpleServer::new("http://localhost:8001".to_string());
    let mut headers = HeaderMap::new();
    headers.insert("host", HeaderValue::from_static("example.com"));
    let request = server.serve(b"POST", Some("/a?b=c"), &headers, Some("10.0.0.1")).unwrap();
    assert_eq!(request.method, "POST");
    assert_eq!(request.target, "http://localhost:8001/a?b=c");
    assert_eq!(request.headers.len(), 3);
    assert_eq!(request.headers["x-real-ip"], "10.0.0.1");
}

#[test]
fn missing_path_and_bad_method_have_defaults() {
    let server = SimpleServer::new("http://localhost:8001".to_string());
    let request = server.serve(b"", None, &HeaderMap::new(), None).unwrap();
    assert_eq!(request.method, "GET");
    assert_eq!(request.target, "http://localhost:8001/");
    assert_eq!(server.serve(b"PA TCH", None, &HeaderMap::new(), None).unwrap().method, "GET");
    assert_eq!(server.serve(b"X#Y", None, &HeaderMap::new(), None).unwrap().method, "GET");
    assert_eq!(server.serve(b"p\xff", None, &HeaderMap::new(), None).unwrap().method, "GET");
}

#[test]
fn method_bytes() {
    let server = SimpleServer::new("a".to_string());
    for b in 0..=255u8 {
        let expected = match reqwest::Method::from_bytes(&[b'M', b]) {
            Ok(m) => m.as_str().to_string(),
            Err(_) => "GET".to_string(),
        };
        let got = server.serve(&[b'M', b], None, &HeaderMap::new(), None).unwrap().method;
        assert_eq!(got, expected);
        let valid = b.is_ascii_alphanumeric() || b"!*+-.^_`|~".contains(&b);
        assert_eq!(got != "GET", valid, "byte {}", b);
    }
    assert_eq!(server.serve(b"brew-some-longer-coffee", None, &HeaderMap::new(), None).unwrap().method, "brew-some-longer-coffee");
}

#[test]
fn answers_are_relayed_as_they_are() {
    let mut headers = HeaderMap::new();
    headers.append("set-cookie", HeaderValue::from_static("a=1"));
    headers.append("content-type", HeaderValue::from_static("text/plain"));
    headers.append("set-cookie", HeaderValue::from_static("b=2"));
    let reply = Reply::relay(Upstream::Answered {
        status: 404,
        headers: headers.clone(),
        body: vec![1, 2, 3],
    })
    .unwrap();
    assert_eq!(reply.status, 404);
    assert_eq!(reply.headers, headers);
    let cookies: Vec<_> = reply.headers.get_all("set-cookie").iter().cloned().collect();
    assert_eq!(cookies, vec!["a=1", "b=2"]);
    assert_eq!(reply.body, vec![1, 2, 3]);
}

#[test]
fn failed_requests_are_a_bad_gateway() {
    let reply = Reply::relay(Upstream::Failed).unwrap();
    assert_eq!(reply.status, 502);
    assert!(reply.headers.is_empty());
    assert!(reply.body.is_empty());
}

#[test]
fn answers_that_no_reply_can_be_like() {
    for (status, fine) in [(99, false), (100, true), (999, true), (1000, false)] {
        let upstream = Upstream::Answered { status, headers: HeaderMap::new(), body: Vec::new() };
        assert_eq!(Reply::relay(upstream).is_some(), fine);
    }
    let mut odd = HeaderMap::new();
    odd.insert(
        "a name of more than sixty-four characters, with spaces and commas in it",
        HeaderValue::from_static("1"),
    );
    let refused = Upstream::Answered { status: 200, headers: odd, body: Vec::new() };
    assert!(Reply::relay(refused).is_none());
}

#[test]
fn header_values_with_all_bytes_are_relayed() {
    let mut headers = HeaderMap::new();
    let value: Vec<u8> = (0..=255u8).filter(|b| (*b >= 32 && *b != 127) || *b == 9).collect();
    headers.insert("x-bytes", HeaderValue::from_bytes(&value).unwrap());
    let upstream = Upstream::Answered { status: 200, headers, body: Vec::new() };
    let reply = Reply::relay(upstream).unwrap();
    assert_eq!(reply.headers["x-bytes"].as_bytes(), &value[..]);
    for b in 0..=255u8 {
        assert_eq!(HeaderValue::from_bytes(&[b]).is_ok(), value.contains(&b));
    }
}

#[test]
fn name_bytes() {
    for b in 0..=255u8 {
        let valid = HeaderName::from_bytes(&[b]).is_ok();
        let expected = b.is_ascii_alphanumeric() || b"!\"#$%&'*+-.^_`|~".contains(&b);
        assert_eq!(valid, expected, "byte {}", b);
    }
    assert_eq!(HeaderName::from_bytes(b"X-Real-IP").unwrap().as_str(), "x-real-ip");
    assert!(HeaderName::from_bytes(&vec![b'a'; 65535]).is_ok());
    assert!(HeaderName::from_bytes(&vec![b'a'; 65536]).is_err());
}

#[test]
fn plain_replies_have_no_headers() {
    let reply = Reply::plain(418, b"teapot".to_vec());
    assert_eq!(reply.status, 418);
    assert!(reply.headers.is_empty());
    assert_eq!(reply.body, b"teapot".to_vec());
}
