use net_tools::forwarding::{
    client_ip, extend_chain, forward_headers, pick_client_ip,
};
use reqwest::header::{HeaderMap, HeaderName, HeaderValue};

fn map(entries: &[(&str, &[u8])]) -> HeaderMap {
    let mut headers = HeaderMap::new();
    for (name, value) in entries {
        headers.append(
            HeaderName::from_bytes(name.as_bytes()).unwrap(),
            HeaderValue::from_bytes(value).unwrap(),
        );
    }
    headers
}

fn values(headers: &HeaderMap, name: &str) -> Vec<Vec<u8>> {
    headers.get_all(name).iter().map(|v| v.as_bytes().to_vec()).collect()
}

#[test]
fn client_without_header_is_known_by_its_connection() {
    assert_eq!(client_ip(Some("10.0.0.7"), &HeaderMap::new()), "10.0.0.7");
    assert_eq!(client_ip(None, &HeaderMap::new()), "0.0.0.0");
}

#[test]
fn first_forwarded_address_names_the_client() {
    let headers = map(&[("X-Forwarded-For", b" 1.2.3.4 ,5.6.7.8")]);
    assert_eq!(client_ip(Some("10.0.0.7"), &headers), "1.2.3.4");
    let several = map(&[("x-forwarded-for", b"1.1.1.1"), ("x-forwarded-for", b"2.2.2.2")]);
    assert_eq!(client_ip(None, &several), "1.1.1.1");
    let empty = map(&[("x-forwarded-for", b"")]);
    assert_eq!(client_ip(Some("10.0.0.7"), &empty), "");
}

#[test]
fn unreadable_forwarded_header_is_passed_over() {
    let headers = map(&[("x-forwarded-for", b"1.2.3.4\xff")]);
    assert_eq!(client_ip(Some("10.0.0.7"), &headers), "10.0.0.7");
}

#[test]
fn picking_an_address() {
    assert_eq!(pick_client_ip(Some("\t9.9.9.9\t, x"), Some("p")), "9.9.9.9");
    assert_eq!(pick_client_ip(Some(",x"), Some("p")), "");
    assert_eq!(pick_client_ip(None, Some("p")), "p");
    assert_eq!(pick_client_ip(None, None), "0.0.0.0");
}

#[test]
fn chains_grow_at_the_end() {
    assert_eq!(extend_chain(Some("1.1.1.1, 2.2.2.2"), "3.3.3.3"), "1.1.1.1, 2.2.2.2, 3.3.3.3");
    assert_eq!(extend_chain(None, "3.3.3.3"), "3.3.3.3");
    assert_eq!(extend_chain(Some(""), "3.3.3.3"), ", 3.3.3.3");
}

#[test]
fn host_is_dropped_and_client_added() {
    let incoming = map(&[("Host", b"example.com"), ("Accept", b"text/html"), ("X-Odd", b"\x80\xff")]);
    let out = forward_headers(&incoming, Some("10.0.0.7")).unwrap();
    assert!(!out.contains_key("host"));
    assert_eq!(values(&out, "accept"), vec![b"text/html".to_vec()]);
    assert_eq!(values(&out, "x-odd"), vec![vec![0x80, 0xff]]);
    assert_eq!(values(&out, "x-forwarded-for"), vec![b"10.0.0.7".to_vec()]);
    assert_eq!(values(&out, "x-real-ip"), vec![b"10.0.0.7".to_vec()]);
    assert_eq!(values(&out, "x-forwarded-proto"), vec![b"http".to_vec()]);
    assert_eq!(out.len(), 5);
}

#[test]
fn existing_proxy_headers_are_respected() {
    let incoming = map(&[
        ("x-forwarded-for", b"1.1.1.1"),
        ("x-real-ip", b"1.1.1.1"),
        ("x-forwarded-proto", b"https"),
    ]);
    let out = forward_headers(&incoming, Some("2.2.2.2")).unwrap();
    assert_eq!(values(&out, "x-forwarded-for"), vec![b"1.1.1.1, 2.2.2.2".to_vec()]);
    assert_eq!(values(&out, "x-real-ip"), vec![b"1.1.1.1".to_vec()]);
    assert_eq!(values(&out, "x-forwarded-proto"), vec![b"https".to_vec()]);
}

#[test]
fn last_of_several_values_is_passed_on() {
    let incoming = map(&[("cookie", b"a=1"), ("cookie", b"b=2"), ("x-forwarded-for", b"1.1.1.1"), ("x-forwarded-for", b"2.2.2.2")]);
    let out = forward_headers(&incoming, Some("3.3.3.3")).unwrap();
    assert_eq!(values(&out, "cookie"), vec![b"b=2".to_vec()]);
    assert_eq!(values(&out, "x-forwarded-for"), vec![b"2.2.2.2, 3.3.3.3".to_vec()]);
}

#[test]
fn without_a_client_address_only_the_protocol_is_added() {
    let out = forward_headers(&map(&[("accept", b"*/*")]), None).unwrap();
    assert_eq!(out.len(), 2);
    assert_eq!(values(&out, "x-forwarded-proto"), vec![b"http".to_vec()]);
}

#[test]
fn unwritable_addresses_are_left_out() {
    let out = forward_headers(&map(&[("x-forwarded-for", b"1.1.1.1")]), Some("a\nb")).unwrap();
    assert_eq!(values(&out, "x-forwarded-for"), vec![b"1.1.1.1".to_vec()]);
    assert!(!out.contains_key("x-real-ip"));
}

#[test]
fn unreadable_chain_is_replaced() {
    let out = forward_headers(&map(&[("x-forwarded-for", b"\xff")]), Some("2.2.2.2")).unwrap();
    assert_eq!(values(&out, "x-forwarded-for"), vec![b"2.2.2.2".to_vec()]);
    let text = forward_headers(&HeaderMap::new(), Some("\u{e9}")).unwrap();
    assert_eq!(values(&text, "x-real-ip"), vec!["\u{e9}".as_bytes().to_vec()]);
}

#[test]
fn name_that_no_parser_takes_is_not_passed_on() {
    let mut incoming = HeaderMap::new();
    let odd = "a name of more than sixty-four characters, with spaces and commas in it";
    assert!(odd.len() > 64);
    incoming.insert(odd, HeaderValue::from_static("1"));
    incoming.insert("accept", HeaderValue::from_static("*/*"));
    let out = forward_headers(&incoming, None).unwrap();
    assert_eq!(out.len(), 2);
    assert!(out.contains_key("accept"));
}

#[test]
fn next_proxy_knows_the_client_by_the_same_address() {
    for incoming in [map(&[]), map(&[("x-forwarded-for", b"1.1.1.1, 9.9.9.9")]), map(&[("x-forwarded-for", b"\xff")])] {
        let here = client_ip(Some("2.2.2.2"), &incoming);
        let out = forward_headers(&incoming, Some("2.2.2.2")).unwrap();
        assert_eq!(client_ip(Some("127.0.0.1"), &out), here);
    }
}

fn numbered(count: usize) -> HeaderMap {
    let mut headers = HeaderMap::new();
    for i in 0..count {
        headers.insert(
            HeaderName::from_bytes(format!("h{}", i).as_bytes()).unwrap(),
            HeaderValue::from_static("v"),
        );
    }
    headers
}

#[test]
fn many_headers_are_passed_on() {
    for count in [6551, 10_000] {
        let out = forward_headers(&numbered(count), Some("1.1.1.1")).unwrap();
        assert_eq!(out.len(), count + 3);
        assert_eq!(values(&out, "h6550"), vec![b"v".to_vec()]);
    }
}

#[test]
fn full_header_map_has_no_room_for_more() {
    let mut headers = HeaderMap::new();
    let mut i = 0;
    loop {
        let name = HeaderName::from_bytes(format!("h{}", i).as_bytes()).unwrap();
        if headers.try_insert(name, HeaderValue::from_static("v")).is_err() {
            break;
        }
        i += 1;
    }
    assert!(headers.keys_len() > 6553);
    assert!(forward_headers(&headers, Some("1.1.1.1")).is_none());
}

#[test]
fn without_a_client_address_the_chain_arrives_unchanged() {
    let out = forward_headers(&map(&[("x-forwarded-for", b"1.1.1.1, 2.2.2.2")]), None).unwrap();
    assert_eq!(values(&out, "x-forwarded-for"), vec![b"1.1.1.1, 2.2.2.2".to_vec()]);
    assert_eq!(out.len(), 2);
}
