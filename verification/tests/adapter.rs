use now_rust::base64::{decode, encode};
use now_rust::{
    eq_ignore_case, Body, Handler, NowError, NowEvent, Request, Response, StrMap,
};
use now_rust::request::translate_request;
use now_rust::response::{join_repeated_headers, translate_response, IntoResponse, NowResponse};

fn event(
    method: &str,
    path: &str,
    headers: Vec<(&str, &str)>,
    query: &str,
    body: &str,
    is_base64_encoded: bool,
) -> NowEvent {
    NowEvent {
        method: method.to_owned(),
        path: path.to_owned(),
        headers: headers
            .into_iter()
            .map(|(k, v)| (k.to_owned(), v.to_owned()))
            .collect(),
        query: query.to_owned(),
        body: body.to_owned(),
        is_base64_encoded,
    }
}

// Body: byte round trips and UTF-8 classification

#[test]
fn body_from_bytes_round_trips_text() {
    let b = b"hello world".to_vec();
    let body = Body::from_bytes(b.clone());
    assert!(body.is_text());
    assert_eq!(body.bytes(), b);
}

#[test]
fn body_from_bytes_round_trips_binary() {
    let b = vec![0xff, 0x00, 0xfe, 0x01];
    let body = Body::from_bytes(b.clone());
    assert!(body.is_binary());
    assert_eq!(body.bytes(), b);
}

#[test]
fn body_from_bytes_empty_is_empty_variant() {
    let body = Body::from_bytes(Vec::new());
    assert!(!body.is_text());
    assert!(!body.is_binary());
    assert!(body.is_empty());
    assert_eq!(body.bytes(), Vec::<u8>::new());
}

#[test]
fn body_classifies_utf8_as_text() {
    let body = Body::from_bytes("héllo".as_bytes().to_vec());
    assert!(body.is_text());
    assert_eq!(body.as_text().unwrap().as_str(), "héllo");
    assert_eq!(body.len(), "héllo".len());
}

#[test]
fn body_classifies_non_utf8_as_binary() {
    let body = Body::from_bytes(vec![0xc3, 0x28]);
    assert!(body.is_binary());
    assert_eq!(body.len(), 2);
}

#[test]
fn body_from_text_keeps_text() {
    let body = Body::from_text("abc".to_owned());
    assert!(body.is_text());
    assert_eq!(body.bytes(), b"abc".to_vec());
    let empty = Body::from_text(String::new());
    assert!(empty.is_empty());
    assert!(!empty.is_text());
}

// StrMap: case-insensitive lookup, accumulation, order

#[test]
fn strmap_get_is_case_insensitive() {
    let mut m = StrMap::new();
    m.insert("X-Test".to_owned(), "v".to_owned());
    assert_eq!(m.get("x-test").unwrap().as_str(), "v");
    assert_eq!(m.get("X-TEST").unwrap().as_str(), "v");
    assert!(m.get("other").is_none());
}

#[test]
fn strmap_accumulates_case_variant_keys_in_order() {
    let mut m = StrMap::new();
    m.insert("Set-Cookie".to_owned(), "a=1".to_owned());
    m.insert("set-cookie".to_owned(), "b=2".to_owned());
    assert_eq!(m.len(), 1);
    let all = m.get_all("SET-COOKIE");
    assert_eq!(all, vec!["a=1".to_owned(), "b=2".to_owned()]);
    assert_eq!(m.get("set-Cookie").unwrap().as_str(), "a=1");
}

#[test]
fn strmap_preserves_insertion_order_of_distinct_keys() {
    let mut m = StrMap::new();
    m.insert("b".to_owned(), "2".to_owned());
    m.insert("a".to_owned(), "1".to_owned());
    m.insert("c".to_owned(), "3".to_owned());
    assert_eq!(m.len(), 3);
    assert_eq!(m.key_at(0).as_str(), "b");
    assert_eq!(m.key_at(1).as_str(), "a");
    assert_eq!(m.key_at(2).as_str(), "c");
    assert_eq!(m.values_at(1), &vec!["1".to_owned()]);
}

#[test]
fn eq_ignore_case_folds_ascii_only() {
    assert!(eq_ignore_case("Content-Type", "content-type"));
    assert!(eq_ignore_case("", ""));
    assert!(!eq_ignore_case("a", "b"));
    assert!(!eq_ignore_case("a", "ab"));
}

// Base64: exact values and round trips

#[test]
fn base64_encodes_exact_values() {
    assert_eq!(encode(&b"hello".to_vec()), b"aGVsbG8=".to_vec());
    assert_eq!(encode(&vec![0xff]), b"/w==".to_vec());
    assert_eq!(encode(&b"".to_vec()), b"".to_vec());
    assert_eq!(encode(&b"abc".to_vec()), b"YWJj".to_vec());
    assert_eq!(encode(&b"ab".to_vec()), b"YWI=".to_vec());
}

#[test]
fn base64_decodes_exact_values() {
    assert_eq!(decode(&b"aGVsbG8=".to_vec()).unwrap(), b"hello".to_vec());
    assert_eq!(decode(&b"/w==".to_vec()).unwrap(), vec![0xff]);
    assert_eq!(decode(&b"YWJj".to_vec()).unwrap(), b"abc".to_vec());
    assert_eq!(decode(&b"".to_vec()).unwrap(), Vec::<u8>::new());
}

#[test]
fn base64_rejects_bad_input() {
    assert!(decode(&b"a".to_vec()).is_none());
    assert!(decode(&b"a?==".to_vec()).is_none());
    assert!(decode(&b"====".to_vec()).is_none());
    assert!(decode(&b"aG=a".to_vec()).is_none());
}

#[test]
fn base64_round_trips() {
    for len in 0..30usize {
        let bytes: Vec<u8> = (0..len).map(|i| (i * 37 + 11) as u8).collect();
        let enc = encode(&bytes);
        assert_eq!(decode(&enc).unwrap(), bytes);
    }
}

// Request translation scenarios

#[test]
fn event_with_query_and_header_translates() {
    let ev = event(
        "GET",
        "/foo",
        vec![("X-Test", "v")],
        "a=1&a=2",
        "",
        false,
    );
    let req = translate_request(ev).unwrap();
    assert_eq!(req.method, "GET");
    assert_eq!(req.path, "/foo");
    assert_eq!(
        req.query.get_all("a"),
        vec!["1".to_owned(), "2".to_owned()]
    );
    assert_eq!(req.headers.get("x-test").unwrap().as_str(), "v");
    assert!(req.body.is_empty());
    assert_eq!(req.uri(), "/foo?a=1&a=2");
}

#[test]
fn base64_text_body_becomes_text() {
    let ev = event("POST", "/", vec![], "", "aGVsbG8=", true);
    let req = translate_request(ev).unwrap();
    assert!(req.body.is_text());
    assert_eq!(req.body.as_text().unwrap().as_str(), "hello");
}

#[test]
fn base64_non_utf8_body_becomes_binary() {
    let ev = event("POST", "/", vec![], "", "/w==", true);
    let req = translate_request(ev).unwrap();
    assert!(req.body.is_binary());
    assert_eq!(req.body.bytes(), vec![0xff]);
}

#[test]
fn invalid_base64_body_is_a_recoverable_error() {
    let ev = event("POST", "/", vec![], "", "not base64!", true);
    match translate_request(ev) {
        Err(NowError::InvalidBodyEncoding) => {},
        other => panic!("expected InvalidBodyEncoding, got {:?}", other.map(|_| ())),
    }
}

#[test]
fn query_without_value_and_empty_segments() {
    let ev = event("GET", "/p", vec![], "flag&&x=1&", "", false);
    let req = translate_request(ev).unwrap();
    assert_eq!(req.query.get("flag").unwrap().as_str(), "");
    assert_eq!(req.query.get("x").unwrap().as_str(), "1");
    assert_eq!(req.query.len(), 2);
}

#[test]
fn uri_without_query_is_the_path() {
    let ev = event("GET", "/bare", vec![], "", "", false);
    let req = translate_request(ev).unwrap();
    assert_eq!(req.uri(), "/bare");
}

// Event validation (improved parse policy)

#[test]
fn missing_method_is_a_recoverable_error() {
    let r = NowEvent::from_parts(
        None,
        Some("/".to_owned()),
        Vec::new(),
        None,
        None,
        None,
    );
    match r {
        Err(NowError::MalformedEvent) => {},
        _ => panic!("expected MalformedEvent"),
    }
}

#[test]
fn missing_optional_fields_take_defaults() {
    let ev = NowEvent::from_parts(
        Some("GET".to_owned()),
        Some("/d".to_owned()),
        Vec::new(),
        None,
        None,
        None,
    )
    .unwrap();
    assert_eq!(ev.query, "");
    assert_eq!(ev.body, "");
    assert!(!ev.is_base64_encoded);
}

// Response translation scenarios

#[test]
fn binary_response_is_base64_flagged_and_round_trips() {
    let bytes = vec![0xff, 0x00, 0x10, 0x80];
    let resp = Response::new(200, StrMap::new(), Body::from_bytes(bytes.clone())).unwrap();
    let out = translate_response(resp);
    assert_eq!(out.status_code, 200);
    assert!(out.is_base64_encoded);
    let decoded = decode(&out.body.as_bytes().to_vec()).unwrap();
    assert_eq!(decoded, bytes);
}

#[test]
fn text_response_is_passed_through() {
    let resp = Response::new(201, StrMap::new(), Body::from_text("done".to_owned())).unwrap();
    let out = translate_response(resp);
    assert_eq!(out.status_code, 201);
    assert!(!out.is_base64_encoded);
    assert_eq!(out.body, "done");
}

#[test]
fn empty_response_body_is_an_empty_string() {
    let resp = Response::new(204, StrMap::new(), Body::Empty).unwrap();
    let out = translate_response(resp);
    assert_eq!(out.body, "");
    assert!(!out.is_base64_encoded);
}

#[test]
fn response_headers_flatten_in_order_with_repeats() {
    let mut h = StrMap::new();
    h.insert("Set-Cookie".to_owned(), "a=1".to_owned());
    h.insert("Content-Type".to_owned(), "text/plain".to_owned());
    h.insert("SET-COOKIE".to_owned(), "b=2".to_owned());
    let resp = Response::new(200, h, Body::Empty).unwrap();
    let out = translate_response(resp);
    assert_eq!(
        out.headers,
        vec![
            ("Set-Cookie".to_owned(), "a=1".to_owned()),
            ("Set-Cookie".to_owned(), "b=2".to_owned()),
            ("Content-Type".to_owned(), "text/plain".to_owned()),
        ]
    );
}

#[test]
fn join_repeated_headers_joins_values_in_order() {
    let pairs = vec![
        ("Set-Cookie".to_owned(), "a=1".to_owned()),
        ("set-cookie".to_owned(), "b=2".to_owned()),
        ("Content-Type".to_owned(), "text/plain".to_owned()),
    ];
    assert_eq!(
        join_repeated_headers(&pairs),
        vec![
            ("Set-Cookie".to_owned(), "a=1, b=2".to_owned()),
            ("Content-Type".to_owned(), "text/plain".to_owned()),
        ]
    );
    assert_eq!(join_repeated_headers(&Vec::new()), Vec::<(String, String)>::new());
}

#[test]
fn out_of_range_status_is_a_recoverable_error() {
    match Response::new(99, StrMap::new(), Body::Empty) {
        Err(NowError::InvalidResponse) => {},
        _ => panic!("expected InvalidResponse"),
    }
    match Response::new(600, StrMap::new(), Body::Empty) {
        Err(NowError::InvalidResponse) => {},
        _ => panic!("expected InvalidResponse"),
    }
}

// Full invocations through a handler

struct EchoBinary;

impl Handler<Response> for EchoBinary {
    fn run(&mut self, _event: Request) -> Result<Response, NowError> {
        Response::new(200, StrMap::new(), Body::from_bytes(vec![0xff, 0xfe, 0x00]))
    }
}

struct Failing;

impl Handler<Response> for Failing {
    fn run(&mut self, _event: Request) -> Result<Response, NowError> {
        Err(NowError::Handler("boom".to_owned()))
    }
}

#[test]
fn handler_binary_response_reaches_the_envelope() {
    let mut h = EchoBinary;
    let ev = event("GET", "/bin", vec![], "", "", false);
    let out: NowResponse = now_rust::process_event(&mut h, ev).unwrap();
    assert_eq!(out.status_code, 200);
    assert!(out.is_base64_encoded);
    let decoded = decode(&out.body.as_bytes().to_vec()).unwrap();
    assert_eq!(decoded, vec![0xff, 0xfe, 0x00]);
}

#[test]
fn handler_failure_is_passed_through() {
    let mut h = Failing;
    let ev = event("GET", "/", vec![], "", "", false);
    match now_rust::process_event(&mut h, ev) {
        Err(NowError::Handler(m)) => assert_eq!(m, "boom"),
        _ => panic!("expected the handler's failure"),
    }
}

#[test]
fn malformed_raw_event_does_not_crash_the_invocation() {
    let mut h = EchoBinary;
    let r = now_rust::process_raw_event(
        &mut h,
        None,
        None,
        Vec::new(),
        None,
        None,
        None,
    );
    match r {
        Err(NowError::MalformedEvent) => {},
        _ => panic!("expected MalformedEvent"),
    }
    assert_eq!(
        NowError::MalformedEvent.message(),
        "malformed event: missing method or path"
    );
}

#[test]
fn string_into_response_is_ok_text() {
    let resp = "hi".to_owned().into_response();
    assert_eq!(resp.status, 200);
    assert!(resp.body.is_text());
    let out = translate_response(resp);
    assert_eq!(out.body, "hi");
    assert_eq!(out.status_code, 200);
}
