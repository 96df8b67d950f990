use gritshield::http::form::FormData;
use gritshield::http::request::{percent_decode, sanitize_path, HttpMethod, ReadState, ReadStep, Request};
use gritshield::multimap::MultiMap;
use gritshield::security::UntrustedString;

fn head_end(buf: &[u8]) -> Option<usize> {
    buf.windows(4).position(|w| w == b"\r\n\r\n")
}

fn request_with(content_type: &str, body: &[u8]) -> Request {
    let mut headers: MultiMap<String> = MultiMap::new();
    headers.push("content-type".to_string(), content_type.to_string());
    Request::fill(
        HttpMethod::POST,
        "/submit".to_string(),
        "/submit".to_string(),
        headers,
        body.to_vec(),
        MultiMap::new(),
    )
}

#[test]
fn percent_decode_leaves_plain_text() {
    assert_eq!(percent_decode("hello-world"), "hello-world");
}

#[test]
fn percent_decode_plus_and_escapes() {
    assert_eq!(percent_decode("a+b%20c%2Fd"), "a b c/d");
}

#[test]
fn percent_decode_keeps_bad_escape() {
    assert_eq!(percent_decode("100%zz"), "100%zz");
    assert_eq!(percent_decode("tail%4"), "tail%4");
}

#[test]
fn percent_decode_invalid_utf8_gives_input() {
    assert_eq!(percent_decode("%FF%FE"), "%FF%FE");
}

#[test]
fn percent_decode_multibyte() {
    assert_eq!(percent_decode("caf%C3%A9"), "café");
}

#[test]
fn sanitize_path_plain() {
    assert_eq!(sanitize_path("/admin/users"), "/admin/users");
}

#[test]
fn sanitize_path_resolves_dots() {
    assert_eq!(sanitize_path("/a/../../etc/passwd"), "/etc/passwd");
    assert_eq!(sanitize_path("/a/./b/../c"), "/a/c");
    assert_eq!(sanitize_path("/a/.."), "/");
}

#[test]
fn sanitize_path_collapses_slashes() {
    assert_eq!(sanitize_path("//a//b"), "/a/b");
}

#[test]
fn sanitize_path_is_idempotent_on_example() {
    let once = sanitize_path("/x/../y//z/./");
    assert_eq!(once, "/y/z");
    assert_eq!(sanitize_path(&once), once);
}

#[test]
fn parse_head_full_request() {
    let raw = b"GET /admin/users?page=2&q=a%20b&page=3 HTTP/1.1\r\nHost: example.com\r\nX-Token:  abc \r\n\r\nbody!";
    let h = head_end(raw);
    let req = Request::parse_head(raw, raw.len(), h).unwrap();
    assert_eq!(req.method, HttpMethod::GET);
    assert_eq!(req.path, "/admin/users");
    assert_eq!(req.uri, "/admin/users");
    let pages: Vec<&str> = req.query.get("page").unwrap().iter().map(|v| v.as_str()).collect();
    assert_eq!(pages, vec!["2", "3"]);
    assert_eq!(req.query.get("q").unwrap()[0].as_str(), "a b");
    assert_eq!(req.headers.get("x-token").unwrap()[0], "abc");
    assert!(req.has_header("HOST"));
    assert!(req.has_header("host"));
    assert!(!req.has_header("cookie"));
    assert_eq!(req.body, b"body!".to_vec());
}

#[test]
fn parse_head_methods() {
    for (word, method) in [
        ("POST", HttpMethod::POST),
        ("PUT", HttpMethod::PUT),
        ("PATCH", HttpMethod::PATCH),
        ("DELETE", HttpMethod::DELETE),
        ("OPTIONS", HttpMethod::OPTIONS),
        ("HEAD", HttpMethod::HEAD),
        ("BREW", HttpMethod::UNKNOWN),
    ] {
        let raw = format!("{} / HTTP/1.1\r\n\r\n", word);
        let b = raw.as_bytes();
        let req = Request::parse_head(b, b.len(), head_end(b)).unwrap();
        assert_eq!(req.method, method);
    }
}

#[test]
fn parse_head_decodes_path() {
    let raw = b"GET /files/my%20doc HTTP/1.1\r\n\r\n";
    let req = Request::parse_head(raw, raw.len(), head_end(raw)).unwrap();
    assert_eq!(req.path, "/files/my doc");
}

#[test]
fn parse_head_errors() {
    let raw = b"GET / HTTP/1.1\r\n";
    assert_eq!(Request::parse_head(raw, raw.len(), None).err().unwrap(), "Malformed request");
    let raw = b"GET /\r\n\r\n";
    assert_eq!(
        Request::parse_head(raw, raw.len(), head_end(raw)).err().unwrap(),
        "Malformed request line"
    );
    let raw = b"GET /\xff HTTP/1.1\r\n\r\n";
    assert_eq!(
        Request::parse_head(raw, raw.len(), head_end(raw)).err().unwrap(),
        "Invalid UTF-8 in headers"
    );
    let raw = b"\r\n\r\n";
    assert_eq!(
        Request::parse_head(raw, raw.len(), Some(0)).err().unwrap(),
        "Missing request line"
    );
}

#[test]
fn read_state_waits_for_body() {
    let raw = b"POST /x HTTP/1.1\r\nContent-Length: 5\r\n\r\nhel";
    let mut buf = raw.to_vec();
    buf.extend_from_slice(&[0u8; 16]);
    let mut st = ReadState::new();
    match st.on_read(&buf, raw.len()) {
        ReadStep::ReadMore { send_continue } => assert!(!send_continue),
        _ => panic!("expected to read more"),
    }
    buf[raw.len()] = b'l';
    buf[raw.len() + 1] = b'o';
    match st.on_read(&buf, 2) {
        ReadStep::Complete { send_continue } => assert!(!send_continue),
        _ => panic!("expected a complete request"),
    }
    assert_eq!(st.total_read, raw.len() + 2);
}

#[test]
fn read_state_expect_continue_and_empty() {
    let raw = b"POST /x HTTP/1.1\r\nExpect: 100-continue\r\nContent-Length: 3\r\n\r\n";
    let mut st = ReadState::new();
    match st.on_read(raw, raw.len()) {
        ReadStep::ReadMore { send_continue } => assert!(send_continue),
        _ => panic!("expected to read more"),
    }
    let mut empty = ReadState::new();
    match empty.on_read(raw, 0) {
        ReadStep::Failed(e) => assert_eq!(e, "Empty request"),
        _ => panic!("expected a failure"),
    }
}

#[test]
fn prepare_buffer_grows_and_refuses() {
    let st = ReadState { total_read: 4, header_end: None };
    let mut buf = vec![1u8; 4];
    assert!(st.prepare_buffer(&mut buf).is_ok());
    assert_eq!(buf.len(), 4 + 65536);
    assert_eq!(&buf[..4], &[1u8, 1, 1, 1]);
    let big = 1048576usize;
    let full = ReadState { total_read: big, header_end: None };
    let mut buf = vec![0u8; big];
    assert_eq!(full.prepare_buffer(&mut buf).err().unwrap(), "Request too large");
}

#[test]
fn urlencoded_form() {
    let req = request_with("application/x-www-form-urlencoded", b"a=1&b=x%21&a=2&skip&c=%3Cb%3E");
    let form = req.parse_form_body();
    assert_eq!(form.get_all_plain_str("a"), vec!["1", "2"]);
    assert_eq!(form.get_plain_str("b"), Some("x!"));
    assert_eq!(form.get_plain_str("skip"), None);
    assert_eq!(form.get_parsed::<u64>("a"), Some(1));
    assert_eq!(form.get_parsed::<i64>("b"), None);
    assert_eq!(form.get_safe_html("c").unwrap().as_str(), "&lt;b&gt;");
    assert!(form.get_file("a").is_none());
}

#[test]
fn multipart_form_fields_and_files() {
    let body = b"--XyZ\r\nContent-Disposition: form-data; name=\"title\"\r\n\r\nHello\r\n--XyZ\r\nContent-Disposition: form-data; name=\"avatar\"; filename=\"me.png\"\r\nContent-Type: image/png\r\n\r\n\x89PNG\r\n--XyZ--\r\n";
    let req = request_with("multipart/form-data; boundary=XyZ", body);
    let form = req.parse_form_body();
    assert_eq!(form.get_plain_str("title"), Some("Hello"));
    let file = form.get_file("avatar").unwrap();
    assert_eq!(file.filename, "me.png");
    assert_eq!(file.content_type, "image/png");
    assert_eq!(file.data, b"\x89PNG".to_vec());
    assert_eq!(form.get_all_files("avatar").len(), 1);
}

#[test]
fn multipart_rfc2231_filename() {
    let body = b"--B\r\nContent-Disposition: form-data; name=\"doc\"; filename*=UTF-8''r%C3%A9sum%C3%A9.txt\r\n\r\ndata\r\n--B--\r\n";
    let req = request_with("multipart/form-data; boundary=\"B\"", body);
    let form = req.parse_form_body();
    let file = form.get_file("doc").unwrap();
    assert_eq!(file.filename, "résumé.txt");
    assert_eq!(file.content_type, "text/plain");
    assert_eq!(file.data, b"data".to_vec());
}

#[test]
fn form_without_content_type_is_empty() {
    let req = Request::fill(
        HttpMethod::POST,
        "/".to_string(),
        "/".to_string(),
        MultiMap::new(),
        b"a=1".to_vec(),
        MultiMap::new(),
    );
    let form = req.parse_form_body();
    assert_eq!(form.get_plain_str("a"), None);
    let other = request_with("text/plain", b"a=1");
    assert_eq!(other.parse_form_body().get_plain_str("a"), None);
}

#[test]
fn form_data_new_is_empty() {
    let form = FormData::new();
    assert!(form.get_all_plain_str("x").is_empty());
    assert!(form.get_all_files("x").is_empty());
    assert_eq!(form.get_parsed::<bool>("x"), None);
}

#[test]
fn form_parsed_bool_and_usize() {
    let mut form = FormData::new();
    form.fields.push("flag".to_string(), UntrustedString::new("true".to_string()));
    form.fields.push("n".to_string(), UntrustedString::new("+42".to_string()));
    assert_eq!(form.get_parsed::<bool>("flag"), Some(true));
    assert_eq!(form.get_parsed::<usize>("n"), Some(42));
    assert_eq!(form.get_parsed::<i64>("n"), Some(42));
}

#[test]
fn request_new_is_empty() {
    let req = Request::new();
    assert_eq!(req.method, HttpMethod::GET);
    assert!(req.path.is_empty());
    assert!(req.body.is_empty());
    assert!(!req.has_header("host"));
}

#[test]
fn url_encode_reads_back() {
    let x = "a b&c=d%41e+f/é?#";
    let e = gritshield::security::Sanitizer::url_encode(x);
    assert_eq!(percent_decode(&e), x);
    assert_eq!(gritshield::security::Sanitizer::url_decode(&e), x);
}
