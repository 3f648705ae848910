use http_server::request::{RequestError, RequestLineFault, RequestParser, BUF_SIZE};
use http_server::text::decode_chunk;
use http_server::{Header, HeaderSet, HttpMethod, HttpVersion, Request};

fn parse_one(text: &[u8]) -> Result<Request, RequestError> {
    RequestParser::parse_chunks(&vec![text.to_vec()])
}

fn pairs(req: &Request) -> Vec<(String, String)> {
    req.headers()
        .as_slice()
        .iter()
        .map(|h| (h.name.clone(), h.value.clone()))
        .collect()
}

fn same_request(a: &Request, b: &Request) -> bool {
    a.method() == b.method()
        && a.get_path() == b.get_path()
        && a.version() == b.version()
        && pairs(a) == pairs(b)
        && a.body() == b.body()
}

const SAMPLE: &[u8] =
    b"POST /users/42 HTTP/1.1\r\nhost: example\r\naccept: text/html\r\nx: a: b\r\n\r\nhello\r\nworld\r\n";

#[test]
fn simple_get_request() {
    let req = parse_one(b"GET / HTTP/1.1\r\nhost: x\r\n\r\n").unwrap();
    assert_eq!(req.method(), HttpMethod::Get);
    assert_eq!(req.get_path(), "/");
    assert_eq!(req.version(), HttpVersion::OnePointOne);
    assert_eq!(pairs(&req), vec![("host".to_string(), "x".to_string())]);
    assert_eq!(req.body(), "");
}

#[test]
fn every_two_way_split_gives_the_same_request() {
    let whole = parse_one(SAMPLE).unwrap();
    for k in 0..=SAMPLE.len() {
        let chunks = vec![SAMPLE[..k].to_vec(), SAMPLE[k..].to_vec()];
        let split = RequestParser::parse_chunks(&chunks).unwrap();
        assert!(same_request(&whole, &split), "split at {}", k);
    }
}

#[test]
fn byte_by_byte_gives_the_same_request() {
    let whole = parse_one(SAMPLE).unwrap();
    let chunks: Vec<Vec<u8>> = SAMPLE.iter().map(|b| vec![*b]).collect();
    let split = RequestParser::parse_chunks(&chunks).unwrap();
    assert!(same_request(&whole, &split));
}

#[test]
fn sample_request_fields() {
    let req = parse_one(SAMPLE).unwrap();
    assert_eq!(req.method(), HttpMethod::Post);
    assert_eq!(req.get_path(), "/users/42");
    assert_eq!(
        pairs(&req),
        vec![
            ("accept".to_string(), "text/html".to_string()),
            ("host".to_string(), "example".to_string()),
            ("x: a".to_string(), "b".to_string()),
        ]
    );
    assert_eq!(req.body(), "helloworld");
}

#[test]
fn path_segments_skip_empty_pieces() {
    let req = parse_one(b"GET /a//b/ HTTP/1.1\r\n\r\n").unwrap();
    let segs: Vec<String> = req.path_segments().iter().map(|s| s.iter().collect()).collect();
    assert_eq!(segs, vec!["a".to_string(), "b".to_string()]);
    let root = parse_one(b"GET / HTTP/1.1\r\n\r\n").unwrap();
    assert!(root.path_segments().is_empty());
}

#[test]
fn missing_version_is_a_request_line_error() {
    let r = parse_one(b"GET /\r\n\r\n");
    assert_eq!(r.err(), Some(RequestError::RlParseError(RequestLineFault::MissingVersion)));
    let r = parse_one(b"GET\r\n\r\n");
    assert_eq!(r.err(), Some(RequestError::RlParseError(RequestLineFault::MissingPath)));
}

#[test]
fn extra_token_is_a_request_line_error() {
    let r = parse_one(b"GET / HTTP/1.1 more\r\n\r\n");
    assert_eq!(r.err(), Some(RequestError::RlParseError(RequestLineFault::ExtraToken)));
}

#[test]
fn unknown_method_is_a_request_line_error() {
    let r = parse_one(b"FETCH / HTTP/1.1\r\n\r\n");
    assert_eq!(r.err(), Some(RequestError::RlParseError(RequestLineFault::UnknownMethod)));
}

#[test]
fn empty_path_is_bad_path() {
    let r = parse_one(b"GET  HTTP/1.1\r\n\r\n");
    assert_eq!(r.err(), Some(RequestError::BadPath));
}

#[test]
fn wrong_version_is_bad_version() {
    let r = parse_one(b"GET / HTTP/1.0\r\n\r\n");
    assert_eq!(r.err(), Some(RequestError::BadVersion));
}

#[test]
fn header_without_separator_is_bad_header() {
    let r = parse_one(b"GET / HTTP/1.1\r\nhost x\r\n\r\n");
    assert_eq!(r.err(), Some(RequestError::BadHeader));
}

#[test]
fn invalid_utf8_is_refused() {
    let r = parse_one(&[0x47, 0xff, 0x0d, 0x0a]);
    assert_eq!(r.err(), Some(RequestError::InvalidUtf8));
}

#[test]
fn stream_without_request_line_is_unfinished() {
    assert_eq!(parse_one(b"").err(), Some(RequestError::Unfinished));
    assert_eq!(parse_one(b"GET / HTTP/1.1").err(), Some(RequestError::Unfinished));
    let none: Vec<Vec<u8>> = Vec::new();
    assert_eq!(RequestParser::parse_chunks(&none).err(), Some(RequestError::Unfinished));
}

#[test]
fn unterminated_tail_is_not_part_of_the_body() {
    let req = parse_one(b"GET / HTTP/1.1\r\n\r\nline\r\ntail").unwrap();
    assert_eq!(req.body(), "line");
}

#[test]
fn request_without_blank_line_still_finishes() {
    let req = parse_one(b"GET /x HTTP/1.1\r\na: 1\r\n").unwrap();
    assert_eq!(pairs(&req), vec![("a".to_string(), "1".to_string())]);
    assert_eq!(req.body(), "");
}

#[test]
fn duplicate_headers_collapse_and_same_names_stay() {
    let req = parse_one(b"GET / HTTP/1.1\r\nb: 2\r\na: 1\r\nb: 1\r\na: 1\r\n\r\n").unwrap();
    assert_eq!(
        pairs(&req),
        vec![
            ("a".to_string(), "1".to_string()),
            ("b".to_string(), "1".to_string()),
            ("b".to_string(), "2".to_string()),
        ]
    );
}

#[test]
fn multibyte_text_is_decoded() {
    let req = parse_one("GET /caf\u{e9} HTTP/1.1\r\n\r\n\u{e9}t\u{e9}\r\n".as_bytes()).unwrap();
    assert_eq!(req.get_path(), "/caf\u{e9}");
    assert_eq!(req.body(), "\u{e9}t\u{e9}");
}

#[test]
fn decode_chunk_gives_characters() {
    assert_eq!(decode_chunk("h\u{e9}".as_bytes()), Some(vec!['h', '\u{e9}']));
    assert_eq!(decode_chunk(&[0xc3]), None);
}

#[test]
fn on_read_asks_for_more_after_a_full_buffer() {
    let mut p = RequestParser::new();
    let full = vec![b'a'; BUF_SIZE];
    assert_eq!(p.on_read(Some(&full), BUF_SIZE), Ok(true));
    let mut q = RequestParser::new();
    assert_eq!(q.on_read(Some(b"GET / HT"), 8), Ok(true));
    assert_eq!(q.on_read(Some(b"TP/1.1\r\n\r\n"), 16), Ok(false));
    let req = q.to_request().unwrap();
    assert_eq!(req.get_path(), "/");
}

#[test]
fn headers_written_out_read_back() {
    let mut set = HeaderSet::new();
    set.insert(Header::new("host".to_string(), "example".to_string()));
    set.insert(Header::new("accept".to_string(), "*/*".to_string()));
    set.insert(Header::new("accept".to_string(), "text/html".to_string()));
    set.insert(Header::new("empty".to_string(), "".to_string()));
    let mut bytes = b"GET / HTTP/1.1\r\n".to_vec();
    for h in set.as_slice() {
        bytes.extend_from_slice(&h.as_bytes());
    }
    bytes.extend_from_slice(b"\r\n");
    let req = parse_one(&bytes).unwrap();
    let expected: Vec<(String, String)> =
        set.as_slice().iter().map(|h| (h.name.clone(), h.value.clone())).collect();
    assert_eq!(pairs(&req), expected);
}

#[test]
fn header_line_bytes() {
    let h = Header::new("content-type".to_string(), "text/plain".to_string());
    assert_eq!(h.as_bytes(), b"content-type: text/plain\r\n".to_vec());
}

#[test]
fn header_set_is_sorted_and_unique() {
    let mut set = HeaderSet::new();
    set.insert(Header::new("b".to_string(), "1".to_string()));
    set.insert(Header::new("a".to_string(), "2".to_string()));
    set.insert(Header::new("ab".to_string(), "0".to_string()));
    set.insert(Header::new("a".to_string(), "10".to_string()));
    set.insert(Header::new("b".to_string(), "1".to_string()));
    let got: Vec<(String, String)> =
        set.as_slice().iter().map(|h| (h.name.clone(), h.value.clone())).collect();
    assert_eq!(
        got,
        vec![
            ("a".to_string(), "10".to_string()),
            ("a".to_string(), "2".to_string()),
            ("ab".to_string(), "0".to_string()),
            ("b".to_string(), "1".to_string()),
        ]
    );
    assert_eq!(set.len(), 4);
}

#[test]
fn read_that_splits_a_character_gives_the_same_request() {
    let text = "GET / HTTP/1.1\r\n\r\n\u{e9}\r\n".as_bytes();
    let whole = parse_one(text).unwrap();
    let cut = text.len() - 3;
    let chunks = vec![text[..cut].to_vec(), text[cut..].to_vec()];
    let split = RequestParser::parse_chunks(&chunks).unwrap();
    assert!(same_request(&whole, &split));
    assert_eq!(split.body(), "\u{e9}");
}

#[test]
fn path_split_inside_a_character_gives_the_same_request() {
    let text = "GET /\u{e9} HTTP/1.1\r\n\r\n".as_bytes();
    let whole = parse_one(text).unwrap();
    let chunks = vec![text[..5].to_vec(), text[5..6].to_vec(), text[6..].to_vec()];
    let split = RequestParser::parse_chunks(&chunks).unwrap();
    assert!(same_request(&whole, &split));
    assert_eq!(split.get_path(), "/\u{e9}");
}

#[test]
fn unfinished_character_at_end_is_invalid_utf8() {
    let mut text = b"GET / HTTP/1.1\r\n\r\n".to_vec();
    text.push(0xc3);
    assert_eq!(parse_one(&text).err(), Some(RequestError::InvalidUtf8));
}

#[test]
fn failed_read_is_a_socket_error() {
    let mut p = RequestParser::new();
    assert_eq!(p.on_read(None, BUF_SIZE), Err(RequestError::SocketReadError));
}

#[test]
fn request_text_form() {
    let req = parse_one(b"GET /a HTTP/1.1\r\nb: 2\r\na: 1\r\n\r\nbody\r\n").unwrap();
    assert_eq!(req.to_text(), "GET /a HTTP/1.1\na: 1\nb: 2\n\n\nbody");
}
