use http_server::http::http_request::{
    after_read, extract_body, parse_head, parse_method, HttpRequest, Method, ReadStep,
    RequestHead,
};
use http_server::http::HttpError;

fn header<'a>(request: &'a HttpRequest, name: &str) -> Option<&'a str> {
    request.headers.as_ref().and_then(|h| h.get(name)).map(|v| v.as_str())
}

#[test]
fn parses_get_with_one_header() {
    let request = HttpRequest::parse(b"GET /echo/abc HTTP/1.1\r\nHost: x\r\n\r\n").unwrap();
    assert_eq!(request.method, Method::Get);
    assert_eq!(request.path, "/echo/abc");
    let headers = request.headers.as_ref().expect("one header line");
    assert_eq!(headers.len(), 1);
    assert_eq!(header(&request, "Host"), Some("x"));
    assert!(request.body.is_none());
}

#[test]
fn parses_post_with_body() {
    let request =
        HttpRequest::parse(b"POST /files/a.txt HTTP/1.1\r\nContent-Length: 5\r\n\r\nhello")
            .unwrap();
    assert_eq!(request.method, Method::Post);
    assert_eq!(request.path, "/files/a.txt");
    let headers = request.headers.as_ref().expect("one header line");
    assert_eq!(headers.len(), 1);
    assert_eq!(header(&request, "Content-Length"), Some("5"));
    assert_eq!(request.body.as_deref(), Some(&b"hello"[..]));
}

#[test]
fn short_body_is_incomplete() {
    let err =
        HttpRequest::parse(b"POST /f HTTP/1.1\r\nContent-Length: 6\r\n\r\nhello").unwrap_err();
    assert_eq!(err, HttpError::IncompleteBody);
}

#[test]
fn declared_body_with_nothing_after_the_head_is_incomplete() {
    let err = HttpRequest::parse(b"POST /f HTTP/1.1\r\nContent-Length: 1\r\n\r\n").unwrap_err();
    assert_eq!(err, HttpError::IncompleteBody);
}

#[test]
fn incomplete_body_is_complete_after_more_bytes() {
    let mut buffer = b"PUT /f HTTP/1.1\r\nContent-Length: 4\r\n\r\nab".to_vec();
    assert_eq!(HttpRequest::parse(&buffer).unwrap_err(), HttpError::IncompleteBody);
    buffer.extend_from_slice(b"cd");
    let request = HttpRequest::parse(&buffer).unwrap();
    assert_eq!(request.body.as_deref(), Some(&b"abcd"[..]));
}

#[test]
fn trailing_bytes_are_not_part_of_the_body() {
    let request =
        HttpRequest::parse(b"POST /f HTTP/1.1\r\nContent-Length: 3\r\n\r\nabcdef").unwrap();
    assert_eq!(request.body.as_deref(), Some(&b"abc"[..]));
}

#[test]
fn no_header_lines_give_no_headers() {
    let request = HttpRequest::parse(b"GET / HTTP/1.1\r\n\r\n").unwrap();
    assert_eq!(request.method, Method::Get);
    assert_eq!(request.path, "/");
    assert!(request.headers.is_none());
    assert!(request.body.is_none());
}

#[test]
fn bytes_after_a_head_without_content_length_are_ignored() {
    let request = HttpRequest::parse(b"GET / HTTP/1.1\r\nHost: x\r\n\r\nignored").unwrap();
    assert!(request.body.is_none());
}

#[test]
fn content_length_zero_gives_no_body() {
    let request = HttpRequest::parse(b"POST / HTTP/1.1\r\nContent-Length: 0\r\n\r\nabc").unwrap();
    assert!(request.body.is_none());
    assert_eq!(header(&request, "Content-Length"), Some("0"));
}

#[test]
fn every_method_is_recognised_in_any_case() {
    let cases: [(&[u8], Method); 10] = [
        (b"GET", Method::Get),
        (b"get", Method::Get),
        (b"POST", Method::Post),
        (b"pOsT", Method::Post),
        (b"PUT", Method::Put),
        (b"put", Method::Put),
        (b"DELETE", Method::Delete),
        (b"Delete", Method::Delete),
        (b"PATCH", Method::Patch),
        (b"patcH", Method::Patch),
    ];
    for (token, method) in cases {
        let mut buffer = token.to_vec();
        buffer.extend_from_slice(b" /x HTTP/1.1\r\n\r\n");
        let request = HttpRequest::parse(&buffer).unwrap();
        assert_eq!(request.method, method);
        assert_eq!(request.path, "/x");
    }
}

#[test]
fn unknown_method_is_invalid() {
    for buffer in [
        &b"HEAD / HTTP/1.1\r\n\r\n"[..],
        b"OPTIONS / HTTP/1.1\r\n\r\n",
        b"GETX / HTTP/1.1\r\n\r\n",
        b"GET",
        b"GE",
        b"",
        b" GET / HTTP/1.1\r\n\r\n",
        b"GET\t/ HTTP/1.1\r\n\r\n",
        b"PAT / HTTP/1.1\r\n\r\n",
    ] {
        assert_eq!(HttpRequest::parse(buffer).unwrap_err(), HttpError::InvalidMethod);
    }
}

#[test]
fn missing_path_delimiter_is_a_malformed_request_line() {
    assert_eq!(HttpRequest::parse(b"GET /abc").unwrap_err(), HttpError::MalformedRequestLine);
    assert_eq!(HttpRequest::parse(b"GET ").unwrap_err(), HttpError::MalformedRequestLine);
    assert_eq!(HttpRequest::parse(b"GET /a\r\n\r\n").unwrap_err(), HttpError::MalformedRequestLine);
}

#[test]
fn missing_version_terminator_is_a_malformed_request_line() {
    assert_eq!(
        HttpRequest::parse(b"GET /abc HTTP/1.1").unwrap_err(),
        HttpError::MalformedRequestLine
    );
    assert_eq!(
        HttpRequest::parse(b"GET /abc HTTP/1.1\n\n").unwrap_err(),
        HttpError::MalformedRequestLine
    );
    assert_eq!(
        HttpRequest::parse(b"GET /abc HTTP/1.1\r").unwrap_err(),
        HttpError::MalformedRequestLine
    );
}

#[test]
fn missing_blank_line_is_a_malformed_header() {
    assert_eq!(
        HttpRequest::parse(b"GET / HTTP/1.1\r\n").unwrap_err(),
        HttpError::MalformedHeader
    );
    assert_eq!(
        HttpRequest::parse(b"GET / HTTP/1.1\r\nHost: x\r\n").unwrap_err(),
        HttpError::MalformedHeader
    );
    assert_eq!(
        HttpRequest::parse(b"GET / HTTP/1.1\r\nHost: x").unwrap_err(),
        HttpError::MalformedHeader
    );
}

#[test]
fn header_line_without_colon_is_a_malformed_header() {
    assert_eq!(
        HttpRequest::parse(b"GET / HTTP/1.1\r\nHost x\r\n\r\n").unwrap_err(),
        HttpError::MalformedHeader
    );
}

#[test]
fn two_byte_header_line_does_not_end_the_block() {
    assert_eq!(
        HttpRequest::parse(b"GET / HTTP/1.1\r\nab\r\n\r\n").unwrap_err(),
        HttpError::MalformedHeader
    );
    let request = HttpRequest::parse(b"GET / HTTP/1.1\r\na:\r\nHost: x\r\n\r\n").unwrap();
    let headers = request.headers.as_ref().unwrap();
    assert_eq!(headers.len(), 2);
    assert_eq!(header(&request, "a"), Some(""));
    assert_eq!(header(&request, "Host"), Some("x"));
}

#[test]
fn path_that_is_not_text_is_an_invalid_encoding() {
    assert_eq!(
        HttpRequest::parse(b"GET /\xff HTTP/1.1\r\n\r\n").unwrap_err(),
        HttpError::InvalidEncoding
    );
    assert_eq!(
        HttpRequest::parse(b"GET /\xc3 HTTP/1.1\r\n\r\n").unwrap_err(),
        HttpError::InvalidEncoding
    );
}

#[test]
fn path_encoding_is_checked_before_the_version() {
    assert_eq!(HttpRequest::parse(b"GET /\xff HTTP/1.1").unwrap_err(), HttpError::InvalidEncoding);
}

#[test]
fn header_that_is_not_text_is_an_invalid_encoding() {
    assert_eq!(
        HttpRequest::parse(b"GET / HTTP/1.1\r\nHo\xffst: x\r\n\r\n").unwrap_err(),
        HttpError::InvalidEncoding
    );
    assert_eq!(
        HttpRequest::parse(b"GET / HTTP/1.1\r\nHost: \xe2\x82\r\n\r\n").unwrap_err(),
        HttpError::InvalidEncoding
    );
}

#[test]
fn the_first_line_at_fault_decides_the_error() {
    assert_eq!(
        HttpRequest::parse(b"GET / HTTP/1.1\r\nA: \xff\r\nno colon\r\n\r\n").unwrap_err(),
        HttpError::InvalidEncoding
    );
    assert_eq!(
        HttpRequest::parse(b"GET / HTTP/1.1\r\nno colon\r\nA: \xff\r\n\r\n").unwrap_err(),
        HttpError::MalformedHeader
    );
}

#[test]
fn text_beyond_ascii_is_kept() {
    let request =
        HttpRequest::parse("GET /caf\u{e9} HTTP/1.1\r\nX-N\u{e4}me: \u{2603}\r\n\r\n".as_bytes())
            .unwrap();
    assert_eq!(request.path, "/caf\u{e9}");
    assert_eq!(header(&request, "X-N\u{e4}me"), Some("\u{2603}"));
}

#[test]
fn content_length_that_is_no_number_is_invalid() {
    for value in ["abc", "", "-1", "1.5", "5 ", "0x10", "+", "1e3", "\u{664}"] {
        let buffer = format!("POST / HTTP/1.1\r\nContent-Length: {value}\r\n\r\nhello");
        assert_eq!(
            HttpRequest::parse(buffer.as_bytes()).unwrap_err(),
            HttpError::InvalidContentLength,
            "value {value:?}"
        );
    }
}

#[test]
fn content_length_that_does_not_fit_is_invalid() {
    let buffer = b"POST / HTTP/1.1\r\nContent-Length: 99999999999999999999999999\r\n\r\nhello";
    assert_eq!(HttpRequest::parse(buffer).unwrap_err(), HttpError::InvalidContentLength);
}

#[test]
fn content_length_may_have_a_plus_sign_and_leading_zeros() {
    let request = HttpRequest::parse(b"POST / HTTP/1.1\r\nContent-Length: +2\r\n\r\nhello").unwrap();
    assert_eq!(request.body.as_deref(), Some(&b"he"[..]));
    let request =
        HttpRequest::parse(b"POST / HTTP/1.1\r\nContent-Length: 0003\r\n\r\nhello").unwrap();
    assert_eq!(request.body.as_deref(), Some(&b"hel"[..]));
}

#[test]
fn content_length_is_checked_before_the_body() {
    let buffer = b"POST / HTTP/1.1\r\nContent-Length: x\r\n\r\n";
    assert_eq!(HttpRequest::parse(buffer).unwrap_err(), HttpError::InvalidContentLength);
}

#[test]
fn header_names_are_matched_exactly() {
    let request = HttpRequest::parse(b"POST / HTTP/1.1\r\ncontent-length: 5\r\n\r\nhello").unwrap();
    assert!(request.body.is_none());
    assert_eq!(header(&request, "content-length"), Some("5"));
    assert_eq!(header(&request, "Content-Length"), None);
}

#[test]
fn repeated_header_keeps_the_last_value() {
    let request = HttpRequest::parse(
        b"POST / HTTP/1.1\r\nContent-Length: 1\r\nHost: a\r\nContent-Length: 2\r\n\r\nhello",
    )
    .unwrap();
    let headers = request.headers.as_ref().unwrap();
    assert_eq!(headers.len(), 2);
    assert_eq!(header(&request, "Content-Length"), Some("2"));
    assert_eq!(header(&request, "Host"), Some("a"));
    assert_eq!(request.body.as_deref(), Some(&b"he"[..]));
}

#[test]
fn header_value_loses_leading_spaces_and_tabs_only() {
    let request =
        HttpRequest::parse(b"GET / HTTP/1.1\r\nA:  \t b c \r\nB:d\r\nC: \r\n\r\n").unwrap();
    assert_eq!(header(&request, "A"), Some("b c "));
    assert_eq!(header(&request, "B"), Some("d"));
    assert_eq!(header(&request, "C"), Some(""));
}

#[test]
fn header_is_split_at_the_first_colon() {
    let request = HttpRequest::parse(b"GET / HTTP/1.1\r\nHost: localhost:4221\r\n\r\n").unwrap();
    assert_eq!(header(&request, "Host"), Some("localhost:4221"));
    let request = HttpRequest::parse(b"GET / HTTP/1.1\r\n: v\r\n\r\n").unwrap();
    assert_eq!(header(&request, ""), Some("v"));
}

#[test]
fn extra_whitespace_in_the_request_line_is_skipped() {
    let request = HttpRequest::parse(b"GET  \t /a  \tHTTP/1.1\r\n\r\n").unwrap();
    assert_eq!(request.path, "/a");
}

#[test]
fn the_version_is_not_examined() {
    let request = HttpRequest::parse(b"GET /a whatever 9\r\n\r\n").unwrap();
    assert_eq!(request.path, "/a");
    let request = HttpRequest::parse(b"GET /a \r\n\r\n").unwrap();
    assert_eq!(request.path, "/a");
}

#[test]
fn the_path_needs_no_leading_slash() {
    let request = HttpRequest::parse(b"GET abc HTTP/1.1\r\n\r\n").unwrap();
    assert_eq!(request.path, "abc");
}

#[test]
fn head_counts_the_bytes_it_takes() {
    let buffer = b"POST /f HTTP/1.1\r\nContent-Length: 9\r\n\r\nhel";
    let head = parse_head(buffer).unwrap();
    assert_eq!(head.method, Method::Post);
    assert_eq!(head.path, "/f");
    assert_eq!(head.headers, vec![("Content-Length", "9")]);
    assert_eq!(head.rest, b"hel");
    assert_eq!(head.consumed, buffer.len() - 3);
    assert_eq!(&buffer[head.consumed..], head.rest);
}

#[test]
fn head_helpers_track_the_offset() {
    let buffer = b"xxDELETE  /p  v\r\nK: v\r\n\r\n";
    let (method, offset) = RequestHead::parse_method(buffer, 2).unwrap();
    assert_eq!((method, offset), (Method::Delete, 9));
    let offset = RequestHead::skip_whitespaces0(buffer, offset);
    assert_eq!(offset, 10);
    let (path, offset) = RequestHead::parse_http_path(buffer, offset).unwrap();
    assert_eq!((path, offset), (&b"/p"[..], 13));
    let offset = RequestHead::skip_whitespaces0(buffer, offset);
    assert_eq!(offset, 14);
    let (version, offset) = RequestHead::parse_http_version(buffer, offset).unwrap();
    assert_eq!((version, offset), (&b"v"[..], 17));
    let (line, offset) = RequestHead::parse_header_line(buffer, offset).unwrap();
    assert_eq!((line, offset), (&b"K: v"[..], 23));
    assert_eq!(RequestHead::split_line(line).unwrap(), (&b"K"[..], &b"v"[..]));
    let (line, offset) = RequestHead::parse_header_line(buffer, offset).unwrap();
    assert_eq!((line, offset), (&b""[..], 25));
    assert_eq!(
        RequestHead::parse_header_line(buffer, offset).unwrap_err(),
        HttpError::MalformedHeader
    );
    assert_eq!(RequestHead::parse_method(buffer, 0).unwrap_err(), HttpError::InvalidMethod);
    assert_eq!(
        RequestHead::parse_http_path(buffer, 13).unwrap().0,
        &b""[..],
    );
    assert_eq!(
        RequestHead::parse_http_version(buffer, 25).unwrap_err(),
        HttpError::MalformedRequestLine
    );
    assert_eq!(RequestHead::split_line(b"no colon").unwrap_err(), HttpError::MalformedHeader);
}

#[test]
fn method_token_must_be_followed_by_a_space() {
    assert_eq!(parse_method(b"get /"), Some((&b"/"[..], Method::Get)));
    assert_eq!(parse_method(b"patch "), Some((&b""[..], Method::Patch)));
    assert_eq!(parse_method(b"get"), None);
    assert_eq!(parse_method(b"get\t/"), None);
    assert_eq!(parse_method(b"gets /"), None);
}

#[test]
fn body_extraction_alone() {
    assert_eq!(extract_body(b"hello", 0), Ok(None));
    assert_eq!(extract_body(b"", 0), Ok(None));
    assert_eq!(extract_body(b"hello", 5), Ok(Some(b"hello".to_vec())));
    assert_eq!(extract_body(b"hello", 2), Ok(Some(b"he".to_vec())));
    assert_eq!(extract_body(b"hello", 6), Err(HttpError::IncompleteBody));
    assert_eq!(extract_body(b"", 1), Err(HttpError::IncompleteBody));
}

#[test]
fn well_formed_requests_are_read_back() {
    let methods = [
        ("GET", Method::Get),
        ("post", Method::Post),
        ("Put", Method::Put),
        ("DELETE", Method::Delete),
        ("PATCH", Method::Patch),
    ];
    let paths = ["/", "/a/b", "/x?y=1&z=%20", "/\u{4e2d}"];
    let header_sets: [&[(&str, &str, &str)]; 4] = [
        &[],
        &[("Host", " ", "example")],
        &[("A", "", "1"), ("B", " \t ", "two words"), ("C", " ", "")],
        &[("Content-Length", " ", "0"), ("User-Agent", " ", "curl/8: x")],
    ];
    for (token, method) in methods {
        for path in paths {
            for headers in header_sets {
                let mut buffer = format!("{token} {path} HTTP/1.1\r\n");
                for (name, padding, value) in headers {
                    buffer.push_str(&format!("{name}:{padding}{value}\r\n"));
                }
                buffer.push_str("\r\n");
                let request = HttpRequest::parse(buffer.as_bytes()).unwrap();
                assert_eq!(request.method, method);
                assert_eq!(request.path, path);
                assert!(request.body.is_none());
                assert_eq!(request.headers.is_some(), !headers.is_empty());
                if let Some(parsed) = &request.headers {
                    assert_eq!(parsed.len(), headers.len());
                    for (name, _, value) in headers {
                        assert_eq!(parsed.get(name).map(|v| v.as_str()), Some(*value));
                    }
                }
            }
        }
    }
}

#[test]
fn declared_bodies_are_cut_exactly() {
    for declared in 1..=6usize {
        for available in 0..=8usize {
            let body: Vec<u8> = (0..available as u8).map(|i| b'a' + i).collect();
            let mut buffer =
                format!("POST /f HTTP/1.1\r\nContent-Length: {declared}\r\n\r\n").into_bytes();
            buffer.extend_from_slice(&body);
            let parsed = HttpRequest::parse(&buffer);
            if available < declared {
                assert_eq!(parsed.unwrap_err(), HttpError::IncompleteBody);
            } else {
                let request = parsed.unwrap();
                assert_eq!(request.body.as_deref(), Some(&body[..declared]));
            }
        }
    }
}

#[test]
fn path_is_accepted_exactly_when_it_is_utf8() {
    let alphabet: [u8; 16] = [
        0x41, 0x7f, 0x80, 0xbf, 0xc0, 0xc2, 0xdf, 0xe0, 0xa0, 0xed, 0x9f, 0xef, 0xf0, 0x90, 0xf4,
        0xf5,
    ];
    let mut state: u64 = 0x6a09_e667_f3bc_c909;
    let mut accepted = 0;
    for _ in 0..50000 {
        state ^= state << 13;
        state ^= state >> 7;
        state ^= state << 17;
        let len = 1 + (state % 5) as usize;
        let mut path = Vec::new();
        for _ in 0..len {
            state ^= state << 13;
            state ^= state >> 7;
            state ^= state << 17;
            path.push(alphabet[(state >> 11) as usize % alphabet.len()]);
        }
        let mut buffer = b"GET ".to_vec();
        buffer.extend_from_slice(&path);
        buffer.extend_from_slice(b" HTTP/1.1\r\n\r\n");
        match std::str::from_utf8(&path) {
            Ok(text) => {
                accepted += 1;
                assert_eq!(HttpRequest::parse(&buffer).unwrap().path, text, "path {path:?}");
            }
            Err(_) => {
                assert_eq!(
                    HttpRequest::parse(&buffer).unwrap_err(),
                    HttpError::InvalidEncoding,
                    "path {path:?}"
                );
            }
        }
    }
    assert!(accepted > 1000);
}

#[test]
fn more_bytes_after_a_complete_request_change_nothing() {
    let complete: [&[u8]; 3] = [
        b"GET /a HTTP/1.1\r\n\r\n",
        b"POST /a HTTP/1.1\r\nContent-Length: 2\r\nHost: h\r\n\r\nab",
        b"PUT /a HTTP/1.1\r\nK: v\r\n\r\n",
    ];
    let more: [&[u8]; 4] = [b"", b" ", b"\r\n\r\n", b"GET /b HTTP/1.1\r\nX: y\r\n\r\n"];
    for buffer in complete {
        let alone = HttpRequest::parse(buffer).unwrap();
        for extra in more {
            let mut longer = buffer.to_vec();
            longer.extend_from_slice(extra);
            let parsed = HttpRequest::parse(&longer).unwrap();
            assert_eq!(parsed.method, alone.method);
            assert_eq!(parsed.path, alone.path);
            assert_eq!(parsed.body, alone.body);
            assert_eq!(parsed.headers.is_some(), alone.headers.is_some());
            if let (Some(a), Some(b)) = (&parsed.headers, &alone.headers) {
                assert_eq!(a.len(), b.len());
                for i in 0..a.len() {
                    assert_eq!(a.entry(i), b.entry(i));
                }
            }
        }
    }
}

#[test]
fn a_complete_request_ends_the_reading() {
    let buffer = b"POST /f HTTP/1.1\r\nContent-Length: 2\r\n\r\nab";
    for read in [0usize, 1, buffer.len()] {
        match after_read(buffer, read) {
            ReadStep::Done(request) => {
                assert_eq!(request.method, Method::Post);
                assert_eq!(request.body.as_deref(), Some(&b"ab"[..]));
            }
            other => panic!("unexpected step {other:?}"),
        }
    }
}

#[test]
fn an_incomplete_body_asks_for_another_read_while_bytes_come() {
    let buffer = b"POST /f HTTP/1.1\r\nContent-Length: 5\r\n\r\nab";
    assert!(matches!(after_read(buffer, 1), ReadStep::ReadMore));
    assert!(matches!(after_read(buffer, buffer.len()), ReadStep::ReadMore));
    assert!(matches!(after_read(buffer, 0), ReadStep::Fail(HttpError::IncompleteBody)));
}

#[test]
fn no_other_error_is_retried() {
    let cases: [(&[u8], HttpError); 6] = [
        (b"", HttpError::InvalidMethod),
        (b"GET", HttpError::InvalidMethod),
        (b"GET /abc", HttpError::MalformedRequestLine),
        (b"GET / HTTP/1.1\r\nHost: x", HttpError::MalformedHeader),
        (b"GET /\xff HTTP/1.1\r\n\r\n", HttpError::InvalidEncoding),
        (b"POST / HTTP/1.1\r\nContent-Length: x\r\n\r\n", HttpError::InvalidContentLength),
    ];
    for (buffer, error) in cases {
        for read in [0usize, 1, 8192] {
            match after_read(buffer, read) {
                ReadStep::Fail(e) => assert_eq!(e, error),
                other => panic!("unexpected step {other:?}"),
            }
        }
    }
}

#[test]
fn reading_in_pieces_ends_with_the_whole_body() {
    let whole = b"PUT /f HTTP/1.1\r\nContent-Length: 6\r\n\r\nabcdefTRAILING";
    let head_end = whole.len() - 14;
    let mut buffer = whole[..head_end].to_vec();
    let mut read = head_end;
    let mut fed = head_end;
    let request = loop {
        match after_read(&buffer, read) {
            ReadStep::Done(request) => break request,
            ReadStep::ReadMore => {
                read = 2;
                buffer.extend_from_slice(&whole[fed..fed + read]);
                fed += read;
            }
            ReadStep::Fail(e) => panic!("unexpected failure {e:?}"),
        }
    };
    assert_eq!(request.body.as_deref(), Some(&b"abcdef"[..]));
    assert_eq!(fed, head_end + 6);
}
