use flate2::read::GzDecoder;
use http_server::handlers::{
    accepts, file_action, file_path, handle_echo_endpoint, handle_encoding,
    handle_file_endpoint, handle_file_upload_endpoint, handle_request,
    handle_user_agent_endpoint, negotiate_encoding, route, set_content_length, set_content_type,
    set_encoded_body, FileAction, FileOutcome, Route, State,
};
use http_server::http::http_request::{HttpRequest, Method};
use http_server::http::{ContentTypeHttpResponse, Headers, HttpResponse, HttpResponseBuilder};
use std::io::Read;
use std::sync::Arc;

fn request(method: Method, path: &str, headers: &[(&str, &str)], body: Option<&[u8]>) -> HttpRequest {
    let headers = if headers.is_empty() {
        None
    } else {
        let mut container = Headers::new();
        for (name, value) in headers {
            container.insert(name.to_string(), value.to_string());
        }
        Some(container)
    };
    HttpRequest { method, path: path.to_string(), headers, body: body.map(|b| b.to_vec()) }
}

fn state(directory: Option<&str>) -> State {
    State { directory: directory.map(|d| d.to_string()) }
}

fn header_list(response: &HttpResponse) -> Vec<(String, String)> {
    match &response.header {
        Some(headers) => (0..headers.len())
            .map(|i| {
                let (name, value) = headers.entry(i);
                (name.clone(), value.clone())
            })
            .collect(),
        None => Vec::new(),
    }
}

fn pairs(list: &[(&str, &str)]) -> Vec<(String, String)> {
    list.iter().map(|(n, v)| (n.to_string(), v.to_string())).collect()
}

fn gunzip(bytes: &[u8]) -> Vec<u8> {
    let mut out = Vec::new();
    GzDecoder::new(bytes).read_to_end(&mut out).unwrap();
    out
}

fn route_name(path: &str) -> String {
    match route(path) {
        Route::Echo(text) => format!("echo:{text}"),
        Route::UserAgent => "user-agent".to_string(),
        Route::Files(name) => format!("files:{name}"),
        Route::Root => "root".to_string(),
        Route::NotFound => "not-found".to_string(),
    }
}

fn tag_name(tagged: &ContentTypeHttpResponse) -> &'static str {
    match tagged {
        ContentTypeHttpResponse::Json(_) => "json",
        ContentTypeHttpResponse::PlainText(_) => "plain",
        ContentTypeHttpResponse::NoBody(_) => "none",
        ContentTypeHttpResponse::File(_) => "file",
    }
}

#[test]
fn routes_by_the_pieces_of_the_path() {
    assert_eq!(route_name("/"), "root");
    assert_eq!(route_name(""), "not-found");
    assert_eq!(route_name("/echo/abc"), "echo:abc");
    assert_eq!(route_name("/echo/"), "echo:");
    assert_eq!(route_name("/echo"), "not-found");
    assert_eq!(route_name("/echo/a/b"), "echo:a");
    assert_eq!(route_name("/echo/caf\u{e9}/x"), "echo:caf\u{e9}");
    assert_eq!(route_name("/user-agent"), "user-agent");
    assert_eq!(route_name("/user-agent/"), "user-agent");
    assert_eq!(route_name("/user-agent/x/y"), "user-agent");
    assert_eq!(route_name("/files/a.txt"), "files:a.txt");
    assert_eq!(route_name("/files/"), "files:");
    assert_eq!(route_name("/files"), "not-found");
    assert_eq!(route_name("/files/dir/a.txt"), "files:dir");
    assert_eq!(route_name("/Echo/abc"), "not-found");
    assert_eq!(route_name("/unknown"), "not-found");
    assert_eq!(route_name("//"), "not-found");
    assert_eq!(route_name("//echo/abc"), "not-found");
    assert_eq!(route_name("x/echo/abc"), "echo:abc");
    assert_eq!(route_name("echo/abc"), "not-found");
    assert_eq!(route_name("x/user-agent"), "user-agent");
}

#[test]
fn echo_answers_with_the_text() {
    let req = request(Method::Get, "/echo/abc", &[], None);
    let tagged = handle_echo_endpoint(&req, "abc");
    assert_eq!(tag_name(&tagged), "plain");
    let response = tagged.into_inner();
    assert_eq!(response.status_code, 200);
    assert!(response.header.is_none());
    assert_eq!(response.body.as_deref(), Some(&b"abc"[..]));
    let response = handle_echo_endpoint(&req, "\u{2603}").into_inner();
    assert_eq!(response.body.as_deref(), Some("\u{2603}".as_bytes()));
    let response = handle_echo_endpoint(&req, "").into_inner();
    assert_eq!(response.body.as_deref(), Some(&b""[..]));
}

#[test]
fn user_agent_answers_with_the_header() {
    let req = request(Method::Get, "/user-agent", &[("User-Agent", "curl/8.0")], None);
    let tagged = handle_user_agent_endpoint(&req);
    assert_eq!(tag_name(&tagged), "plain");
    let response = tagged.into_inner();
    assert_eq!(response.status_code, 200);
    assert_eq!(response.body.as_deref(), Some(&b"curl/8.0"[..]));
}

#[test]
fn user_agent_without_the_header_is_an_empty_200() {
    for req in [
        request(Method::Get, "/user-agent", &[], None),
        request(Method::Get, "/user-agent", &[("Host", "x")], None),
        request(Method::Get, "/user-agent", &[("user-agent", "x")], None),
    ] {
        let tagged = handle_user_agent_endpoint(&req);
        assert_eq!(tag_name(&tagged), "none");
        let response = tagged.into_inner();
        assert_eq!(response.status_code, 200);
        assert!(response.header.is_none());
        assert!(response.body.is_none());
    }
}

#[test]
fn file_paths_are_rooted() {
    assert_eq!(file_path("tmp", "a.txt"), "/tmp/a.txt");
    assert_eq!(file_path("/tmp/", "a.txt"), "//tmp//a.txt");
    assert_eq!(file_path("", ""), "//");
}

fn action_name(action: FileAction) -> String {
    match action {
        FileAction::Nothing => "nothing".to_string(),
        FileAction::Read(path) => format!("read:{path}"),
        FileAction::Write(path) => format!("write:{path}"),
    }
}

#[test]
fn file_actions() {
    let served = state(Some("srv"));
    let bare = state(None);
    let get = request(Method::Get, "/files/a.txt", &[], None);
    let delete = request(Method::Delete, "/files/a.txt", &[], None);
    let post = request(Method::Post, "/files/a.txt", &[], Some(b"data"));
    let post_without_body = request(Method::Post, "/files/a.txt", &[], None);
    let echo = request(Method::Post, "/echo/a.txt", &[], Some(b"data"));
    assert_eq!(action_name(file_action(&get, &served)), "read:/srv/a.txt");
    assert_eq!(action_name(file_action(&delete, &served)), "read:/srv/a.txt");
    assert_eq!(action_name(file_action(&post, &served)), "write:/srv/a.txt");
    assert_eq!(action_name(file_action(&post_without_body, &served)), "nothing");
    assert_eq!(action_name(file_action(&get, &bare)), "nothing");
    assert_eq!(action_name(file_action(&post, &bare)), "nothing");
    assert_eq!(action_name(file_action(&echo, &served)), "nothing");
    let nested = request(Method::Get, "/files/d/a.txt", &[], None);
    assert_eq!(action_name(file_action(&nested, &served)), "read:/srv/d");
}

#[test]
fn download_answers() {
    let get = request(Method::Get, "/files/a.txt", &[], None);
    let tagged = handle_file_endpoint(&get, &state(Some("srv")), Some(b"content".to_vec()));
    assert_eq!(tag_name(&tagged), "file");
    let response = tagged.into_inner();
    assert_eq!(response.status_code, 200);
    assert_eq!(response.body.as_deref(), Some(&b"content"[..]));

    let tagged = handle_file_endpoint(&get, &state(Some("srv")), None);
    assert_eq!(tag_name(&tagged), "none");
    let response = tagged.into_inner();
    assert_eq!(response.status_code, 404);
    assert!(response.body.is_none());

    for content in [None, Some(b"content".to_vec())] {
        let tagged = handle_file_endpoint(&get, &state(None), content);
        assert_eq!(tag_name(&tagged), "none");
        let response = tagged.into_inner();
        assert_eq!(response.status_code, 200);
        assert!(response.body.is_none());
    }
}

#[test]
fn upload_answers() {
    let post = request(Method::Post, "/files/a.txt", &[], Some(b"data"));
    let post_without_body = request(Method::Post, "/files/a.txt", &[], None);
    let served = state(Some("srv"));
    let cases = [
        (handle_file_upload_endpoint(&post, &served, true), 201),
        (handle_file_upload_endpoint(&post, &served, false), 500),
        (handle_file_upload_endpoint(&post_without_body, &served, true), 200),
        (handle_file_upload_endpoint(&post, &state(None), true), 200),
        (handle_file_upload_endpoint(&post, &state(None), false), 200),
    ];
    for (tagged, code) in cases {
        assert_eq!(tag_name(&tagged), "none");
        let response = tagged.into_inner();
        assert_eq!(response.status_code, code);
        assert!(response.header.is_none());
        assert!(response.body.is_none());
    }
}

#[test]
fn accepted_encodings() {
    assert!(accepts("gzip", "gzip"));
    assert!(accepts("deflate, gzip", "gzip"));
    assert!(accepts("gzip,deflate", "gzip"));
    assert!(accepts("br,\t gzip \u{a0},x", "gzip"));
    assert!(accepts("\u{3000}gzip\u{2003}", "gzip"));
    assert!(accepts(",,gzip,,", "gzip"));
    assert!(!accepts("", "gzip"));
    assert!(!accepts("GZIP", "gzip"));
    assert!(!accepts("gzipx", "gzip"));
    assert!(!accepts("xgzip", "gzip"));
    assert!(!accepts("gz ip", "gzip"));
    assert!(!accepts("gzip;q=1.0", "gzip"));
    assert!(!accepts("deflate, br", "gzip"));
    assert!(!accepts("g,z,i,p", "gzip"));
    assert!(!accepts("\u{200b}gzip", "gzip"));
    assert!(accepts("a,,b", ""));
    assert!(accepts("", ""));
    assert!(accepts(" ", ""));
    assert!(!accepts("a", ""));
}

#[test]
fn accepts_agrees_with_split_and_trim() {
    let alphabet = ['g', 'z', 'i', 'p', ',', ' ', '\t', '\u{a0}', 'x', '\u{2028}'];
    let mut state: u64 = 0x9e37_79b9_7f4a_7c15;
    for _ in 0..20000 {
        let mut value = String::new();
        state ^= state << 13;
        state ^= state >> 7;
        state ^= state << 17;
        let len = state % 9;
        for _ in 0..len {
            state ^= state << 13;
            state ^= state >> 7;
            state ^= state << 17;
            let pick = if state % 3 == 0 { "gzip".to_string() } else {
                alphabet[(state >> 8) as usize % alphabet.len()].to_string()
            };
            value.push_str(&pick);
        }
        let expected = value.split(',').map(|v| v.trim()).any(|v| v == "gzip");
        assert_eq!(accepts(&value, "gzip"), expected, "value {value:?}");
    }
}

#[test]
fn negotiation_needs_the_header_and_a_body() {
    let with_body = HttpResponseBuilder::new(200).with_body(b"abc".to_vec()).build();
    let without_body = HttpResponseBuilder::new(200).build();
    let asking = request(Method::Get, "/", &[("Accept-Encoding", "br, gzip")], None);
    let other = request(Method::Get, "/", &[("Accept-Encoding", "br")], None);
    let silent = request(Method::Get, "/", &[("Host", "x")], None);
    let bare = request(Method::Get, "/", &[], None);
    assert!(negotiate_encoding(&asking, &with_body));
    assert!(!negotiate_encoding(&asking, &without_body));
    assert!(!negotiate_encoding(&other, &with_body));
    assert!(!negotiate_encoding(&silent, &with_body));
    assert!(!negotiate_encoding(&bare, &with_body));
}

#[test]
fn encoded_body_is_put_in_place() {
    let mut response = HttpResponseBuilder::new(200).with_body(b"abc".to_vec()).build();
    response.insert_header("Content-Type", "text/plain".to_string());
    set_encoded_body(&mut response, vec![1, 2, 3, 4]);
    assert_eq!(response.body.as_deref(), Some(&[1u8, 2, 3, 4][..]));
    assert_eq!(
        header_list(&response),
        pairs(&[("Content-Type", "text/plain"), ("Content-Encoding", "gzip")])
    );
    let mut response = HttpResponseBuilder::new(200).build();
    set_encoded_body(&mut response, vec![9]);
    assert_eq!(response.body.as_deref(), Some(&[9u8][..]));
    assert_eq!(header_list(&response), pairs(&[("Content-Encoding", "gzip")]));
}

#[test]
fn encoding_compresses_the_body() {
    let plain = b"hello hello hello hello hello hello hello hello".to_vec();
    let req = request(Method::Get, "/", &[("Accept-Encoding", "gzip")], None);
    let mut response = HttpResponseBuilder::new(200).with_body(plain.clone()).build();
    assert_eq!(handle_encoding(&req, &mut response), Ok(()));
    let body = response.body.clone().unwrap();
    assert_ne!(body, plain);
    assert_eq!(&body[..2], &[0x1f, 0x8b]);
    assert!(body.len() < plain.len());
    assert_eq!(gunzip(&body), plain);
    assert_eq!(header_list(&response), pairs(&[("Content-Encoding", "gzip")]));
}

#[test]
fn encoding_is_the_same_each_time() {
    let req = request(Method::Get, "/", &[("Accept-Encoding", "gzip")], None);
    let mut first = HttpResponseBuilder::new(200).with_body(b"some body".to_vec()).build();
    let mut second = HttpResponseBuilder::new(200).with_body(b"some body".to_vec()).build();
    handle_encoding(&req, &mut first).unwrap();
    handle_encoding(&req, &mut second).unwrap();
    assert_eq!(first.body, second.body);
}

#[test]
fn encoding_an_empty_body_gives_a_gzip_stream() {
    let req = request(Method::Get, "/", &[("Accept-Encoding", "gzip")], None);
    let mut response = HttpResponseBuilder::new(200).with_body(Vec::new()).build();
    handle_encoding(&req, &mut response).unwrap();
    let body = response.body.clone().unwrap();
    assert!(!body.is_empty());
    assert_eq!(gunzip(&body), b"");
}

#[test]
fn encoding_leaves_other_responses_alone() {
    let plain = b"hello".to_vec();
    for req in [
        request(Method::Get, "/", &[], None),
        request(Method::Get, "/", &[("Host", "x")], None),
        request(Method::Get, "/", &[("Accept-Encoding", "deflate")], None),
        request(Method::Get, "/", &[("accept-encoding", "gzip")], None),
    ] {
        let mut response = HttpResponseBuilder::new(200).with_body(plain.clone()).build();
        assert_eq!(handle_encoding(&req, &mut response), Ok(()));
        assert_eq!(response.body.as_deref(), Some(&plain[..]));
        assert!(response.header.is_none());
    }
    let req = request(Method::Get, "/", &[("Accept-Encoding", "gzip")], None);
    let mut response = HttpResponseBuilder::new(404).build();
    assert_eq!(handle_encoding(&req, &mut response), Ok(()));
    assert!(response.body.is_none());
    assert!(response.header.is_none());
}

#[test]
fn content_type_follows_the_tag() {
    let response = set_content_type(ContentTypeHttpResponse::PlainText(HttpResponse::default()));
    assert_eq!(header_list(&response), pairs(&[("Content-Type", "text/plain")]));
    let response = set_content_type(ContentTypeHttpResponse::Json(HttpResponse::default()));
    assert_eq!(header_list(&response), pairs(&[("Content-Type", "application/json")]));
    let response = set_content_type(ContentTypeHttpResponse::File(HttpResponse::default()));
    assert_eq!(header_list(&response), pairs(&[("Content-Type", "application/octet-stream")]));
    let response = set_content_type(ContentTypeHttpResponse::NoBody(HttpResponse::default()));
    assert!(response.header.is_none());
    let mut tagged = HttpResponse::default();
    tagged.insert_header("Content-Type", "old".to_string());
    tagged.insert_header("X", "y".to_string());
    let response = set_content_type(ContentTypeHttpResponse::Json(tagged));
    assert_eq!(header_list(&response), pairs(&[("Content-Type", "application/json"), ("X", "y")]));
}

#[test]
fn content_length_is_the_length_of_the_body() {
    let mut response = HttpResponseBuilder::new(200).with_body(vec![0; 1234]).build();
    set_content_length(&mut response);
    assert_eq!(header_list(&response), pairs(&[("Content-Length", "1234")]));
    let mut response = HttpResponseBuilder::new(200).with_body(Vec::new()).build();
    set_content_length(&mut response);
    assert_eq!(header_list(&response), pairs(&[("Content-Length", "0")]));
    let mut response = HttpResponseBuilder::new(200).build();
    set_content_length(&mut response);
    assert!(response.header.is_none());
}

#[test]
fn answers_echo() {
    let req = request(Method::Get, "/echo/abc", &[("Host", "x")], None);
    let response =
        handle_request(req, Arc::new(state(None)), FileOutcome::NotPerformed).unwrap();
    assert_eq!(response.status_code, 200);
    assert_eq!(
        header_list(&response),
        pairs(&[("Content-Type", "text/plain"), ("Content-Length", "3")])
    );
    assert_eq!(response.body.as_deref(), Some(&b"abc"[..]));
    let mut out = Vec::new();
    response.write(&mut out);
    assert_eq!(
        out,
        b"HTTP/1.1 200 OK\r\nContent-Type: text/plain\r\nContent-Length: 3\r\n\r\nabc"
    );
}

#[test]
fn answers_echo_compressed() {
    let req = request(Method::Get, "/echo/abcabcabc", &[("Accept-Encoding", "x, gzip")], None);
    let response =
        handle_request(req, Arc::new(state(None)), FileOutcome::NotPerformed).unwrap();
    assert_eq!(response.status_code, 200);
    let body = response.body.clone().unwrap();
    assert_eq!(gunzip(&body), b"abcabcabc");
    assert_eq!(
        header_list(&response),
        pairs(&[
            ("Content-Type", "text/plain"),
            ("Content-Encoding", "gzip"),
            ("Content-Length", &body.len().to_string()),
        ])
    );
}

#[test]
fn answers_user_agent() {
    let req = request(Method::Get, "/user-agent", &[("User-Agent", "foobar/1.2.3")], None);
    let response =
        handle_request(req, Arc::new(state(None)), FileOutcome::NotPerformed).unwrap();
    assert_eq!(response.status_code, 200);
    assert_eq!(response.body.as_deref(), Some(&b"foobar/1.2.3"[..]));
    assert_eq!(
        header_list(&response),
        pairs(&[("Content-Type", "text/plain"), ("Content-Length", "12")])
    );
    let req = request(Method::Get, "/user-agent", &[], None);
    let response =
        handle_request(req, Arc::new(state(None)), FileOutcome::NotPerformed).unwrap();
    assert_eq!(response.status_code, 200);
    assert!(response.body.is_none());
    assert!(response.header.is_none());
}

#[test]
fn answers_root_and_unknown_paths() {
    let req = request(Method::Get, "/", &[("Accept-Encoding", "gzip")], None);
    let response =
        handle_request(req, Arc::new(state(None)), FileOutcome::NotPerformed).unwrap();
    assert_eq!(response.status_code, 200);
    assert!(response.header.is_none());
    assert!(response.body.is_none());
    for path in ["/nothing", "", "/echo", "/files"] {
        let req = request(Method::Get, path, &[], None);
        let response =
            handle_request(req, Arc::new(state(None)), FileOutcome::NotPerformed).unwrap();
        assert_eq!(response.status_code, 404);
        assert!(response.header.is_none());
        assert!(response.body.is_none());
    }
}

#[test]
fn answers_downloads() {
    let served = Arc::new(state(Some("srv")));
    let req = request(Method::Get, "/files/a.txt", &[], None);
    let response =
        handle_request(req, served.clone(), FileOutcome::Read(Some(b"file data".to_vec())))
            .unwrap();
    assert_eq!(response.status_code, 200);
    assert_eq!(response.body.as_deref(), Some(&b"file data"[..]));
    assert_eq!(
        header_list(&response),
        pairs(&[("Content-Type", "application/octet-stream"), ("Content-Length", "9")])
    );
    for outcome in [
        FileOutcome::Read(None),
        FileOutcome::NotPerformed,
        FileOutcome::Written(true),
    ] {
        let req = request(Method::Get, "/files/a.txt", &[], None);
        let response = handle_request(req, served.clone(), outcome).unwrap();
        assert_eq!(response.status_code, 404);
        assert!(response.body.is_none());
        assert!(response.header.is_none());
    }
    let req = request(Method::Get, "/files/a.txt", &[], None);
    let response =
        handle_request(req, Arc::new(state(None)), FileOutcome::NotPerformed).unwrap();
    assert_eq!(response.status_code, 200);
    assert!(response.body.is_none());
}

#[test]
fn answers_uploads() {
    let served = Arc::new(state(Some("srv")));
    let cases = [
        (FileOutcome::Written(true), 201),
        (FileOutcome::Written(false), 500),
        (FileOutcome::NotPerformed, 500),
        (FileOutcome::Read(Some(b"x".to_vec())), 500),
    ];
    for (outcome, code) in cases {
        let req = request(Method::Post, "/files/a.txt", &[("Content-Length", "4")], Some(b"data"));
        let response = handle_request(req, served.clone(), outcome).unwrap();
        assert_eq!(response.status_code, code);
        assert!(response.body.is_none());
        assert!(response.header.is_none());
    }
    let req = request(Method::Post, "/files/a.txt", &[], None);
    let response = handle_request(req, served, FileOutcome::NotPerformed).unwrap();
    assert_eq!(response.status_code, 200);
}

#[test]
fn answers_echo_compressed_for_a_list_of_encodings() {
    let req = request(Method::Get, "/echo/abc", &[("Accept-Encoding", "deflate, gzip")], None);
    let response =
        handle_request(req, Arc::new(state(None)), FileOutcome::NotPerformed).unwrap();
    assert_eq!(response.status_code, 200);
    let body = response.body.clone().unwrap();
    assert_eq!(gunzip(&body), b"abc");
    assert_eq!(
        header_list(&response),
        pairs(&[
            ("Content-Type", "text/plain"),
            ("Content-Encoding", "gzip"),
            ("Content-Length", &body.len().to_string()),
        ])
    );
}

#[test]
fn encoding_keeps_status_and_other_headers() {
    let req = request(Method::Get, "/", &[("Accept-Encoding", " gzip ,br")], None);
    let mut response = HttpResponseBuilder::new(201).with_body(b"payload".to_vec()).build();
    response.insert_header("X-One", "1".to_string());
    response.insert_header("Content-Encoding", "identity".to_string());
    response.insert_header("X-Two", "2".to_string());
    assert_eq!(handle_encoding(&req, &mut response), Ok(()));
    assert_eq!(response.status_code, 201);
    assert_eq!(gunzip(response.body.as_ref().unwrap()), b"payload");
    assert_eq!(
        header_list(&response),
        pairs(&[("X-One", "1"), ("Content-Encoding", "gzip"), ("X-Two", "2")])
    );
    assert_eq!(header(&req_headers(&req), "Accept-Encoding"), Some(" gzip ,br".to_string()));
}

fn req_headers(req: &HttpRequest) -> Vec<(String, String)> {
    match &req.headers {
        Some(headers) => (0..headers.len())
            .map(|i| {
                let (name, value) = headers.entry(i);
                (name.clone(), value.clone())
            })
            .collect(),
        None => Vec::new(),
    }
}

fn header(list: &[(String, String)], name: &str) -> Option<String> {
    list.iter().find(|(n, _)| n == name).map(|(_, v)| v.clone())
}
