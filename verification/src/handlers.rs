//! The route handlers: what the server answers to a parsed request.
//!
//! Handling a request never touches the file system. Where a request needs a
//! file to be read or written, `file_action` says so; the connection loop
//! performs the action and hands its outcome to `handle_request`.

use crate::http::http_request::{HttpRequest, HttpRequestView, Method};
use crate::http::response::{
    ContentTypeHttpResponse, ContentTypeView, HttpResponse, HttpResponseBuilder, HttpResponseView,
};
use crate::http::text::{
    decimal_chars, decimal_text, pieces_of, ranges_within, split_on, split_ranges, str_eq,
    text_chars, trim, trim_range,
};
use crate::http::{
    HttpError, ACCEPT_ENCODING_HEADER, CONTENT_ENCODING_HEADER, CONTENT_LENGTH_HEADER,
    CONTENT_TYPE_HEADER, GZIP_ENCODING,
};
use flate2::write::GzEncoder;
use flate2::Compression;
use std::io::Write;
use std::sync::Arc;
use vstd::prelude::*;
use vstd::slice::slice_to_vec;
use vstd::string::{StrSliceExecFns, StringExecFns, StringSliceAdditionalSpecFns};
use vstd::utf8::encode_utf8;

verus! {

/// The name of the request header that names the client.
pub const USER_AGENT_HEADER: &'static str = "User-Agent";

/// What the server is configured with; fixed after startup.
pub struct State {
    /// The directory that files are served from and uploaded to.
    pub directory: Option<String>,
}

/// Where a request goes, by the pieces of its path between slashes. The
/// piece before the first slash is not looked at.
pub enum Route<'a> {
    /// `/echo/<text>`: answer with `<text>`.
    Echo(&'a str),
    /// `/user-agent`: answer with the client's name.
    UserAgent,
    /// `/files/<name>`: serve or store the file `<name>`.
    Files(&'a str),
    /// `/` alone.
    Root,
    /// Anything else.
    NotFound,
}

/// A route as a mathematical value.
pub enum RouteView {
    Echo(Seq<char>),
    UserAgent,
    Files(Seq<char>),
    Root,
    NotFound,
}

impl<'a> View for Route<'a> {
    type V = RouteView;

    open spec fn view(&self) -> RouteView {
        match self {
            Route::Echo(text) => RouteView::Echo(text@),
            Route::UserAgent => RouteView::UserAgent,
            Route::Files(name) => RouteView::Files(name@),
            Route::Root => RouteView::Root,
            Route::NotFound => RouteView::NotFound,
        }
    }
}

/// The route of a path. The path is split at every slash; the second piece
/// names the endpoint and the third is its argument.
pub open spec fn route_spec(path: Seq<char>) -> RouteView {
    let pieces = split_on(path, '/');
    if pieces.len() >= 3 && pieces[1] == "echo"@ {
        RouteView::Echo(pieces[2])
    } else if pieces.len() >= 2 && pieces[1] == "user-agent"@ {
        RouteView::UserAgent
    } else if pieces.len() >= 3 && pieces[1] == "files"@ {
        RouteView::Files(pieces[2])
    } else if path == "/"@ {
        RouteView::Root
    } else {
        RouteView::NotFound
    }
}

/// Finds the route of a path.
pub fn route(path: &str) -> (r: Route<'_>)
    ensures
        r@ == route_spec(path@),
{
    let chars = text_chars(path);
    let ranges = split_ranges(chars.as_slice(), '/');
    let ghost pieces = split_on(path@, '/');
    if ranges.len() >= 2 {
        let (from, to) = ranges[1];
        assert(pieces[1] == path@.subrange(from as int, to as int));
        let endpoint = path.substring_char(from, to);
        if ranges.len() >= 3 {
            let (from, to) = ranges[2];
            assert(pieces[2] == path@.subrange(from as int, to as int));
            let argument = path.substring_char(from, to);
            if str_eq(endpoint, "echo") {
                return Route::Echo(argument);
            }
            if str_eq(endpoint, "user-agent") {
                return Route::UserAgent;
            }
            if str_eq(endpoint, "files") {
                return Route::Files(argument);
            }
        } else if str_eq(endpoint, "user-agent") {
            return Route::UserAgent;
        }
    }
    if str_eq(path, "/") {
        Route::Root
    } else {
        Route::NotFound
    }
}

/// A response of the given status without headers and without body.
pub open spec fn bare(status_code: u16) -> HttpResponseView {
    HttpResponseView { status_code, header: None, body: None }
}

/// A response of status 200 with the given body and without headers.
pub open spec fn ok_with_body(body: Seq<u8>) -> HttpResponseView {
    HttpResponseView { status_code: 200, header: None, body: Some(body) }
}

/// Answers with the text after `/echo/` as plain text.
pub fn handle_echo_endpoint(req: &HttpRequest, path_str: &str) -> (r: ContentTypeHttpResponse)
    ensures
        r@ == ContentTypeView::PlainText(ok_with_body(path_str.spec_bytes())),
{
    let body = slice_to_vec(path_str.as_bytes());
    let response = HttpResponseBuilder::new(200).with_body(body).build();
    ContentTypeHttpResponse::PlainText(response)
}

/// What `/user-agent` answers: the value of the `User-Agent` header as plain
/// text, or an empty 200 where the request has no such header.
pub open spec fn user_agent_spec(req: HttpRequestView) -> ContentTypeView {
    match req.headers {
        Some(headers) => if headers.contains_key(USER_AGENT_HEADER@) {
            ContentTypeView::PlainText(ok_with_body(encode_utf8(headers[USER_AGENT_HEADER@])))
        } else {
            ContentTypeView::NoBody(bare(200))
        },
        None => ContentTypeView::NoBody(bare(200)),
    }
}

/// Answers with the client's name.
pub fn handle_user_agent_endpoint(req: &HttpRequest) -> (r: ContentTypeHttpResponse)
    ensures
        r@ == user_agent_spec(req@),
{
    match &req.headers {
        Some(headers) => {
            match headers.get(USER_AGENT_HEADER) {
                Some(value) => {
                    let body = slice_to_vec(value.as_str().as_bytes());
                    ContentTypeHttpResponse::PlainText(
                        HttpResponseBuilder::new(200).with_body(body).build(),
                    )
                },
                None => ContentTypeHttpResponse::NoBody(HttpResponse::default()),
            }
        },
        None => ContentTypeHttpResponse::NoBody(HttpResponse::default()),
    }
}

/// What the connection loop has to do before a request can be answered.
pub enum FileAction {
    /// Nothing.
    Nothing,
    /// Read the file at this path.
    Read(String),
    /// Write the request's body to the file at this path.
    Write(String),
}

/// A file action as a mathematical value.
pub enum FileActionView {
    Nothing,
    Read(Seq<char>),
    Write(Seq<char>),
}

impl View for FileAction {
    type V = FileActionView;

    open spec fn view(&self) -> FileActionView {
        match self {
            FileAction::Nothing => FileActionView::Nothing,
            FileAction::Read(path) => FileActionView::Read(path@),
            FileAction::Write(path) => FileActionView::Write(path@),
        }
    }
}

/// What came of the file action.
pub enum FileOutcome {
    /// No action was performed.
    NotPerformed,
    /// The file was read and held these bytes, or could not be read.
    Read(Option<Vec<u8>>),
    /// Whether the file was written.
    Written(bool),
}

impl FileOutcome {
    /// The bytes that were read, if a file was read.
    pub open spec fn content(self) -> Option<Seq<u8>> {
        match self {
            FileOutcome::Read(Some(bytes)) => Some(bytes@),
            _ => None,
        }
    }

    /// Whether a file was written.
    pub open spec fn written(self) -> bool {
        self == FileOutcome::Written(true)
    }
}

/// The path of a file in the served directory: `/<directory>/<name>`.
pub open spec fn file_path_spec(directory: Seq<char>, file_name: Seq<char>) -> Seq<char> {
    "/"@ + directory + "/"@ + file_name
}

/// The path of a file in the served directory.
pub fn file_path(directory: &str, file_name: &str) -> (r: String)
    ensures
        r@ == file_path_spec(directory@, file_name@),
{
    let mut path = "/".to_owned();
    path.append(directory);
    path.append("/");
    path.append(file_name);
    path
}

/// The served directory as text.
pub open spec fn directory_of(state: State) -> Option<Seq<char>> {
    match state.directory {
        Some(directory) => Some(directory@),
        None => None,
    }
}

/// The file action that a request needs: none unless the route is
/// `/files/<name>` and a directory is configured; then a write for a `POST`
/// that has a body, nothing for a `POST` without one, and a read for every
/// other method.
pub open spec fn file_action_spec(req: HttpRequestView, directory: Option<Seq<char>>)
    -> FileActionView {
    match (route_spec(req.path), directory) {
        (RouteView::Files(name), Some(directory)) => if req.method == Method::Post {
            if req.body is Some {
                FileActionView::Write(file_path_spec(directory, name))
            } else {
                FileActionView::Nothing
            }
        } else {
            FileActionView::Read(file_path_spec(directory, name))
        },
        _ => FileActionView::Nothing,
    }
}

/// Tells which file action a request needs.
pub fn file_action(req: &HttpRequest, state: &State) -> (r: FileAction)
    ensures
        r@ == file_action_spec(req@, directory_of(*state)),
{
    match route(req.path.as_str()) {
        Route::Files(name) => {
            match &state.directory {
                Some(directory) => {
                    match req.method {
                        Method::Post => {
                            if req.body.is_some() {
                                FileAction::Write(file_path(directory.as_str(), name))
                            } else {
                                FileAction::Nothing
                            }
                        },
                        _ => FileAction::Read(file_path(directory.as_str(), name)),
                    }
                },
                None => FileAction::Nothing,
            }
        },
        _ => FileAction::Nothing,
    }
}

/// What a download answers: an empty 200 where no directory is configured,
/// the file's bytes where it was read, 404 where it was not.
pub open spec fn download_spec(directory: Option<Seq<char>>, content: Option<Seq<u8>>)
    -> ContentTypeView {
    if directory is None {
        ContentTypeView::NoBody(bare(200))
    } else {
        match content {
            Some(bytes) => ContentTypeView::File(ok_with_body(bytes)),
            None => ContentTypeView::NoBody(bare(404)),
        }
    }
}

/// Answers a download with what reading the file gave.
pub fn handle_file_endpoint(req: &HttpRequest, state: &State, content: Option<Vec<u8>>) -> (r:
    ContentTypeHttpResponse)
    ensures
        r@ == download_spec(
            directory_of(*state),
            match content {
                Some(bytes) => Some(bytes@),
                None => None,
            },
        ),
{
    if state.directory.is_none() {
        return ContentTypeHttpResponse::NoBody(HttpResponse::default());
    }
    match content {
        Some(bytes) => ContentTypeHttpResponse::File(
            HttpResponseBuilder::new(200).with_body(bytes).build(),
        ),
        None => ContentTypeHttpResponse::NoBody(HttpResponseBuilder::new(404).build()),
    }
}

/// What an upload answers: an empty 200 where no directory is configured or
/// the request has no body, 201 where the file was written, 500 where it was
/// not.
pub open spec fn upload_spec(req: HttpRequestView, directory: Option<Seq<char>>, written: bool)
    -> ContentTypeView {
    if directory is None || req.body is None {
        ContentTypeView::NoBody(bare(200))
    } else if written {
        ContentTypeView::NoBody(bare(201))
    } else {
        ContentTypeView::NoBody(bare(500))
    }
}

/// Answers an upload with what writing the file gave.
pub fn handle_file_upload_endpoint(req: &HttpRequest, state: &State, written: bool) -> (r:
    ContentTypeHttpResponse)
    ensures
        r@ == upload_spec(req@, directory_of(*state), written),
{
    if state.directory.is_none() {
        return ContentTypeHttpResponse::NoBody(HttpResponse::default());
    }
    if req.body.is_none() {
        return ContentTypeHttpResponse::NoBody(HttpResponse::default());
    }
    if written {
        ContentTypeHttpResponse::NoBody(HttpResponseBuilder::new(201).build())
    } else {
        ContentTypeHttpResponse::NoBody(HttpResponseBuilder::new(500).build())
    }
}

/// A client accepts an encoding where its name is one of the pieces of the
/// header value between commas, whitespace around a piece aside.
pub open spec fn accepts_encoding(value: Seq<char>, encoding: Seq<char>) -> bool {
    exists|i: int|
        0 <= i < split_on(value, ',').len() && trim(#[trigger] split_on(value, ',')[i])
            == encoding
}

/// Tells whether an `Accept-Encoding` value lists `encoding`.
pub fn accepts(value: &str, encoding: &str) -> (r: bool)
    ensures
        r == accepts_encoding(value@, encoding@),
{
    let chars = text_chars(value);
    let ranges = split_ranges(chars.as_slice(), ',');
    let ghost pieces = split_on(value@, ',');
    let count: usize = ranges.len();
    let mut i: usize = 0;
    while i < count
        invariant
            i <= count,
            count == ranges@.len(),
            chars@ == value@,
            pieces == split_on(value@, ','),
            ranges_within(ranges@, chars@.len() as int),
            pieces_of(chars@, ranges@) == pieces,
            forall|k: int| 0 <= k < i ==> trim(#[trigger] pieces[k]) != encoding@,
        decreases count - i,
    {
        let (from, to) = ranges[i];
        assert(pieces[i as int] == chars@.subrange(from as int, to as int));
        let (from, to) = trim_range(chars.as_slice(), from, to);
        let piece = value.substring_char(from, to);
        if str_eq(piece, encoding) {
            return true;
        }
        i += 1;
    }
    false
}

/// What `flate2` makes of `data` at its default compression level, with the
/// header that `GzEncoder::new` writes: the gzip stream, or `None` where the
/// encoder fails on `data`.
pub uninterp spec fn gzip_outcome(data: Seq<u8>) -> Option<Seq<u8>>;

/// `std::io::Error`, the error of the encoder. It is carried through and
/// never looked into.
#[verifier::external_type_specification]
#[verifier::external_body]
pub struct ExIoError(std::io::Error);

/// Compresses `data` with `flate2::write::GzEncoder` into a vector, at
/// `Compression::default()`.
///
/// Trusted: whether the encoder succeeds, and what it writes where it does,
/// depends on `data` alone. Nothing is claimed of which data it fails on.
#[verifier::external_body]
fn gzip(data: &[u8]) -> (r: Result<Vec<u8>, std::io::Error>)
    ensures
        match r {
            Ok(encoded) => gzip_outcome(data@) == Some(encoded@),
            Err(_) => gzip_outcome(data@) is None,
        },
{
    let mut encoder = GzEncoder::new(Vec::new(), Compression::default());
    encoder.write_all(data)?;
    encoder.finish()
}

/// A response is encoded where the request lists gzip in `Accept-Encoding`
/// and the response has a body.
pub open spec fn wants_gzip(req: HttpRequestView, response: HttpResponseView) -> bool {
    &&& req.headers matches Some(headers)
    &&& headers.contains_key(ACCEPT_ENCODING_HEADER@)
    &&& accepts_encoding(headers[ACCEPT_ENCODING_HEADER@], GZIP_ENCODING@)
    &&& response.body is Some
}

/// The response with `encoded` as its body and gzip as its `Content-Encoding`.
pub open spec fn gzipped(response: HttpResponseView, encoded: Seq<u8>) -> HttpResponseView {
    HttpResponseView { body: Some(encoded), ..response }.with_header(
        CONTENT_ENCODING_HEADER@,
        GZIP_ENCODING@,
    )
}

/// Tells whether the response to `req` is to be encoded.
pub fn negotiate_encoding(req: &HttpRequest, response: &HttpResponse) -> (r: bool)
    ensures
        r == wants_gzip(req@, response@),
{
    let headers = match &req.headers {
        Some(headers) => headers,
        None => {
            return false;
        },
    };
    let value = match headers.get(ACCEPT_ENCODING_HEADER) {
        Some(value) => value,
        None => {
            return false;
        },
    };
    if response.body.is_none() {
        return false;
    }
    accepts(value.as_str(), GZIP_ENCODING)
}

/// Puts the encoded body in the place of the body and names the encoding.
pub fn set_encoded_body(response: &mut HttpResponse, encoded: Vec<u8>)
    ensures
        final(response)@ == gzipped(old(response)@, encoded@),
{
    response.body = Some(encoded);
    response.insert_header(CONTENT_ENCODING_HEADER, GZIP_ENCODING.to_owned());
}

/// The response with its body encoded where the client accepts gzip, or
/// `IoError` where the encoder fails on that body.
pub open spec fn encoded_spec(req: HttpRequestView, response: HttpResponseView) -> Result<
    HttpResponseView,
    HttpError,
> {
    if wants_gzip(req, response) {
        match gzip_outcome(response.body->0) {
            Some(encoded) => Ok(gzipped(response, encoded)),
            None => Err(HttpError::IoError),
        }
    } else {
        Ok(response)
    }
}

/// Encodes the body of the response where the client accepts gzip. It
/// fails exactly where the body is to be encoded and the encoder fails on
/// it; the response is then left as it was.
pub fn handle_encoding(req: &HttpRequest, response: &mut HttpResponse) -> (r: Result<
    (),
    HttpError,
>)
    ensures
        r is Err <==> wants_gzip(req@, old(response)@) && gzip_outcome(old(response)@.body->0)
            is None,
        match r {
            Ok(_) => encoded_spec(req@, old(response)@) == Ok::<HttpResponseView, HttpError>(
                final(response)@,
            ),
            Err(e) => encoded_spec(req@, old(response)@) == Err::<HttpResponseView, HttpError>(e)
                && final(response)@ == old(response)@,
        },
{
    if !negotiate_encoding(req, response) {
        return Ok(());
    }
    let encoded = match &response.body {
        Some(body) => gzip(body.as_slice()),
        None => {
            return Ok(());
        },
    };
    match encoded {
        Ok(encoded) => {
            set_encoded_body(response, encoded);
            Ok(())
        },
        Err(_) => Err(HttpError::IoError),
    }
}

/// What the route's handler answers, with the media type of the body.
pub open spec fn routed_spec(
    req: HttpRequestView,
    directory: Option<Seq<char>>,
    content: Option<Seq<u8>>,
    written: bool,
) -> ContentTypeView {
    match route_spec(req.path) {
        RouteView::Echo(text) => ContentTypeView::PlainText(ok_with_body(encode_utf8(text))),
        RouteView::UserAgent => user_agent_spec(req),
        RouteView::Files(_) => if req.method == Method::Post {
            upload_spec(req, directory, written)
        } else {
            download_spec(directory, content)
        },
        RouteView::Root => ContentTypeView::NoBody(bare(200)),
        RouteView::NotFound => ContentTypeView::NoBody(bare(404)),
    }
}

/// The response with the `Content-Type` header that its tag stands for.
pub open spec fn typed_spec(tagged: ContentTypeView) -> HttpResponseView {
    match tagged.content_type() {
        Some(content_type) => tagged.inner().with_header(CONTENT_TYPE_HEADER@, content_type),
        None => tagged.inner(),
    }
}

/// The response with the length of its body, if it has one, as `Content-Length`.
pub open spec fn sized_spec(response: HttpResponseView) -> HttpResponseView {
    match response.body {
        Some(body) => response.with_header(CONTENT_LENGTH_HEADER@, decimal_chars(body.len())),
        None => response,
    }
}

/// The response to a request: the handler's answer, then `Content-Type`,
/// then the encoding, then `Content-Length`; or `IoError` where the body is
/// to be encoded and the encoder fails on it.
pub open spec fn response_spec(
    req: HttpRequestView,
    directory: Option<Seq<char>>,
    content: Option<Seq<u8>>,
    written: bool,
) -> Result<HttpResponseView, HttpError> {
    match encoded_spec(req, typed_spec(routed_spec(req, directory, content, written))) {
        Ok(encoded) => Ok(sized_spec(encoded)),
        Err(e) => Err(e),
    }
}

/// Sets `Content-Type` to what the tag stands for and drops the tag.
pub fn set_content_type(tagged: ContentTypeHttpResponse) -> (r: HttpResponse)
    ensures
        r@ == typed_spec(tagged@),
{
    match tagged.get_content_type_header_value() {
        Some(content_type) => {
            let mut response = tagged.into_inner();
            response.insert_header(CONTENT_TYPE_HEADER, content_type.to_owned());
            response
        },
        None => tagged.into_inner(),
    }
}

/// Sets `Content-Length` to the length of the body, if there is one.
pub fn set_content_length(response: &mut HttpResponse)
    ensures
        final(response)@ == sized_spec(old(response)@),
{
    let body_len: usize = match &response.body {
        Some(body) => body.len(),
        None => {
            return ;
        },
    };
    response.insert_header(CONTENT_LENGTH_HEADER, decimal_text(body_len));
}

/// Answers a request, given what came of the file action it needed.
///
/// Fails exactly where the body is to be encoded and the encoder fails on it.
pub fn handle_request(req: HttpRequest, state: Arc<State>, outcome: FileOutcome) -> (r: Result<
    HttpResponse,
    HttpError,
>)
    ensures
        r is Err <==> ({
            let typed = typed_spec(
                routed_spec(req@, directory_of(*state), outcome.content(), outcome.written()),
            );
            wants_gzip(req@, typed) && gzip_outcome(typed.body->0) is None
        }),
        match r {
            Ok(response) => response_spec(
                req@,
                directory_of(*state),
                outcome.content(),
                outcome.written(),
            ) == Ok::<HttpResponseView, HttpError>(response@),
            Err(e) => response_spec(
                req@,
                directory_of(*state),
                outcome.content(),
                outcome.written(),
            ) == Err::<HttpResponseView, HttpError>(e),
        },
{
    let tagged = match route(req.path.as_str()) {
        Route::Echo(text) => handle_echo_endpoint(&req, text),
        Route::UserAgent => handle_user_agent_endpoint(&req),
        Route::Files(_) => {
            match req.method {
                Method::Post => {
                    let written = match outcome {
                        FileOutcome::Written(written) => written,
                        _ => false,
                    };
                    handle_file_upload_endpoint(&req, &state, written)
                },
                _ => {
                    let content = match outcome {
                        FileOutcome::Read(content) => content,
                        _ => None,
                    };
                    handle_file_endpoint(&req, &state, content)
                },
            }
        },
        Route::Root => ContentTypeHttpResponse::NoBody(HttpResponseBuilder::new(200).build()),
        Route::NotFound => ContentTypeHttpResponse::NoBody(HttpResponseBuilder::new(404).build()),
    };
    let mut response = set_content_type(tagged);
    match handle_encoding(&req, &mut response) {
        Ok(_) => {},
        Err(e) => {
            return Err(e);
        },
    }
    set_content_length(&mut response);
    Ok(response)
}

} // verus!
