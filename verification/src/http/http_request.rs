//! The request parser: from the bytes of one buffered read to a structured
//! request.
//!
//! The grammar is `METHOD SP PATH SP VERSION CRLF (NAME ":" OWS VALUE CRLF)* CRLF [BODY]`.
//! Tokens are taken in order and the first failure decides the error.

use super::headers::{pairs_map, Headers};
use super::scan::{
    capture_all_till_and_including_crlf, capture_all_till_and_including_space,
    capture_all_till_and_including_termination_character, capture_until, colon_bytes, crlf_bytes,
    lemma_capture_until, lemma_capture_until_suffix, lemma_skip_spaces_suffix, parse_usize,
    parse_usize_spec, skip_spaces, skip_whitespaces0, space_bytes, COLON, SPACE,
};
use super::text::utf8_text;
use super::{HttpError, CONTENT_LENGTH_HEADER};
use vstd::prelude::*;
use vstd::slice::{slice_subrange, slice_to_vec};
use vstd::string::StringSliceAdditionalSpecFns;
use vstd::utf8::{decode_utf8, encode_utf8, valid_utf8};

verus! {

/// The request methods that the server knows.
#[derive(Clone, Copy, Debug, PartialEq, Eq, Structural)]
pub enum Method {
    Get,
    Post,
    Put,
    Delete,
    Patch,
}

/// The token of a method in lower case: `get`, `post`, `put`, `delete`, `patch`.
pub open spec fn method_token(method: Method) -> Seq<u8> {
    match method {
        Method::Get => seq![0x67u8, 0x65u8, 0x74u8],
        Method::Post => seq![0x70u8, 0x6fu8, 0x73u8, 0x74u8],
        Method::Put => seq![0x70u8, 0x75u8, 0x74u8],
        Method::Delete => seq![0x64u8, 0x65u8, 0x6cu8, 0x65u8, 0x74u8, 0x65u8],
        Method::Patch => seq![0x70u8, 0x61u8, 0x74u8, 0x63u8, 0x68u8],
    }
}

/// An ASCII capital letter mapped to its small letter; any other byte unchanged.
pub open spec fn lowercase_byte(b: u8) -> u8 {
    if 0x41 <= b <= 0x5a {
        (b + 0x20) as u8
    } else {
        b
    }
}

/// `s` starts with `tag`, compared without regard to ASCII case.
pub open spec fn starts_with_no_case(s: Seq<u8>, tag: Seq<u8>) -> bool {
    &&& tag.len() <= s.len()
    &&& forall|k: int|
        0 <= k < tag.len() ==> lowercase_byte(s[k]) == lowercase_byte(#[trigger] tag[k])
}

/// `s` starts with the token of `method`, in any case, and one space.
pub open spec fn method_matches(s: Seq<u8>, method: Method) -> bool {
    &&& starts_with_no_case(s, method_token(method))
    &&& method_token(method).len() < s.len()
    &&& s[method_token(method).len() as int] == SPACE
}

/// What follows the method and its space.
pub open spec fn after_method(s: Seq<u8>, method: Method) -> Seq<u8> {
    s.skip(method_token(method).len() as int + 1)
}

/// The method token at the start of `s`: the rest of the input and the
/// method, or `None` where `s` starts with no known method and a space.
pub open spec fn parse_method_spec(s: Seq<u8>) -> Option<(Seq<u8>, Method)> {
    if method_matches(s, Method::Get) {
        Some((after_method(s, Method::Get), Method::Get))
    } else if method_matches(s, Method::Post) {
        Some((after_method(s, Method::Post), Method::Post))
    } else if method_matches(s, Method::Put) {
        Some((after_method(s, Method::Put), Method::Put))
    } else if method_matches(s, Method::Delete) {
        Some((after_method(s, Method::Delete), Method::Delete))
    } else if method_matches(s, Method::Patch) {
        Some((after_method(s, Method::Patch), Method::Patch))
    } else {
        None
    }
}

fn lowercase(b: u8) -> (r: u8)
    ensures
        r == lowercase_byte(b),
{
    if 0x41 <= b && b <= 0x5a {
        b + 0x20
    } else {
        b
    }
}

/// Tells whether `input` starts with `token` in any case, followed by a space.
fn starts_with_token(input: &[u8], token: &[u8]) -> (r: bool)
    ensures
        r == (starts_with_no_case(input@, token@) && token@.len() < input@.len()
            && input@[token@.len() as int] == SPACE),
{
    let n: usize = token.len();
    if input.len() <= n {
        return false;
    }
    let mut k: usize = 0;
    while k < n
        invariant
            k <= n,
            n == token@.len(),
            n < input@.len(),
            forall|m: int|
                0 <= m < k ==> lowercase_byte(input@[m]) == lowercase_byte(#[trigger] token@[m]),
        decreases n - k,
    {
        if lowercase(input[k]) != lowercase(token[k]) {
            return false;
        }
        k += 1;
    }
    input[n] == SPACE
}

/// Reads the method token and the space after it.
pub fn parse_method(input: &[u8]) -> (r: Option<(&[u8], Method)>)
    ensures
        match r {
            Some((rest, method)) => parse_method_spec(input@) == Some((rest@, method)),
            None => parse_method_spec(input@) is None,
        },
{
    let get: [u8; 3] = [0x67, 0x65, 0x74];
    let post: [u8; 4] = [0x70, 0x6f, 0x73, 0x74];
    let put: [u8; 3] = [0x70, 0x75, 0x74];
    let delete: [u8; 6] = [0x64, 0x65, 0x6c, 0x65, 0x74, 0x65];
    let patch: [u8; 5] = [0x70, 0x61, 0x74, 0x63, 0x68];
    assert(get@ =~= method_token(Method::Get));
    assert(post@ =~= method_token(Method::Post));
    assert(put@ =~= method_token(Method::Put));
    assert(delete@ =~= method_token(Method::Delete));
    assert(patch@ =~= method_token(Method::Patch));
    let end: usize = input.len();
    if starts_with_token(input, get.as_slice()) {
        Some((slice_subrange(input, 4, end), Method::Get))
    } else if starts_with_token(input, post.as_slice()) {
        Some((slice_subrange(input, 5, end), Method::Post))
    } else if starts_with_token(input, put.as_slice()) {
        Some((slice_subrange(input, 4, end), Method::Put))
    } else if starts_with_token(input, delete.as_slice()) {
        Some((slice_subrange(input, 7, end), Method::Delete))
    } else if starts_with_token(input, patch.as_slice()) {
        Some((slice_subrange(input, 6, end), Method::Patch))
    } else {
        None
    }
}

/// The head of a request as the grammar reads it, in raw bytes.
pub struct HeadModel {
    pub method: Method,
    /// The bytes between the method and the next space.
    pub path: Seq<u8>,
    /// Name and value of each header line, in the order of the lines.
    pub headers: Seq<(Seq<u8>, Seq<u8>)>,
    /// What follows the blank line that ends the header block.
    pub rest: Seq<u8>,
}

/// A header line split at its first colon: the name before it, and the value
/// after it without its leading whitespace. `None` where the line has no colon.
pub open spec fn split_header_line(line: Seq<u8>) -> Option<(Seq<u8>, Seq<u8>)> {
    match capture_until(line, colon_bytes()) {
        Some((after_colon, name)) => Some((name, skip_spaces(after_colon))),
        None => None,
    }
}

/// The header block at the start of `s`, read line by line after the pairs
/// in `read`: every pair up to the blank line, and what follows that line.
///
/// A line without terminator or without colon is `MalformedHeader`; a name or
/// a value that is not valid UTF-8 is `InvalidEncoding`. The first line at
/// fault decides.
pub open spec fn header_block(s: Seq<u8>, read: Seq<(Seq<u8>, Seq<u8>)>) -> Result<
    (Seq<(Seq<u8>, Seq<u8>)>, Seq<u8>),
    HttpError,
>
    decreases s.len(),
    via header_block_decreases
{
    match capture_until(s, crlf_bytes()) {
        None => Err(HttpError::MalformedHeader),
        Some((rest, line)) => if line.len() == 0 {
            Ok((read, rest))
        } else {
            match split_header_line(line) {
                None => Err(HttpError::MalformedHeader),
                Some((name, value)) => if !valid_utf8(name) || !valid_utf8(value) {
                    Err(HttpError::InvalidEncoding)
                } else {
                    header_block(rest, read.push((name, value)))
                },
            }
        },
    }
}

#[via_fn]
proof fn header_block_decreases(s: Seq<u8>, read: Seq<(Seq<u8>, Seq<u8>)>) {
    if capture_until(s, crlf_bytes()) is Some {
        lemma_capture_until(s, crlf_bytes());
    }
}

/// The head of the request at the start of `buf`.
///
/// The tokens are read in order: the method and its space; optional
/// whitespace; the path up to the next space, which must be valid UTF-8;
/// optional whitespace; the version up to the next CRLF, which is not
/// examined; the header block.
pub open spec fn parse_head_spec(buf: Seq<u8>) -> Result<HeadModel, HttpError> {
    match parse_method_spec(buf) {
        None => Err(HttpError::InvalidMethod),
        Some((after_method, method)) => match capture_until(
            skip_spaces(after_method),
            space_bytes(),
        ) {
            None => Err(HttpError::MalformedRequestLine),
            Some((after_path, path)) => if !valid_utf8(path) {
                Err(HttpError::InvalidEncoding)
            } else {
                match capture_until(skip_spaces(after_path), crlf_bytes()) {
                    None => Err(HttpError::MalformedRequestLine),
                    Some((after_version, _version)) => match header_block(
                        after_version,
                        Seq::empty(),
                    ) {
                        Err(e) => Err(e),
                        Ok((headers, rest)) => Ok(HeadModel { method, path, headers, rest }),
                    },
                }
            },
        },
    }
}

/// The head of a request, borrowed from the buffer it was read from.
pub struct RequestHead<'a> {
    pub method: Method,
    pub path: &'a str,
    /// Name and value of each header line, in the order of the lines.
    pub headers: Vec<(&'a str, &'a str)>,
    /// What follows the blank line that ends the header block.
    pub rest: &'a [u8],
    /// The number of bytes of the buffer that the head takes.
    pub consumed: usize,
}

/// The raw name/value pairs that a list of borrowed header lines holds.
pub open spec fn raw_pairs(headers: Seq<(&str, &str)>) -> Seq<(Seq<u8>, Seq<u8>)> {
    Seq::new(headers.len(), |i: int| (headers[i].0.spec_bytes(), headers[i].1.spec_bytes()))
}

impl<'a> RequestHead<'a> {
    /// The head in raw bytes.
    pub open spec fn model(&self) -> HeadModel {
        HeadModel {
            method: self.method,
            path: self.path.spec_bytes(),
            headers: raw_pairs(self.headers@),
            rest: self.rest@,
        }
    }
}

/// Where a capture succeeds on what remains of `buf` from `offset` on, what
/// it leaves is what remains of `buf` from the offset behind the pattern on.
proof fn lemma_capture_offsets(buf: Seq<u8>, offset: int, pat: Seq<u8>)
    requires
        0 <= offset <= buf.len(),
        capture_until(buf.skip(offset), pat) is Some,
    ensures
        ({
            let (rest, captured) = capture_until(buf.skip(offset), pat)->0;
            let next = buf.len() - rest.len();
            &&& next == offset + captured.len() + pat.len()
            &&& rest == buf.skip(next)
        }),
{
    let input = buf.skip(offset);
    lemma_capture_until(input, pat);
    lemma_capture_until_suffix(input, pat);
    let rest = (capture_until(input, pat)->0).0;
    assert(rest =~= buf.skip(buf.len() - rest.len()));
}

impl<'a> RequestHead<'a> {
    /// Reads the method at `curr_buff_offset` and returns it with the offset
    /// behind the space that follows it.
    pub fn parse_method(buf: &[u8], curr_buff_offset: usize) -> (r: Result<
        (Method, usize),
        HttpError,
    >)
        requires
            curr_buff_offset <= buf@.len(),
        ensures
            match r {
                Ok((method, offset)) => {
                    &&& curr_buff_offset < offset <= buf@.len()
                    &&& parse_method_spec(buf@.skip(curr_buff_offset as int)) == Some(
                        (buf@.skip(offset as int), method),
                    )
                },
                Err(e) => e == HttpError::InvalidMethod && parse_method_spec(
                    buf@.skip(curr_buff_offset as int),
                ) is None,
            },
    {
        let total: usize = buf.len();
        let input = slice_subrange(buf, curr_buff_offset, total);
        assert(input@ =~= buf@.skip(curr_buff_offset as int));
        match parse_method(input) {
            Some((rest, method)) => {
                assert(rest@ =~= buf@.skip(total - rest@.len()));
                Ok((method, total - rest.len()))
            },
            None => Err(HttpError::InvalidMethod),
        }
    }

    /// Steps over the whitespace at `curr_buff_offset` and returns the
    /// offset of the first byte of another kind.
    pub fn skip_whitespaces0(buf: &[u8], curr_buff_offset: usize) -> (offset: usize)
        requires
            curr_buff_offset <= buf@.len(),
        ensures
            curr_buff_offset <= offset <= buf@.len(),
            buf@.skip(offset as int) == skip_spaces(buf@.skip(curr_buff_offset as int)),
    {
        let total: usize = buf.len();
        let input = slice_subrange(buf, curr_buff_offset, total);
        assert(input@ =~= buf@.skip(curr_buff_offset as int));
        let (rest, _) = skip_whitespaces0(input);
        proof {
            lemma_skip_spaces_suffix(input@);
            assert(rest@ =~= buf@.skip(total - rest@.len()));
        }
        total - rest.len()
    }

    /// Reads the path at `curr_buff_offset`: the bytes up to the next space,
    /// and the offset behind that space.
    pub fn parse_http_path(buf: &'a [u8], curr_buff_offset: usize) -> (r: Result<
        (&'a [u8], usize),
        HttpError,
    >)
        requires
            curr_buff_offset <= buf@.len(),
        ensures
            match r {
                Ok((path, offset)) => {
                    &&& offset == curr_buff_offset + path@.len() + 1
                    &&& offset <= buf@.len()
                    &&& capture_until(buf@.skip(curr_buff_offset as int), space_bytes()) == Some(
                        (buf@.skip(offset as int), path@),
                    )
                },
                Err(e) => e == HttpError::MalformedRequestLine && capture_until(
                    buf@.skip(curr_buff_offset as int),
                    space_bytes(),
                ) is None,
            },
    {
        let total: usize = buf.len();
        let input = slice_subrange(buf, curr_buff_offset, total);
        assert(input@ =~= buf@.skip(curr_buff_offset as int));
        match capture_all_till_and_including_space(input) {
            Some((rest, captured)) => {
                proof {
                    lemma_capture_offsets(buf@, curr_buff_offset as int, space_bytes());
                }
                Ok((captured, total - rest.len()))
            },
            None => Err(HttpError::MalformedRequestLine),
        }
    }

    /// Reads the version at `curr_buff_offset`: the bytes up to the next
    /// CRLF, and the offset behind that CRLF.
    pub fn parse_http_version(buf: &'a [u8], curr_buff_offset: usize) -> (r: Result<
        (&'a [u8], usize),
        HttpError,
    >)
        requires
            curr_buff_offset <= buf@.len(),
        ensures
            match r {
                Ok((version, offset)) => {
                    &&& offset == curr_buff_offset + version@.len() + 2
                    &&& offset <= buf@.len()
                    &&& capture_until(buf@.skip(curr_buff_offset as int), crlf_bytes()) == Some(
                        (buf@.skip(offset as int), version@),
                    )
                },
                Err(e) => e == HttpError::MalformedRequestLine && capture_until(
                    buf@.skip(curr_buff_offset as int),
                    crlf_bytes(),
                ) is None,
            },
    {
        let total: usize = buf.len();
        let input = slice_subrange(buf, curr_buff_offset, total);
        assert(input@ =~= buf@.skip(curr_buff_offset as int));
        match capture_all_till_and_including_crlf(input) {
            Some((rest, captured)) => {
                proof {
                    lemma_capture_offsets(buf@, curr_buff_offset as int, crlf_bytes());
                }
                Ok((captured, total - rest.len()))
            },
            None => Err(HttpError::MalformedRequestLine),
        }
    }

    /// Reads one line of the header block at `curr_buff_offset`: the bytes up
    /// to the next CRLF, and the offset behind that CRLF.
    pub fn parse_header_line(buf: &'a [u8], curr_buff_offset: usize) -> (r: Result<
        (&'a [u8], usize),
        HttpError,
    >)
        requires
            curr_buff_offset <= buf@.len(),
        ensures
            match r {
                Ok((line, offset)) => {
                    &&& offset == curr_buff_offset + line@.len() + 2
                    &&& offset <= buf@.len()
                    &&& capture_until(buf@.skip(curr_buff_offset as int), crlf_bytes()) == Some(
                        (buf@.skip(offset as int), line@),
                    )
                },
                Err(e) => e == HttpError::MalformedHeader && capture_until(
                    buf@.skip(curr_buff_offset as int),
                    crlf_bytes(),
                ) is None,
            },
    {
        let total: usize = buf.len();
        let input = slice_subrange(buf, curr_buff_offset, total);
        assert(input@ =~= buf@.skip(curr_buff_offset as int));
        match capture_all_till_and_including_crlf(input) {
            Some((rest, captured)) => {
                proof {
                    lemma_capture_offsets(buf@, curr_buff_offset as int, crlf_bytes());
                }
                Ok((captured, total - rest.len()))
            },
            None => Err(HttpError::MalformedHeader),
        }
    }

    /// Splits a header line at its first colon into the name and the value
    /// without its leading whitespace.
    pub fn split_line(line: &'a [u8]) -> (r: Result<(&'a [u8], &'a [u8]), HttpError>)
        ensures
            match r {
                Ok((name, value)) => split_header_line(line@) == Some((name@, value@)),
                Err(e) => e == HttpError::MalformedHeader && split_header_line(line@) is None,
            },
    {
        let colon: [u8; 1] = [COLON];
        assert(colon@ =~= colon_bytes());
        match capture_all_till_and_including_termination_character(line, colon.as_slice()) {
            Some((after_colon, name)) => {
                let (value, _) = skip_whitespaces0(after_colon);
                Ok((name, value))
            },
            None => Err(HttpError::MalformedHeader),
        }
    }
}

/// Reads the head of a request from the start of `buf`, keeping count of the
/// bytes consumed.
pub fn parse_head<'a>(buf: &'a [u8]) -> (r: Result<RequestHead<'a>, HttpError>)
    ensures
        match r {
            Ok(head) => parse_head_spec(buf@) == Ok::<HeadModel, HttpError>(head.model())
                && head.consumed <= buf@.len() && head.rest@ == buf@.skip(head.consumed as int),
            Err(e) => parse_head_spec(buf@) == Err::<HeadModel, HttpError>(e),
        },
{
    let total: usize = buf.len();
    assert(buf@.skip(0) =~= buf@);
    let (method, curr_buff_offset) = match RequestHead::parse_method(buf, 0) {
        Ok(found) => found,
        Err(e) => {
            return Err(e);
        },
    };
    let curr_buff_offset = RequestHead::skip_whitespaces0(buf, curr_buff_offset);
    let (path_bytes, curr_buff_offset) = match RequestHead::parse_http_path(
        buf,
        curr_buff_offset,
    ) {
        Ok(found) => found,
        Err(e) => {
            return Err(e);
        },
    };
    let path = match utf8_text(path_bytes) {
        Some(text) => text,
        None => {
            return Err(HttpError::InvalidEncoding);
        },
    };
    let curr_buff_offset = RequestHead::skip_whitespaces0(buf, curr_buff_offset);
    let (_version, curr_buff_offset) = match RequestHead::parse_http_version(
        buf,
        curr_buff_offset,
    ) {
        Ok(found) => found,
        Err(e) => {
            return Err(e);
        },
    };
    let ghost block = buf@.skip(curr_buff_offset as int);
    let mut headers: Vec<(&'a str, &'a str)> = Vec::new();
    let mut curr_buff_offset: usize = curr_buff_offset;
    assert(raw_pairs(headers@) =~= Seq::empty());
    loop
        invariant
            parse_head_spec(buf@) == match header_block(block, Seq::empty()) {
                Err(e) => Err::<HeadModel, HttpError>(e),
                Ok((pairs, after)) => Ok(
                    HeadModel { method, path: path.spec_bytes(), headers: pairs, rest: after },
                ),
            },
            header_block(block, Seq::empty()) == header_block(
                buf@.skip(curr_buff_offset as int),
                raw_pairs(headers@),
            ),
            total == buf@.len(),
            curr_buff_offset <= total,
        decreases total - curr_buff_offset,
    {
        let (line, next_offset) = match RequestHead::parse_header_line(buf, curr_buff_offset) {
            Ok(found) => found,
            Err(e) => {
                return Err(e);
            },
        };
        if line.len() == 0 {
            let rest = slice_subrange(buf, next_offset, total);
            assert(rest@ =~= buf@.skip(next_offset as int));
            return Ok(RequestHead { method, path, headers, rest, consumed: next_offset });
        }
        let (name_bytes, value_bytes) = match RequestHead::split_line(line) {
            Ok(found) => found,
            Err(e) => {
                return Err(e);
            },
        };
        let name = match utf8_text(name_bytes) {
            Some(text) => text,
            None => {
                return Err(HttpError::InvalidEncoding);
            },
        };
        let value = match utf8_text(value_bytes) {
            Some(text) => text,
            None => {
                return Err(HttpError::InvalidEncoding);
            },
        };
        let ghost before = raw_pairs(headers@);
        headers.push((name, value));
        assert(raw_pairs(headers@) =~= before.push((name_bytes@, value_bytes@)));
        curr_buff_offset = next_offset;
    }
}

/// A parsed request.
#[derive(Debug)]
pub struct HttpRequest {
    pub method: Method,
    pub path: String,
    /// `None` where the request has no header line.
    pub headers: Option<Headers>,
    /// `None` where no nonzero `Content-Length` is declared.
    pub body: Option<Vec<u8>>,
}

/// A parsed request as a mathematical value.
pub struct HttpRequestView {
    pub method: Method,
    pub path: Seq<char>,
    pub headers: Option<Map<Seq<char>, Seq<char>>>,
    pub body: Option<Seq<u8>>,
}

impl View for HttpRequest {
    type V = HttpRequestView;

    open spec fn view(&self) -> HttpRequestView {
        HttpRequestView {
            method: self.method,
            path: self.path@,
            headers: match self.headers {
                Some(headers) => Some(headers@),
                None => None,
            },
            body: match self.body {
                Some(body) => Some(body@),
                None => None,
            },
        }
    }
}

/// Raw name/value pairs decoded as text.
pub open spec fn text_pairs(pairs: Seq<(Seq<u8>, Seq<u8>)>) -> Seq<(Seq<char>, Seq<char>)> {
    Seq::new(pairs.len(), |i: int| (decode_utf8(pairs[i].0), decode_utf8(pairs[i].1)))
}

/// The body length that the headers declare: the value of `Content-Length`
/// read as an unsigned decimal number, and 0 where the header is absent.
pub open spec fn declared_length(headers: Map<Seq<char>, Seq<char>>) -> Result<usize, HttpError> {
    if headers.contains_key(CONTENT_LENGTH_HEADER@) {
        match parse_usize_spec(encode_utf8(headers[CONTENT_LENGTH_HEADER@])) {
            Some(n) => Ok(n),
            None => Err(HttpError::InvalidContentLength),
        }
    } else {
        Ok(0)
    }
}

/// The body of `declared` bytes at the start of `rest`: none where 0 bytes
/// are declared, `IncompleteBody` where `rest` is shorter than declared.
pub open spec fn body_spec(rest: Seq<u8>, declared: usize) -> Result<Option<Seq<u8>>, HttpError> {
    if declared == 0 {
        Ok(None)
    } else if rest.len() < declared {
        Err(HttpError::IncompleteBody)
    } else {
        Ok(Some(rest.take(declared as int)))
    }
}

/// The request that a head and the bytes after it make.
pub open spec fn request_of_head(head: HeadModel) -> Result<HttpRequestView, HttpError> {
    let headers = pairs_map(text_pairs(head.headers));
    match declared_length(headers) {
        Err(e) => Err(e),
        Ok(declared) => match body_spec(head.rest, declared) {
            Err(e) => Err(e),
            Ok(body) => Ok(
                HttpRequestView {
                    method: head.method,
                    path: decode_utf8(head.path),
                    headers: if head.headers.len() == 0 {
                        None
                    } else {
                        Some(headers)
                    },
                    body,
                },
            ),
        },
    }
}

/// The request at the start of `buf`, or the error of the first token at fault.
pub open spec fn parse_spec(buf: Seq<u8>) -> Result<HttpRequestView, HttpError> {
    match parse_head_spec(buf) {
        Err(e) => Err(e),
        Ok(head) => request_of_head(head),
    }
}

/// Takes the body of `declared` bytes from the bytes after the head.
pub fn extract_body(rest: &[u8], declared: usize) -> (r: Result<Option<Vec<u8>>, HttpError>)
    ensures
        match r {
            Ok(Some(body)) => body_spec(rest@, declared) == Ok::<Option<Seq<u8>>, HttpError>(
                Some(body@),
            ),
            Ok(None) => body_spec(rest@, declared) == Ok::<Option<Seq<u8>>, HttpError>(None),
            Err(e) => body_spec(rest@, declared) == Err::<Option<Seq<u8>>, HttpError>(e),
        },
{
    if declared == 0 {
        Ok(None)
    } else if rest.len() < declared {
        Err(HttpError::IncompleteBody)
    } else {
        Ok(Some(slice_to_vec(slice_subrange(rest, 0, declared))))
    }
}

impl HttpRequest {
    /// Builds the request from its head: owns the text, folds the header
    /// lines into the mapping, and takes the declared body.
    pub fn from_head(head: RequestHead<'_>) -> (r: Result<HttpRequest, HttpError>)
        ensures
            match r {
                Ok(request) => request_of_head(head.model()) == Ok::<HttpRequestView, HttpError>(
                    request@,
                ),
                Err(e) => request_of_head(head.model()) == Err::<HttpRequestView, HttpError>(e),
            },
    {
        let ghost lines = text_pairs(raw_pairs(head.headers@));
        let count: usize = head.headers.len();
        let mut headers = Headers::new();
        let mut i: usize = 0;
        assert(lines.take(0) =~= Seq::empty());
        while i < count
            invariant
                i <= count,
                count == head.headers@.len(),
                lines == text_pairs(raw_pairs(head.headers@)),
                headers@ == pairs_map(lines.take(i as int)),
            decreases count - i,
        {
            let (name, value) = head.headers[i];
            proof {
                assert(lines.take(i + 1).drop_last() =~= lines.take(i as int));
                vstd::utf8::encode_utf8_decode_utf8(name@);
                vstd::utf8::encode_utf8_decode_utf8(value@);
                assert(raw_pairs(head.headers@)[i as int] == (
                    name.spec_bytes(),
                    value.spec_bytes(),
                ));
                assert(lines.take(i + 1).last() == (name@, value@));
            }
            headers.insert(name.to_owned(), value.to_owned());
            i += 1;
        }
        assert(lines.take(count as int) =~= lines);
        let declared: usize = match headers.get(CONTENT_LENGTH_HEADER) {
            Some(text) => match parse_usize(text.as_str().as_bytes()) {
                Some(n) => n,
                None => {
                    return Err(HttpError::InvalidContentLength);
                },
            },
            None => 0,
        };
        let body = match extract_body(head.rest, declared) {
            Ok(body) => body,
            Err(e) => {
                return Err(e);
            },
        };
        let headers = if count > 0 {
            Some(headers)
        } else {
            None
        };
        proof {
            vstd::utf8::encode_utf8_decode_utf8(head.path@);
        }
        Ok(HttpRequest { method: head.method, path: head.path.to_owned(), headers, body })
    }

    /// Parses the request at the start of `buf`, the bytes of one buffered read.
    pub fn parse(buf: &[u8]) -> (r: Result<HttpRequest, HttpError>)
        ensures
            match r {
                Ok(request) => parse_spec(buf@) == Ok::<HttpRequestView, HttpError>(request@),
                Err(e) => parse_spec(buf@) == Err::<HttpRequestView, HttpError>(e),
            },
    {
        match parse_head(buf) {
            Ok(head) => HttpRequest::from_head(head),
            Err(e) => Err(e),
        }
    }
}

/// What the connection loop does after a read.
#[derive(Debug)]
pub enum ReadStep {
    /// The buffer holds a complete request.
    Done(HttpRequest),
    /// The body is not complete yet and the connection is open: read again
    /// and ask again with the longer buffer.
    ReadMore,
    /// The request cannot be parsed, or the connection ended before the
    /// body was complete.
    Fail(HttpError),
}

/// A read step as a mathematical value.
pub enum ReadStepView {
    Done(HttpRequestView),
    ReadMore,
    Fail(HttpError),
}

impl View for ReadStep {
    type V = ReadStepView;

    open spec fn view(&self) -> ReadStepView {
        match self {
            ReadStep::Done(request) => ReadStepView::Done(request@),
            ReadStep::ReadMore => ReadStepView::ReadMore,
            ReadStep::Fail(e) => ReadStepView::Fail(*e),
        }
    }
}

/// The step after a read that added `read` bytes to the buffer: done where
/// the buffer parses; another read where only the body is incomplete and the
/// last read brought something; failure with the parser's error otherwise.
/// No error but `IncompleteBody` is ever retried.
pub open spec fn after_read_spec(buf: Seq<u8>, read: usize) -> ReadStepView {
    match parse_spec(buf) {
        Ok(request) => ReadStepView::Done(request),
        Err(e) => if e == HttpError::IncompleteBody && read > 0 {
            ReadStepView::ReadMore
        } else {
            ReadStepView::Fail(e)
        },
    }
}

/// Decides what follows a read: `buf` is everything read so far, `read` the
/// number of bytes that the last read added, 0 where the connection ended.
pub fn after_read(buf: &[u8], read: usize) -> (r: ReadStep)
    ensures
        r@ == after_read_spec(buf@, read),
{
    match HttpRequest::parse(buf) {
        Ok(request) => ReadStep::Done(request),
        Err(e) => {
            match e {
                HttpError::IncompleteBody => {
                    if read > 0 {
                        ReadStep::ReadMore
                    } else {
                        ReadStep::Fail(e)
                    }
                },
                _ => ReadStep::Fail(e),
            }
        },
    }
}

} // verus!
