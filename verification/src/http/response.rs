//! The response model and its wire serializer.
//!
//! On the wire a response is `HTTP/1.1 CODE REASON CRLF (NAME ": " VALUE CRLF)* CRLF [BODY]`.

use super::headers::{pairs_insert, Headers};
use super::scan::{COLON, CR, LF, SPACE};
use vstd::prelude::*;
use vstd::string::StringSliceAdditionalSpecFns;
use vstd::utf8::encode_utf8;

verus! {

/// A response: a status code, optional headers, an optional body.
#[derive(Debug)]
pub struct HttpResponse {
    pub status_code: u16,
    pub header: Option<Headers>,
    pub body: Option<Vec<u8>>,
}

/// A response as a mathematical value.
pub struct HttpResponseView {
    pub status_code: u16,
    /// The headers as name/value pairs in wire order.
    pub header: Option<Seq<(Seq<char>, Seq<char>)>>,
    pub body: Option<Seq<u8>>,
}

impl View for HttpResponse {
    type V = HttpResponseView;

    open spec fn view(&self) -> HttpResponseView {
        HttpResponseView {
            status_code: self.status_code,
            header: match self.header {
                Some(header) => Some(header.pairs()),
                None => None,
            },
            body: match self.body {
                Some(body) => Some(body@),
                None => None,
            },
        }
    }
}

impl HttpResponseView {
    /// The headers as name/value pairs; none where there is no container.
    pub open spec fn header_pairs(self) -> Seq<(Seq<char>, Seq<char>)> {
        match self.header {
            Some(pairs) => pairs,
            None => Seq::empty(),
        }
    }

    /// The response on the wire: status line, header lines in order, a
    /// blank line, then the body verbatim.
    pub open spec fn wire_bytes(self) -> Seq<u8> {
        status_line(self.status_code) + header_lines(self.header_pairs()) + seq![CR, LF]
            + match self.body {
            Some(body) => body,
            None => Seq::empty(),
        }
    }

    /// The response with the header `name` set to `value`.
    pub open spec fn with_header(self, name: Seq<char>, value: Seq<char>) -> HttpResponseView {
        HttpResponseView { header: Some(pairs_insert(self.header_pairs(), name, value)), ..self }
    }
}

impl Default for HttpResponse {
    /// Status 200 with no headers and no body.
    fn default() -> (r: Self)
        ensures
            r == (HttpResponse { status_code: 200, header: None, body: None }),
    {
        HttpResponse { status_code: 200, header: None, body: None }
    }
}

/// A response together with the media type of its body.
pub enum ContentTypeHttpResponse {
    Json(HttpResponse),
    PlainText(HttpResponse),
    NoBody(HttpResponse),
    File(HttpResponse),
}

/// A tagged response as a mathematical value.
pub enum ContentTypeView {
    Json(HttpResponseView),
    PlainText(HttpResponseView),
    NoBody(HttpResponseView),
    File(HttpResponseView),
}

impl ContentTypeView {
    /// The response without its tag.
    pub open spec fn inner(self) -> HttpResponseView {
        match self {
            ContentTypeView::Json(response) => response,
            ContentTypeView::PlainText(response) => response,
            ContentTypeView::NoBody(response) => response,
            ContentTypeView::File(response) => response,
        }
    }

    /// The `Content-Type` value that the tag stands for, if any.
    pub open spec fn content_type(self) -> Option<Seq<char>> {
        match self {
            ContentTypeView::Json(_) => Some("application/json"@),
            ContentTypeView::PlainText(_) => Some("text/plain"@),
            ContentTypeView::NoBody(_) => None,
            ContentTypeView::File(_) => Some("application/octet-stream"@),
        }
    }
}

impl View for ContentTypeHttpResponse {
    type V = ContentTypeView;

    open spec fn view(&self) -> ContentTypeView {
        match self {
            ContentTypeHttpResponse::Json(response) => ContentTypeView::Json(response@),
            ContentTypeHttpResponse::PlainText(response) => ContentTypeView::PlainText(response@),
            ContentTypeHttpResponse::NoBody(response) => ContentTypeView::NoBody(response@),
            ContentTypeHttpResponse::File(response) => ContentTypeView::File(response@),
        }
    }
}

impl ContentTypeHttpResponse {
    /// The response without its tag.
    pub open spec fn inner(self) -> HttpResponse {
        match self {
            ContentTypeHttpResponse::Json(response) => response,
            ContentTypeHttpResponse::PlainText(response) => response,
            ContentTypeHttpResponse::NoBody(response) => response,
            ContentTypeHttpResponse::File(response) => response,
        }
    }

    /// The `Content-Type` value that the tag stands for, if any.
    pub fn get_content_type_header_value(&self) -> (r: Option<&'static str>)
        ensures
            match r {
                Some(value) => self@.content_type() == Some(value@),
                None => self@.content_type() is None,
            },
    {
        match self {
            ContentTypeHttpResponse::Json(_) => Some("application/json"),
            ContentTypeHttpResponse::PlainText(_) => Some("text/plain"),
            ContentTypeHttpResponse::NoBody(_) => None,
            ContentTypeHttpResponse::File(_) => Some("application/octet-stream"),
        }
    }

    /// Drops the tag.
    pub fn into_inner(self) -> (r: HttpResponse)
        ensures
            r == self.inner(),
    {
        match self {
            ContentTypeHttpResponse::Json(response) => response,
            ContentTypeHttpResponse::PlainText(response) => response,
            ContentTypeHttpResponse::NoBody(response) => response,
            ContentTypeHttpResponse::File(response) => response,
        }
    }
}

/// Builds a response step by step, starting from a status code.
pub struct HttpResponseBuilder {
    status_code: u16,
    header: Option<Headers>,
    body: Option<Vec<u8>>,
}

impl HttpResponseBuilder {
    /// The response that `build` would return now.
    pub closed spec fn built(self) -> HttpResponse {
        HttpResponse { status_code: self.status_code, header: self.header, body: self.body }
    }

    /// Starts a response with the given status code, no headers and no body.
    pub fn new(code: u16) -> (r: Self)
        ensures
            r.built() == (HttpResponse { status_code: code, header: None, body: None }),
    {
        HttpResponseBuilder { status_code: code, header: None, body: None }
    }

    /// Attaches the headers, in place of any attached before.
    pub fn with_header(self, header: Headers) -> (r: Self)
        ensures
            r.built() == (HttpResponse { header: Some(header), ..self.built() }),
    {
        let mut this = self;
        this.header = Some(header);
        this
    }

    /// Attaches the body, in place of any attached before.
    pub fn with_body(self, body: Vec<u8>) -> (r: Self)
        ensures
            r.built() == (HttpResponse { body: Some(body), ..self.built() }),
    {
        let mut this = self;
        this.body = Some(body);
        this
    }

    /// Finishes the response.
    pub fn build(self) -> (r: HttpResponse)
        ensures
            r == self.built(),
    {
        HttpResponse { status_code: self.status_code, header: self.header, body: self.body }
    }
}

/// The status codes that have a reason phrase.
pub open spec fn is_supported_status(code: u16) -> bool {
    code == 200 || code == 201 || code == 404 || code == 500
}

/// The code in decimal and the reason phrase with the space before it.
pub open spec fn status_contents(code: u16) -> (Seq<char>, Seq<char>) {
    if code == 200 {
        ("200"@, " OK"@)
    } else if code == 201 {
        ("201"@, " Created"@)
    } else if code == 404 {
        ("404"@, " Not Found"@)
    } else {
        ("500"@, " Internal Server Error"@)
    }
}

/// The status line with its terminator.
pub open spec fn status_line(code: u16) -> Seq<u8> {
    "HTTP/1.1 ".spec_bytes() + encode_utf8(status_contents(code).0) + encode_utf8(
        status_contents(code).1,
    ) + seq![CR, LF]
}

/// One header on the wire: name, colon, space, value, terminator.
pub open spec fn header_line(pair: (Seq<char>, Seq<char>)) -> Seq<u8> {
    encode_utf8(pair.0) + seq![COLON, SPACE] + encode_utf8(pair.1) + seq![CR, LF]
}

/// The headers on the wire, one line each, in the order of `pairs`.
pub open spec fn header_lines(pairs: Seq<(Seq<char>, Seq<char>)>) -> Seq<u8>
    decreases pairs.len(),
{
    if pairs.len() == 0 {
        Seq::empty()
    } else {
        header_lines(pairs.drop_last()) + header_line(pairs.last())
    }
}

/// What `copy_to_buf` leaves in the buffer: `from` written over the bytes at
/// `offset`, the buffer grown where `from` reaches past its end.
pub open spec fn overwritten(buf: Seq<u8>, from: Seq<u8>, offset: int) -> Seq<u8> {
    buf.take(offset) + from + if offset + from.len() < buf.len() {
        buf.skip(offset + from.len())
    } else {
        Seq::empty()
    }
}

impl HttpResponse {
    /// The headers as name/value pairs in wire order; none where the
    /// response has no headers.
    pub open spec fn header_pairs(self) -> Seq<(Seq<char>, Seq<char>)> {
        self@.header_pairs()
    }

    /// The response on the wire.
    pub open spec fn wire_bytes(self) -> Seq<u8> {
        self@.wire_bytes()
    }

    /// Sets the header `name` to `value`; a response without headers gets a
    /// container first.
    pub fn insert_header(&mut self, name: &str, value: String)
        ensures
            final(self)@ == old(self)@.with_header(name@, value@),
    {
        let mut header = match self.header.take() {
            Some(header) => header,
            None => Headers::new(),
        };
        header.insert(name.to_owned(), value);
        self.header = Some(header);
    }

    /// Tells whether the status code has a reason phrase, so that the
    /// response can be written.
    pub fn has_supported_status(&self) -> (r: bool)
        ensures
            r == is_supported_status(self.status_code),
    {
        self.status_code == 200 || self.status_code == 201 || self.status_code == 404
            || self.status_code == 500
    }

    /// The code in decimal and the reason phrase with the space before it.
    pub fn get_http_method_contents_to_write(status_code: u16) -> (r: (&'static str, &'static str))
        requires
            is_supported_status(status_code),
        ensures
            (r.0@, r.1@) == status_contents(status_code),
    {
        if status_code == 200 {
            ("200", " OK")
        } else if status_code == 201 {
            ("201", " Created")
        } else if status_code == 404 {
            ("404", " Not Found")
        } else {
            ("500", " Internal Server Error")
        }
    }

    /// Writes `from` into `buf` at `buf_offset` and returns the number of
    /// bytes written. The buffer grows as far as `from` needs.
    pub fn copy_to_buf(buf: &mut Vec<u8>, from: &[u8], buf_offset: usize) -> (r: usize)
        requires
            buf_offset <= old(buf)@.len(),
        ensures
            r == from@.len(),
            buf_offset + r <= usize::MAX,
            final(buf)@ == overwritten(old(buf)@, from@, buf_offset as int),
    {
        let count: usize = from.len();
        let mut at: usize = buf_offset;
        let mut k: usize = 0;
        while k < count
            invariant
                k <= count,
                count == from@.len(),
                at == buf_offset + k,
                at <= buf@.len(),
                buf_offset <= old(buf)@.len(),
                buf@ == overwritten(old(buf)@, from@.take(k as int), buf_offset as int),
            decreases count - k,
        {
            let ghost before = buf@;
            if at < buf.len() {
                buf[at] = from[k];
            } else {
                buf.push(from[k]);
            }
            assert(at < buf.len());
            at += 1;
            k += 1;
            assert(buf@ =~= overwritten(old(buf)@, from@.take(k as int), buf_offset as int));
        }
        assert(from@.take(count as int) =~= from@);
        assert(at <= buf.len());
        count
    }

    /// Serializes the response and appends it to `writer`.
    pub fn write(&self, writer: &mut Vec<u8>)
        requires
            is_supported_status(self.status_code),
        ensures
            final(writer)@ == old(writer)@ + self.wire_bytes(),
    {
        let mut buf: Vec<u8> = Vec::new();
        let mut bytes_written_to_buf: usize = 0;
        let crlf: [u8; 2] = [CR, LF];
        let separator: [u8; 2] = [COLON, SPACE];
        assert(crlf@ =~= seq![CR, LF]);
        assert(separator@ =~= seq![COLON, SPACE]);

        bytes_written_to_buf +=
            HttpResponse::copy_to_buf(&mut buf, "HTTP/1.1 ".as_bytes(), bytes_written_to_buf);
        let (status_code, reason) = HttpResponse::get_http_method_contents_to_write(
            self.status_code,
        );
        bytes_written_to_buf +=
            HttpResponse::copy_to_buf(&mut buf, status_code.as_bytes(), bytes_written_to_buf);
        bytes_written_to_buf +=
            HttpResponse::copy_to_buf(&mut buf, reason.as_bytes(), bytes_written_to_buf);
        bytes_written_to_buf +=
            HttpResponse::copy_to_buf(&mut buf, crlf.as_slice(), bytes_written_to_buf);
        assert(buf@ =~= status_line(self.status_code));

        let ghost pairs = self.header_pairs();
        match &self.header {
            Some(header) => {
                let count: usize = header.len();
                let mut i: usize = 0;
                assert(pairs.take(0) =~= Seq::empty());
                while i < count
                    invariant
                        i <= count,
                        count == pairs.len(),
                        pairs == header.pairs(),
                        crlf@ == seq![CR, LF],
                        separator@ == seq![COLON, SPACE],
                        bytes_written_to_buf == buf@.len(),
                        buf@ == status_line(self.status_code) + header_lines(
                            pairs.take(i as int),
                        ),
                    decreases count - i,
                {
                    let (k, v) = header.entry(i);
                    let ghost before = buf@;
                    bytes_written_to_buf +=
                        HttpResponse::copy_to_buf(
                        &mut buf,
                        k.as_str().as_bytes(),
                        bytes_written_to_buf,
                    );
                    bytes_written_to_buf +=
                        HttpResponse::copy_to_buf(
                        &mut buf,
                        separator.as_slice(),
                        bytes_written_to_buf,
                    );
                    bytes_written_to_buf +=
                        HttpResponse::copy_to_buf(
                        &mut buf,
                        v.as_str().as_bytes(),
                        bytes_written_to_buf,
                    );
                    bytes_written_to_buf +=
                        HttpResponse::copy_to_buf(&mut buf, crlf.as_slice(), bytes_written_to_buf);
                    proof {
                        assert(pairs.take(i + 1).drop_last() =~= pairs.take(i as int));
                        assert(pairs.take(i + 1).last() == pairs[i as int]);
                        assert(buf@ =~= before + header_line(pairs[i as int]));
                    }
                    i += 1;
                }
                assert(pairs.take(count as int) =~= pairs);
            },
            None => {},
        }
        bytes_written_to_buf +=
            HttpResponse::copy_to_buf(&mut buf, crlf.as_slice(), bytes_written_to_buf);
        match &self.body {
            Some(body) => {
                bytes_written_to_buf +=
                    HttpResponse::copy_to_buf(&mut buf, body.as_slice(), bytes_written_to_buf);
            },
            None => {},
        }
        assert(buf@ =~= self.wire_bytes());
        writer.extend_from_slice(buf.as_slice());
    }
}

} // verus!
