//! The HTTP data model: errors, headers, requests and responses.

pub mod headers;
pub mod http_request;
pub mod http_request_v2;
pub mod parser_agreement;
pub mod request_laws;
pub mod response;
pub mod response_laws;
pub mod scan;
pub mod text;

pub use headers::Headers;
pub use http_request_v2::HeadersV2;
pub use response::{ContentTypeHttpResponse, HttpResponse, HttpResponseBuilder};

use vstd::prelude::*;

verus! {

/// The name of the request header that lists the encodings a client accepts.
pub const ACCEPT_ENCODING_HEADER: &'static str = "Accept-Encoding";

/// The name of the response header that names the encoding of the body.
pub const CONTENT_ENCODING_HEADER: &'static str = "Content-Encoding";

/// The name of the header that declares the length of the body in bytes.
pub const CONTENT_LENGTH_HEADER: &'static str = "Content-Length";

/// The name of the header that names the media type of the body.
pub const CONTENT_TYPE_HEADER: &'static str = "Content-Type";

/// The one body encoding that the server can produce.
pub const GZIP_ENCODING: &'static str = "gzip";

/// Why a request could not be read or answered.
#[derive(Clone, Copy, Debug, PartialEq, Eq, Structural)]
pub enum HttpError {
    /// The buffer does not start with one of the known methods and a space.
    InvalidMethod,
    /// The path or the version is not followed by its delimiter.
    MalformedRequestLine,
    /// A header line has no line terminator or no colon.
    MalformedHeader,
    /// The path, a header name or a header value is not valid UTF-8.
    InvalidEncoding,
    /// The `Content-Length` value is not an unsigned decimal number.
    InvalidContentLength,
    /// The buffer holds fewer body bytes than `Content-Length` declares;
    /// reading more from the connection and parsing again may succeed.
    IncompleteBody,
    /// Reading from or writing to the connection failed.
    IoError,
}

} // verus!
