//! The request parser over shared byte buffers: the same grammar as
//! `http_request`, with the path, the headers and the body kept as
//! `bytes::Bytes` instead of owned strings and vectors.

use super::headers::{
    index_of, keys_distinct, lemma_index_of, lemma_index_of_is, lemma_pairs_map_contains,
    lemma_pairs_map_distinct, lemma_pairs_map_update, pairs_insert, pairs_map,
};
use super::http_request::{
    body_spec, parse_head, parse_head_spec, raw_pairs, HeadModel, Method, RequestHead,
};
use super::scan::{parse_usize, parse_usize_spec};
use super::text::bytes_eq;
use super::{HttpError, CONTENT_LENGTH_HEADER};
use bytes::Bytes;
use vstd::prelude::*;
use vstd::slice::slice_subrange;
use vstd::string::StringSliceAdditionalSpecFns;

verus! {

/// `bytes::Bytes`, an immutable shared byte buffer. What it holds is known
/// only through `bytes_contents`.
#[verifier::external_type_specification]
#[verifier::external_body]
pub struct ExBytes(bytes::Bytes);

/// The bytes that a `Bytes` holds.
pub uninterp spec fn bytes_contents(b: Bytes) -> Seq<u8>;

/// Calls `Bytes::copy_from_slice`.
///
/// Trusted: the new buffer holds a copy of the bytes of `src`.
#[verifier::external_body]
fn copy_to_bytes(src: &[u8]) -> (r: Bytes)
    ensures
        bytes_contents(r) == src@,
{
    Bytes::copy_from_slice(src)
}

/// Calls `Bytes::as_ref`.
///
/// Trusted: the slice is the bytes that the buffer holds.
#[verifier::external_body]
fn bytes_as_slice(b: &Bytes) -> (r: &[u8])
    ensures
        r@ == bytes_contents(*b),
{
    b.as_ref()
}

/// The name/value pairs that a list of entries holds.
pub open spec fn byte_pairs_of(entries: Seq<(Bytes, Bytes)>) -> Seq<(Seq<u8>, Seq<u8>)> {
    Seq::new(entries.len(), |i: int| (bytes_contents(entries[i].0), bytes_contents(entries[i].1)))
}

/// The headers of one request, names and values as raw bytes. Names are
/// matched exactly, byte for byte.
#[derive(Debug)]
pub struct HeadersV2 {
    entries: Vec<(Bytes, Bytes)>,
}

impl View for HeadersV2 {
    type V = Map<Seq<u8>, Seq<u8>>;

    /// The mapping from name to value.
    open spec fn view(&self) -> Map<Seq<u8>, Seq<u8>> {
        pairs_map(self.pairs())
    }
}

impl HeadersV2 {
    /// The entries as name/value pairs, in the order in which their names
    /// were first inserted.
    pub closed spec fn pairs(&self) -> Seq<(Seq<u8>, Seq<u8>)> {
        byte_pairs_of(self.entries@)
    }

    #[verifier::type_invariant]
    spec fn names_are_distinct(&self) -> bool {
        keys_distinct(self.pairs())
    }

    /// An empty container.
    pub fn new() -> (r: Self)
        ensures
            r.pairs() == Seq::<(Seq<u8>, Seq<u8>)>::empty(),
            r@ == Map::<Seq<u8>, Seq<u8>>::empty(),
    {
        let r = HeadersV2 { entries: Vec::new() };
        assert(r.pairs() =~= Seq::empty());
        r
    }

    /// The number of entries.
    pub fn len(&self) -> (r: usize)
        ensures
            r == self.pairs().len(),
            r == self@.dom().len(),
    {
        proof {
            use_type_invariant(self);
            lemma_pairs_map_distinct(self.pairs());
        }
        self.entries.len()
    }

    /// The position of the entry named `key`, or the number of entries where
    /// there is none.
    fn position(&self, key: &[u8]) -> (r: usize)
        ensures
            r == index_of(self.pairs(), key@),
            r <= self.entries@.len(),
    {
        let n: usize = self.entries.len();
        let mut i: usize = 0;
        while i < n
            invariant
                i <= n,
                n == self.entries@.len(),
                forall|k: int| 0 <= k < i ==> (#[trigger] self.pairs()[k]).0 != key@,
            decreases n - i,
        {
            if bytes_eq(bytes_as_slice(&self.entries[i].0), key) {
                proof {
                    lemma_index_of_is(self.pairs(), key@, i as int);
                }
                return i;
            }
            i += 1;
        }
        proof {
            lemma_index_of_is(self.pairs(), key@, n as int);
        }
        n
    }

    /// The value of the header named `key`.
    pub fn get(&self, key: &[u8]) -> (r: Option<&Bytes>)
        ensures
            match r {
                Some(value) => self@.contains_key(key@) && bytes_contents(*value) == self@[key@],
                None => !self@.contains_key(key@),
            },
    {
        let i = self.position(key);
        proof {
            lemma_index_of(self.pairs(), key@);
            lemma_pairs_map_contains(self.pairs(), key@);
            use_type_invariant(self);
            lemma_pairs_map_distinct(self.pairs());
        }
        if i < self.entries.len() {
            Some(&self.entries[i].1)
        } else {
            None
        }
    }

    /// Sets the header named `key` to `value`. An entry of that name keeps its
    /// place and hands back its old value; a new name goes to the end.
    pub fn insert(&mut self, key: Bytes, value: Bytes) -> (r: Option<Bytes>)
        ensures
            final(self)@ == old(self)@.insert(bytes_contents(key), bytes_contents(value)),
            match r {
                Some(previous) => old(self)@.contains_key(bytes_contents(key)) && bytes_contents(
                    previous,
                ) == old(self)@[bytes_contents(key)],
                None => !old(self)@.contains_key(bytes_contents(key)),
            },
            final(self).pairs() == pairs_insert(
                old(self).pairs(),
                bytes_contents(key),
                bytes_contents(value),
            ),
    {
        let ghost name = bytes_contents(key);
        let ghost content = bytes_contents(value);
        let i = self.position(bytes_as_slice(&key));
        proof {
            lemma_index_of(self.pairs(), name);
            lemma_pairs_map_contains(self.pairs(), name);
            use_type_invariant(&*self);
            lemma_pairs_map_distinct(self.pairs());
        }
        let ghost before = self.pairs();
        let mut entries: Vec<(Bytes, Bytes)> = Vec::new();
        std::mem::swap(&mut entries, &mut self.entries);
        assert(self.pairs() =~= Seq::empty());
        let previous = if i < entries.len() {
            proof {
                lemma_pairs_map_update(before, i as int, content);
            }
            let mut entry = (key, value);
            std::mem::swap(&mut entries[i], &mut entry);
            assert(byte_pairs_of(entries@) =~= before.update(i as int, (name, content)));
            Some(entry.1)
        } else {
            proof {
                assert(keys_distinct(before.push((name, content)))) by {
                    let after = before.push((name, content));
                    assert forall|a: int, b: int| 0 <= a < b < after.len() implies after[a].0
                        != after[b].0 by {
                        if b < before.len() {
                            assert(after[a] == before[a] && after[b] == before[b]);
                        } else {
                            assert(after[a] == before[a]);
                        }
                    }
                }
                assert(before.push((name, content)).drop_last() =~= before);
            }
            entries.push((key, value));
            assert(byte_pairs_of(entries@) =~= before.push((name, content)));
            None
        };
        std::mem::swap(&mut entries, &mut self.entries);
        previous
    }
}

/// A parsed request whose text and body are shared byte buffers.
#[derive(Debug)]
pub struct HttpRequestV2 {
    pub method: Method,
    /// The path; valid UTF-8.
    pub path: Bytes,
    /// `None` where the request has no header line. Names and values are
    /// valid UTF-8.
    pub headers: Option<HeadersV2>,
    /// `None` where no nonzero `Content-Length` is declared.
    pub body: Option<Bytes>,
}

/// A request of this kind as a mathematical value.
pub struct HttpRequestV2View {
    pub method: Method,
    pub path: Seq<u8>,
    pub headers: Option<Map<Seq<u8>, Seq<u8>>>,
    pub body: Option<Seq<u8>>,
}

impl View for HttpRequestV2 {
    type V = HttpRequestV2View;

    open spec fn view(&self) -> HttpRequestV2View {
        HttpRequestV2View {
            method: self.method,
            path: bytes_contents(self.path),
            headers: match self.headers {
                Some(headers) => Some(headers@),
                None => None,
            },
            body: match self.body {
                Some(body) => Some(bytes_contents(body)),
                None => None,
            },
        }
    }
}

/// The body length that the headers declare: the value of `Content-Length`
/// read as an unsigned decimal number, and 0 where the header is absent.
pub open spec fn declared_length_v2(headers: Map<Seq<u8>, Seq<u8>>) -> Result<usize, HttpError> {
    if headers.contains_key(CONTENT_LENGTH_HEADER.spec_bytes()) {
        match parse_usize_spec(headers[CONTENT_LENGTH_HEADER.spec_bytes()]) {
            Some(n) => Ok(n),
            None => Err(HttpError::InvalidContentLength),
        }
    } else {
        Ok(0)
    }
}

/// The request that a head and the bytes after it make.
pub open spec fn request_v2_of_head(head: HeadModel) -> Result<HttpRequestV2View, HttpError> {
    let headers = pairs_map(head.headers);
    match declared_length_v2(headers) {
        Err(e) => Err(e),
        Ok(declared) => match body_spec(head.rest, declared) {
            Err(e) => Err(e),
            Ok(body) => Ok(
                HttpRequestV2View {
                    method: head.method,
                    path: head.path,
                    headers: if head.headers.len() == 0 {
                        None
                    } else {
                        Some(headers)
                    },
                    body,
                },
            ),
        },
    }
}

/// The request at the start of `buf`, or the error of the first token at fault.
pub open spec fn parse_v2_spec(buf: Seq<u8>) -> Result<HttpRequestV2View, HttpError> {
    match parse_head_spec(buf) {
        Err(e) => Err(e),
        Ok(head) => request_v2_of_head(head),
    }
}

impl HttpRequestV2 {
    /// Builds the request from its head: copies the path, the headers and
    /// the declared body into buffers of their own.
    pub fn from_head(head: RequestHead<'_>) -> (r: Result<HttpRequestV2, HttpError>)
        ensures
            match r {
                Ok(request) => request_v2_of_head(head.model()) == Ok::<
                    HttpRequestV2View,
                    HttpError,
                >(request@),
                Err(e) => request_v2_of_head(head.model()) == Err::<HttpRequestV2View, HttpError>(
                    e,
                ),
            },
    {
        let path = copy_to_bytes(head.path.as_bytes());
        let ghost lines = raw_pairs(head.headers@);
        let count: usize = head.headers.len();
        let mut headers = HeadersV2::new();
        let mut i: usize = 0;
        assert(lines.take(0) =~= Seq::empty());
        while i < count
            invariant
                i <= count,
                count == head.headers@.len(),
                lines == raw_pairs(head.headers@),
                headers@ == pairs_map(lines.take(i as int)),
            decreases count - i,
        {
            let (name, value) = head.headers[i];
            proof {
                assert(lines.take(i + 1).drop_last() =~= lines.take(i as int));
                assert(lines.take(i + 1).last() == (name.spec_bytes(), value.spec_bytes()));
            }
            let key = copy_to_bytes(name.as_bytes());
            let val = copy_to_bytes(value.as_bytes());
            headers.insert(key, val);
            i += 1;
        }
        assert(lines.take(count as int) =~= lines);
        let declared: usize = match headers.get(CONTENT_LENGTH_HEADER.as_bytes()) {
            Some(text) => match parse_usize(bytes_as_slice(text)) {
                Some(n) => n,
                None => {
                    return Err(HttpError::InvalidContentLength);
                },
            },
            None => 0,
        };
        let body = if declared == 0 {
            None
        } else if head.rest.len() < declared {
            return Err(HttpError::IncompleteBody);
        } else {
            let taken = slice_subrange(head.rest, 0, declared);
            assert(taken@ =~= head.rest@.take(declared as int));
            Some(copy_to_bytes(taken))
        };
        let headers = if count > 0 {
            Some(headers)
        } else {
            None
        };
        Ok(HttpRequestV2 { method: head.method, path, headers, body })
    }

    /// Parses the request at the start of `buf`, the bytes of one buffered read.
    pub fn parse(buf: &[u8]) -> (r: Result<HttpRequestV2, HttpError>)
        ensures
            match r {
                Ok(request) => parse_v2_spec(buf@) == Ok::<HttpRequestV2View, HttpError>(request@),
                Err(e) => parse_v2_spec(buf@) == Err::<HttpRequestV2View, HttpError>(e),
            },
    {
        match parse_head(buf) {
            Ok(head) => HttpRequestV2::from_head(head),
            Err(e) => Err(e),
        }
    }
}

} // verus!
