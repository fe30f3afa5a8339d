//! Theorems about the wire formats: what the parser makes of a request that
//! is written out well formed, what it does with the bytes that follow the
//! head, and that it reads back what the serializer writes.

use super::headers::{lemma_pairs_map_last_wins, pairs_map};
use super::http_request::{
    after_method, body_spec, declared_length, header_block, lowercase_byte, method_matches,
    method_token, parse_head_spec, parse_method_spec, parse_spec, split_header_line, text_pairs,
    HeadModel, HttpRequestView, Method,
};
use super::response::{header_line, header_lines, status_line, HttpResponseView};
use super::scan::{
    all_digits, capture_until, colon_bytes, crlf_bytes, digits_value, first_occurrence, is_digit,
    is_space, leading_spaces, lemma_capture_until, lemma_first_occurrence_is,
    lemma_first_occurrence_some, lemma_leading_spaces, lemma_leading_spaces_is, occurs_at,
    parse_usize_spec, skip_spaces, space_bytes, unsigned_decimal, COLON, CR, LF, PLUS, SPACE,
};
use super::text::{decimal_chars, digit_char};
use super::{HttpError, CONTENT_LENGTH_HEADER};
use vstd::prelude::*;
use vstd::utf8::{decode_utf8, encode_utf8, is_ascii_chars, valid_utf8};

verus! {

/// `pat` stands nowhere in `s`.
pub open spec fn free_of(s: Seq<u8>, pat: Seq<u8>) -> bool {
    forall|j: int| !occurs_at(s, pat, j)
}

/// `pat` stands in `prefix + pat` at the end and nowhere before.
pub open spec fn ends_at_first(prefix: Seq<u8>, pat: Seq<u8>) -> bool {
    forall|j: int| 0 <= j < prefix.len() ==> !occurs_at(prefix + pat, pat, j)
}

/// A prefix that the pattern ends for the first time is what `capture_until`
/// captures, and what follows the pattern is what it leaves.
pub proof fn lemma_capture_of_delimited(prefix: Seq<u8>, pat: Seq<u8>, rest: Seq<u8>)
    requires
        ends_at_first(prefix, pat),
    ensures
        capture_until(prefix + pat + rest, pat) == Some((rest, prefix)),
{
    let s = prefix + pat + rest;
    let n = prefix.len() as int;
    assert(s.subrange(n, n + pat.len()) =~= pat);
    assert forall|j: int| 0 <= j < n implies !occurs_at(s, pat, j) by {
        if occurs_at(s, pat, j) {
            assert((prefix + pat).subrange(j, j + pat.len()) =~= s.subrange(j, j + pat.len()));
            assert(occurs_at(prefix + pat, pat, j));
        }
    }
    lemma_first_occurrence_is(s, pat, n);
    assert(s.skip(n + pat.len()) =~= rest);
    assert(s.take(n) =~= prefix);
}

/// A prefix without the byte `b` is ended for the first time by `b`.
pub proof fn lemma_byte_ends_at_first(prefix: Seq<u8>, b: u8)
    requires
        !prefix.contains(b),
    ensures
        ends_at_first(prefix, seq![b]),
{
    let pat = seq![b];
    assert forall|j: int| 0 <= j < prefix.len() implies !occurs_at(prefix + pat, pat, j) by {
        if occurs_at(prefix + pat, pat, j) {
            assert((prefix + pat).subrange(j, j + 1)[0] == b);
            assert(prefix[j] == b);
        }
    }
}

/// A prefix without CRLF is ended for the first time by CRLF.
pub proof fn lemma_crlf_ends_at_first(prefix: Seq<u8>)
    requires
        free_of(prefix, crlf_bytes()),
    ensures
        ends_at_first(prefix, crlf_bytes()),
{
    let pat = crlf_bytes();
    assert forall|j: int| 0 <= j < prefix.len() implies !occurs_at(prefix + pat, pat, j) by {
        if occurs_at(prefix + pat, pat, j) {
            let found = (prefix + pat).subrange(j, j + 2);
            assert(found[0] == CR && found[1] == LF);
            if j + 2 <= prefix.len() {
                assert(prefix.subrange(j, j + 2) =~= found);
                assert(occurs_at(prefix, pat, j));
            } else {
                assert((prefix + pat)[j + 1] == CR);
            }
        }
    }
}

/// Whitespace in front of bytes that do not start with whitespace is what
/// `skip_spaces` skips.
pub proof fn lemma_skip_spaces_of_padded(padding: Seq<u8>, s: Seq<u8>)
    requires
        forall|k: int| 0 <= k < padding.len() ==> is_space(#[trigger] padding[k]),
        s.len() > 0 ==> !is_space(s[0]),
    ensures
        skip_spaces(padding + s) == s,
{
    let all = padding + s;
    assert forall|k: int| 0 <= k < padding.len() implies is_space(#[trigger] all[k]) by {
        assert(all[k] == padding[k]);
    }
    if s.len() > 0 {
        assert(all[padding.len() as int] == s[0]);
    }
    lemma_leading_spaces_is(all, padding.len() as int);
    assert(all.skip(padding.len() as int) =~= s);
}

/// A spelling of a method's token: the token in any mix of capital and
/// small letters.
pub open spec fn spells(token: Seq<u8>, method: Method) -> bool {
    &&& token.len() == method_token(method).len()
    &&& forall|k: int|
        0 <= k < token.len() ==> lowercase_byte(#[trigger] token[k]) == method_token(method)[k]
}

/// A spelling of a method's token and a space are read as that method.
pub proof fn lemma_method_of_spelling(token: Seq<u8>, method: Method, rest: Seq<u8>)
    requires
        spells(token, method),
    ensures
        parse_method_spec(token + space_bytes() + rest) == Some((rest, method)),
{
    let s = token + space_bytes() + rest;
    let n = token.len() as int;
    assert forall|k: int| 0 <= k < n implies lowercase_byte(s[k]) == lowercase_byte(
        #[trigger] method_token(method)[k],
    ) by {
        assert(s[k] == token[k]);
    }
    assert(s[n] == SPACE);
    assert(method_matches(s, method));
    assert(after_method(s, method) =~= rest);
    assert(s[0] == token[0] && s[1] == token[1]);
    assert(lowercase_byte(token[0]) == method_token(method)[0]);
    assert(lowercase_byte(token[1]) == method_token(method)[1]);
    assert forall|other: Method| other != method implies !method_matches(s, other) by {
        if method_matches(s, other) {
            assert(lowercase_byte(s[0]) == lowercase_byte(method_token(other)[0]));
            assert(lowercase_byte(s[1]) == lowercase_byte(method_token(other)[1]));
        }
    }
}

/// One header line as it is written: the name, a colon, optional whitespace,
/// the value.
pub struct WireHeader {
    pub name: Seq<u8>,
    pub padding: Seq<u8>,
    pub value: Seq<u8>,
}

impl WireHeader {
    /// The line without its terminator.
    pub open spec fn line(self) -> Seq<u8> {
        self.name + colon_bytes() + self.padding + self.value
    }

    /// The name holds no colon, the padding is whitespace, the value does
    /// not start with whitespace, the line holds no CRLF, and name and value
    /// are text.
    pub open spec fn well_formed(self) -> bool {
        &&& !self.name.contains(COLON)
        &&& forall|k: int| 0 <= k < self.padding.len() ==> is_space(#[trigger] self.padding[k])
        &&& self.value.len() > 0 ==> !is_space(self.value[0])
        &&& free_of(self.line(), crlf_bytes())
        &&& valid_utf8(self.name)
        &&& valid_utf8(self.value)
    }
}

/// The header lines on the wire, each with its terminator.
pub open spec fn headers_wire(headers: Seq<WireHeader>) -> Seq<u8>
    decreases headers.len(),
{
    if headers.len() == 0 {
        Seq::empty()
    } else {
        headers[0].line() + crlf_bytes() + headers_wire(headers.drop_first())
    }
}

/// The name/value pairs of a list of header lines.
pub open spec fn wire_pairs(headers: Seq<WireHeader>) -> Seq<(Seq<u8>, Seq<u8>)> {
    Seq::new(headers.len(), |i: int| (headers[i].name, headers[i].value))
}

/// A request as it is written.
pub struct WireRequest {
    pub method: Method,
    /// How the method is spelled.
    pub token: Seq<u8>,
    pub path: Seq<u8>,
    pub version: Seq<u8>,
    pub headers: Seq<WireHeader>,
    /// What follows the blank line.
    pub tail: Seq<u8>,
}

impl WireRequest {
    /// The bytes on the wire.
    pub open spec fn bytes(self) -> Seq<u8> {
        self.token + space_bytes() + (self.path + space_bytes() + (self.version + crlf_bytes() + (
        headers_wire(self.headers) + (crlf_bytes() + self.tail))))
    }

    /// The token spells the method; the path is text, is not empty, holds
    /// no space and does not start with a tab; the version is not empty,
    /// does not start with whitespace and holds no CRLF; every header is
    /// well formed.
    pub open spec fn well_formed(self) -> bool {
        &&& spells(self.token, self.method)
        &&& self.path.len() > 0
        &&& !is_space(self.path[0])
        &&& !self.path.contains(SPACE)
        &&& valid_utf8(self.path)
        &&& self.version.len() > 0
        &&& !is_space(self.version[0])
        &&& free_of(self.version, crlf_bytes())
        &&& forall|i: int|
            0 <= i < self.headers.len() ==> (#[trigger] self.headers[i]).well_formed()
    }

    /// The head that the request was written from.
    pub open spec fn head(self) -> HeadModel {
        HeadModel {
            method: self.method,
            path: self.path,
            headers: wire_pairs(self.headers),
            rest: self.tail,
        }
    }
}

/// A well-formed header line is split into its name and its value.
pub proof fn lemma_split_of_wire_header(header: WireHeader)
    requires
        header.well_formed(),
    ensures
        split_header_line(header.line()) == Some((header.name, header.value)),
{
    lemma_byte_ends_at_first(header.name, COLON);
    assert(colon_bytes() =~= seq![COLON]);
    let after = header.padding + header.value;
    lemma_capture_of_delimited(header.name, colon_bytes(), after);
    assert(header.line() =~= header.name + colon_bytes() + after);
    lemma_skip_spaces_of_padded(header.padding, header.value);
}

/// Well-formed header lines and a blank line are read as the pairs of those
/// lines, after the pairs read before; what follows the blank line is left.
pub proof fn lemma_header_block_of_wire(
    headers: Seq<WireHeader>,
    tail: Seq<u8>,
    read: Seq<(Seq<u8>, Seq<u8>)>,
)
    requires
        forall|i: int| 0 <= i < headers.len() ==> (#[trigger] headers[i]).well_formed(),
    ensures
        header_block(headers_wire(headers) + (crlf_bytes() + tail), read) == Ok::<
            (Seq<(Seq<u8>, Seq<u8>)>, Seq<u8>),
            HttpError,
        >((read + wire_pairs(headers), tail)),
    decreases headers.len(),
{
    let s = headers_wire(headers) + (crlf_bytes() + tail);
    if headers.len() == 0 {
        let none = Seq::<u8>::empty();
        assert(ends_at_first(none, crlf_bytes()));
        lemma_capture_of_delimited(none, crlf_bytes(), tail);
        assert(s =~= none + crlf_bytes() + tail);
        assert(read + wire_pairs(headers) =~= read);
    } else {
        let first = headers[0];
        let others = headers.drop_first();
        let after = headers_wire(others) + (crlf_bytes() + tail);
        assert(first.well_formed());
        lemma_crlf_ends_at_first(first.line());
        lemma_capture_of_delimited(first.line(), crlf_bytes(), after);
        assert(s =~= first.line() + crlf_bytes() + after);
        assert(first.line().len() > 0) by {
            assert(first.line()[first.name.len() as int] == COLON);
        }
        lemma_split_of_wire_header(first);
        assert forall|i: int| 0 <= i < others.len() implies (
        #[trigger] others[i]).well_formed() by {
            assert(others[i] == headers[i + 1]);
        }
        lemma_header_block_of_wire(others, tail, read.push((first.name, first.value)));
        assert(read.push((first.name, first.value)) + wire_pairs(others) =~= read + wire_pairs(
            headers,
        ));
    }
}

/// The parser reads a well-formed request back: the head that the request
/// was written from, and after it the bytes that follow the blank line.
pub proof fn lemma_parse_head_of_wire(request: WireRequest)
    requires
        request.well_formed(),
    ensures
        parse_head_spec(request.bytes()) == Ok::<HeadModel, HttpError>(request.head()),
{
    let block = headers_wire(request.headers) + (crlf_bytes() + request.tail);
    let from_version = request.version + crlf_bytes() + block;
    let from_path = request.path + space_bytes() + from_version;
    lemma_method_of_spelling(request.token, request.method, from_path);
    let none = Seq::<u8>::empty();
    lemma_skip_spaces_of_padded(none, from_path);
    assert(none + from_path =~= from_path);
    lemma_byte_ends_at_first(request.path, SPACE);
    assert(space_bytes() =~= seq![SPACE]);
    lemma_capture_of_delimited(request.path, space_bytes(), from_version);
    lemma_skip_spaces_of_padded(none, from_version);
    assert(none + from_version =~= from_version);
    lemma_crlf_ends_at_first(request.version);
    lemma_capture_of_delimited(request.version, crlf_bytes(), block);
    lemma_header_block_of_wire(request.headers, request.tail, Seq::empty());
    assert(Seq::<(Seq<u8>, Seq<u8>)>::empty() + wire_pairs(request.headers) =~= wire_pairs(
        request.headers,
    ));
}

/// A well-formed request that declares no body is parsed into its method,
/// its path and the mapping of its headers, and has no body, whatever
/// follows the blank line.
pub proof fn lemma_parse_without_body(request: WireRequest)
    requires
        request.well_formed(),
        declared_length(pairs_map(text_pairs(wire_pairs(request.headers)))) == Ok::<
            usize,
            HttpError,
        >(0),
    ensures
        parse_spec(request.bytes()) == Ok::<HttpRequestView, HttpError>(
            HttpRequestView {
                method: request.method,
                path: decode_utf8(request.path),
                headers: if request.headers.len() == 0 {
                    None
                } else {
                    Some(pairs_map(text_pairs(wire_pairs(request.headers))))
                },
                body: None,
            },
        ),
{
    lemma_parse_head_of_wire(request);
}

/// A well-formed request that declares `n` body bytes, with at least `n`
/// bytes after the blank line, is parsed with exactly the first `n` of them
/// as its body.
pub proof fn lemma_parse_with_body(request: WireRequest, n: usize)
    requires
        request.well_formed(),
        declared_length(pairs_map(text_pairs(wire_pairs(request.headers)))) == Ok::<
            usize,
            HttpError,
        >(n),
        0 < n <= request.tail.len(),
    ensures
        parse_spec(request.bytes()) matches Ok(parsed) && parsed.body == Some(
            request.tail.take(n as int),
        ) && parsed.body->0.len() == n && parsed.method == request.method && parsed.path
            == decode_utf8(request.path),
{
    lemma_parse_head_of_wire(request);
}

/// A well-formed request that declares more body bytes than follow the
/// blank line is reported as incomplete.
pub proof fn lemma_parse_short_body(request: WireRequest, n: usize)
    requires
        request.well_formed(),
        declared_length(pairs_map(text_pairs(wire_pairs(request.headers)))) == Ok::<
            usize,
            HttpError,
        >(n),
        request.tail.len() < n,
    ensures
        parse_spec(request.bytes()) == Err::<HttpRequestView, HttpError>(
            HttpError::IncompleteBody,
        ),
{
    lemma_parse_head_of_wire(request);
}

/// Whatever the buffer holds: a body that the parser returns has exactly the
/// declared length, which is not 0, and is the start of the bytes after the
/// head; and where the bytes after the head are fewer than declared, the
/// parser reports `IncompleteBody`.
pub proof fn lemma_body_is_declared_or_incomplete(buf: Seq<u8>)
    requires
        parse_head_spec(buf) is Ok,
        declared_length(pairs_map(text_pairs(parse_head_spec(buf)->Ok_0.headers))) is Ok,
    ensures
        ({
            let head = parse_head_spec(buf)->Ok_0;
            let declared = declared_length(pairs_map(text_pairs(head.headers)))->Ok_0;
            &&& declared == 0 ==> parse_spec(buf) is Ok && parse_spec(buf)->Ok_0.body is None
            &&& 0 < declared <= head.rest.len() ==> parse_spec(buf) is Ok && parse_spec(
                buf,
            )->Ok_0.body == Some(head.rest.take(declared as int)) && parse_spec(
                buf,
            )->Ok_0.body->0.len() == declared
            &&& head.rest.len() < declared ==> parse_spec(buf) == Err::<
                HttpRequestView,
                HttpError,
            >(HttpError::IncompleteBody)
        }),
{
}

/// The header line that the serializer writes for a name and a value.
pub open spec fn written_header(pair: (Seq<char>, Seq<char>)) -> WireHeader {
    WireHeader { name: encode_utf8(pair.0), padding: seq![SPACE], value: encode_utf8(pair.1) }
}

/// The header lines that the serializer writes for a list of pairs.
pub open spec fn written_headers(pairs: Seq<(Seq<char>, Seq<char>)>) -> Seq<WireHeader> {
    Seq::new(pairs.len(), |i: int| written_header(pairs[i]))
}

/// The pairs of a list, name and value encoded.
pub open spec fn encoded_pairs(pairs: Seq<(Seq<char>, Seq<char>)>) -> Seq<(Seq<u8>, Seq<u8>)> {
    Seq::new(pairs.len(), |i: int| (encode_utf8(pairs[i].0), encode_utf8(pairs[i].1)))
}

/// A header can be read back where its name holds no colon, its value does
/// not start with a space or a tab, and the line holds no CRLF.
pub open spec fn readable_header(pair: (Seq<char>, Seq<char>)) -> bool {
    &&& !encode_utf8(pair.0).contains(COLON)
    &&& encode_utf8(pair.1).len() > 0 ==> !is_space(encode_utf8(pair.1)[0])
    &&& free_of(written_header(pair).line(), crlf_bytes())
}

/// One more header line on the wire is appended to the lines before it.
pub proof fn lemma_headers_wire_push(headers: Seq<WireHeader>, last: WireHeader)
    ensures
        headers_wire(headers.push(last)) == headers_wire(headers) + (last.line() + crlf_bytes()),
    decreases headers.len(),
{
    let all = headers.push(last);
    if headers.len() == 0 {
        assert(all.drop_first() =~= Seq::<WireHeader>::empty());
        assert(headers_wire(all.drop_first()) =~= Seq::<u8>::empty());
        assert(headers_wire(all) =~= headers_wire(headers) + (last.line() + crlf_bytes()));
    } else {
        lemma_headers_wire_push(headers.drop_first(), last);
        assert(all.drop_first() =~= headers.drop_first().push(last));
        assert(all[0] == headers[0]);
        assert(headers_wire(all) =~= headers_wire(headers) + (last.line() + crlf_bytes()));
    }
}

/// What the serializer writes for a list of headers is those headers on the
/// wire, each with one space after the colon.
pub proof fn lemma_header_lines_are_wire(pairs: Seq<(Seq<char>, Seq<char>)>)
    ensures
        header_lines(pairs) == headers_wire(written_headers(pairs)),
    decreases pairs.len(),
{
    if pairs.len() == 0 {
        assert(written_headers(pairs) =~= Seq::<WireHeader>::empty());
    } else {
        let before = pairs.drop_last();
        lemma_header_lines_are_wire(before);
        lemma_headers_wire_push(written_headers(before), written_header(pairs.last()));
        assert(written_headers(pairs) =~= written_headers(before).push(
            written_header(pairs.last()),
        ));
        assert(header_line(pairs.last()) =~= written_header(pairs.last()).line() + crlf_bytes());
    }
}

/// The request parser reads back the headers that the serializer writes:
/// read as a header block, the bytes of a response after its status line
/// give the response's headers in order, and leave its body.
pub proof fn lemma_written_headers_read_back(response: HttpResponseView)
    requires
        forall|i: int|
            0 <= i < response.header_pairs().len() ==> readable_header(
                #[trigger] response.header_pairs()[i],
            ),
    ensures
        header_block(
            response.wire_bytes().skip(status_line(response.status_code).len() as int),
            Seq::empty(),
        ) == Ok::<(Seq<(Seq<u8>, Seq<u8>)>, Seq<u8>), HttpError>(
            (
                encoded_pairs(response.header_pairs()),
                match response.body {
                    Some(body) => body,
                    None => Seq::empty(),
                },
            ),
        ),
{
    broadcast use vstd::utf8::encode_utf8_valid_utf8;

    let pairs = response.header_pairs();
    let body = match response.body {
        Some(body) => body,
        None => Seq::empty(),
    };
    let headers = written_headers(pairs);
    lemma_header_lines_are_wire(pairs);
    assert forall|i: int| 0 <= i < headers.len() implies (#[trigger] headers[i]).well_formed() by {
        assert(readable_header(pairs[i]));
        assert(valid_utf8(encode_utf8(pairs[i].0)));
        assert(valid_utf8(encode_utf8(pairs[i].1)));
    }
    lemma_header_block_of_wire(headers, body, Seq::empty());
    assert(Seq::<(Seq<u8>, Seq<u8>)>::empty() + wire_pairs(headers) =~= encoded_pairs(pairs));
    assert(response.wire_bytes().skip(status_line(response.status_code).len() as int)
        =~= headers_wire(headers) + (crlf_bytes() + body));
}

/// The bytes of the digits of `n`, as the decimal text of `n` encodes them.
proof fn lemma_decimal_bytes(n: nat)
    ensures
        is_ascii_chars(decimal_chars(n)),
        decimal_chars(n).len() > 0,
        all_digits(encode_utf8(decimal_chars(n))),
        digits_value(encode_utf8(decimal_chars(n))) == n,
        encode_utf8(decimal_chars(n)).len() == decimal_chars(n).len(),
    decreases n,
{
    let chars = decimal_chars(n);
    let last = digit_char(n % 10);
    assert(is_digit(last as u8) && (last as u8) - 0x30 == n % 10 && '\0' <= last <= '\u{7f}');
    if n < 10 {
        assert(chars =~= seq![last]);
        assert(is_ascii_chars(chars));
        vstd::utf8::is_ascii_chars_encode_utf8(chars);
        let bytes = encode_utf8(chars);
        assert(bytes.drop_last() =~= Seq::<u8>::empty());
        assert(digits_value(bytes.drop_last()) == 0);
    } else {
        let before = decimal_chars(n / 10);
        lemma_decimal_bytes(n / 10);
        assert(chars == before.push(last));
        assert(is_ascii_chars(chars)) by {
            assert forall|i: int| 0 <= i < chars.len() implies '\0' <= #[trigger] chars[i]
                <= '\u{7f}' by {
                if i < before.len() {
                    assert(chars[i] == before[i]);
                }
            }
        }
        vstd::utf8::is_ascii_chars_encode_utf8(chars);
        vstd::utf8::is_ascii_chars_encode_utf8(before);
        let bytes = encode_utf8(chars);
        let bytes_before = encode_utf8(before);
        assert(bytes.drop_last() =~= bytes_before) by {
            assert forall|i: int| 0 <= i < bytes_before.len() implies bytes.drop_last()[i]
                == bytes_before[i] by {
                assert(bytes[i] == chars[i] as u8);
                assert(bytes_before[i] == before[i] as u8);
            }
        }
        assert(bytes.last() == last as u8) by {
            assert(bytes[chars.len() - 1] == chars[chars.len() - 1] as u8);
        }
        assert forall|i: int| 0 <= i < bytes.len() implies is_digit(#[trigger] bytes[i]) by {
            if i < bytes_before.len() {
                assert(bytes[i] == bytes.drop_last()[i]);
            }
        }
    }
}

/// The `Content-Length` that the server writes is read back as the length:
/// the decimal text of a number that fits in a `usize` parses as that number.
pub proof fn lemma_decimal_text_read_back(n: usize)
    ensures
        parse_usize_spec(encode_utf8(decimal_chars(n as nat))) == Some(n),
{
    lemma_decimal_bytes(n as nat);
    let bytes = encode_utf8(decimal_chars(n as nat));
    assert(is_digit(bytes[0]));
    assert(bytes[0] != PLUS);
    assert(unsigned_decimal(bytes) == Some(n as nat));
}

/// Bytes appended to the input do not move the first occurrence of a pattern.
pub proof fn lemma_first_occurrence_stable(s: Seq<u8>, more: Seq<u8>, pat: Seq<u8>)
    requires
        first_occurrence(s, pat) is Some,
    ensures
        first_occurrence(s + more, pat) == first_occurrence(s, pat),
{
    lemma_first_occurrence_some(s, pat);
    let i = first_occurrence(s, pat)->0;
    let all = s + more;
    assert(all.subrange(i, i + pat.len()) =~= s.subrange(i, i + pat.len()));
    assert forall|j: int| 0 <= j < i implies !occurs_at(all, pat, j) by {
        if occurs_at(all, pat, j) {
            assert(s.subrange(j, j + pat.len()) =~= all.subrange(j, j + pat.len()));
            assert(occurs_at(s, pat, j));
        }
    }
    lemma_first_occurrence_is(all, pat, i);
}

/// Bytes appended to the input are appended to what a capture leaves.
pub proof fn lemma_capture_stable(s: Seq<u8>, more: Seq<u8>, pat: Seq<u8>)
    requires
        capture_until(s, pat) is Some,
    ensures
        capture_until(s + more, pat) == Some(
            ((capture_until(s, pat)->0).0 + more, (capture_until(s, pat)->0).1),
        ),
{
    lemma_first_occurrence_stable(s, more, pat);
    lemma_first_occurrence_some(s, pat);
    let i = first_occurrence(s, pat)->0;
    assert((s + more).skip(i + pat.len()) =~= s.skip(i + pat.len()) + more);
    assert((s + more).take(i) =~= s.take(i));
}

/// Bytes appended to an input that does not end within its leading
/// whitespace are appended to what the whitespace skip leaves.
pub proof fn lemma_skip_spaces_stable(s: Seq<u8>, more: Seq<u8>)
    requires
        skip_spaces(s).len() > 0,
    ensures
        skip_spaces(s + more) == skip_spaces(s) + more,
{
    lemma_leading_spaces(s);
    let n = leading_spaces(s) as int;
    let all = s + more;
    assert forall|k: int| 0 <= k < n implies is_space(#[trigger] all[k]) by {
        assert(all[k] == s[k]);
    }
    assert(all[n] == s[n]);
    lemma_leading_spaces_is(all, n);
    assert(all.skip(n) =~= s.skip(n) + more);
}

/// Bytes appended to the input are appended to what the method leaves.
pub proof fn lemma_method_stable(s: Seq<u8>, more: Seq<u8>)
    requires
        parse_method_spec(s) is Some,
    ensures
        parse_method_spec(s + more) == Some(
            ((parse_method_spec(s)->0).0 + more, (parse_method_spec(s)->0).1),
        ),
{
    let method = (parse_method_spec(s)->0).1;
    let all = s + more;
    assert(method_matches(s, method));
    assert forall|k: int| 0 <= k < method_token(method).len() implies lowercase_byte(all[k])
        == lowercase_byte(#[trigger] method_token(method)[k]) by {
        assert(all[k] == s[k]);
    }
    assert(all[method_token(method).len() as int] == s[method_token(method).len() as int]);
    assert(method_matches(all, method));
    assert(all[0] == s[0] && all[1] == s[1]);
    assert(lowercase_byte(s[0]) == lowercase_byte(method_token(method)[0]));
    assert(lowercase_byte(s[1]) == lowercase_byte(method_token(method)[1]));
    assert forall|other: Method| other != method implies !method_matches(all, other) by {
        if method_matches(all, other) {
            assert(lowercase_byte(all[0]) == lowercase_byte(method_token(other)[0]));
            assert(lowercase_byte(all[1]) == lowercase_byte(method_token(other)[1]));
        }
    }
    assert(after_method(all, method) =~= after_method(s, method) + more);
}

/// Bytes appended to the input are appended to what the header block leaves.
pub proof fn lemma_header_block_stable(
    s: Seq<u8>,
    more: Seq<u8>,
    read: Seq<(Seq<u8>, Seq<u8>)>,
)
    requires
        header_block(s, read) is Ok,
    ensures
        header_block(s + more, read) == Ok::<(Seq<(Seq<u8>, Seq<u8>)>, Seq<u8>), HttpError>(
            ((header_block(s, read)->Ok_0).0, (header_block(s, read)->Ok_0).1 + more),
        ),
    decreases s.len(),
{
    lemma_capture_stable(s, more, crlf_bytes());
    lemma_capture_until(s, crlf_bytes());
    let (rest, line) = capture_until(s, crlf_bytes())->0;
    if line.len() > 0 {
        let (name, value) = split_header_line(line)->0;
        lemma_header_block_stable(rest, more, read.push((name, value)));
    }
}

/// Bytes appended to a buffer whose head is complete do not change the
/// head: they are appended to the bytes after it.
pub proof fn lemma_parse_head_stable(buf: Seq<u8>, more: Seq<u8>)
    requires
        parse_head_spec(buf) is Ok,
    ensures
        parse_head_spec(buf + more) == Ok::<HeadModel, HttpError>(
            HeadModel {
                rest: (parse_head_spec(buf)->Ok_0).rest + more,
                ..parse_head_spec(buf)->Ok_0
            },
        ),
{
    lemma_method_stable(buf, more);
    let from_method = (parse_method_spec(buf)->0).0;
    let before_path = skip_spaces(from_method);
    lemma_capture_until(before_path, space_bytes());
    lemma_skip_spaces_stable(from_method, more);
    lemma_capture_stable(before_path, more, space_bytes());
    let from_path = (capture_until(before_path, space_bytes())->0).0;
    let before_version = skip_spaces(from_path);
    lemma_capture_until(before_version, crlf_bytes());
    lemma_skip_spaces_stable(from_path, more);
    lemma_capture_stable(before_version, more, crlf_bytes());
    let block = (capture_until(before_version, crlf_bytes())->0).0;
    lemma_header_block_stable(block, more, Seq::empty());
}

/// Bytes that follow a complete request are not part of it: where a buffer
/// parses, the buffer with more bytes appended parses as the same request.
pub proof fn lemma_trailing_bytes_are_ignored(buf: Seq<u8>, more: Seq<u8>)
    requires
        parse_spec(buf) is Ok,
    ensures
        parse_spec(buf + more) == parse_spec(buf),
{
    lemma_parse_head_stable(buf, more);
    let head = parse_head_spec(buf)->Ok_0;
    let declared = declared_length(pairs_map(text_pairs(head.headers)))->Ok_0;
    if declared > 0 {
        assert((head.rest + more).take(declared as int) =~= head.rest.take(declared as int));
    }
}

/// Reading more after an incomplete body only adds to the bytes after the
/// head: the head stays as it was read, and the body is taken once the
/// bytes after the head reach the declared length.
pub proof fn lemma_incomplete_body_resumes(buf: Seq<u8>, more: Seq<u8>)
    requires
        parse_spec(buf) == Err::<HttpRequestView, HttpError>(HttpError::IncompleteBody),
    ensures
        ({
            let head = parse_head_spec(buf)->Ok_0;
            let declared = declared_length(pairs_map(text_pairs(head.headers)))->Ok_0;
            &&& parse_head_spec(buf) is Ok
            &&& parse_head_spec(buf + more) == Ok::<HeadModel, HttpError>(
                HeadModel { rest: head.rest + more, ..head },
            )
            &&& head.rest.len() < declared
            &&& head.rest.len() + more.len() >= declared ==> parse_spec(buf + more) is Ok
                && parse_spec(buf + more)->Ok_0.body == Some(
                (head.rest + more).take(declared as int),
            )
            &&& head.rest.len() + more.len() < declared ==> parse_spec(buf + more) == Err::<
                HttpRequestView,
                HttpError,
            >(HttpError::IncompleteBody)
        }),
{
    assert(parse_head_spec(buf) is Ok) by {
        if parse_head_spec(buf) is Err {
            assert(parse_spec(buf) == Err::<HttpRequestView, HttpError>(
                parse_head_spec(buf)->Err_0,
            ));
            lemma_head_is_never_incomplete(buf);
        }
    }
    lemma_parse_head_stable(buf, more);
}

/// The head parser never reports an incomplete body.
pub proof fn lemma_head_is_never_incomplete(buf: Seq<u8>)
    ensures
        parse_head_spec(buf) != Err::<HeadModel, HttpError>(HttpError::IncompleteBody),
{
    match parse_method_spec(buf) {
        Some((from_method, _)) => {
            match capture_until(skip_spaces(from_method), space_bytes()) {
                Some((from_path, _)) => {
                    match capture_until(skip_spaces(from_path), crlf_bytes()) {
                        Some((block, _)) => {
                            lemma_header_block_is_never_incomplete(block, Seq::empty());
                        },
                        None => {},
                    }
                },
                None => {},
            }
        },
        None => {},
    }
}

/// The header block never reports an incomplete body.
pub proof fn lemma_header_block_is_never_incomplete(s: Seq<u8>, read: Seq<(Seq<u8>, Seq<u8>)>)
    ensures
        header_block(s, read) != Err::<(Seq<(Seq<u8>, Seq<u8>)>, Seq<u8>), HttpError>(
            HttpError::IncompleteBody,
        ),
    decreases s.len(),
{
    if capture_until(s, crlf_bytes()) is Some {
        lemma_capture_until(s, crlf_bytes());
        let (rest, line) = capture_until(s, crlf_bytes())->0;
        if line.len() > 0 && split_header_line(line) is Some {
            let (name, value) = split_header_line(line)->0;
            lemma_header_block_is_never_incomplete(rest, read.push((name, value)));
        }
    }
}

/// A parsed request has a body only where it has headers, `Content-Length`
/// is among them, and its value is the length of the body, which is not 0.
pub proof fn lemma_body_only_when_declared(buf: Seq<u8>)
    requires
        parse_spec(buf) is Ok,
        parse_spec(buf)->Ok_0.body is Some,
    ensures
        ({
            let request = parse_spec(buf)->Ok_0;
            &&& request.headers is Some
            &&& request.headers->0.contains_key(CONTENT_LENGTH_HEADER@)
            &&& parse_usize_spec(encode_utf8(request.headers->0[CONTENT_LENGTH_HEADER@])) == Some(
                request.body->0.len() as usize,
            )
            &&& 0 < request.body->0.len() <= usize::MAX
        }),
{
    let head = parse_head_spec(buf)->Ok_0;
    let headers = pairs_map(text_pairs(head.headers));
    if head.headers.len() == 0 {
        assert(text_pairs(head.headers) =~= Seq::empty());
        assert(!headers.contains_key(CONTENT_LENGTH_HEADER@));
    }
}

/// A well-formed request is parsed with every header line in its mapping:
/// under the name of a line that no later line repeats, the mapping holds
/// the value of that line.
pub proof fn lemma_parsed_headers_hold_each_line(request: WireRequest, i: int)
    requires
        request.well_formed(),
        parse_spec(request.bytes()) is Ok,
        0 <= i < request.headers.len(),
        forall|j: int|
            i < j < request.headers.len() ==> (#[trigger] request.headers[j]).name
                != request.headers[i].name,
    ensures
        ({
            let parsed = parse_spec(request.bytes())->Ok_0;
            &&& parsed.headers is Some
            &&& parsed.headers->0.contains_key(decode_utf8(request.headers[i].name))
            &&& parsed.headers->0[decode_utf8(request.headers[i].name)] == decode_utf8(
                request.headers[i].value,
            )
        }),
{
    broadcast use vstd::utf8::decode_utf8_encode_utf8;

    lemma_parse_head_of_wire(request);
    let lines = text_pairs(wire_pairs(request.headers));
    assert forall|j: int| i < j < lines.len() implies (#[trigger] lines[j]).0 != lines[i].0 by {
        assert(request.headers[j].well_formed() && request.headers[i].well_formed());
        assert(request.headers[j].name != request.headers[i].name);
        if decode_utf8(request.headers[j].name) == decode_utf8(request.headers[i].name) {
            assert(encode_utf8(decode_utf8(request.headers[j].name)) == request.headers[j].name);
            assert(encode_utf8(decode_utf8(request.headers[i].name)) == request.headers[i].name);
        }
    }
    lemma_pairs_map_last_wins(lines, i);
}

} // verus!
