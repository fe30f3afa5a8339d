//! The response on the wire can be read back: a reading of the response
//! grammar, and the theorem that it returns what the serializer was given.

use super::request_laws::{
    encoded_pairs, ends_at_first, free_of, headers_wire, lemma_capture_of_delimited,
    lemma_crlf_ends_at_first, lemma_decimal_text_read_back, lemma_header_lines_are_wire,
    wire_pairs, written_headers, WireHeader,
};
use super::response::{is_supported_status, status_contents, status_line, HttpResponseView};
use super::scan::{
    capture_until, crlf_bytes, lemma_capture_until, occurs_at, parse_usize_spec, space_bytes,
    COLON, CR, SPACE,
};
use super::text::decimal_chars;
use vstd::prelude::*;
use vstd::string::StringSliceAdditionalSpecFns;
use vstd::utf8::{encode_utf8, is_ascii_chars};

verus! {

/// What a response on the wire reads as.
pub struct ResponseReading {
    pub status_code: usize,
    /// Name and value of each header line, in the order of the lines.
    pub headers: Seq<(Seq<u8>, Seq<u8>)>,
    pub body: Seq<u8>,
}

/// The two bytes between a header's name and its value on a response.
pub open spec fn separator_bytes() -> Seq<u8> {
    seq![COLON, SPACE]
}

/// The header lines at the start of `s`, read after the pairs in `read`: each
/// line is split at its first colon-and-space, up to the blank line; what
/// follows the blank line is left. `None` where a line has no terminator or
/// no separator.
pub open spec fn read_header_lines(s: Seq<u8>, read: Seq<(Seq<u8>, Seq<u8>)>) -> Option<
    (Seq<(Seq<u8>, Seq<u8>)>, Seq<u8>),
>
    decreases s.len(),
    via read_header_lines_decreases
{
    match capture_until(s, crlf_bytes()) {
        None => None,
        Some((rest, line)) => if line.len() == 0 {
            Some((read, rest))
        } else {
            match capture_until(line, separator_bytes()) {
                None => None,
                Some((value, name)) => read_header_lines(rest, read.push((name, value))),
            }
        },
    }
}

#[via_fn]
proof fn read_header_lines_decreases(s: Seq<u8>, read: Seq<(Seq<u8>, Seq<u8>)>) {
    if capture_until(s, crlf_bytes()) is Some {
        lemma_capture_until(s, crlf_bytes());
    }
}

/// Reads `HTTP/1.1 CODE REASON CRLF (NAME ": " VALUE CRLF)* CRLF BODY`: the
/// code is the decimal number between the version and the next space, the
/// reason is passed over, and the body is everything after the blank line.
pub open spec fn read_response(bytes: Seq<u8>) -> Option<ResponseReading> {
    let version = "HTTP/1.1 ".spec_bytes();
    if bytes.len() < version.len() || bytes.take(version.len() as int) != version {
        None
    } else {
        match capture_until(bytes.skip(version.len() as int), space_bytes()) {
            None => None,
            Some((after_code, code)) => match (
                parse_usize_spec(code),
                capture_until(after_code, crlf_bytes()),
            ) {
                (Some(status_code), Some((block, _reason))) => match read_header_lines(
                    block,
                    Seq::empty(),
                ) {
                    Some((headers, body)) => Some(ResponseReading { status_code, headers, body }),
                    None => None,
                },
                _ => None,
            },
        }
    }
}

/// A header can be written and read back where its name holds no colon and
/// the line holds no CRLF.
pub open spec fn writable_header(pair: (Seq<char>, Seq<char>)) -> bool {
    &&& !encode_utf8(pair.0).contains(COLON)
    &&& free_of(
        encode_utf8(pair.0) + separator_bytes() + encode_utf8(pair.1),
        crlf_bytes(),
    )
}

/// Text made of ASCII characters other than the space and the carriage
/// return encodes to bytes without either.
proof fn lemma_plain_text(chars: Seq<char>)
    requires
        forall|i: int|
            0 <= i < chars.len() ==> '!' <= #[trigger] chars[i] <= '~',
    ensures
        encode_utf8(chars).len() == chars.len(),
        !encode_utf8(chars).contains(SPACE),
        !encode_utf8(chars).contains(CR),
{
    assert(is_ascii_chars(chars));
    vstd::utf8::is_ascii_chars_encode_utf8(chars);
    let bytes = encode_utf8(chars);
    assert forall|i: int| 0 <= i < bytes.len() implies bytes[i] != SPACE && bytes[i] != CR by {
        assert(bytes[i] == chars[i] as u8);
        assert('!' <= chars[i] <= '~');
    }
}

/// A reason phrase starts with a space and holds no carriage return.
proof fn lemma_reason_text(chars: Seq<char>)
    requires
        chars.len() > 0,
        chars[0] == ' ',
        forall|i: int|
            0 <= i < chars.len() ==> ' ' <= #[trigger] chars[i] <= '~',
    ensures
        encode_utf8(chars).len() == chars.len(),
        encode_utf8(chars)[0] == SPACE,
        !encode_utf8(chars).contains(CR),
{
    assert(is_ascii_chars(chars));
    vstd::utf8::is_ascii_chars_encode_utf8(chars);
    let bytes = encode_utf8(chars);
    assert(bytes[0] == chars[0] as u8);
    assert forall|i: int| 0 <= i < bytes.len() implies bytes[i] != CR by {
        assert(bytes[i] == chars[i] as u8);
        assert(' ' <= chars[i] <= '~');
    }
}

/// Bytes without a carriage return hold no CRLF.
proof fn lemma_no_cr_no_crlf(s: Seq<u8>)
    requires
        !s.contains(CR),
    ensures
        free_of(s, crlf_bytes()),
{
    assert forall|j: int| !occurs_at(s, crlf_bytes(), j) by {
        if occurs_at(s, crlf_bytes(), j) {
            assert(s.subrange(j, j + 2)[0] == CR);
            assert(s[j] == CR);
        }
    }
}

/// The code and the reason of a supported status, as they stand on the
/// wire: the code is its own decimal text and holds no space; the reason
/// starts with a space and holds no carriage return.
pub proof fn lemma_status_texts(code: u16)
    requires
        is_supported_status(code),
    ensures
        ({
            let digits = encode_utf8(status_contents(code).0);
            let reason = encode_utf8(status_contents(code).1);
            &&& !digits.contains(SPACE)
            &&& parse_usize_spec(digits) == Some(code as usize)
            &&& reason.len() > 0
            &&& reason[0] == SPACE
            &&& !reason.contains(CR)
        }),
{
    reveal_strlit("200");
    reveal_strlit("201");
    reveal_strlit("404");
    reveal_strlit("500");
    reveal_strlit(" OK");
    reveal_strlit(" Created");
    reveal_strlit(" Not Found");
    reveal_strlit(" Internal Server Error");
    reveal_with_fuel(decimal_chars, 3);
    let digits = status_contents(code).0;
    let reason = status_contents(code).1;
    assert(digits =~= decimal_chars(code as nat));
    lemma_decimal_text_read_back(code as usize);
    lemma_plain_text(digits);
    lemma_reason_text(reason);
}

/// Header lines as the serializer writes them, and a blank line, read back
/// as the pairs of those lines, after the pairs read before.
pub proof fn lemma_header_lines_read_back(
    headers: Seq<WireHeader>,
    tail: Seq<u8>,
    read: Seq<(Seq<u8>, Seq<u8>)>,
)
    requires
        forall|i: int|
            0 <= i < headers.len() ==> {
                &&& !(#[trigger] headers[i]).name.contains(COLON)
                &&& headers[i].padding == seq![SPACE]
                &&& free_of(headers[i].line(), crlf_bytes())
            },
    ensures
        read_header_lines(headers_wire(headers) + (crlf_bytes() + tail), read) == Some(
            (read + wire_pairs(headers), tail),
        ),
    decreases headers.len(),
{
    let s = headers_wire(headers) + (crlf_bytes() + tail);
    if headers.len() == 0 {
        let none = Seq::<u8>::empty();
        assert(ends_at_first(none, crlf_bytes()));
        lemma_capture_of_delimited(none, crlf_bytes(), tail);
        assert(s =~= none + crlf_bytes() + tail);
        assert(read + wire_pairs(headers) =~= read);
    } else {
        let first = headers[0];
        let others = headers.drop_first();
        let after = headers_wire(others) + (crlf_bytes() + tail);
        lemma_crlf_ends_at_first(first.line());
        lemma_capture_of_delimited(first.line(), crlf_bytes(), after);
        assert(s =~= first.line() + crlf_bytes() + after);
        assert(first.line() =~= first.name + separator_bytes() + first.value);
        assert(first.line().len() > 0);
        assert(ends_at_first(first.name, separator_bytes())) by {
            assert forall|j: int| 0 <= j < first.name.len() implies !occurs_at(
                first.name + separator_bytes(),
                separator_bytes(),
                j,
            ) by {
                if occurs_at(first.name + separator_bytes(), separator_bytes(), j) {
                    assert((first.name + separator_bytes()).subrange(j, j + 2)[0] == COLON);
                    assert(first.name[j] == COLON);
                }
            }
        }
        lemma_capture_of_delimited(first.name, separator_bytes(), first.value);
        assert forall|i: int| 0 <= i < others.len() implies {
            &&& !(#[trigger] others[i]).name.contains(COLON)
            &&& others[i].padding == seq![SPACE]
            &&& free_of(others[i].line(), crlf_bytes())
        } by {
            assert(others[i] == headers[i + 1]);
        }
        lemma_header_lines_read_back(others, tail, read.push((first.name, first.value)));
        assert(read.push((first.name, first.value)) + wire_pairs(others) =~= read + wire_pairs(
            headers,
        ));
    }
}

/// Round trip: what the serializer writes reads back, by the response
/// grammar, as the status code, the headers in order, and the body of the
/// response that was written. It holds for every supported status, for
/// every header whose name holds no colon and whose line holds no CRLF, and
/// for every body.
pub proof fn lemma_written_response_reads_back(response: HttpResponseView)
    requires
        is_supported_status(response.status_code),
        forall|i: int|
            0 <= i < response.header_pairs().len() ==> writable_header(
                #[trigger] response.header_pairs()[i],
            ),
    ensures
        read_response(response.wire_bytes()) == Some(
            ResponseReading {
                status_code: response.status_code as usize,
                headers: encoded_pairs(response.header_pairs()),
                body: match response.body {
                    Some(body) => body,
                    None => Seq::empty(),
                },
            },
        ),
{
    let code = response.status_code;
    let pairs = response.header_pairs();
    let body = match response.body {
        Some(body) => body,
        None => Seq::empty(),
    };
    let version = "HTTP/1.1 ".spec_bytes();
    let digits = encode_utf8(status_contents(code).0);
    let reason = encode_utf8(status_contents(code).1);
    let headers = written_headers(pairs);
    let block = headers_wire(headers) + (crlf_bytes() + body);
    let bytes = response.wire_bytes();
    lemma_status_texts(code);
    lemma_header_lines_are_wire(pairs);
    assert(status_line(code) =~= version + digits + reason + crlf_bytes());
    assert(bytes =~= version + (digits + reason + crlf_bytes() + block));
    assert(bytes.take(version.len() as int) =~= version);
    assert(bytes.skip(version.len() as int) =~= digits + reason + crlf_bytes() + block);

    let passed = reason.skip(1);
    assert(space_bytes() + passed =~= reason);
    assert(ends_at_first(digits, space_bytes())) by {
        assert forall|j: int| 0 <= j < digits.len() implies !occurs_at(
            digits + space_bytes(),
            space_bytes(),
            j,
        ) by {
            if occurs_at(digits + space_bytes(), space_bytes(), j) {
                assert((digits + space_bytes()).subrange(j, j + 1)[0] == SPACE);
                assert(digits[j] == SPACE);
            }
        }
    }
    lemma_capture_of_delimited(digits, space_bytes(), passed + crlf_bytes() + block);
    assert(digits + reason + crlf_bytes() + block =~= digits + space_bytes() + (passed
        + crlf_bytes() + block));

    assert(!passed.contains(CR)) by {
        if passed.contains(CR) {
            let k = choose|k: int| 0 <= k < passed.len() && passed[k] == CR;
            assert(reason[k + 1] == CR);
        }
    }
    lemma_no_cr_no_crlf(passed);
    lemma_crlf_ends_at_first(passed);
    lemma_capture_of_delimited(passed, crlf_bytes(), block);

    assert forall|i: int| 0 <= i < headers.len() implies {
        &&& !(#[trigger] headers[i]).name.contains(COLON)
        &&& headers[i].padding == seq![SPACE]
        &&& free_of(headers[i].line(), crlf_bytes())
    } by {
        assert(writable_header(pairs[i]));
        assert(headers[i].line() =~= encode_utf8(pairs[i].0) + separator_bytes() + encode_utf8(
            pairs[i].1,
        ));
    }
    lemma_header_lines_read_back(headers, body, Seq::empty());
    assert(Seq::<(Seq<u8>, Seq<u8>)>::empty() + wire_pairs(headers) =~= encoded_pairs(pairs));
}

} // verus!
