//! The two request parsers read the same request: what the parser over
//! owned text returns is what the parser over shared buffers returns,
//! decoded.

use super::headers::pairs_map;
use super::http_request::{
    declared_length, header_block, parse_head_spec, parse_method_spec, parse_spec,
    split_header_line, text_pairs, HttpRequestView,
};
use super::http_request_v2::{declared_length_v2, parse_v2_spec, HttpRequestV2View};
use super::scan::{capture_until, crlf_bytes, lemma_capture_until, skip_spaces, space_bytes};
use super::{HttpError, CONTENT_LENGTH_HEADER};
use vstd::prelude::*;
use vstd::string::StringSliceAdditionalSpecFns;
use vstd::utf8::{decode_utf8, encode_utf8, valid_utf8};

verus! {

/// Every name and every value is valid UTF-8.
pub open spec fn all_text(pairs: Seq<(Seq<u8>, Seq<u8>)>) -> bool {
    forall|i: int|
        0 <= i < pairs.len() ==> valid_utf8((#[trigger] pairs[i]).0) && valid_utf8(pairs[i].1)
}

/// The pairs that the header block returns are text, where the pairs read
/// before it are.
pub proof fn lemma_header_block_is_text(s: Seq<u8>, read: Seq<(Seq<u8>, Seq<u8>)>)
    requires
        all_text(read),
        header_block(s, read) is Ok,
    ensures
        all_text((header_block(s, read)->Ok_0).0),
    decreases s.len(),
{
    lemma_capture_until(s, crlf_bytes());
    let (rest, line) = capture_until(s, crlf_bytes())->0;
    if line.len() > 0 {
        let (name, value) = split_header_line(line)->0;
        let next = read.push((name, value));
        assert(all_text(next)) by {
            assert forall|i: int| 0 <= i < next.len() implies valid_utf8((#[trigger] next[i]).0)
                && valid_utf8(next[i].1) by {
                if i < read.len() {
                    assert(next[i] == read[i]);
                }
            }
        }
        lemma_header_block_is_text(rest, next);
    }
}

/// The mapping of decoded pairs holds, under a name, the decoding of what
/// the mapping of the raw pairs holds under the encoding of that name.
pub proof fn lemma_text_map_mirrors_byte_map(pairs: Seq<(Seq<u8>, Seq<u8>)>, name: Seq<char>)
    requires
        all_text(pairs),
    ensures
        pairs_map(text_pairs(pairs)).contains_key(name) <==> pairs_map(pairs).contains_key(
            encode_utf8(name),
        ),
        pairs_map(text_pairs(pairs)).contains_key(name) ==> encode_utf8(
            pairs_map(text_pairs(pairs))[name],
        ) == pairs_map(pairs)[encode_utf8(name)],
    decreases pairs.len(),
{
    broadcast use {vstd::utf8::encode_utf8_decode_utf8, vstd::utf8::decode_utf8_encode_utf8};

    if pairs.len() > 0 {
        let before = pairs.drop_last();
        let last = pairs.last();
        assert(all_text(before)) by {
            assert forall|i: int| 0 <= i < before.len() implies valid_utf8(
                (#[trigger] before[i]).0,
            ) && valid_utf8(before[i].1) by {
                assert(before[i] == pairs[i]);
            }
        }
        lemma_text_map_mirrors_byte_map(before, name);
        assert(text_pairs(pairs).drop_last() =~= text_pairs(before));
        assert(text_pairs(pairs).last() == (decode_utf8(last.0), decode_utf8(last.1)));
        assert(valid_utf8(last.0) && valid_utf8(last.1)) by {
            assert(pairs[pairs.len() - 1] == last);
        }
        assert(encode_utf8(decode_utf8(last.0)) == last.0);
        assert(encode_utf8(decode_utf8(last.1)) == last.1);
        assert(decode_utf8(encode_utf8(name)) == name);
    }
}

/// Both parsers read the same body length from the same header lines.
pub proof fn lemma_declared_lengths_agree(pairs: Seq<(Seq<u8>, Seq<u8>)>)
    requires
        all_text(pairs),
    ensures
        declared_length(pairs_map(text_pairs(pairs))) == declared_length_v2(pairs_map(pairs)),
{
    lemma_text_map_mirrors_byte_map(pairs, CONTENT_LENGTH_HEADER@);
}

/// What a request that the parser over owned text returns is, in the terms
/// of the parser over shared buffers.
pub open spec fn as_shared(request: HttpRequestView, raw: HttpRequestV2View) -> bool {
    &&& request.method == raw.method
    &&& request.path == decode_utf8(raw.path)
    &&& encode_utf8(request.path) == raw.path
    &&& request.body == raw.body
    &&& request.headers is Some <==> raw.headers is Some
    &&& request.headers is Some ==> forall|name: Seq<char>|
        {
            &&& (#[trigger] request.headers->0.contains_key(name)) <==> raw.headers->0.contains_key(
                encode_utf8(name),
            )
            &&& request.headers->0.contains_key(name) ==> encode_utf8(request.headers->0[name])
                == raw.headers->0[encode_utf8(name)]
        }
}

/// The two parsers agree on every buffer: both fail with the same error, or
/// both succeed with the same request.
pub proof fn lemma_parsers_agree(buf: Seq<u8>)
    ensures
        match parse_spec(buf) {
            Ok(request) => parse_v2_spec(buf) is Ok && as_shared(request, parse_v2_spec(buf)->Ok_0),
            Err(e) => parse_v2_spec(buf) == Err::<HttpRequestV2View, HttpError>(e),
        },
{
    broadcast use vstd::utf8::decode_utf8_encode_utf8;

    if parse_head_spec(buf) is Ok {
        let head = parse_head_spec(buf)->Ok_0;
        let from_method = (parse_method_spec(buf)->0).0;
        let (from_path, path) = capture_until(skip_spaces(from_method), space_bytes())->0;
        let block = (capture_until(skip_spaces(from_path), crlf_bytes())->0).0;
        assert(all_text(Seq::<(Seq<u8>, Seq<u8>)>::empty()));
        lemma_header_block_is_text(block, Seq::empty());
        lemma_declared_lengths_agree(head.headers);
        assert(valid_utf8(head.path));
        assert(encode_utf8(decode_utf8(head.path)) == head.path);
        if parse_spec(buf) is Ok && head.headers.len() > 0 {
            let request = parse_spec(buf)->Ok_0;
            let raw = parse_v2_spec(buf)->Ok_0;
            assert forall|name: Seq<char>|
                {
                    &&& (#[trigger] request.headers->0.contains_key(name))
                        <==> raw.headers->0.contains_key(encode_utf8(name))
                    &&& request.headers->0.contains_key(name) ==> encode_utf8(
                        request.headers->0[name],
                    ) == raw.headers->0[encode_utf8(name)]
                } by {
                lemma_text_map_mirrors_byte_map(head.headers, name);
            }
        }
    }
}

} // verus!
