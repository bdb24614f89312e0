//! Trusted declarations for the outside collaborators: the bencode parser,
//! the URL and host syntax parsers, and std's UTF-8 validation.  Everything
//! else in the library is verified against the contracts stated here.

use vstd::prelude::*;
use vstd::utf8::decode_utf8;
use vstd::utf8::valid_utf8;

use crate::bvalue::Bvalue;
use crate::bvalue::BvalueV;

verus! {

/// Relies on core::str::from_utf8: it succeeds exactly on valid UTF-8 input,
/// and the characters of the resulting string are the decoding of the bytes.
/// vstd's `valid_utf8` and `decode_utf8` state that encoding exactly.
#[verifier::external_body]
pub(crate) fn utf8_to_string(b: &[u8]) -> (r: Option<String>)
    ensures
        r is Some <==> valid_utf8(b@),
        r matches Some(s) ==> s@ == decode_utf8(b@),
{
    match core::str::from_utf8(b) {
        Ok(s) => Some(s.to_string()),
        Err(_) => None,
    }
}

/// Which strings parse as URLs, and the serialized normal form of each one
/// that does: both depend on the characters of the input alone.
pub uninterp spec fn url_parsed(s: Seq<char>) -> Option<Seq<char>>;

/// Relies on url::Url::parse, a deterministic function of its input, and on
/// the serialization of the parsed URL that `String::from` renders.
#[verifier::external_body]
pub(crate) fn parse_url(s: &str) -> (r: Option<String>)
    ensures
        match url_parsed(s@) {
            Some(u) => r matches Some(t) && t@ == u,
            None => r is None,
        },
{
    match url::Url::parse(s) {
        Ok(u) => Some(String::from(u)),
        Err(_) => None,
    }
}

/// Which strings parse as hosts, and the text rendering of each one that
/// does: both depend on the characters of the input alone.
pub uninterp spec fn host_parsed(s: Seq<char>) -> Option<Seq<char>>;

/// Relies on url::Host::parse, a deterministic function of its input, and on
/// the text that the parsed host displays as.
#[verifier::external_body]
pub(crate) fn parse_host(s: &str) -> (r: Option<String>)
    ensures
        match host_parsed(s@) {
            Some(h) => r matches Some(t) && t@ == h,
            None => r is None,
        },
{
    match url::Host::parse(s) {
        Ok(h) => Some(h.to_string()),
        Err(_) => None,
    }
}

#[verifier::external_type_specification]
#[verifier::external_body]
pub struct ExBencode(bencode::Bencode);

/// The conversion half of [`parse_bvalue`]: brings a parsed tree over into
/// the library's value type, variant by variant, moving the fields.  Relies
/// on the shape of bencode::Bencode: five variants carrying an integer, raw
/// bytes, child values, or byte-string-keyed child values.  `Empty` only
/// ever stands for an empty input, never inside a parsed value; it has no
/// counterpart in the library's value type and yields `None`.
#[verifier::external_body]
fn convert_bencode(b: bencode::Bencode) -> (r: Option<Bvalue>) {
    match b {
        bencode::Bencode::Empty => None,
        bencode::Bencode::Number(n) => Some(Bvalue::Int(n)),
        bencode::Bencode::ByteString(s) => Some(Bvalue::Bytes(s)),
        bencode::Bencode::List(l) => {
            let items: Option<Vec<Bvalue>> = l.into_iter().map(convert_bencode).collect();
            items.map(Bvalue::List)
        },
        bencode::Bencode::Dict(d) => {
            let entries: Option<Vec<(Vec<u8>, Bvalue)>> = d.into_iter().map(
                |(k, v)| convert_bencode(v).map(|w| (k.unwrap(), w)),
            ).collect();
            entries.map(Bvalue::Dict)
        },
    }
}

/// The value tree that a byte sequence parses to, brought over into the
/// library's value type; `None` stands for a parse failure or an empty
/// input.  Parsing depends on the bytes alone.
pub uninterp spec fn bencode_parsed(s: Seq<u8>) -> Option<BvalueV>;

/// Relies on bencode::from_buffer, a deterministic parser of the bencode
/// grammar, and on `convert_bencode` above to carry its tree over.
///
/// The parser returns a defined result only on input that is one complete
/// bencode value, which `spec_scan` requires here: on input that ends
/// between tokens inside an unclosed list or dictionary its event stream
/// simply stops and the tree builder aborts; a digit run of nineteen or
/// more digits overflows its signed 64-bit accumulator; and a length prefix
/// pointing past the end of the input makes it reserve a buffer of that
/// size before reading.  Input that satisfies `spec_scan` ends exactly at
/// the close of the root value, keeps every digit run within the signed
/// 64-bit range, and satisfies every length prefix inside the input, so
/// none of those paths is reached.
#[verifier::external_body]
pub(crate) fn parse_bvalue(s: &[u8]) -> (r: Option<Bvalue>)
    requires
        crate::scan::spec_scan(s@),
    ensures
        match bencode_parsed(s@) {
            Some(v) => r matches Some(b) && b@ == v,
            None => r is None,
        },
{
    match bencode::from_buffer(s) {
        Ok(b) => convert_bencode(b),
        Err(_) => None,
    }
}

} // verus!
