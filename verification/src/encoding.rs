use vstd::prelude::*;

verus! {

/// Characters that may appear in a percent-encoded string: ASCII
/// alphanumerics, `_` and `-`, which pass through unescaped, and the
/// escape character `%`.
pub open spec fn is_encoded_char(c: char) -> bool {
    (48 <= c as u32 && c as u32 <= 57)  // '0' ..= '9'
    || (65 <= c as u32 && c as u32 <= 90)  // 'A' ..= 'Z'
    || (97 <= c as u32 && c as u32 <= 122)  // 'a' ..= 'z'
    || c == '_' || c == '-' || c == '%'
}

/// The percent-decoded form of a string.
pub uninterp spec fn decode_of(s: Seq<char>) -> Seq<char>;

/// The percent-encoded form of a string, with every byte escaped that
/// is not an ASCII alphanumeric, `_` or `-`.
pub uninterp spec fn encode_of(s: Seq<char>) -> Seq<char>;

/// Relies on percent_encoding::percent_decode_str and
/// PercentDecode::decode_utf8_lossy: the result depends on the input
/// characters alone, and a string without `%` passes through unchanged.
#[verifier::external_body]
pub(crate) fn percent_decode(s: &str) -> (r: String)
    ensures
        r@ == decode_of(s@),
        (forall|i: int| 0 <= i < s@.len() ==> s@[i] != '%') ==> r@ == s@,
{
    percent_encoding::percent_decode_str(s).decode_utf8_lossy().into_owned()
}

/// Relies on percent_encoding::utf8_percent_encode with NON_ALPHANUMERIC
/// minus `_` and `-`: every other byte that is not an ASCII alphanumeric
/// becomes a `%XY` escape, so the result holds only alphanumerics, `_`,
/// `-` and `%`, it is empty exactly when the input is, and
/// percent-decoding it restores the input. The escape set is built for
/// the call (leaked, a few bytes) since the crate's set constants do not
/// spare these two characters.
#[verifier::external_body]
pub(crate) fn percent_encode(s: &str) -> (r: String)
    ensures
        r@ == encode_of(s@),
        decode_of(r@) == s@,
        forall|i: int| 0 <= i < r@.len() ==> is_encoded_char(#[trigger] r@[i]),
        (s@.len() == 0) <==> (r@.len() == 0),
{
    let set = Box::leak(
        Box::new(percent_encoding::NON_ALPHANUMERIC.remove(b'_').remove(b'-')),
    );
    percent_encoding::utf8_percent_encode(s, set).to_string()
}

} // verus!
