use vstd::prelude::*;

verus! {

/// The modified UTF-8 bytes of a text, as mutf8 writes them.
pub uninterp spec fn mutf8_encoded(s: Seq<char>) -> Seq<u8>;

/// The text that modified UTF-8 bytes stand for, as mutf8 reads them; `None`
/// where they stand for none.
pub uninterp spec fn mutf8_decoded(b: Seq<u8>) -> Option<Seq<char>>;

/// Every character is ASCII and none is NUL.
pub open spec fn plain_ascii(s: Seq<char>) -> bool {
    forall|i: int| 0 <= i < s.len() ==> 0 < #[trigger] (s[i] as u32) < 128
}

/// The byte of each ASCII character.
pub open spec fn ascii_bytes(s: Seq<char>) -> Seq<u8> {
    s.map_values(|c: char| (c as u32) as u8)
}

/// The text of an optional string.
pub open spec fn opt_text(s: Option<String>) -> Option<Seq<char>> {
    match s {
        Some(t) => Some(t@),
        None => None,
    }
}

/// Relies on `mutf8::utf8_to_mutf8`, which fails only on a multi-byte sequence
/// cut short (a `str` holds none), hands back ASCII text without NUL as its own
/// bytes, and whose output `mstr::to_str` reads back as the same text.
#[verifier::external_body]
pub(crate) fn encode_text(s: &str) -> (r: Option<Vec<u8>>)
    ensures
        r.is_some(),
        r.unwrap()@ == mutf8_encoded(s@),
        mutf8_decoded(r.unwrap()@) == Some(s@),
        plain_ascii(s@) ==> r.unwrap()@ == ascii_bytes(s@),
{
    match mutf8::utf8_to_mutf8(s.as_bytes()) {
        Ok(b) => Some(b.into_owned()),
        Err(_) => None,
    }
}

/// Relies on `mutf8::mstr::to_str`: the text that modified UTF-8 bytes stand
/// for, or an error where they stand for none.
#[verifier::external_body]
pub(crate) fn decode_text(b: &[u8]) -> (r: Option<String>)
    ensures
        opt_text(r) == mutf8_decoded(b@),
{
    match mutf8::mstr::from_mutf8(b).to_str() {
        Ok(t) => Some(t.into_owned()),
        Err(_) => None,
    }
}

} // verus!
