//! Escape sequences in `.STRINGZ` text.
use vstd::prelude::*;
use vstd::utf8::encode_utf8;

verus! {

/// What `unescape::unescape` makes of a text: `None` when an escape sequence
/// is not recognised.
pub uninterp spec fn unescaped(s: Seq<char>) -> Option<Seq<char>>;

/// Relies on `unescape::unescape`: backslash escapes replaced by the
/// characters they stand for, `None` on an invalid one; a text without a
/// backslash comes back unchanged.
#[verifier::external_body]
fn unescape_text(s: &str) -> (r: Option<String>)
    ensures
        r is Some <==> unescaped(s@) is Some,
        r is Some ==> r.unwrap()@ == unescaped(s@).unwrap(),
        !s@.contains('\\') ==> r is Some && r.unwrap()@ == s@,
{
    unescape::unescape(s)
}

/// The words that a `.STRINGZ` of the (already unescaped) text occupies: one
/// per UTF-8 byte, zero-extended, then a zero terminator.
pub open spec fn string_words(s: Seq<char>) -> Seq<u16> {
    encode_utf8(s).map_values(|b: u8| b as u16).push(0)
}

/// The words of a `.STRINGZ` whose text is already unescaped.
pub fn stringz_words(s: &str) -> (r: Vec<u16>)
    ensures
        r@ == string_words(s@),
{
    let bytes = s.as_bytes();
    let mut r: Vec<u16> = Vec::new();
    let mut i: usize = 0;
    while i < bytes.len()
        invariant
            i <= bytes@.len(),
            bytes@ == encode_utf8(s@),
            r@ == bytes@.take(i as int).map_values(|b: u8| b as u16),
        decreases bytes@.len() - i,
    {
        r.push(bytes[i] as u16);
        i = i + 1;
        assert(r@ =~= bytes@.take(i as int).map_values(|b: u8| b as u16));
    }
    r.push(0);
    assert(bytes@.take(bytes@.len() as int) =~= bytes@);
    r
}

/// Unescapes the text of a `.STRINGZ` and gives its words; `None` on an
/// invalid escape sequence.
pub fn unescape_stringz(s: &str) -> (r: Option<Vec<u16>>)
    ensures
        r is Some <==> unescaped(s@) is Some,
        r is Some ==> r.unwrap()@ == string_words(unescaped(s@).unwrap()),
{
    match unescape_text(s) {
        Some(u) => Some(stringz_words(u.as_str())),
        None => None,
    }
}

} // verus!
