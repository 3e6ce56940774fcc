//! Building `String`s from bytes and from pieces of a source text.

use vstd::prelude::*;
use vstd::string::StringSliceAdditionalSpecFns;
use vstd::utf8::*;

use crate::lexical::{ascii_text, utf8_text};

verus! {

broadcast use vstd::string::group_string_axioms;

/// Appends `c` to `s`.
///
/// Trusted: calls `String::push`, whose documentation says that it appends the
/// given `char` to the end of the string; the contract claims exactly that.
#[verifier::external_body]
pub(crate) fn push_char(s: &mut String, c: char)
    ensures
        final(s)@ == old(s)@.push(c),
{
    s.push(c);
}

/// Whether `s` spells exactly `word`.
pub(crate) fn text_is(s: &String, word: &str) -> (r: bool)
    ensures
        r == (s@ == word@),
{
    *s == word.to_owned()
}

/// The string whose characters are the bytes `bytes[a..b]`, each read as the
/// character with that code.
pub(crate) fn ascii_string(bytes: &[u8], a: usize, b: usize) -> (s: String)
    requires
        a <= b <= bytes@.len(),
    ensures
        s@ == ascii_text(bytes@, a as int, b as int),
{
    let mut s = String::new();
    let mut i = a;
    while i < b
        invariant
            a <= i <= b <= bytes@.len(),
            s@ == ascii_text(bytes@, a as int, i as int),
        decreases b - i,
    {
        push_char(&mut s, bytes[i] as char);
        assert(ascii_text(bytes@, a as int, i + 1) =~= ascii_text(bytes@, a as int, i as int).push(
            bytes@[i as int] as char,
        ));
        i += 1;
    }
    s
}

/// In valid UTF-8, an ASCII byte starts a character.
pub(crate) proof fn lemma_boundary_at_ascii(bytes: Seq<u8>, i: int)
    requires
        valid_utf8(bytes),
        0 <= i < bytes.len(),
        bytes[i] < 128,
    ensures
        is_char_boundary(bytes, i),
{
    is_char_boundary_iff_not_is_continuation_byte(bytes, i);
}

/// In valid UTF-8, a character starts (or the text ends) right after an ASCII byte.
pub(crate) proof fn lemma_boundary_after_ascii(bytes: Seq<u8>, i: int)
    requires
        valid_utf8(bytes),
        0 < i <= bytes.len(),
        bytes[i - 1] < 128,
    ensures
        is_char_boundary(bytes, i),
{
    if i == bytes.len() {
        is_char_boundary_start_end_of_seq(bytes);
    } else {
        lemma_boundary_at_ascii(bytes, i - 1);
        valid_utf8_split(bytes, i - 1);
        let suffix = bytes.subrange(i - 1, bytes.len() as int);
        assert(valid_utf8(suffix));
        assert(pop_first_scalar(suffix) =~= bytes.subrange(i, bytes.len() as int));
        let rest = bytes.subrange(i, bytes.len() as int);
        assert(valid_utf8(rest));
        assert(valid_first_scalar(rest));
        assert(rest[0] == bytes[i]);
        is_char_boundary_iff_not_is_continuation_byte(bytes, i);
    }
}

/// The text of `source` between the byte offsets `a` and `b`, both of which
/// start a character (or end the text).
pub(crate) fn source_text(source: &str, a: usize, b: usize) -> (s: String)
    requires
        a <= b <= source.spec_bytes().len(),
        is_char_boundary(source.spec_bytes(), a as int),
        is_char_boundary(source.spec_bytes(), b as int),
    ensures
        s@ == utf8_text(source.spec_bytes(), a as int, b as int),
{
    let ghost bytes = source.spec_bytes();
    proof {
        encode_utf8_valid_utf8(source@);
    }
    let (_, rest) = source.split_at(a);
    proof {
        encode_utf8_valid_utf8(rest@);
        let rb = rest.spec_bytes();
        assert(rb =~= bytes.subrange(a as int, bytes.len() as int));
        if b == bytes.len() {
            is_char_boundary_start_end_of_seq(rb);
            assert(rb.len() == b - a);
        } else {
            is_char_boundary_iff_not_is_continuation_byte(bytes, b as int);
            is_char_boundary_iff_not_is_continuation_byte(rb, b - a);
        }
    }
    let (piece, _) = rest.split_at(b - a);
    proof {
        assert(piece.spec_bytes() =~= bytes.subrange(a as int, b as int));
        encode_utf8_decode_utf8(piece@);
    }
    piece.to_owned()
}

} // verus!
