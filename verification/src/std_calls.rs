//! The calls into std whose behaviour vstd does not specify.
use vstd::prelude::*;
use vstd::utf8::{decode_utf8, valid_utf8};

use crate::model::is_white_space;

verus! {

/// The characters that `String::from_utf8_lossy` produces from `bytes`: the
/// UTF-8 decoding of `bytes`, with each invalid sequence replaced by U+FFFD.
pub uninterp spec fn lossy_utf8(bytes: Seq<u8>) -> Seq<char>;

/// Calls `String::from_utf8_lossy` and takes ownership of its result.
/// Trusted: the characters are `lossy_utf8(bytes)`, a function of the bytes
/// alone; as its documentation says, valid UTF-8 is returned as it is
/// decoded; and a single non-ASCII byte between two valid stretches (one
/// that cannot start a character there, since what follows is valid and so
/// does not start with a continuation byte) is one invalid sequence, replaced
/// by one U+FFFD while both stretches are kept. What other runs of invalid
/// bytes turn into is left to the name.
#[verifier::external_body]
pub(crate) fn string_from_utf8_lossy(bytes: &[u8]) -> (s: String)
    ensures
        s@ == lossy_utf8(bytes@),
        valid_utf8(bytes@) ==> s@ == decode_utf8(bytes@),
        forall|i: int|
            #![trigger bytes@[i]]
            0 <= i < bytes@.len() && bytes@[i] >= 0x80 && valid_utf8(bytes@.subrange(0, i))
                && valid_utf8(bytes@.subrange(i + 1, bytes@.len() as int)) ==> s@ == decode_utf8(
                bytes@.subrange(0, i),
            ) + seq!['\u{FFFD}'] + decode_utf8(bytes@.subrange(i + 1, bytes@.len() as int)),
{
    String::from_utf8_lossy(bytes).into_owned()
}

/// Calls `char::is_whitespace`. Trusted: it holds exactly for the characters
/// with the Unicode `White_Space` property, which `is_white_space` lists.
#[verifier::external_body]
pub(crate) fn char_is_whitespace(c: char) -> (r: bool)
    ensures
        r == is_white_space(c),
{
    c.is_whitespace()
}

} // verus!
