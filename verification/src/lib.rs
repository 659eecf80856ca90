//! String utilities: whitespace stripping, ASCII case-insensitive search and
//! comparison, and lossy UTF-8 repair.
use vstd::prelude::*;
use vstd::string::StringSliceAdditionalSpecFns;
use vstd::utf8::{decode_utf8, valid_utf8};

pub mod laws;
pub mod model;
pub mod std_calls;
pub mod utilstr;

use crate::model::{
    ascii_lower, byte_or_nul, ci_compare, ci_compare_from, ci_compare_up_to, ci_first_match,
    ci_no_match, folded_diff, is_ascii_whitespace_byte, is_white_space, lemma_trim_span, max_len,
    strip_ascii_whitespace, strip_white_space,
};
use crate::std_calls::{char_is_whitespace, lossy_utf8, string_from_utf8_lossy};

verus! {

/// Lower-cases one ASCII byte; every other byte is returned unchanged.
fn ascii_casefold(value: u8) -> (folded: u8)
    ensures
        folded == ascii_lower(value),
        65 <= value <= 90 ==> folded == value + 32,
        !(65 <= value <= 90) ==> folded == value,
{
    if 65 <= value && value <= 90 {
        value + 32
    } else {
        value
    }
}

/// The characters of `s`, in order.
fn collect_chars(s: &str) -> (chars: Vec<char>)
    ensures
        chars@ == s@,
{
    let mut chars: Vec<char> = Vec::new();
    for c in it: s.chars()
        invariant
            it.seq() == s@,
            chars@ == it.seq().take(it.index() as int),
    {
        chars.push(c);
    }
    chars
}

/// `input` without the Unicode whitespace at either end, as a slice of `input`.
pub fn strstrip(input: &str) -> (stripped: &str)
    ensures
        stripped@ == strip_white_space(input@),
{
    let chars = collect_chars(input);
    let len = chars.len();
    let mut start: usize = 0;
    while start < len && char_is_whitespace(chars[start])
        invariant
            start <= len,
            len == chars@.len(),
            forall|i: int| 0 <= i < start ==> is_white_space(#[trigger] chars@[i]),
        decreases len - start,
    {
        start += 1;
    }
    let mut end: usize = len;
    while end > start && char_is_whitespace(chars[end - 1])
        invariant
            start <= end <= len,
            len == chars@.len(),
            start < len ==> !is_white_space(chars@[start as int]),
            start < len ==> start < end,
            forall|i: int| end <= i < len ==> is_white_space(#[trigger] chars@[i]),
        decreases end,
    {
        end -= 1;
    }
    proof {
        lemma_trim_span(input@, |c: char| is_white_space(c), start as int, end as int);
    }
    input.substring_char(start, end)
}

/// Byte offset of the first occurrence of `needle` in `haystack`, ignoring
/// ASCII case; `Some(0)` for an empty needle, `None` when there is none.
pub fn stristr(haystack: &str, needle: &str) -> (found: Option<usize>)
    ensures
        match found {
            Some(i) => ci_first_match(haystack.spec_bytes(), needle.spec_bytes(), i as int),
            None => ci_no_match(haystack.spec_bytes(), needle.spec_bytes()),
        },
{
    utilstr::stristr_bytes(haystack.as_bytes(), needle.as_bytes())
}

/// Case-insensitive comparison of `left` and `right` read as NUL-terminated
/// strings, looking at no more than the first `limit` bytes: the difference
/// of the first pair of folded bytes that differ, or 0.
pub fn compare_casefold_bytes(left: &[u8], right: &[u8], limit: usize) -> (order: i32)
    ensures
        order == ci_compare(left@, right@, limit as int),
{
    let mut index: usize = 0;
    while index < limit
        invariant
            index <= limit,
            ci_compare(left@, right@, limit as int) == ci_compare_from(
                left@,
                right@,
                index as int,
                limit as int,
            ),
        decreases limit - index,
    {
        let left_byte: u8 = if index < left.len() {
            left[index]
        } else {
            0
        };
        let right_byte: u8 = if index < right.len() {
            right[index]
        } else {
            0
        };
        assert(left_byte == byte_or_nul(left@, index as int));
        assert(right_byte == byte_or_nul(right@, index as int));
        if left_byte == 0 && right_byte == 0 {
            return 0;
        }
        let diff: i32 = (ascii_casefold(left_byte) as i32) - (ascii_casefold(right_byte) as i32);
        assert(diff == folded_diff(left@, right@, index as int));
        if diff != 0 {
            return diff;
        }
        if left_byte == 0 || right_byte == 0 {
            return 0;
        }
        index += 1;
    }
    0
}

/// The larger of two lengths.
fn longer(a: usize, b: usize) -> (m: usize)
    ensures
        m == if a >= b {
            a
        } else {
            b
        },
{
    if a >= b {
        a
    } else {
        b
    }
}

/// Compares at most `len` bytes of `left` and `right` ignoring ASCII case, as
/// C's `strnicmp` does: negative, zero or positive as `left` sorts before,
/// equal to or after `right`; 0 when `len` is not positive.
pub fn strnicmp(left: &str, right: &str, len: i32) -> (order: i32)
    ensures
        order == ci_compare_up_to(left.spec_bytes(), right.spec_bytes(), len),
        len <= 0 ==> order == 0,
{
    if len <= 0 {
        return 0;
    }
    compare_casefold_bytes(left.as_bytes(), right.as_bytes(), utilstr::positive_limit(len))
}

/// Compares `left` and `right` ignoring ASCII case, as C's `stricmp` does.
pub fn stricmp(left: &str, right: &str) -> (order: i32)
    ensures
        order == ci_compare(
            left.spec_bytes(),
            right.spec_bytes(),
            max_len(left.spec_bytes(), right.spec_bytes()),
        ),
{
    let left_bytes = left.as_bytes();
    let right_bytes = right.as_bytes();
    compare_casefold_bytes(left_bytes, right_bytes, longer(left_bytes.len(), right_bytes.len()))
}

/// `input` as text: its UTF-8 decoding, with each invalid sequence replaced
/// by U+FFFD; valid UTF-8 comes back unchanged, and a lone non-ASCII byte
/// between two valid stretches becomes one U+FFFD between their texts.
pub fn assure_valid_utf8(input: &[u8]) -> (text: String)
    ensures
        text@ == lossy_utf8(input@),
        valid_utf8(input@) ==> text@ == decode_utf8(input@),
        forall|i: int|
            #![trigger input@[i]]
            0 <= i < input@.len() && input@[i] >= 0x80 && valid_utf8(input@.subrange(0, i))
                && valid_utf8(input@.subrange(i + 1, input@.len() as int)) ==> text@ == decode_utf8(
                input@.subrange(0, i),
            ) + seq!['\u{FFFD}'] + decode_utf8(input@.subrange(i + 1, input@.len() as int)),
{
    string_from_utf8_lossy(input)
}

/// Whether `b` is ASCII whitespace: space, tab, line feed, form feed or
/// carriage return.
fn is_ascii_whitespace(b: u8) -> (r: bool)
    ensures
        r == is_ascii_whitespace_byte(b),
{
    b == 32 || b == 9 || b == 10 || b == 12 || b == 13
}

/// `bytes` without the ASCII whitespace at either end.
pub fn strip_ascii_whitespace_bytes(bytes: &[u8]) -> (trimmed: &[u8])
    ensures
        trimmed@ == strip_ascii_whitespace(bytes@),
{
    let len = bytes.len();
    let mut start: usize = 0;
    while start < len && is_ascii_whitespace(bytes[start])
        invariant
            start <= len,
            len == bytes@.len(),
            forall|i: int| 0 <= i < start ==> is_ascii_whitespace_byte(#[trigger] bytes@[i]),
        decreases len - start,
    {
        start += 1;
    }
    let mut end: usize = len;
    while end > start && is_ascii_whitespace(bytes[end - 1])
        invariant
            start <= end <= len,
            len == bytes@.len(),
            start < len ==> !is_ascii_whitespace_byte(bytes@[start as int]),
            start < len ==> start < end,
            forall|i: int| end <= i < len ==> is_ascii_whitespace_byte(#[trigger] bytes@[i]),
        decreases end,
    {
        end -= 1;
    }
    proof {
        lemma_trim_span(bytes@, |b: u8| is_ascii_whitespace_byte(b), start as int, end as int);
    }
    vstd::slice::slice_subrange(bytes, start, end)
}

} // verus!
