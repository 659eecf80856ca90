//! String helpers that strip ASCII blanks and compare or search ignoring
//! ASCII case, all working on the UTF-8 bytes of their arguments.
use vstd::prelude::*;
use vstd::string::StringSliceAdditionalSpecFns;
use vstd::utf8::*;

use crate::laws::law_blank_strip_on_chars;
use crate::model::{
    ascii_lower, byte_or_nul, ci_compare, ci_compare_from, ci_compare_up_to, ci_first_match,
    ci_match_at, ci_no_match, folded_diff, is_strip_byte, lemma_boundary_after_ascii,
    lemma_trim_span, max_len, strip_blank_chars, strip_bytes,
};
use crate::std_calls::{lossy_utf8, string_from_utf8_lossy};

verus! {

broadcast use vstd::utf8::group_utf8_lib;

/// Lower-cases one ASCII byte; every other byte is returned unchanged.
fn ascii_fold_byte(value: u8) -> (folded: u8)
    ensures
        folded == ascii_lower(value),
        65 <= value <= 90 ==> folded == value + 32,
        !(65 <= value <= 90) ==> folded == value,
{
    if 65 <= value && value <= 90 {
        value + 32
    } else {
        value
    }
}

/// Space, tab, line feed or carriage return.
fn is_ascii_blank(b: u8) -> (r: bool)
    ensures
        r == is_strip_byte(b),
{
    b == 32 || b == 9 || b == 10 || b == 13
}

/// The span `start..end` of `bytes` left after stripping blanks from both ends.
fn strip_span(bytes: &[u8]) -> (span: (usize, usize))
    ensures
        span.0 <= span.1 <= bytes@.len(),
        forall|i: int| 0 <= i < span.0 ==> is_strip_byte(#[trigger] bytes@[i]),
        forall|i: int| span.1 <= i < bytes@.len() ==> is_strip_byte(#[trigger] bytes@[i]),
        span.0 < span.1 ==> !is_strip_byte(bytes@[span.0 as int]) && !is_strip_byte(
            bytes@[span.1 - 1],
        ),
        span.0 == span.1 ==> span.1 == bytes@.len(),
        strip_bytes(bytes@) == bytes@.subrange(span.0 as int, span.1 as int),
{
    let len = bytes.len();
    let mut start: usize = 0;
    while start < len && is_ascii_blank(bytes[start])
        invariant
            start <= len,
            len == bytes@.len(),
            forall|i: int| 0 <= i < start ==> is_strip_byte(#[trigger] bytes@[i]),
        decreases len - start,
    {
        start += 1;
    }
    let mut end: usize = len;
    while end > start && is_ascii_blank(bytes[end - 1])
        invariant
            start <= end <= len,
            len == bytes@.len(),
            start < len ==> !is_strip_byte(bytes@[start as int]),
            start < len ==> start < end,
            forall|i: int| end <= i < len ==> is_strip_byte(#[trigger] bytes@[i]),
        decreases end,
    {
        end -= 1;
    }
    proof {
        lemma_trim_span(bytes@, |b: u8| is_strip_byte(b), start as int, end as int);
    }
    (start, end)
}

/// `bytes` without the spaces, tabs, line feeds and carriage returns at
/// either end.
pub fn trim_ascii_whitespace(bytes: &[u8]) -> (trimmed: &[u8])
    ensures
        trimmed@ == strip_bytes(bytes@),
{
    let (start, end) = strip_span(bytes);
    vstd::slice::slice_subrange(bytes, start, end)
}

/// `input` without the spaces, tabs, line feeds and carriage returns at
/// either end, as a slice of `input`.
pub fn strstrip(input: &str) -> (stripped: &str)
    ensures
        stripped.spec_bytes() == strip_bytes(input.spec_bytes()),
        stripped@ == decode_utf8(strip_bytes(input.spec_bytes())),
        stripped@ == strip_blank_chars(input@),
{
    let bytes = input.as_bytes();
    let (start, end) = strip_span(bytes);
    let ghost b = bytes@;
    proof {
        if start == 0 || start as int == b.len() {
        } else {
            lemma_boundary_after_ascii(b, start - 1);
        }
    }
    let (_, tail) = input.split_at(start);
    let ghost t = tail.spec_bytes();
    proof {
        assert(t =~= b.subrange(start as int, b.len() as int));
        if end as int == b.len() {
            assert(t.len() == end - start);
        } else {
            assert(t[end - start] == b[end as int]);
            assert(!is_continuation_byte(t[end - start]));
        }
    }
    let (stripped, _) = tail.split_at(end - start);
    proof {
        assert(stripped.spec_bytes() =~= b.subrange(start as int, end as int));
        law_blank_strip_on_chars(input@);
    }
    stripped
}

/// Case-insensitive comparison of `left` and `right` read as NUL-terminated
/// strings, looking at no more than the first `limit` bytes.
pub fn compare_ascii_case_insensitive_limited(left: &[u8], right: &[u8], limit: usize) -> (order:
    i32)
    ensures
        order == ci_compare(left@, right@, limit as int),
{
    if limit == 0 {
        return 0;
    }
    let mut index: usize = 0;
    while index < limit
        invariant
            index <= limit,
            ci_compare(left@, right@, limit as int) == ci_compare_from(
                left@,
                right@,
                index as int,
                limit as int,
            ),
        decreases limit - index,
    {
        let left_byte: u8 = if index < left.len() {
            left[index]
        } else {
            0
        };
        let right_byte: u8 = if index < right.len() {
            right[index]
        } else {
            0
        };
        assert(left_byte == byte_or_nul(left@, index as int));
        assert(right_byte == byte_or_nul(right@, index as int));
        if left_byte == 0 && right_byte == 0 {
            return 0;
        }
        let diff: i32 = (ascii_fold_byte(left_byte) as i32) - (ascii_fold_byte(right_byte) as i32);
        assert(diff == folded_diff(left@, right@, index as int));
        if diff != 0 {
            return diff;
        }
        if left_byte == 0 || right_byte == 0 {
            return 0;
        }
        index += 1;
    }
    0
}

/// Case-insensitive comparison of `left` and `right` read as NUL-terminated
/// strings.
pub fn compare_ascii_case_insensitive_ascii(left: &[u8], right: &[u8]) -> (order: i32)
    ensures
        order == ci_compare(left@, right@, max_len(left@, right@)),
{
    let limit: usize = if left.len() >= right.len() {
        left.len()
    } else {
        right.len()
    };
    compare_ascii_case_insensitive_limited(left, right, limit)
}

/// A positive `i32` bound as a `usize`.
pub(crate) fn positive_limit(len: i32) -> (limit: usize)
    requires
        len > 0,
    ensures
        limit == len,
{
    len as usize
}

/// Compares at most `len` bytes of `left` and `right` ignoring ASCII case, as
/// C's `strnicmp` does: negative, zero or positive as `left` sorts before,
/// equal to or after `right`; 0 when `len` is not positive.
pub fn strnicmp(left: &str, right: &str, len: i32) -> (order: i32)
    ensures
        order == ci_compare_up_to(left.spec_bytes(), right.spec_bytes(), len),
        len <= 0 ==> order == 0,
{
    if len <= 0 {
        return 0;
    }
    compare_ascii_case_insensitive_limited(left.as_bytes(), right.as_bytes(), positive_limit(len))
}

/// Compares `left` and `right` ignoring ASCII case, as C's `stricmp` does.
pub fn stricmp(left: &str, right: &str) -> (order: i32)
    ensures
        order == ci_compare(
            left.spec_bytes(),
            right.spec_bytes(),
            max_len(left.spec_bytes(), right.spec_bytes()),
        ),
{
    compare_ascii_case_insensitive_ascii(left.as_bytes(), right.as_bytes())
}

/// The bytes of `bytes`, each lower-cased as ASCII.
fn fold_bytes(bytes: &[u8]) -> (folded: Vec<u8>)
    ensures
        folded@.len() == bytes@.len(),
        forall|i: int| 0 <= i < bytes@.len() ==> #[trigger] folded@[i] == ascii_lower(bytes@[i]),
{
    let mut folded: Vec<u8> = Vec::with_capacity(bytes.len());
    let mut i: usize = 0;
    while i < bytes.len()
        invariant
            i <= bytes@.len(),
            folded@.len() == i,
            forall|j: int| 0 <= j < i ==> #[trigger] folded@[j] == ascii_lower(bytes@[j]),
        decreases bytes@.len() - i,
    {
        folded.push(ascii_fold_byte(bytes[i]));
        i += 1;
    }
    folded
}

/// Byte offset of the first occurrence of `needle` in `haystack`, ignoring
/// ASCII case; `Some(0)` for an empty needle, `None` when there is none.
pub fn stristr_bytes(haystack: &[u8], needle: &[u8]) -> (found: Option<usize>)
    ensures
        match found {
            Some(i) => ci_first_match(haystack@, needle@, i as int),
            None => ci_no_match(haystack@, needle@),
        },
{
    if needle.len() == 0 {
        assert(ci_match_at(haystack@, needle@, 0));
        return Some(0);
    }
    let haystack_lower = fold_bytes(haystack);
    let needle_lower = fold_bytes(needle);
    let hlen = haystack_lower.len();
    let nlen = needle_lower.len();
    if nlen > hlen {
        return None;
    }
    let mut start: usize = 0;
    while start <= hlen - nlen
        invariant
            nlen <= hlen,
            hlen == haystack@.len(),
            nlen == needle@.len(),
            start <= hlen - nlen + 1,
            haystack_lower@.len() == hlen,
            needle_lower@.len() == nlen,
            forall|i: int| 0 <= i < hlen ==> #[trigger] haystack_lower@[i] == ascii_lower(haystack@[i]),
            forall|i: int| 0 <= i < nlen ==> #[trigger] needle_lower@[i] == ascii_lower(needle@[i]),
            forall|j: int| 0 <= j < start ==> !#[trigger] ci_match_at(haystack@, needle@, j),
        decreases hlen - nlen + 1 - start,
    {
        let mut k: usize = 0;
        while k < nlen && haystack_lower[start + k] == needle_lower[k]
            invariant
                k <= nlen,
                start + nlen <= hlen,
                haystack_lower@.len() == hlen,
                needle_lower@.len() == nlen,
                forall|m: int| 0 <= m < k ==> haystack_lower@[start + m] == needle_lower@[m],
            decreases nlen - k,
        {
            k += 1;
        }
        if k == nlen {
            assert forall|m: int| 0 <= m < needle@.len() implies #[trigger] ascii_lower(
                haystack@[start + m],
            ) == ascii_lower(needle@[m]) by {
                assert(haystack_lower@[start + m] == ascii_lower(haystack@[start + m]));
                assert(needle_lower@[m] == ascii_lower(needle@[m]));
            }
            return Some(start);
        }
        assert(!ci_match_at(haystack@, needle@, start as int)) by {
            assert(haystack_lower@[start + k] == ascii_lower(haystack@[start + k]));
            assert(needle_lower@[k as int] == ascii_lower(needle@[k as int]));
            assert(haystack_lower@[start + k] != needle_lower@[k as int]);
        }
        start += 1;
    }
    assert forall|j: int| !#[trigger] ci_match_at(haystack@, needle@, j) by {
        if 0 <= j < start {
        }
    }
    None
}

/// Byte offset of the first occurrence of `needle` in `haystack`, ignoring
/// ASCII case; `Some(0)` for an empty needle, `None` when there is none.
pub fn stristr(haystack: &str, needle: &str) -> (found: Option<usize>)
    ensures
        match found {
            Some(i) => ci_first_match(haystack.spec_bytes(), needle.spec_bytes(), i as int),
            None => ci_no_match(haystack.spec_bytes(), needle.spec_bytes()),
        },
{
    stristr_bytes(haystack.as_bytes(), needle.as_bytes())
}

/// `input` as text: its UTF-8 decoding, with each invalid sequence replaced
/// by U+FFFD; valid UTF-8 comes back unchanged, and a lone non-ASCII byte
/// between two valid stretches becomes one U+FFFD between their texts.
pub fn assure_valid_utf8(input: &[u8]) -> (text: String)
    ensures
        text@ == lossy_utf8(input@),
        valid_utf8(input@) ==> text@ == decode_utf8(input@),
        forall|i: int|
            #![trigger input@[i]]
            0 <= i < input@.len() && input@[i] >= 0x80 && valid_utf8(input@.subrange(0, i))
                && valid_utf8(input@.subrange(i + 1, input@.len() as int)) ==> text@ == decode_utf8(
                input@.subrange(0, i),
            ) + seq!['\u{FFFD}'] + decode_utf8(input@.subrange(i + 1, input@.len() as int)),
{
    string_from_utf8_lossy(input)
}

} // verus!
