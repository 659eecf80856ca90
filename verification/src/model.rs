//! Mathematical model of the string utilities: ASCII case folding, the
//! C-style case-insensitive comparison, case-insensitive substring search and
//! trimming of a sequence at both ends.
use vstd::prelude::*;
use vstd::utf8::*;

verus! {

/// ASCII lower-casing of a single byte: `A..=Z` map to `a..=z`, all other
/// bytes are left alone.
pub open spec fn ascii_lower(b: u8) -> u8 {
    if 65 <= b <= 90 {
        (b + 32) as u8
    } else {
        b
    }
}

/// The byte at index `i`, or NUL past the end (the view a C string comparison
/// has of a byte sequence).
pub open spec fn byte_or_nul(s: Seq<u8>, i: int) -> u8 {
    if 0 <= i < s.len() {
        s[i]
    } else {
        0
    }
}

/// Difference of the case-folded bytes of `l` and `r` at position `i`.
pub open spec fn folded_diff(l: Seq<u8>, r: Seq<u8>, i: int) -> int {
    ascii_lower(byte_or_nul(l, i)) as int - ascii_lower(byte_or_nul(r, i)) as int
}

/// Case-insensitive comparison of `l` and `r` read as NUL-terminated strings,
/// starting at position `i` and looking at positions below `limit` only.
/// It stops at the first position where the folded bytes differ, giving their
/// difference, or where both strings end (a NUL byte), giving 0.
pub open spec fn ci_compare_from(l: Seq<u8>, r: Seq<u8>, i: int, limit: int) -> int
    decreases limit - i,
{
    if i >= limit {
        0
    } else if folded_diff(l, r, i) != 0 || byte_or_nul(l, i) == 0 {
        folded_diff(l, r, i)
    } else {
        ci_compare_from(l, r, i + 1, limit)
    }
}

/// Case-insensitive comparison of at most the first `limit` bytes.
pub open spec fn ci_compare(l: Seq<u8>, r: Seq<u8>, limit: int) -> int {
    ci_compare_from(l, r, 0, limit)
}

/// Case-insensitive comparison of at most the first `len` bytes, for a bound
/// given as an `i32` (no byte at all when `len` is not positive).
pub open spec fn ci_compare_up_to(l: Seq<u8>, r: Seq<u8>, len: i32) -> int {
    ci_compare(l, r, len as int)
}

/// The larger of the two lengths.
pub open spec fn max_len(l: Seq<u8>, r: Seq<u8>) -> int {
    if l.len() >= r.len() {
        l.len() as int
    } else {
        r.len() as int
    }
}

/// `needle` occurs in `haystack` at byte offset `i`, ignoring ASCII case.
pub open spec fn ci_match_at(haystack: Seq<u8>, needle: Seq<u8>, i: int) -> bool {
    &&& 0 <= i
    &&& i + needle.len() <= haystack.len()
    &&& forall|k: int|
        0 <= k < needle.len() ==> #[trigger] ascii_lower(haystack[i + k]) == ascii_lower(
            needle[k],
        )
}

/// `i` is the smallest offset at which `needle` occurs in `haystack`,
/// ignoring ASCII case.
pub open spec fn ci_first_match(haystack: Seq<u8>, needle: Seq<u8>, i: int) -> bool {
    &&& ci_match_at(haystack, needle, i)
    &&& forall|j: int| 0 <= j < i ==> !#[trigger] ci_match_at(haystack, needle, j)
}

/// `needle` occurs nowhere in `haystack`, ignoring ASCII case.
pub open spec fn ci_no_match(haystack: Seq<u8>, needle: Seq<u8>) -> bool {
    forall|j: int| !#[trigger] ci_match_at(haystack, needle, j)
}

/// Drops the leading elements of `s` that satisfy `p`.
pub open spec fn trim_front<A>(s: Seq<A>, p: spec_fn(A) -> bool) -> Seq<A>
    decreases s.len(),
{
    if s.len() > 0 && p(s[0]) {
        trim_front(s.drop_first(), p)
    } else {
        s
    }
}

/// Drops the trailing elements of `s` that satisfy `p`.
pub open spec fn trim_back<A>(s: Seq<A>, p: spec_fn(A) -> bool) -> Seq<A>
    decreases s.len(),
{
    if s.len() > 0 && p(s.last()) {
        trim_back(s.drop_last(), p)
    } else {
        s
    }
}

/// Drops the elements satisfying `p` from both ends of `s`.
pub open spec fn trim<A>(s: Seq<A>, p: spec_fn(A) -> bool) -> Seq<A> {
    trim_back(trim_front(s, p), p)
}

/// The bytes that the ASCII stripping of `utilstr` removes: space, tab,
/// line feed and carriage return.
pub open spec fn is_strip_byte(b: u8) -> bool {
    b == 32 || b == 9 || b == 10 || b == 13
}

/// The characters that the ASCII stripping of `utilstr` removes: space, tab,
/// line feed and carriage return.
pub open spec fn is_blank_char(c: char) -> bool {
    c == ' ' || c == '\t' || c == '\n' || c == '\r'
}

/// `chars` with space, tab, line feed and carriage return removed from both ends.
pub open spec fn strip_blank_chars(chars: Seq<char>) -> Seq<char> {
    trim(chars, |c: char| is_blank_char(c))
}

/// The bytes for which `u8::is_ascii_whitespace` holds: space, tab, line
/// feed, form feed and carriage return.
pub open spec fn is_ascii_whitespace_byte(b: u8) -> bool {
    b == 32 || b == 9 || b == 10 || b == 12 || b == 13
}

/// The characters with the Unicode `White_Space` property.
pub open spec fn is_white_space(c: char) -> bool {
    let v = c as u32;
    ||| 0x09 <= v <= 0x0d
    ||| v == 0x20
    ||| v == 0x85
    ||| v == 0xa0
    ||| v == 0x1680
    ||| 0x2000 <= v <= 0x200a
    ||| v == 0x2028
    ||| v == 0x2029
    ||| v == 0x202f
    ||| v == 0x205f
    ||| v == 0x3000
}

/// `bytes` with space, tab, line feed and carriage return removed from both ends.
pub open spec fn strip_bytes(bytes: Seq<u8>) -> Seq<u8> {
    trim(bytes, |b: u8| is_strip_byte(b))
}

/// `bytes` with ASCII whitespace removed from both ends.
pub open spec fn strip_ascii_whitespace(bytes: Seq<u8>) -> Seq<u8> {
    trim(bytes, |b: u8| is_ascii_whitespace_byte(b))
}

/// `chars` with Unicode whitespace removed from both ends.
pub open spec fn strip_white_space(chars: Seq<char>) -> Seq<char> {
    trim(chars, |c: char| is_white_space(c))
}

/// If exactly the first `k` elements satisfy `p` (and the one at `k`, if any,
/// does not), trimming the front drops exactly those `k` elements.
pub proof fn lemma_trim_front_at<A>(s: Seq<A>, p: spec_fn(A) -> bool, k: int)
    requires
        0 <= k <= s.len(),
        forall|i: int| 0 <= i < k ==> #[trigger] p(s[i]),
        k == s.len() || !p(s[k]),
    ensures
        trim_front(s, p) == s.subrange(k, s.len() as int),
    decreases k,
{
    if k == 0 {
        assert(s.subrange(0, s.len() as int) =~= s);
    } else {
        assert(p(s[0]));
        let t = s.drop_first();
        assert forall|i: int| 0 <= i < k - 1 implies #[trigger] p(t[i]) by {
            assert(p(s[i + 1]));
        }
        lemma_trim_front_at(t, p, k - 1);
        assert(t.subrange(k - 1, t.len() as int) =~= s.subrange(k, s.len() as int));
    }
}

/// If exactly the elements from `k` on satisfy `p` (and the one before `k`,
/// if any, does not), trimming the back keeps exactly the first `k` elements.
pub proof fn lemma_trim_back_at<A>(s: Seq<A>, p: spec_fn(A) -> bool, k: int)
    requires
        0 <= k <= s.len(),
        forall|i: int| k <= i < s.len() ==> #[trigger] p(s[i]),
        k == 0 || !p(s[k - 1]),
    ensures
        trim_back(s, p) == s.subrange(0, k),
    decreases s.len() - k,
{
    if k == s.len() {
        assert(s.subrange(0, k) =~= s);
    } else {
        assert(p(s[s.len() - 1]));
        let t = s.drop_last();
        assert forall|i: int| k <= i < t.len() implies #[trigger] p(t[i]) by {
            assert(p(s[i]));
        }
        lemma_trim_back_at(t, p, k);
        assert(t.subrange(0, k) =~= s.subrange(0, k));
    }
}

/// Trimming both ends keeps the span `start..end` when everything before
/// `start` and from `end` on satisfies `p`, and the ends of the span do not.
pub proof fn lemma_trim_span<A>(s: Seq<A>, p: spec_fn(A) -> bool, start: int, end: int)
    requires
        0 <= start <= end <= s.len(),
        forall|i: int| 0 <= i < start ==> #[trigger] p(s[i]),
        forall|i: int| end <= i < s.len() ==> #[trigger] p(s[i]),
        start < end ==> !p(s[start]) && !p(s[end - 1]),
        start == end ==> end == s.len(),
    ensures
        trim(s, p) == s.subrange(start, end),
{
    lemma_trim_front_at(s, p, start);
    let t = s.subrange(start, s.len() as int);
    assert forall|i: int| end - start <= i < t.len() implies #[trigger] p(t[i]) by {
        assert(p(s[i + start]));
    }
    lemma_trim_back_at(t, p, end - start);
    assert(t.subrange(0, end - start) =~= s.subrange(start, end));
}

/// In valid UTF-8, the position right after an ASCII byte starts a character
/// (or is the end of the bytes).
pub proof fn lemma_boundary_after_ascii(b: Seq<u8>, i: int)
    requires
        valid_utf8(b),
        0 <= i < b.len(),
        b[i] < 0x80,
    ensures
        is_char_boundary(b, i + 1),
{
    if i + 1 == b.len() {
        is_char_boundary_start_end_of_seq(b);
    } else {
        is_char_boundary_iff_not_is_continuation_byte(b, i);
        valid_utf8_split(b, i);
        let s = b.subrange(i, b.len() as int);
        assert(s[0] == b[i]);
        assert(valid_first_scalar(s));
        assert(length_of_first_scalar(s) == 1);
        let rest = pop_first_scalar(s);
        assert(rest =~= b.subrange(i + 1, b.len() as int));
        assert(valid_utf8(rest));
        assert(rest.len() > 0);
        assert(valid_first_scalar(rest));
        assert(rest[0] == b[i + 1]);
        is_char_boundary_iff_not_is_continuation_byte(b, i + 1);
    }
}

} // verus!
