//! Properties of the comparison, search and stripping that hold for all
//! inputs, stated over the model the functions' contracts use.
use vstd::prelude::*;
use vstd::utf8::{
    decode_utf8, encode_scalar, encode_utf8, encode_utf8_decode_utf8, is_ascii_chars,
    is_ascii_chars_encode_utf8, is_char_boundary, is_char_boundary_iff_not_is_continuation_byte,
    is_continuation_byte, valid_first_scalar, valid_utf8,
};

use crate::model::{
    ascii_lower, byte_or_nul, ci_compare, ci_compare_from, ci_first_match, ci_match_at,
    ci_no_match, folded_diff, is_blank_char, is_strip_byte, lemma_trim_span, max_len,
    ci_compare_up_to, is_white_space, strip_ascii_whitespace, strip_blank_chars, strip_bytes,
    strip_white_space, trim,
};

verus! {

/// Folding a byte gives NUL exactly for NUL.
proof fn lemma_lower_zero(b: u8)
    ensures
        ascii_lower(b) == 0 <==> b == 0,
{
}

proof fn lemma_compare_from_antisymmetric(l: Seq<u8>, r: Seq<u8>, i: int, limit: int)
    ensures
        ci_compare_from(l, r, i, limit) == -ci_compare_from(r, l, i, limit),
    decreases limit - i,
{
    if i < limit {
        lemma_lower_zero(byte_or_nul(l, i));
        lemma_lower_zero(byte_or_nul(r, i));
        if !(folded_diff(l, r, i) != 0 || byte_or_nul(l, i) == 0) {
            lemma_compare_from_antisymmetric(l, r, i + 1, limit);
        }
    }
}

/// Swapping the two strings negates the comparison: `stricmp(a, b)` is
/// `-stricmp(b, a)`, and likewise for `strnicmp` with any bound.
pub proof fn law_compare_antisymmetric(l: Seq<u8>, r: Seq<u8>, limit: int)
    ensures
        ci_compare(l, r, limit) == -ci_compare(r, l, limit),
{
    lemma_compare_from_antisymmetric(l, r, 0, limit);
}

proof fn lemma_compare_from_fold_equal(l: Seq<u8>, r: Seq<u8>, i: int, limit: int)
    requires
        0 <= i,
        l.len() == r.len(),
        forall|k: int| 0 <= k < l.len() ==> #[trigger] ascii_lower(l[k]) == ascii_lower(r[k]),
    ensures
        ci_compare_from(l, r, i, limit) == 0,
    decreases limit - i,
{
    if i < limit {
        if i < l.len() {
            assert(ascii_lower(l[i]) == ascii_lower(r[i]));
            if byte_or_nul(l, i) != 0 {
                lemma_compare_from_fold_equal(l, r, i + 1, limit);
            }
        }
    }
}

/// Strings of equal length that differ only in ASCII case compare equal,
/// whatever the bound: in particular every string compares equal to itself.
pub proof fn law_compare_equal_ignoring_case(l: Seq<u8>, r: Seq<u8>, limit: int)
    requires
        l.len() == r.len(),
        forall|k: int| 0 <= k < l.len() ==> #[trigger] ascii_lower(l[k]) == ascii_lower(r[k]),
    ensures
        ci_compare(l, r, limit) == 0,
{
    lemma_compare_from_fold_equal(l, r, 0, limit);
}

proof fn lemma_compare_from_past_ends(l: Seq<u8>, r: Seq<u8>, i: int, n: int)
    requires
        0 <= i,
        n >= max_len(l, r),
    ensures
        ci_compare_from(l, r, i, n) == ci_compare_from(l, r, i, max_len(l, r)),
    decreases max_len(l, r) - i,
{
    if i >= max_len(l, r) {
        if i < n {
            assert(byte_or_nul(l, i) == 0 && byte_or_nul(r, i) == 0);
        }
    } else if !(folded_diff(l, r, i) != 0 || byte_or_nul(l, i) == 0) {
        lemma_compare_from_past_ends(l, r, i + 1, n);
    }
}

/// A bound at or past the end of both strings compares them whole:
/// `strnicmp(a, b, n)` equals `stricmp(a, b)` once `n` reaches the longer
/// length.
pub proof fn law_bound_past_both_ends(l: Seq<u8>, r: Seq<u8>, n: int)
    requires
        n >= max_len(l, r),
    ensures
        ci_compare(l, r, n) == ci_compare(l, r, max_len(l, r)),
{
    lemma_compare_from_past_ends(l, r, 0, n);
}

proof fn lemma_compare_from_same_prefix(
    l: Seq<u8>,
    r: Seq<u8>,
    l2: Seq<u8>,
    r2: Seq<u8>,
    i: int,
    limit: int,
)
    requires
        forall|k: int| 0 <= k < limit ==> #[trigger] byte_or_nul(l, k) == byte_or_nul(l2, k),
        forall|k: int| 0 <= k < limit ==> #[trigger] byte_or_nul(r, k) == byte_or_nul(r2, k),
    ensures
        ci_compare_from(l, r, i, limit) == ci_compare_from(l2, r2, i, limit),
    decreases limit - i,
{
    if i < limit {
        if i >= 0 {
            assert(byte_or_nul(l, i) == byte_or_nul(l2, i));
            assert(byte_or_nul(r, i) == byte_or_nul(r2, i));
        }
        lemma_compare_from_same_prefix(l, r, l2, r2, i + 1, limit);
    }
}

/// A bounded comparison reads no byte at or past its bound: strings that
/// agree (as NUL-padded strings) on their first `limit` bytes compare alike.
pub proof fn law_compare_reads_only_the_bound(
    l: Seq<u8>,
    r: Seq<u8>,
    l2: Seq<u8>,
    r2: Seq<u8>,
    limit: int,
)
    requires
        forall|k: int| 0 <= k < limit ==> #[trigger] byte_or_nul(l, k) == byte_or_nul(l2, k),
        forall|k: int| 0 <= k < limit ==> #[trigger] byte_or_nul(r, k) == byte_or_nul(r2, k),
    ensures
        ci_compare(l, r, limit) == ci_compare(l2, r2, limit),
{
    lemma_compare_from_same_prefix(l, r, l2, r2, 0, limit);
}

/// ASCII lower-casing of every byte of a sequence.
pub open spec fn lower_all(s: Seq<u8>) -> Seq<u8> {
    s.map_values(|b: u8| ascii_lower(b))
}

proof fn lemma_compare_from_lowered(l: Seq<u8>, r: Seq<u8>, i: int, limit: int)
    ensures
        ci_compare_from(lower_all(l), lower_all(r), i, limit) == ci_compare_from(l, r, i, limit),
    decreases limit - i,
{
    if i < limit {
        lemma_lower_zero(byte_or_nul(l, i));
        assert(byte_or_nul(lower_all(l), i) == ascii_lower(byte_or_nul(l, i)));
        assert(byte_or_nul(lower_all(r), i) == ascii_lower(byte_or_nul(r, i)));
        lemma_compare_from_lowered(l, r, i + 1, limit);
    }
}

/// The comparison ignores ASCII case: lower-casing both strings first does
/// not change its result.
pub proof fn law_compare_ignores_case(l: Seq<u8>, r: Seq<u8>, limit: int)
    ensures
        ci_compare(lower_all(l), lower_all(r), limit) == ci_compare(l, r, limit),
{
    lemma_compare_from_lowered(l, r, 0, limit);
}

/// The search ignores ASCII case: lower-casing haystack and needle first
/// changes neither where they match nor which match comes first.
pub proof fn law_search_ignores_case(haystack: Seq<u8>, needle: Seq<u8>, i: int)
    ensures
        ci_match_at(lower_all(haystack), lower_all(needle), i) == ci_match_at(haystack, needle, i),
        ci_first_match(lower_all(haystack), lower_all(needle), i) == ci_first_match(
            haystack,
            needle,
            i,
        ),
        ci_no_match(lower_all(haystack), lower_all(needle)) == ci_no_match(haystack, needle),
{
    let h2 = lower_all(haystack);
    let n2 = lower_all(needle);
    assert forall|j: int| #[trigger] ci_match_at(h2, n2, j) == ci_match_at(haystack, needle, j) by {
        if 0 <= j && j + needle.len() <= haystack.len() {
            assert forall|k: int| 0 <= k < needle.len() implies (ascii_lower(h2[j + k])
                == ascii_lower(n2[k])) == (ascii_lower(haystack[j + k]) == ascii_lower(
                needle[k],
            )) by {
                assert(h2[j + k] == ascii_lower(haystack[j + k]));
                assert(n2[k] == ascii_lower(needle[k]));
            }
            if ci_match_at(haystack, needle, j) {
                assert forall|k: int| 0 <= k < n2.len() implies #[trigger] ascii_lower(h2[j + k])
                    == ascii_lower(n2[k]) by {
                    assert(ascii_lower(haystack[j + k]) == ascii_lower(needle[k]));
                }
            }
            if ci_match_at(h2, n2, j) {
                assert forall|k: int| 0 <= k < needle.len() implies #[trigger] ascii_lower(
                    haystack[j + k],
                ) == ascii_lower(needle[k]) by {
                    assert(ascii_lower(h2[j + k]) == ascii_lower(n2[k]));
                }
            }
        }
    }
    if ci_first_match(h2, n2, i) {
        assert forall|j: int| 0 <= j < i implies !#[trigger] ci_match_at(haystack, needle, j) by {
            assert(!ci_match_at(h2, n2, j));
        }
    }
    if ci_first_match(haystack, needle, i) {
        assert forall|j: int| 0 <= j < i implies !#[trigger] ci_match_at(h2, n2, j) by {
            assert(!ci_match_at(haystack, needle, j));
        }
    }
    if ci_no_match(h2, n2) {
        assert forall|j: int| !#[trigger] ci_match_at(haystack, needle, j) by {
            assert(!ci_match_at(h2, n2, j));
        }
    }
    if ci_no_match(haystack, needle) {
        assert forall|j: int| !#[trigger] ci_match_at(h2, n2, j) by {
            assert(!ci_match_at(haystack, needle, j));
        }
    }
}

/// The empty needle is found at offset 0 of every haystack.
pub proof fn law_empty_needle_found_at_start(haystack: Seq<u8>)
    ensures
        ci_first_match(haystack, Seq::<u8>::empty(), 0),
{
}

/// The first match is unique: the search result is determined by its inputs.
pub proof fn law_first_match_unique(haystack: Seq<u8>, needle: Seq<u8>, i: int, j: int)
    requires
        ci_first_match(haystack, needle, i),
        ci_first_match(haystack, needle, j),
    ensures
        i == j,
{
    if i < j {
        assert(!ci_match_at(haystack, needle, i));
    } else if j < i {
        assert(!ci_match_at(haystack, needle, j));
    }
}

/// A non-empty needle that is valid UTF-8 only matches a valid UTF-8
/// haystack at the start of a character, so the offset found always splits
/// the haystack between two characters.
pub proof fn law_match_at_char_boundary(haystack: Seq<u8>, needle: Seq<u8>, i: int)
    requires
        valid_utf8(haystack),
        valid_utf8(needle),
        needle.len() > 0,
        ci_match_at(haystack, needle, i),
    ensures
        is_char_boundary(haystack, i),
{
    assert(valid_first_scalar(needle));
    assert(!is_continuation_byte(needle[0]));
    assert(ascii_lower(haystack[i + 0]) == ascii_lower(needle[0]));
    assert(!is_continuation_byte(haystack[i]));
    is_char_boundary_iff_not_is_continuation_byte(haystack, i);
}

proof fn lemma_trim_front_exists<A>(s: Seq<A>, p: spec_fn(A) -> bool) -> (k: int)
    ensures
        0 <= k <= s.len(),
        forall|i: int| 0 <= i < k ==> #[trigger] p(s[i]),
        k == s.len() || !p(s[k]),
    decreases s.len(),
{
    if s.len() > 0 && p(s[0]) {
        let t = s.drop_first();
        let k1 = lemma_trim_front_exists(t, p);
        assert forall|i: int| 0 <= i < k1 + 1 implies #[trigger] p(s[i]) by {
            if i > 0 {
                assert(p(t[i - 1]));
            }
        }
        k1 + 1
    } else {
        0
    }
}

proof fn lemma_trim_back_exists<A>(s: Seq<A>, p: spec_fn(A) -> bool, lo: int) -> (k: int)
    requires
        0 <= lo <= s.len(),
        lo < s.len() ==> !p(s[lo]),
    ensures
        lo <= k <= s.len(),
        forall|i: int| k <= i < s.len() ==> #[trigger] p(s[i]),
        lo < k ==> !p(s[k - 1]),
        lo == k ==> k == s.len(),
    decreases s.len() - lo,
{
    if lo == s.len() {
        lo
    } else if p(s[s.len() - 1]) {
        let t = s.drop_last();
        let k1 = lemma_trim_back_exists(t, p, lo);
        assert forall|i: int| k1 <= i < s.len() implies #[trigger] p(s[i]) by {
            if i < t.len() {
                assert(p(t[i]));
            }
        }
        k1
    } else {
        s.len() as int
    }
}

/// Stripping keeps one contiguous span of the input: everything before and
/// after it is stripped, and the span neither starts nor ends with an element
/// that would be stripped.
pub proof fn law_trim_is_span<A>(s: Seq<A>, p: spec_fn(A) -> bool) -> (span: (int, int))
    ensures
        0 <= span.0 <= span.1 <= s.len(),
        trim(s, p) == s.subrange(span.0, span.1),
        forall|i: int| 0 <= i < span.0 ==> #[trigger] p(s[i]),
        forall|i: int| span.1 <= i < s.len() ==> #[trigger] p(s[i]),
        span.0 < span.1 ==> !p(s[span.0]) && !p(s[span.1 - 1]),
        span.0 == span.1 ==> span.1 == s.len(),
{
    let a = lemma_trim_front_exists(s, p);
    let b = lemma_trim_back_exists(s, p, a);
    lemma_trim_span(s, p, a, b);
    (a, b)
}

/// Stripping twice is stripping once.
pub proof fn law_trim_idempotent<A>(s: Seq<A>, p: spec_fn(A) -> bool)
    ensures
        trim(trim(s, p), p) == trim(s, p),
{
    let (a, b) = law_trim_is_span(s, p);
    let t = s.subrange(a, b);
    if a < b {
        lemma_trim_span(t, p, 0, t.len() as int);
        assert(t.subrange(0, t.len() as int) =~= t);
    } else {
        lemma_trim_span(t, p, 0, 0);
        assert(t.subrange(0, 0) =~= t);
    }
}

proof fn lemma_encode_concat(a: Seq<char>, b: Seq<char>)
    ensures
        encode_utf8(a + b) == encode_utf8(a) + encode_utf8(b),
    decreases a.len(),
{
    if a.len() == 0 {
        assert(a + b =~= b);
        assert(encode_utf8(a) + encode_utf8(b) =~= encode_utf8(b));
    } else {
        lemma_encode_concat(a.drop_first(), b);
        assert((a + b).drop_first() =~= a.drop_first() + b);
        assert((a + b)[0] == a[0]);
        assert(encode_utf8(a + b) =~= encode_scalar(a[0] as u32) + encode_utf8(a.drop_first())
            + encode_utf8(b));
    }
}

proof fn lemma_high_bytes(x: u8)
    by (bit_vector)
    ensures
        (0x80u8 | x) >= 0x80,
        (0xC0u8 | x) >= 0x80,
        (0xE0u8 | x) >= 0x80,
        (0xF0u8 | x) >= 0x80,
{
}

proof fn lemma_low_byte(v: u32)
    by (bit_vector)
    requires
        v < 0x80,
    ensures
        (v & 0x7F) as u8 == v as u8,
        (v as u8) as u32 == v,
{
}

/// The UTF-8 encoding of one character: one byte, a blank one, for a blank
/// character; no blank byte at all for any other character.
proof fn lemma_encode_one_char(c: char)
    ensures
        encode_utf8(seq![c]) == encode_scalar(c as u32),
        encode_scalar(c as u32).len() >= 1,
        is_blank_char(c) ==> encode_scalar(c as u32).len() == 1 && is_strip_byte(
            encode_scalar(c as u32)[0],
        ),
        !is_blank_char(c) ==> forall|i: int|
            0 <= i < encode_scalar(c as u32).len() ==> !is_strip_byte(
                #[trigger] encode_scalar(c as u32)[i],
            ),
{
    let v = c as u32;
    let one = seq![c];
    assert(one.drop_first() =~= Seq::<char>::empty());
    assert(encode_utf8(one.drop_first()) =~= Seq::<u8>::empty());
    assert(one[0] == c);
    assert(encode_utf8(one) == encode_scalar(one[0] as u32) + encode_utf8(one.drop_first()));
    assert(encode_scalar(v) + Seq::<u8>::empty() =~= encode_scalar(v));
    if v < 0x80 {
        lemma_low_byte(v);
    } else {
        lemma_high_bytes(((v >> 6) & 0x1F) as u8);
        lemma_high_bytes(((v >> 12) & 0x0F) as u8);
        lemma_high_bytes(((v >> 18) & 0x7) as u8);
        lemma_high_bytes((v & 0x3F) as u8);
        lemma_high_bytes(((v >> 6) & 0x3F) as u8);
        lemma_high_bytes(((v >> 12) & 0x3F) as u8);
    }
}

/// Blank characters encode to just as many blank bytes.
proof fn lemma_encode_blanks(s: Seq<char>)
    requires
        forall|i: int| 0 <= i < s.len() ==> #[trigger] is_blank_char(s[i]),
    ensures
        forall|i: int|
            0 <= i < encode_utf8(s).len() ==> #[trigger] is_strip_byte(encode_utf8(s)[i]),
{
    assert(is_ascii_chars(s)) by {
        assert forall|i: int| 0 <= i < s.len() implies '\0' <= #[trigger] s[i] <= '\u{7f}' by {
            assert(is_blank_char(s[i]));
        }
    }
    is_ascii_chars_encode_utf8(s);
    assert forall|i: int| 0 <= i < encode_utf8(s).len() implies #[trigger] is_strip_byte(
        encode_utf8(s)[i],
    ) by {
        assert(is_blank_char(s[i]));
        assert(s[i] as u8 == encode_utf8(s)[i]);
    }
}

/// Stripping blank bytes from the UTF-8 encoding of a text strips the blank
/// characters from the text: the ASCII stripping of `utilstr` works on
/// characters, though it looks at bytes.
pub proof fn law_blank_strip_on_chars(s: Seq<char>)
    ensures
        decode_utf8(strip_bytes(encode_utf8(s))) == strip_blank_chars(s),
{
    let p = |c: char| is_blank_char(c);
    let (a, c) = law_trim_is_span(s, p);
    let pre = s.subrange(0, a);
    let mid = s.subrange(a, c);
    let suf = s.subrange(c, s.len() as int);
    assert(s =~= pre + mid + suf);
    lemma_encode_concat(pre + mid, suf);
    lemma_encode_concat(pre, mid);
    let ep = encode_utf8(pre);
    let em = encode_utf8(mid);
    let es = encode_utf8(suf);
    let eb = encode_utf8(s);
    assert(eb == ep + em + es);
    assert forall|i: int| 0 <= i < pre.len() implies #[trigger] is_blank_char(pre[i]) by {
        assert(p(s[i]));
    }
    assert forall|i: int| 0 <= i < suf.len() implies #[trigger] is_blank_char(suf[i]) by {
        assert(p(s[c + i]));
    }
    lemma_encode_blanks(pre);
    lemma_encode_blanks(suf);
    if a < c {
        let first = mid[0];
        let last = mid[mid.len() - 1];
        assert(mid =~= seq![first] + mid.drop_first());
        lemma_encode_concat(seq![first], mid.drop_first());
        lemma_encode_one_char(first);
        assert(mid =~= mid.drop_last() + seq![last]);
        lemma_encode_concat(mid.drop_last(), seq![last]);
        lemma_encode_one_char(last);
        assert(!is_blank_char(first));
        assert(!is_blank_char(last));
        let el = encode_scalar(last as u32);
        assert(em.last() == el[el.len() - 1]);
        assert(!is_strip_byte(em[0]));
        assert(!is_strip_byte(em[em.len() - 1]));
    } else {
        assert(suf.len() == 0);
        assert(mid.len() == 0);
    }
    let start = ep.len() as int;
    let end: int = (ep.len() + em.len()) as int;
    assert forall|i: int| 0 <= i < start implies #[trigger] is_strip_byte(eb[i]) by {
        assert(eb[i] == ep[i]);
    }
    assert forall|i: int| end <= i < eb.len() implies #[trigger] is_strip_byte(eb[i]) by {
        assert(eb[i] == es[i - end]);
    }
    lemma_trim_span(eb, |b: u8| is_strip_byte(b), start, end);
    assert(eb.subrange(start, end) =~= em);
    encode_utf8_decode_utf8(mid);
}

/// `x` and `y` are the same byte up to ASCII case: equal, or an ASCII capital
/// letter and the small letter 32 above it.
pub open spec fn same_up_to_case(x: u8, y: u8) -> bool {
    x == y || (65 <= x <= 90 && y == x + 32) || (65 <= y <= 90 && x == y + 32)
}

/// Folding lower-cases: the folded byte is never an ASCII capital, and it is
/// the byte itself up to ASCII case. (This determines the fold completely:
/// `A..=Z` go to `a..=z`, every other byte stays.)
pub proof fn law_fold_lower_cases(x: u8)
    ensures
        !(65 <= ascii_lower(x) <= 90),
        same_up_to_case(x, ascii_lower(x)),
        65 <= x <= 90 ==> ascii_lower(x) == x + 32,
        !(65 <= x <= 90) ==> ascii_lower(x) == x,
{
}

/// Two bytes fold alike exactly when they are the same up to ASCII case.
pub proof fn law_fold_agrees_iff_same_up_to_case(x: u8, y: u8)
    ensures
        (ascii_lower(x) == ascii_lower(y)) <==> same_up_to_case(x, y),
{
}

/// The needle matches at `i` exactly when the haystack bytes from `i` on are
/// the needle's bytes up to ASCII case.
pub proof fn law_match_iff_same_up_to_case(haystack: Seq<u8>, needle: Seq<u8>, i: int)
    ensures
        ci_match_at(haystack, needle, i) <==> (0 <= i && i + needle.len() <= haystack.len() && (
        forall|k: int|
            0 <= k < needle.len() ==> #[trigger] same_up_to_case(haystack[i + k], needle[k]))),
{
    if 0 <= i && i + needle.len() <= haystack.len() {
        if ci_match_at(haystack, needle, i) {
            assert forall|k: int| 0 <= k < needle.len() implies #[trigger] same_up_to_case(
                haystack[i + k],
                needle[k],
            ) by {
                assert(ascii_lower(haystack[i + k]) == ascii_lower(needle[k]));
                law_fold_agrees_iff_same_up_to_case(haystack[i + k], needle[k]);
            }
        }
        if forall|k: int|
            0 <= k < needle.len() ==> #[trigger] same_up_to_case(haystack[i + k], needle[k]) {
            assert forall|k: int| 0 <= k < needle.len() implies #[trigger] ascii_lower(
                haystack[i + k],
            ) == ascii_lower(needle[k]) by {
                assert(same_up_to_case(haystack[i + k], needle[k]));
                law_fold_agrees_iff_same_up_to_case(haystack[i + k], needle[k]);
            }
        }
    }
}

/// A haystack that starts with the needle up to ASCII case has its first
/// match at offset 0 (so `stristr(upper(s), lower(s)) == Some(0)`).
pub proof fn law_case_variant_found_at_start(haystack: Seq<u8>, needle: Seq<u8>)
    requires
        needle.len() <= haystack.len(),
        forall|k: int| 0 <= k < needle.len() ==> #[trigger] same_up_to_case(haystack[k], needle[k]),
    ensures
        ci_first_match(haystack, needle, 0),
{
    assert forall|k: int| 0 <= k < needle.len() implies #[trigger] same_up_to_case(
        haystack[0 + k],
        needle[k],
    ) by {
        assert(haystack[0 + k] == haystack[k]);
    }
    law_match_iff_same_up_to_case(haystack, needle, 0);
}

/// The first `k` bytes of `l` are not NUL and equal those of `r` up to ASCII
/// case.
pub open spec fn common_prefix(l: Seq<u8>, r: Seq<u8>, k: int) -> bool {
    forall|m: int| 0 <= m < k ==> l[m] != 0 && #[trigger] same_up_to_case(l[m], r[m])
}

proof fn lemma_compare_shift(l: Seq<u8>, r: Seq<u8>, k: int, i: int, limit: int)
    requires
        0 <= k <= l.len(),
        k <= r.len(),
        0 <= i,
    ensures
        ci_compare_from(l, r, k + i, k + limit) == ci_compare_from(
            l.subrange(k, l.len() as int),
            r.subrange(k, r.len() as int),
            i,
            limit,
        ),
    decreases limit - i,
{
    let ls = l.subrange(k, l.len() as int);
    let rs = r.subrange(k, r.len() as int);
    assert(byte_or_nul(l, k + i) == byte_or_nul(ls, i));
    assert(byte_or_nul(r, k + i) == byte_or_nul(rs, i));
    if i < limit {
        lemma_compare_shift(l, r, k, i + 1, limit);
        assert(k + (i + 1) == k + i + 1);
    }
}

proof fn lemma_compare_prefix(l: Seq<u8>, r: Seq<u8>, k: int, j: int, limit: int)
    requires
        0 <= j <= k <= l.len(),
        k <= r.len(),
        0 <= limit,
        common_prefix(l, r, k),
    ensures
        ci_compare_from(l, r, j, k + limit) == ci_compare_from(l, r, k, k + limit),
    decreases k - j,
{
    if j < k {
        assert(same_up_to_case(l[j], r[j]));
        assert(l[j] != 0);
        law_fold_agrees_iff_same_up_to_case(l[j], r[j]);
        lemma_compare_prefix(l, r, k, j + 1, limit);
    }
}

/// The comparison moves past bytes that are equal up to ASCII case and not
/// NUL: with such a common prefix of length `k`, comparing the whole strings
/// (bound `k + limit`) is comparing what follows the prefix (bound `limit`),
/// and `stricmp(p + a, p' + b)` is `stricmp(a, b)`.
pub proof fn law_compare_skips_common_prefix(l: Seq<u8>, r: Seq<u8>, k: int, limit: int)
    requires
        0 <= k <= l.len(),
        k <= r.len(),
        0 <= limit,
        common_prefix(l, r, k),
    ensures
        ci_compare(l, r, k + limit) == ci_compare(
            l.subrange(k, l.len() as int),
            r.subrange(k, r.len() as int),
            limit,
        ),
        ci_compare(l, r, max_len(l, r)) == ci_compare(
            l.subrange(k, l.len() as int),
            r.subrange(k, r.len() as int),
            max_len(l.subrange(k, l.len() as int), r.subrange(k, r.len() as int)),
        ),
{
    let ls = l.subrange(k, l.len() as int);
    let rs = r.subrange(k, r.len() as int);
    lemma_compare_prefix(l, r, k, 0, limit);
    lemma_compare_shift(l, r, k, 0, limit);
    let m = max_len(ls, rs);
    assert(max_len(l, r) == k + m);
    lemma_compare_prefix(l, r, k, 0, m);
    lemma_compare_shift(l, r, k, 0, m);
}

/// When the first bytes differ beyond ASCII case, the comparison gives the
/// difference of their lower-cased values (negative when `l` sorts first).
pub proof fn law_compare_first_difference(l: Seq<u8>, r: Seq<u8>, limit: int)
    requires
        0 < limit,
        0 < l.len(),
        0 < r.len(),
        !same_up_to_case(l[0], r[0]),
    ensures
        ci_compare(l, r, limit) == ascii_lower(l[0]) as int - ascii_lower(r[0]) as int,
        ci_compare(l, r, limit) != 0,
{
    law_fold_agrees_iff_same_up_to_case(l[0], r[0]);
}

/// A string that has ended sorts before one that goes on with a non-NUL
/// byte.
pub proof fn law_compare_end_sorts_first(l: Seq<u8>, r: Seq<u8>, limit: int)
    requires
        0 < limit,
        l.len() == 0,
        0 < r.len(),
        r[0] != 0,
    ensures
        ci_compare(l, r, limit) == -(ascii_lower(r[0]) as int),
        ci_compare(l, r, limit) < 0,
{
    lemma_lower_zero(r[0]);
}

/// The comparison stops where the first string ends (at its end or at a NUL
/// byte): 0 if the second ends there too, otherwise minus the second's
/// lower-cased byte there, so the ended string sorts first.
pub proof fn law_compare_stops_at_nul(l: Seq<u8>, r: Seq<u8>, limit: int)
    requires
        0 < limit,
        l.len() == 0 || l[0] == 0,
    ensures
        (r.len() == 0 || r[0] == 0) ==> ci_compare(l, r, limit) == 0,
        (r.len() > 0 && r[0] != 0) ==> ci_compare(l, r, limit) == -(ascii_lower(r[0]) as int)
            && ci_compare(l, r, limit) < 0,
{
    if r.len() > 0 {
        lemma_lower_zero(r[0]);
    }
}

proof fn lemma_compare_zero_iff(l: Seq<u8>, r: Seq<u8>, i: int)
    requires
        0 <= i,
        i <= l.len(),
        i <= r.len(),
        forall|k: int| 0 <= k < l.len() ==> #[trigger] l[k] != 0,
        forall|k: int| 0 <= k < r.len() ==> #[trigger] r[k] != 0,
    ensures
        (ci_compare_from(l, r, i, max_len(l, r)) == 0) <==> (l.len() == r.len() && forall|k: int|
            i <= k < l.len() ==> #[trigger] same_up_to_case(l[k], r[k])),
    decreases l.len() + r.len() - 2 * i,
{
    if i == l.len() && i == r.len() {
    } else if i == l.len() {
        assert(r[i] != 0);
        lemma_lower_zero(r[i]);
    } else if i == r.len() {
        assert(l[i] != 0);
        lemma_lower_zero(l[i]);
    } else {
        assert(l[i] != 0);
        law_fold_agrees_iff_same_up_to_case(l[i], r[i]);
        lemma_compare_zero_iff(l, r, i + 1);
        if !same_up_to_case(l[i], r[i]) {
            assert(!(forall|k: int| i <= k < l.len() ==> #[trigger] same_up_to_case(l[k], r[k])));
        } else {
            if l.len() == r.len() && (forall|k: int|
                i + 1 <= k < l.len() ==> #[trigger] same_up_to_case(l[k], r[k])) {
                assert forall|k: int| i <= k < l.len() implies #[trigger] same_up_to_case(
                    l[k],
                    r[k],
                ) by {
                    if k == i {
                    } else {
                    }
                }
            }
        }
    }
}

/// `stricmp` gives 0 for strings without NUL bytes exactly when they have the
/// same length and are equal up to ASCII case.
pub proof fn law_compare_zero_iff_same_up_to_case(l: Seq<u8>, r: Seq<u8>)
    requires
        forall|k: int| 0 <= k < l.len() ==> #[trigger] l[k] != 0,
        forall|k: int| 0 <= k < r.len() ==> #[trigger] r[k] != 0,
    ensures
        (ci_compare(l, r, max_len(l, r)) == 0) <==> (l.len() == r.len() && forall|k: int|
            0 <= k < l.len() ==> #[trigger] same_up_to_case(l[k], r[k])),
{
    lemma_compare_zero_iff(l, r, 0);
}

/// A bound at or past both ends makes `strnicmp` the whole comparison
/// `stricmp`.
pub proof fn law_bounded_long_enough(l: Seq<u8>, r: Seq<u8>, len: i32)
    requires
        len as int >= max_len(l, r),
    ensures
        ci_compare_up_to(l, r, len) == ci_compare(l, r, max_len(l, r)),
{
    law_bound_past_both_ends(l, r, len as int);
}

/// `strnicmp` moves past a common prefix of `k` non-NUL bytes equal up to
/// ASCII case that lies within its bound, and goes on comparing with the rest
/// of the bound, `len - k`.
pub proof fn law_bounded_skips_common_prefix(l: Seq<u8>, r: Seq<u8>, k: int, len: i32)
    requires
        0 <= k <= len,
        k <= l.len(),
        k <= r.len(),
        common_prefix(l, r, k),
    ensures
        ci_compare_up_to(l, r, len) == ci_compare(
            l.subrange(k, l.len() as int),
            r.subrange(k, r.len() as int),
            len - k,
        ),
{
    law_compare_skips_common_prefix(l, r, k, len - k);
}

/// A bound that is not positive compares nothing.
pub proof fn law_bounded_nonpositive(l: Seq<u8>, r: Seq<u8>, len: i32)
    requires
        len <= 0,
    ensures
        ci_compare_up_to(l, r, len) == 0,
{
}

/// Stripping Unicode whitespace keeps one span of the text: everything before
/// and after it is whitespace, and what is kept neither starts nor ends with
/// whitespace.
pub proof fn law_strip_white_space(s: Seq<char>) -> (span: (int, int))
    ensures
        0 <= span.0 <= span.1 <= s.len(),
        strip_white_space(s) == s.subrange(span.0, span.1),
        forall|i: int| 0 <= i < span.0 ==> #[trigger] is_white_space(s[i]),
        forall|i: int| span.1 <= i < s.len() ==> #[trigger] is_white_space(s[i]),
        strip_white_space(s).len() > 0 ==> !is_white_space(strip_white_space(s)[0])
            && !is_white_space(strip_white_space(s).last()),
{
    let p = |c: char| is_white_space(c);
    let span = law_trim_is_span(s, p);
    assert forall|i: int| 0 <= i < span.0 implies #[trigger] is_white_space(s[i]) by {
        assert(p(s[i]));
    }
    assert forall|i: int| span.1 <= i < s.len() implies #[trigger] is_white_space(s[i]) by {
        assert(p(s[i]));
    }
    span
}

/// Stripping blank characters keeps one span of the text: everything before
/// and after it is a space, tab, line feed or carriage return, and what is
/// kept neither starts nor ends with one.
pub proof fn law_strip_blank_chars(s: Seq<char>) -> (span: (int, int))
    ensures
        0 <= span.0 <= span.1 <= s.len(),
        strip_blank_chars(s) == s.subrange(span.0, span.1),
        forall|i: int|
            0 <= i < span.0 ==> (#[trigger] s[i] == ' ' || s[i] == '\t' || s[i] == '\n' || s[i]
                == '\r'),
        forall|i: int|
            span.1 <= i < s.len() ==> (#[trigger] s[i] == ' ' || s[i] == '\t' || s[i] == '\n'
                || s[i] == '\r'),
        span.0 < span.1 ==> {
            let c = s[span.0];
            let d = s[span.1 - 1];
            &&& !(c == ' ' || c == '\t' || c == '\n' || c == '\r')
            &&& !(d == ' ' || d == '\t' || d == '\n' || d == '\r')
        },
{
    let p = |c: char| is_blank_char(c);
    let span = law_trim_is_span(s, p);
    assert forall|i: int| 0 <= i < span.0 implies (#[trigger] s[i] == ' ' || s[i] == '\t' || s[i] == '\n' || s[i] == '\r') by {
        assert(p(s[i]));
    }
    assert forall|i: int| span.1 <= i < s.len() implies (#[trigger] s[i] == ' ' || s[i] == '\t' || s[i] == '\n' || s[i] == '\r') by {
        assert(p(s[i]));
    }
    span
}

/// Stripping blank bytes keeps one span: everything before and after it is
/// 32, 9, 10 or 13, and the span neither starts nor ends with one of them.
pub proof fn law_strip_bytes(b: Seq<u8>) -> (span: (int, int))
    ensures
        0 <= span.0 <= span.1 <= b.len(),
        strip_bytes(b) == b.subrange(span.0, span.1),
        forall|i: int|
            0 <= i < span.0 ==> (#[trigger] b[i] == 32 || b[i] == 9 || b[i] == 10 || b[i] == 13),
        forall|i: int|
            span.1 <= i < b.len() ==> (#[trigger] b[i] == 32 || b[i] == 9 || b[i] == 10 || b[i]
                == 13),
        span.0 < span.1 ==> {
            let x = b[span.0];
            let y = b[span.1 - 1];
            &&& !(x == 32 || x == 9 || x == 10 || x == 13)
            &&& !(y == 32 || y == 9 || y == 10 || y == 13)
        },
{
    let p = |x: u8| is_strip_byte(x);
    let span = law_trim_is_span(b, p);
    assert forall|i: int| 0 <= i < span.0 implies (#[trigger] b[i] == 32 || b[i] == 9 || b[i] == 10 || b[i] == 13) by {
        assert(p(b[i]));
    }
    assert forall|i: int| span.1 <= i < b.len() implies (#[trigger] b[i] == 32 || b[i] == 9 || b[i] == 10 || b[i] == 13) by {
        assert(p(b[i]));
    }
    span
}

/// Stripping ASCII whitespace keeps one span: everything before and after it
/// is 32, 9, 10, 12 or 13, and the span neither starts nor ends with one of
/// them.
pub proof fn law_strip_ascii_whitespace(b: Seq<u8>) -> (span: (int, int))
    ensures
        0 <= span.0 <= span.1 <= b.len(),
        strip_ascii_whitespace(b) == b.subrange(span.0, span.1),
        forall|i: int|
            0 <= i < span.0 ==> (#[trigger] b[i] == 32 || b[i] == 9 || b[i] == 10 || b[i] == 12
                || b[i] == 13),
        forall|i: int|
            span.1 <= i < b.len() ==> (#[trigger] b[i] == 32 || b[i] == 9 || b[i] == 10 || b[i]
                == 12 || b[i] == 13),
        span.0 < span.1 ==> {
            let x = b[span.0];
            let y = b[span.1 - 1];
            &&& !(x == 32 || x == 9 || x == 10 || x == 12 || x == 13)
            &&& !(y == 32 || y == 9 || y == 10 || y == 12 || y == 13)
        },
{
    let p = |x: u8| crate::model::is_ascii_whitespace_byte(x);
    let span = law_trim_is_span(b, p);
    assert forall|i: int| 0 <= i < span.0 implies (#[trigger] b[i] == 32 || b[i] == 9 || b[i] == 10 || b[i] == 12 || b[i] == 13) by {
        assert(p(b[i]));
    }
    assert forall|i: int| span.1 <= i < b.len() implies (#[trigger] b[i] == 32 || b[i] == 9 || b[i] == 10 || b[i] == 12 || b[i] == 13) by {
        assert(p(b[i]));
    }
    span
}

} // verus!
