//! Character and string utilities shared by the graph engine: conversions
//! between `&str`/`String` and `Vec<char>`, ASCII classification, substring
//! search, lexicographic comparison, and decimal parsing/formatting.

use vstd::prelude::*;

verus! {

use vstd::std_specs::iter::IteratorSpec;

broadcast use vstd::string::group_string_axioms;

/// The scalar-value range that every `char` inhabits.
pub proof fn lemma_char_value_range(c: char)
    ensures
        0 <= c as int <= 0x10FFFF,
{
}

/// View-level equality of two strings.
pub fn string_eq(a: &String, b: &String) -> (r: bool)
    ensures
        r == (a@ == b@),
{
    a.eq(b)
}

/// Relies on `String::push`: appends one character to the end of the string.
#[verifier::external_body]
pub fn push_char(s: &mut String, c: char)
    ensures
        final(s)@ == old(s)@.push(c),
{
    s.push(c);
}

/// Collect the characters of a string slice into a vector.
pub fn chars_vec(s: &str) -> (r: Vec<char>)
    ensures
        r@ == s@,
{
    let n = s.unicode_len();
    let mut r: Vec<char> = Vec::new();
    let mut i: usize = 0;
    while i < n
        invariant
            n == s@.len(),
            i <= n,
            r@ == s@.subrange(0, i as int),
        decreases n - i,
    {
        r.push(s.get_char(i));
        i = i + 1;
        proof {
            assert(r@ =~= s@.subrange(0, i as int));
        }
    }
    proof {
        assert(r@ =~= s@);
    }
    r
}

/// Rebuild a string from a vector of characters.
pub fn string_from_chars(v: &Vec<char>) -> (r: String)
    ensures
        r@ == v@,
{
    let mut r = String::new();
    let mut i: usize = 0;
    while i < v.len()
        invariant
            i <= v.len(),
            r@ == v@.subrange(0, i as int),
        decreases v.len() - i,
    {
        push_char(&mut r, v[i]);
        i = i + 1;
        proof {
            assert(r@ =~= v@.subrange(0, i as int));
        }
    }
    proof {
        assert(r@ =~= v@);
    }
    r
}

pub open spec fn spec_is_ascii_digit(c: char) -> bool {
    '0' <= c && c <= '9'
}

#[verifier::when_used_as_spec(spec_is_ascii_digit)]
pub fn is_ascii_digit_c(c: char) -> (r: bool)
    ensures
        r == spec_is_ascii_digit(c),
{
    '0' <= c && c <= '9'
}

pub open spec fn spec_is_ascii_alphanumeric(c: char) -> bool {
    ('0' <= c && c <= '9') || ('a' <= c && c <= 'z') || ('A' <= c && c <= 'Z')
}

#[verifier::when_used_as_spec(spec_is_ascii_alphanumeric)]
pub fn is_ascii_alphanumeric_c(c: char) -> (r: bool)
    ensures
        r == spec_is_ascii_alphanumeric(c),
{
    ('0' <= c && c <= '9') || ('a' <= c && c <= 'z') || ('A' <= c && c <= 'Z')
}

/// ASCII lowercasing of a single character, as `char::to_ascii_lowercase`.
pub open spec fn spec_ascii_lower(c: char) -> char {
    if 'A' <= c && c <= 'Z' {
        (c as u32 + 32) as char
    } else {
        c
    }
}

#[verifier::when_used_as_spec(spec_ascii_lower)]
pub fn ascii_lower_c(c: char) -> (r: char)
    ensures
        r == spec_ascii_lower(c),
{
    match c {
        'A' => 'a',
        'B' => 'b',
        'C' => 'c',
        'D' => 'd',
        'E' => 'e',
        'F' => 'f',
        'G' => 'g',
        'H' => 'h',
        'I' => 'i',
        'J' => 'j',
        'K' => 'k',
        'L' => 'l',
        'M' => 'm',
        'N' => 'n',
        'O' => 'o',
        'P' => 'p',
        'Q' => 'q',
        'R' => 'r',
        'S' => 's',
        'T' => 't',
        'U' => 'u',
        'V' => 'v',
        'W' => 'w',
        'X' => 'x',
        'Y' => 'y',
        'Z' => 'z',
        _ => c,
    }
}

/// Whitespace recognized when trimming, as `char::is_whitespace` for the
/// ASCII range plus the common Unicode space separators.
pub open spec fn spec_is_space(c: char) -> bool {
    c == ' ' || c == '\t' || c == '\n' || c == '\r' || c == '\u{000B}' || c == '\u{000C}' || c
        == '\u{0085}' || c == '\u{00A0}' || c == '\u{2028}' || c == '\u{2029}' || c == '\u{3000}'
        || ('\u{2000}' <= c && c <= '\u{200A}') || c == '\u{1680}' || c == '\u{202F}' || c
        == '\u{205F}'
}

#[verifier::when_used_as_spec(spec_is_space)]
pub fn is_space_c(c: char) -> (r: bool)
    ensures
        r == spec_is_space(c),
{
    c == ' ' || c == '\t' || c == '\n' || c == '\r' || c == '\u{000B}' || c == '\u{000C}' || c
        == '\u{0085}' || c == '\u{00A0}' || c == '\u{2028}' || c == '\u{2029}' || c == '\u{3000}'
        || ('\u{2000}' <= c && c <= '\u{200A}') || c == '\u{1680}' || c == '\u{202F}' || c
        == '\u{205F}'
}

/// Number of leading whitespace characters of `s`.
pub open spec fn leading_spaces(s: Seq<char>) -> int
    decreases s.len(),
{
    if s.len() == 0 || !spec_is_space(s[0]) {
        0
    } else {
        1 + leading_spaces(s.skip(1))
    }
}

pub proof fn lemma_leading_spaces_bound(s: Seq<char>)
    ensures
        0 <= leading_spaces(s) <= s.len(),
        forall|i: int| 0 <= i < leading_spaces(s) ==> spec_is_space(s[i]),
        leading_spaces(s) < s.len() ==> !spec_is_space(s[leading_spaces(s)]),
    decreases s.len(),
{
    if s.len() == 0 || !spec_is_space(s[0]) {
    } else {
        lemma_leading_spaces_bound(s.skip(1));
        assert forall|i: int| 0 <= i < leading_spaces(s) implies spec_is_space(s[i]) by {
            if i > 0 {
                assert(s.skip(1)[i - 1] == s[i]);
            }
        }
        if leading_spaces(s) < s.len() {
            assert(s.skip(1)[leading_spaces(s) - 1] == s[leading_spaces(s)]);
        }
    }
}

/// Number of trailing whitespace characters of `s`.
pub open spec fn trailing_spaces(s: Seq<char>) -> int
    decreases s.len(),
{
    if s.len() == 0 || !spec_is_space(s[s.len() - 1]) {
        0
    } else {
        1 + trailing_spaces(s.take(s.len() - 1))
    }
}

pub proof fn lemma_trailing_spaces_bound(s: Seq<char>)
    ensures
        0 <= trailing_spaces(s) <= s.len(),
        forall|i: int| s.len() - trailing_spaces(s) <= i < s.len() ==> spec_is_space(s[i]),
        trailing_spaces(s) < s.len() ==> !spec_is_space(s[s.len() - trailing_spaces(s) - 1]),
    decreases s.len(),
{
    if s.len() == 0 || !spec_is_space(s[s.len() - 1]) {
    } else {
        lemma_trailing_spaces_bound(s.take(s.len() - 1));
        assert forall|i: int| s.len() - trailing_spaces(s) <= i < s.len() implies spec_is_space(
            s[i],
        ) by {
            if i < s.len() - 1 {
                assert(s.take(s.len() - 1)[i] == s[i]);
            }
        }
        if trailing_spaces(s) < s.len() {
            assert(s.take(s.len() - 1)[s.len() - trailing_spaces(s) - 1] == s[s.len()
                - trailing_spaces(s) - 1]);
        }
    }
}

/// The view of `s` with surrounding whitespace removed, as `str::trim`.
pub open spec fn spec_trim(s: Seq<char>) -> Seq<char> {
    if leading_spaces(s) == s.len() {
        Seq::empty()
    } else {
        s.subrange(leading_spaces(s), s.len() - trailing_spaces(s))
    }
}

/// Trim surrounding whitespace from a character vector.
pub fn trim_chars(v: &Vec<char>) -> (r: Vec<char>)
    ensures
        r@ == spec_trim(v@),
{
    proof {
        lemma_leading_spaces_bound(v@);
        lemma_trailing_spaces_bound(v@);
    }
    let mut lo: usize = 0;
    while lo < v.len() && is_space_c(v[lo])
        invariant
            0 <= lo <= v.len(),
            forall|i: int| 0 <= i < lo ==> spec_is_space(v@[i]),
            leading_spaces(v@) >= lo,
        decreases v.len() - lo,
    {
        proof {
            lemma_leading_spaces_prefix_pub(v@, lo as int);
        }
        lo = lo + 1;
    }
    proof {
        lemma_leading_spaces_bound(v@);
        if lo < v.len() {
            assert(leading_spaces(v@) <= lo);
        }
    }
    if lo == v.len() {
        proof {
            assert(leading_spaces(v@) == v@.len());
        }
        return Vec::new();
    }
    let mut hi: usize = v.len();
    while hi > lo && is_space_c(v[hi - 1])
        invariant
            lo <= hi <= v.len(),
            lo < v.len(),
            !spec_is_space(v@[lo as int]),
            forall|i: int| hi <= i < v.len() ==> spec_is_space(v@[i]),
            trailing_spaces(v@) >= v.len() - hi,
        decreases hi,
    {
        proof {
            lemma_trailing_spaces_suffix_pub(v@, (v.len() - hi) as int);
        }
        hi = hi - 1;
    }
    proof {
        lemma_trailing_spaces_bound(v@);
        lemma_leading_spaces_bound(v@);
        if hi > lo {
            assert(trailing_spaces(v@) <= v@.len() - hi);
        } else {
            // hi == lo and v[lo] is not a space, so the trailing run stops there
            assert(trailing_spaces(v@) <= v@.len() - lo - 1) by {
                if trailing_spaces(v@) > v@.len() - lo - 1 {
                    assert(spec_is_space(v@[lo as int]));
                }
            }
            assert(false);
        }
        assert(leading_spaces(v@) == lo);
    }
    let mut r: Vec<char> = Vec::new();
    let mut i: usize = lo;
    while i < hi
        invariant
            lo <= i <= hi <= v.len(),
            r@ == v@.subrange(lo as int, i as int),
        decreases hi - i,
    {
        r.push(v[i]);
        i = i + 1;
        proof {
            assert(r@ =~= v@.subrange(lo as int, i as int));
        }
    }
    proof {
        assert(r@ =~= spec_trim(v@));
    }
    r
}

pub proof fn lemma_leading_spaces_prefix_pub(s: Seq<char>, k: int)
    requires
        0 <= k < s.len(),
        forall|i: int| 0 <= i <= k ==> spec_is_space(s[i]),
    ensures
        leading_spaces(s) >= k + 1,
    decreases k,
{
    if k == 0 {
        lemma_leading_spaces_bound(s.skip(1));
    } else {
        assert forall|i: int| 0 <= i <= k - 1 implies spec_is_space(s.skip(1)[i]) by {
            assert(s.skip(1)[i] == s[i + 1]);
        }
        lemma_leading_spaces_prefix_pub(s.skip(1), k - 1);
    }
}

pub proof fn lemma_trailing_spaces_suffix_pub(s: Seq<char>, k: int)
    requires
        0 <= k < s.len(),
        forall|i: int| s.len() - k - 1 <= i < s.len() ==> spec_is_space(s[i]),
    ensures
        trailing_spaces(s) >= k + 1,
    decreases k,
{
    if k == 0 {
        lemma_trailing_spaces_bound(s.take(s.len() - 1));
        assert(spec_is_space(s[s.len() - 1]));
    } else {
        assert forall|i: int|
            s.take(s.len() - 1).len() - (k - 1) - 1 <= i < s.take(s.len() - 1).len() implies
            spec_is_space(#[trigger] s.take(s.len() - 1)[i]) by {
            assert(s.take(s.len() - 1)[i] == s[i]);
        }
        lemma_trailing_spaces_suffix_pub(s.take(s.len() - 1), k - 1);
    }
}


/// `n` occurs in `h` starting at index `i`.
pub open spec fn is_sub_at(h: Seq<char>, n: Seq<char>, i: int) -> bool {
    0 <= i && i + n.len() <= h.len() && h.subrange(i, i + n.len()) == n
}

/// `n` occurs somewhere in `h`.
pub open spec fn spec_contains_sub(h: Seq<char>, n: Seq<char>) -> bool {
    exists|i: int| is_sub_at(h, n, i)
}

/// Compare `n` against the characters of `h` starting at `i`.
pub fn eq_at(h: &Vec<char>, i: usize, n: &Vec<char>) -> (r: bool)
    requires
        i + n@.len() <= h@.len(),
    ensures
        r == is_sub_at(h@, n@, i as int),
{
    let hl = h.len();
    let mut j: usize = 0;
    while j < n.len()
        invariant
            hl == h@.len(),
            i + n@.len() <= h@.len(),
            j <= n@.len(),
            forall|k: int| 0 <= k < j ==> h@[i + k] == n@[k],
        decreases n@.len() - j,
    {
        if h[i + j] != n[j] {
            proof {
                assert(h@.subrange(i as int, i + n@.len())[j as int] == h@[i + j]);
            }
            return false;
        }
        j = j + 1;
    }
    proof {
        assert(h@.subrange(i as int, i + n@.len()) =~= n@);
    }
    true
}

/// Index of the first occurrence of `n` in `h`, if any.
pub fn find_sub(h: &Vec<char>, n: &Vec<char>) -> (r: Option<usize>)
    ensures
        match r {
            Some(i) => is_sub_at(h@, n@, i as int) && forall|j: int|
                0 <= j < i ==> !is_sub_at(h@, n@, j),
            None => !spec_contains_sub(h@, n@),
        },
{
    if n.len() > h.len() {
        return None;
    }
    if n.len() == 0 {
        proof {
            assert(h@.subrange(0, 0) =~= n@);
        }
        return Some(0);
    }
    let bound = h.len() - n.len();
    let mut i: usize = 0;
    while i <= bound
        invariant
            1 <= n@.len() <= h@.len(),
            h@.len() <= usize::MAX,
            bound == h@.len() - n@.len(),
            i <= bound + 1,
            forall|j: int| 0 <= j < i ==> !is_sub_at(h@, n@, j),
        decreases bound + 1 - i,
    {
        if eq_at(h, i, n) {
            return Some(i);
        }
        i = i + 1;
    }
    None
}

/// Whether `n` occurs in `h`.
pub fn contains_sub(h: &Vec<char>, n: &Vec<char>) -> (r: bool)
    ensures
        r == spec_contains_sub(h@, n@),
{
    match find_sub(h, n) {
        Some(_) => true,
        None => false,
    }
}

/// Whether `p` is a prefix of `v`.
pub fn starts_with_chars(v: &Vec<char>, p: &Vec<char>) -> (r: bool)
    ensures
        r == (p@.len() <= v@.len() && v@.subrange(0, p@.len() as int) == p@),
{
    if p.len() > v.len() {
        return false;
    }
    eq_at(v, 0, p)
}

/// Whether `p` is a suffix of `v`.
pub fn ends_with_chars(v: &Vec<char>, p: &Vec<char>) -> (r: bool)
    ensures
        r == (p@.len() <= v@.len() && v@.subrange(v@.len() - p@.len(), v@.len() as int) == p@),
{
    if p.len() > v.len() {
        return false;
    }
    eq_at(v, v.len() - p.len(), p)
}

/// Index of the first occurrence of the character `c` in `v`, if any.
pub fn find_char(v: &Vec<char>, c: char) -> (r: Option<usize>)
    ensures
        match r {
            Some(i) => i < v@.len() && v@[i as int] == c && forall|j: int|
                0 <= j < i ==> v@[j] != c,
            None => forall|j: int| 0 <= j < v@.len() ==> v@[j] != c,
        },
{
    let mut i: usize = 0;
    while i < v.len()
        invariant
            i <= v@.len(),
            forall|j: int| 0 <= j < i ==> v@[j] != c,
        decreases v@.len() - i,
    {
        if v[i] == c {
            return Some(i);
        }
        i = i + 1;
    }
    None
}

/// Whether `c` occurs in `v`.
pub fn contains_char(v: &Vec<char>, c: char) -> (r: bool)
    ensures
        r == v@.contains(c),
{
    match find_char(v, c) {
        Some(i) => {
            proof {
                assert(v@[i as int] == c);
            }
            true
        },
        None => {
            proof {
                assert(forall|j: int| 0 <= j < v@.len() ==> v@[j] != c);
            }
            false
        },
    }
}

/// Lexicographic order on character sequences, by code point; the order that
/// byte-wise comparison of UTF-8 text realizes.
pub open spec fn lex_le(a: Seq<char>, b: Seq<char>) -> bool
    decreases a.len(),
{
    if a.len() == 0 {
        true
    } else if b.len() == 0 {
        false
    } else if a[0] != b[0] {
        (a[0] as int) < (b[0] as int)
    } else {
        lex_le(a.skip(1), b.skip(1))
    }
}

pub proof fn lemma_lex_le_total(a: Seq<char>, b: Seq<char>)
    ensures
        lex_le(a, b) || lex_le(b, a),
        lex_le(a, b) && lex_le(b, a) ==> a == b,
    decreases a.len(),
{
    if a.len() == 0 {
        if b.len() == 0 {
            assert(a =~= b);
        }
    } else if b.len() == 0 {
    } else if a[0] != b[0] {
    } else {
        lemma_lex_le_total(a.skip(1), b.skip(1));
        if lex_le(a, b) && lex_le(b, a) {
            assert(lex_le(a.skip(1), b.skip(1)));
            assert(lex_le(b.skip(1), a.skip(1)));
            assert(a.skip(1) == b.skip(1));
            assert forall|i: int| 0 <= i < a.len() implies a[i] == b[i] by {
                if i > 0 {
                    assert(a[i] == a.skip(1)[i - 1]);
                    assert(b[i] == b.skip(1)[i - 1]);
                }
            }
            assert(a =~= b);
        }
    }
}

pub proof fn lemma_lex_le_trans(a: Seq<char>, b: Seq<char>, c: Seq<char>)
    requires
        lex_le(a, b),
        lex_le(b, c),
    ensures
        lex_le(a, c),
    decreases a.len(),
{
    if a.len() == 0 {
    } else if b.len() == 0 {
    } else if c.len() == 0 {
    } else {
        if a[0] == b[0] && b[0] == c[0] {
            lemma_lex_le_trans(a.skip(1), b.skip(1), c.skip(1));
        }
    }
}

/// Decide `lex_le` on character vectors.
pub fn chars_le(a: &Vec<char>, b: &Vec<char>) -> (r: bool)
    ensures
        r == lex_le(a@, b@),
{
    proof {
        assert(a@.skip(0) =~= a@);
        assert(b@.skip(0) =~= b@);
    }
    let mut i: usize = 0;
    loop
        invariant
            i <= a@.len(),
            i <= b@.len(),
            forall|j: int| 0 <= j < i ==> a@[j] == b@[j],
            lex_le(a@, b@) == lex_le(a@.skip(i as int), b@.skip(i as int)),
        decreases a@.len() - i,
    {
        if i >= a.len() {
            return true;
        }
        if i >= b.len() {
            return false;
        }
        let ghost ga = a@.skip(i as int);
        let ghost gb = b@.skip(i as int);
        proof {
            assert(ga[0] == a@[i as int]);
            assert(gb[0] == b@[i as int]);
            assert(ga.skip(1) =~= a@.skip(i + 1));
            assert(gb.skip(1) =~= b@.skip(i + 1));
        }
        if a[i] != b[i] {
            let ca = a[i];
            let cb = b[i];
            let r = (ca as u32) < (cb as u32);
            proof {
                lemma_char_value_range(ca);
                lemma_char_value_range(cb);
                assert(ca as int == ca as u32 as int);
                assert(cb as int == cb as u32 as int);
            }
            return r;
        }
        i = i + 1;
    }
}

/// Digit value of a decimal digit character.
pub open spec fn digit_of(c: char) -> int {
    c as u32 - '0' as u32
}

/// The number denoted by a most-significant-first sequence of decimal digits.
pub open spec fn digits_val(s: Seq<char>) -> int
    decreases s.len(),
{
    if s.len() == 0 {
        0
    } else {
        digits_val(s.drop_last()) * 10 + digit_of(s.last())
    }
}

pub open spec fn all_digits(s: Seq<char>) -> bool {
    forall|i: int| 0 <= i < s.len() ==> spec_is_ascii_digit(s[i])
}

/// Parse the decimal digits `v[lo..hi]` as a number; `None` when the range is
/// empty, holds a non-digit, or exceeds `max`.
pub fn parse_digits(v: &Vec<char>, lo: usize, hi: usize, max: u64) -> (r: Option<u64>)
    requires
        lo <= hi <= v@.len(),
    ensures
        match r {
            Some(x) => {
                &&& hi > lo
                &&& all_digits(v@.subrange(lo as int, hi as int))
                &&& x as int == digits_val(v@.subrange(lo as int, hi as int))
                &&& x <= max
            },
            None => hi == lo || !all_digits(v@.subrange(lo as int, hi as int)) || digits_val(
                v@.subrange(lo as int, hi as int),
            ) > max,
        },
{
    if lo == hi {
        return None;
    }
    let mut acc: u64 = 0;
    let mut i: usize = lo;
    while i < hi
        invariant
            lo <= i <= hi <= v@.len(),
            all_digits(v@.subrange(lo as int, i as int)),
            acc as int == digits_val(v@.subrange(lo as int, i as int)),
            acc <= max,
            max <= u64::MAX,
        decreases hi - i,
    {
        let c = v[i];
        if !is_ascii_digit_c(c) {
            proof {
                assert(v@.subrange(lo as int, hi as int)[i - lo] == c);
            }
            return None;
        }
        let d: u64 = (c as u32 - 48) as u64;
        proof {
            lemma_digits_val_nonneg(v@.subrange(lo as int, i as int));
            assert(digit_of(c) == d as int);
        }
        if acc > max / 10 {
            proof {
                assert(acc as int * 10 + d as int > max as int) by (nonlinear_arith)
                    requires
                        acc as int > max as int / 10,
                        d >= 0,
                        max >= 0,
                ;
                lemma_digits_val_extend_exceeds(v@, lo as int, i as int, hi as int, max as int);
            }
            return None;
        }
        let t = acc * 10;
        proof {
            assert(acc as int * 10 <= max as int) by (nonlinear_arith)
                requires
                    acc as int <= max as int / 10,
                    max >= 0,
            ;
        }
        if d > max - t {
            proof {
                lemma_digits_val_extend_exceeds(v@, lo as int, i as int, hi as int, max as int);
            }
            return None;
        }
        acc = t + d;
        i = i + 1;
        proof {
            assert(v@.subrange(lo as int, i as int).drop_last() =~= v@.subrange(
                lo as int,
                i - 1,
            ));
            assert(v@.subrange(lo as int, i as int).last() == c);
            assert(forall|k: int|
                0 <= k < i - lo ==> v@.subrange(lo as int, i as int)[k] == v@.subrange(
                    lo as int,
                    hi as int,
                )[k]);
        }
    }
    proof {
        assert(v@.subrange(lo as int, i as int) =~= v@.subrange(lo as int, hi as int));
    }
    Some(acc)
}

/// Nonnegativity of a digit string's value, also for any suffix in play.
pub proof fn lemma_digits_val_nonneg_pub(s: Seq<char>)
    ensures
        all_digits(s) ==> digits_val(s) >= 0,
        s.len() > 1 && all_digits(s.skip(1)) ==> digits_val(s.skip(1)) >= 0,
{
    if all_digits(s) {
        lemma_digits_val_nonneg(s);
    }
    if s.len() > 1 && all_digits(s.skip(1)) {
        lemma_digits_val_nonneg(s.skip(1));
    }
}

pub proof fn lemma_digits_val_nonneg(s: Seq<char>)
    requires
        all_digits(s),
    ensures
        digits_val(s) >= 0,
    decreases s.len(),
{
    if s.len() > 0 {
        assert(all_digits(s.drop_last())) by {
            assert(forall|i: int| 0 <= i < s.len() - 1 ==> s.drop_last()[i] == s[i]);
        }
        lemma_digits_val_nonneg(s.drop_last());
    }
}

/// If the digits seen so far already exceed `max / 10`-style bounds, the full
/// range exceeds `max` as well: a longer digit string denotes no smaller number.
proof fn lemma_digits_val_extend_exceeds(v: Seq<char>, lo: int, i: int, hi: int, max: int)
    requires
        0 <= lo <= i < hi <= v.len(),
        all_digits(v.subrange(lo, i)),
        spec_is_ascii_digit(v[i]),
        digits_val(v.subrange(lo, i)) * 10 + digit_of(v[i]) > max,
        max >= 0,
    ensures
        !all_digits(v.subrange(lo, hi)) || digits_val(v.subrange(lo, hi)) > max,
    decreases hi - i,
{
    if all_digits(v.subrange(lo, hi)) {
        assert(forall|k: int| lo <= k < hi ==> spec_is_ascii_digit(v[k])) by {
            assert(forall|k: int| lo <= k < hi ==> v.subrange(lo, hi)[k - lo] == v[k]);
        }
        if i + 1 == hi {
            assert(v.subrange(lo, hi).drop_last() =~= v.subrange(lo, i));
            assert(v.subrange(lo, hi).last() == v[i]);
        } else {
            assert(v.subrange(lo, i + 1).drop_last() =~= v.subrange(lo, i));
            assert(v.subrange(lo, i + 1).last() == v[i]);
            lemma_digits_val_grows(v, lo, i + 1, hi, max);
        }
    }
}

/// A digit string only denotes a larger number as it extends to the right.
proof fn lemma_digits_val_grows(v: Seq<char>, lo: int, i: int, hi: int, max: int)
    requires
        0 <= lo < i <= hi <= v.len(),
        forall|k: int| lo <= k < hi ==> spec_is_ascii_digit(v[k]),
        digits_val(v.subrange(lo, i)) > max,
        max >= 0,
    ensures
        digits_val(v.subrange(lo, hi)) > max,
    decreases hi - i,
{
    if i < hi {
        assert(all_digits(v.subrange(lo, i))) by {
            assert(forall|k: int| 0 <= k < i - lo ==> v.subrange(lo, i)[k] == v[lo + k]);
        }
        lemma_digits_val_nonneg(v.subrange(lo, i));
        assert(v.subrange(lo, i + 1).drop_last() =~= v.subrange(lo, i));
        assert(spec_is_ascii_digit(v[i]));
        assert(digit_of(v.subrange(lo, i + 1).last()) >= 0);
        lemma_digits_val_grows(v, lo, i + 1, hi, max);
    }
}

/// The decimal digit character for a value `0..=9`.
pub open spec fn spec_digit_char(d: int) -> char {
    (('0' as u32) + d as u32) as char
}

pub fn digit_char(d: u64) -> (r: char)
    requires
        d <= 9,
    ensures
        r == spec_digit_char(d as int),
{
    match d {
        0 => '0',
        1 => '1',
        2 => '2',
        3 => '3',
        4 => '4',
        5 => '5',
        6 => '6',
        7 => '7',
        8 => '8',
        _ => '9',
    }
}

/// Decimal rendering of `x`: digit characters, most significant first, with
/// no leading zero (the single digit `0` for zero).
pub fn u64_to_chars(x: u64) -> (r: Vec<char>)
    ensures
        r@.len() >= 1,
        all_digits(r@),
        digits_val(r@) == x as int,
        r@.len() > 1 ==> r@[0] != '0',
{
    if x == 0 {
        let mut r: Vec<char> = Vec::new();
        r.push('0');
        proof {
            assert(r@.drop_last() =~= Seq::<char>::empty());
            assert(r@.last() == '0');
            assert(digit_of('0') == 0);
            assert(digits_val(Seq::<char>::empty()) == 0);
            assert(digits_val(r@) == digits_val(r@.drop_last()) * 10 + digit_of(r@.last()));
        }
        return r;
    }
    let mut rev: Vec<char> = Vec::new();
    let mut y: u64 = x;
    while y > 0
        invariant
            all_digits(rev@),
            rev_digits_val(rev@) + y as int * pow10(rev@.len() as nat) == x as int,
            y == 0 ==> rev@.len() >= 1,
            rev@.len() >= 1 && y == 0 ==> rev@[rev@.len() - 1] != '0',
        decreases y,
    {
        let d = y % 10;
        let c = digit_char(d);
        proof {
            lemma_rev_digits_val_push(rev@, c);
            assert(digit_of(c) == d as int);
            assert(y as int == 10 * ((y / 10) as int) + (y % 10) as int);
            let p = pow10(rev@.len() as nat);
            assert(pow10((rev@.len() + 1) as nat) == 10 * p);
            assert(y as int * p == d as int * p + (y / 10) as int * (10 * p))
                by (nonlinear_arith)
                requires
                    y as int == 10 * ((y / 10) as int) + d as int,
            ;
            if y / 10 == 0 {
                assert(d as int == y as int);
                assert(digit_of(c) >= 1);
                assert(c != '0');
            }
        }
        rev.push(c);
        y = y / 10;
    }
    let mut r: Vec<char> = Vec::new();
    let mut i: usize = rev.len();
    while i > 0
        invariant
            i <= rev@.len(),
            r@.len() == rev@.len() - i,
            forall|k: int| 0 <= k < r@.len() ==> r@[k] == rev@[rev@.len() - 1 - k],
        decreases i,
    {
        i = i - 1;
        r.push(rev[i]);
    }
    proof {
        assert(r@ =~= rev@.reverse());
        lemma_digits_val_reverse(rev@);
        lemma_rev_digits_val_zero_tail(rev@);
        assert(digits_val(r@) == rev_digits_val(rev@));
        assert(rev_digits_val(rev@) + 0 * pow10(rev@.len() as nat) == x as int);
        assert(0 * pow10(rev@.len() as nat) == 0);
        assert(r@[0] == rev@[rev@.len() - 1]);
        assert forall|k: int| 0 <= k < r@.len() implies spec_is_ascii_digit(r@[k]) by {
            assert(r@[k] == rev@[rev@.len() - 1 - k]);
        }
    }
    r
}

/// The number denoted by a least-significant-first digit sequence.
pub open spec fn rev_digits_val(s: Seq<char>) -> int
    decreases s.len(),
{
    if s.len() == 0 {
        0
    } else {
        digit_of(s[0]) + 10 * rev_digits_val(s.skip(1))
    }
}

pub open spec fn pow10(n: nat) -> int
    decreases n,
{
    if n == 0 {
        1
    } else {
        10 * pow10((n - 1) as nat)
    }
}

proof fn lemma_rev_digits_val_push(s: Seq<char>, c: char)
    ensures
        rev_digits_val(s.push(c)) == rev_digits_val(s) + digit_of(c) * pow10(s.len()),
    decreases s.len(),
{
    if s.len() == 0 {
        assert(s.push(c)[0] == c);
        assert(s.push(c).skip(1) =~= Seq::<char>::empty());
        assert(rev_digits_val(Seq::<char>::empty()) == 0);
        assert(rev_digits_val(s) == 0);
        assert(rev_digits_val(s.push(c)) == digit_of(c) + 10 * 0);
        assert(pow10(s.len()) == 1);
    } else {
        assert(s.push(c).skip(1) =~= s.skip(1).push(c));
        lemma_rev_digits_val_push(s.skip(1), c);
        assert(s.push(c)[0] == s[0]);
        let p = pow10((s.len() - 1) as nat);
        assert(pow10(s.len()) == 10 * p);
        assert(rev_digits_val(s) == digit_of(s[0]) + 10 * rev_digits_val(s.skip(1)));
        assert(rev_digits_val(s.push(c)) == digit_of(s[0]) + 10 * rev_digits_val(
            s.skip(1).push(c),
        ));
        assert(rev_digits_val(s.skip(1).push(c)) == rev_digits_val(s.skip(1)) + digit_of(c)
            * p);
        assert(10 * (rev_digits_val(s.skip(1)) + digit_of(c) * p) == 10 * rev_digits_val(
            s.skip(1),
        ) + digit_of(c) * (10 * p)) by (nonlinear_arith);
    }
}

proof fn lemma_digits_val_reverse(s: Seq<char>)
    ensures
        digits_val(s.reverse()) == rev_digits_val(s),
    decreases s.len(),
{
    if s.len() > 0 {
        assert(s.reverse().drop_last() =~= s.skip(1).reverse());
        assert(s.reverse().last() == s[0]);
        lemma_digits_val_reverse(s.skip(1));
    }
}

proof fn lemma_rev_digits_val_zero_tail(s: Seq<char>)
    requires
        s.len() >= 1,
        all_digits(s),
        s[s.len() - 1] != '0',
    ensures
        rev_digits_val(s) >= pow10((s.len() - 1) as nat),
    decreases s.len(),
{
    if s.len() == 1 {
        assert(rev_digits_val(s) == digit_of(s[0]) + 10 * rev_digits_val(s.skip(1)));
        assert(s.skip(1) =~= Seq::<char>::empty());
        assert(rev_digits_val(Seq::<char>::empty()) == 0);
        assert(digit_of(s[0]) >= 1);
        assert(pow10(0) == 1);
    } else {
        assert(all_digits(s.skip(1))) by {
            assert(forall|i: int| 0 <= i < s.len() - 1 ==> s.skip(1)[i] == s[i + 1]);
        }
        assert(s.skip(1)[s.skip(1).len() - 1] == s[s.len() - 1]);
        lemma_rev_digits_val_zero_tail(s.skip(1));
        assert(rev_digits_val(s) == digit_of(s[0]) + 10 * rev_digits_val(s.skip(1)));
        assert(digit_of(s[0]) >= 0);
        assert(pow10((s.len() - 1) as nat) == 10 * pow10((s.len() - 2) as nat));
        assert(rev_digits_val(s.skip(1)) >= pow10((s.len() - 2) as nat));
    }
}

} // verus!
