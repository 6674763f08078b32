//! Character-level utilities on strings: substring search, equality,
//! suffix stripping, whitespace tokenization and ASCII case folding.
//!
//! All executable functions here are specified against pure functions on
//! `Seq<char>`, the view of `str` and `String`.

use vstd::prelude::*;

verus! {

/// `p` is an initial run of `s`.
pub open spec fn is_prefix_of(p: Seq<char>, s: Seq<char>) -> bool {
    p.len() <= s.len() && p == s.take(p.len() as int)
}

/// `p` is a final run of `s`.
pub open spec fn is_suffix_of(p: Seq<char>, s: Seq<char>) -> bool {
    p.len() <= s.len() && p == s.skip(s.len() - p.len())
}

/// `needle` occurs in `hay` starting at position `i`.
pub open spec fn matches_at(hay: Seq<char>, i: int, needle: Seq<char>) -> bool {
    0 <= i && i + needle.len() <= hay.len() && needle == hay.subrange(i, i + needle.len())
}

/// `needle` occurs somewhere in `hay` as a contiguous run.
pub open spec fn contains_seq(hay: Seq<char>, needle: Seq<char>) -> bool {
    exists|i: int| matches_at(hay, i, needle)
}

/// Whether `needle` occurs in `hay` starting at position `i`.
fn matches_here(hay: &str, i: usize, needle: &str) -> (r: bool)
    requires
        i + needle@.len() <= hay@.len(),
    ensures
        r == matches_at(hay@, i as int, needle@),
{
    let n = hay.unicode_len();
    let m = needle.unicode_len();
    let mut k: usize = 0;
    while k < m
        invariant
            n == hay@.len(),
            m == needle@.len(),
            i + m <= n,
            k <= m,
            forall|j: int| 0 <= j < k ==> hay@[i + j] == needle@[j],
        decreases m - k,
    {
        if hay.get_char(i + k) != needle.get_char(k) {
            assert(!matches_at(hay@, i as int, needle@)) by {
                assert(hay@[i + k] != needle@[k as int]);
            }
            return false;
        }
        k += 1;
    }
    assert(needle@ =~= hay@.subrange(i as int, i + needle@.len()));
    true
}

/// Whether `hay` contains `needle` as a contiguous run of characters,
/// the meaning of `str::contains` for a literal pattern.
pub fn contains_sub(hay: &str, needle: &str) -> (r: bool)
    ensures
        r == contains_seq(hay@, needle@),
{
    let n = hay.unicode_len();
    let m = needle.unicode_len();
    if m > n {
        return false;
    }
    if m == 0 {
        assert(matches_at(hay@, 0, needle@)) by {
            assert(needle@ =~= hay@.subrange(0, 0));
        }
        return true;
    }
    let mut i: usize = 0;
    while i <= n - m
        invariant
            n == hay@.len(),
            m == needle@.len(),
            1 <= m <= n,
            i <= n - m + 1,
            forall|j: int| 0 <= j < i ==> !matches_at(hay@, j, needle@),
        decreases n - m - i + 1,
    {
        if matches_here(hay, i, needle) {
            return true;
        }
        i += 1;
    }
    false
}

/// Character-wise equality of two string slices.
pub fn str_eq(a: &str, b: &str) -> (r: bool)
    ensures
        r == (a@ == b@),
{
    let n = a.unicode_len();
    if n != b.unicode_len() {
        return false;
    }
    let mut i: usize = 0;
    while i < n
        invariant
            n == a@.len(),
            n == b@.len(),
            i <= n,
            forall|j: int| 0 <= j < i ==> a@[j] == b@[j],
        decreases n - i,
    {
        if a.get_char(i) != b.get_char(i) {
            return false;
        }
        i += 1;
    }
    assert(a@ =~= b@);
    true
}

/// The prefix of `s` left over when the suffix `suffix` is removed, if
/// `suffix` really is a suffix of `s`; the meaning of `str::strip_suffix`.
pub fn strip_suffix_str<'a>(s: &'a str, suffix: &str) -> (r: Option<&'a str>)
    ensures
        is_suffix_of(suffix@, s@) ==> (r matches Some(p) && p@ == s@.take(s@.len() - suffix@.len())),
        !is_suffix_of(suffix@, s@) ==> r is None,
{
    let n = s.unicode_len();
    let m = suffix.unicode_len();
    if m > n {
        return None;
    }
    if matches_here(s, n - m, suffix) {
        assert(matches_at(s@, n - m, suffix@));
        assert(suffix@ == s@.subrange(n - m, n as int));
        assert(s@.skip(n - m) =~= s@.subrange(n - m, n as int));
        Some(s.substring_char(0, n - m))
    } else {
        assert(!is_suffix_of(suffix@, s@)) by {
            if is_suffix_of(suffix@, s@) {
                assert(s@.skip(n - m) =~= s@.subrange(n - m, n as int));
            }
        }
        None
    }
}

/// Whether `s` ends with the single character `c`.
pub fn ends_with_char(s: &str, c: char) -> (r: bool)
    ensures
        r == (s@.len() > 0 && s@.last() == c),
{
    let n = s.unicode_len();
    if n == 0 {
        false
    } else {
        s.get_char(n - 1) == c
    }
}

} // verus!
