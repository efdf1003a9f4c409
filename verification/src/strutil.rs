//! Character-level string helpers: searching, prefix tests, trimming,
//! and the few trusted bridges into std's string routines.

use vstd::prelude::*;

verus! {

// ---------------------------------------------------------------------------
// Specification helpers over sequences
// ---------------------------------------------------------------------------

/// Index of the first occurrence of `c` in `s`, or `s.len()` if `c` is absent.
pub open spec fn first_index_of<A>(s: Seq<A>, c: A) -> int
    decreases s.len(),
{
    if s.len() == 0 {
        0
    } else if s[0] == c {
        0
    } else {
        1 + first_index_of(s.drop_first(), c)
    }
}

/// Index of the last occurrence of `c` in `s`, or `-1` if `c` is absent.
pub open spec fn last_index_of<A>(s: Seq<A>, c: A) -> int
    decreases s.len(),
{
    if s.len() == 0 {
        -1
    } else if s.last() == c {
        s.len() - 1
    } else {
        last_index_of(s.drop_last(), c)
    }
}

/// Index of the first character of `s` that is not a space, or `s.len()`.
pub open spec fn first_non_space(s: Seq<char>) -> int
    decreases s.len(),
{
    if s.len() == 0 {
        0
    } else if s[0] != ' ' {
        0
    } else {
        1 + first_non_space(s.drop_first())
    }
}

/// Index of the last character of `s` that is not a space, or `-1`.
pub open spec fn last_non_space(s: Seq<char>) -> int
    decreases s.len(),
{
    if s.len() == 0 {
        -1
    } else if s.last() != ' ' {
        s.len() - 1
    } else {
        last_non_space(s.drop_last())
    }
}

/// `s` with leading and trailing spaces removed.
pub open spec fn trim_spaces(s: Seq<char>) -> Seq<char> {
    if last_non_space(s) < first_non_space(s) {
        Seq::empty()
    } else {
        s.subrange(first_non_space(s), last_non_space(s) + 1)
    }
}

/// Whether `pat` occurs in `hay` starting at position `i`.
pub open spec fn contains_seq_at<A>(hay: Seq<A>, pat: Seq<A>, i: int) -> bool {
    0 <= i && i + pat.len() <= hay.len() && hay.subrange(i, i + pat.len()) == pat
}

/// Whether `pat` occurs anywhere in `hay`.
pub open spec fn contains_seq<A>(hay: Seq<A>, pat: Seq<A>) -> bool {
    exists|i: int| contains_seq_at(hay, pat, i)
}

pub proof fn lemma_first_index_of<A>(s: Seq<A>, c: A)
    ensures
        0 <= first_index_of(s, c) <= s.len(),
        first_index_of(s, c) < s.len() ==> s[first_index_of(s, c)] == c,
        forall|j: int| 0 <= j < first_index_of(s, c) ==> s[j] != c,
    decreases s.len(),
{
    if s.len() > 0 && s[0] != c {
        let t = s.drop_first();
        lemma_first_index_of(t, c);
        let f = first_index_of(s, c);
        if f < s.len() {
            assert(s[f] == t[f - 1]);
        }
        assert forall|j: int| 0 <= j < f implies s[j] != c by {
            if j > 0 {
                assert(s[j] == t[j - 1]);
            }
        }
    }
}

pub proof fn lemma_last_index_of<A>(s: Seq<A>, c: A)
    ensures
        -1 <= last_index_of(s, c) < s.len(),
        last_index_of(s, c) >= 0 ==> s[last_index_of(s, c)] == c,
        forall|j: int| last_index_of(s, c) < j < s.len() ==> s[j] != c,
    decreases s.len(),
{
    if s.len() > 0 && s.last() != c {
        let t = s.drop_last();
        lemma_last_index_of(t, c);
        let f = last_index_of(s, c);
        if f >= 0 {
            assert(s[f] == t[f]);
        }
        assert forall|j: int| f < j < s.len() implies s[j] != c by {
            if j < s.len() - 1 {
                assert(s[j] == t[j]);
            }
        }
    }
}

pub proof fn lemma_first_non_space(s: Seq<char>)
    ensures
        0 <= first_non_space(s) <= s.len(),
        first_non_space(s) < s.len() ==> s[first_non_space(s)] != ' ',
        forall|j: int| 0 <= j < first_non_space(s) ==> s[j] == ' ',
    decreases s.len(),
{
    if s.len() > 0 && s[0] == ' ' {
        let t = s.drop_first();
        lemma_first_non_space(t);
        let f = first_non_space(s);
        if f < s.len() {
            assert(s[f] == t[f - 1]);
        }
        assert forall|j: int| 0 <= j < f implies s[j] == ' ' by {
            if j > 0 {
                assert(s[j] == t[j - 1]);
            }
        }
    }
}

pub proof fn lemma_last_non_space(s: Seq<char>)
    ensures
        -1 <= last_non_space(s) < s.len(),
        last_non_space(s) >= 0 ==> s[last_non_space(s)] != ' ',
        forall|j: int| last_non_space(s) < j < s.len() ==> s[j] == ' ',
    decreases s.len(),
{
    if s.len() > 0 && s.last() == ' ' {
        let t = s.drop_last();
        lemma_last_non_space(t);
        let f = last_non_space(s);
        if f >= 0 {
            assert(s[f] == t[f]);
        }
        assert forall|j: int| f < j < s.len() implies s[j] == ' ' by {
            if j < s.len() - 1 {
                assert(s[j] == t[j]);
            }
        }
    }
}

// ---------------------------------------------------------------------------
// Trusted bridges into std
// ---------------------------------------------------------------------------

/// What `str::to_lowercase` returns; the result is a function of the
/// characters alone.
pub uninterp spec fn lower_of(s: Seq<char>) -> Seq<char>;

/// Relies on `str::to_lowercase`: the lowercase form depends only on the
/// characters of the input.
#[verifier::external_body]
pub fn to_lowercase(s: &str) -> (r: String)
    ensures
        r@ == lower_of(s@),
{
    s.to_lowercase()
}

/// Relies on `String::push`: appends exactly one character.
#[verifier::external_body]
pub fn string_push(s: &mut String, c: char)
    ensures
        final(s)@ == old(s)@.push(c),
{
    s.push(c);
}

/// Relies on `String::from_utf8`: succeeds exactly on valid UTF-8 input and
/// decodes it to the character sequence that encodes back to those bytes.
#[verifier::external_body]
pub fn bytes_to_string(bytes: Vec<u8>) -> (r: Option<String>)
    ensures
        r is Some <==> vstd::utf8::valid_utf8(bytes@),
        r matches Some(s) ==> s@ == vstd::utf8::decode_utf8(bytes@),
{
    match String::from_utf8(bytes) {
        Ok(s) => Some(s),
        Err(_) => None,
    }
}

// ---------------------------------------------------------------------------
// Verified character-level operations
// ---------------------------------------------------------------------------

/// A copy of a vector of strings, element for element.
pub fn clone_string_vec(v: &Vec<String>) -> (r: Vec<String>)
    ensures
        r@ == v@,
{
    let n = v.len();
    let mut out: Vec<String> = Vec::new();
    let mut j: usize = 0;
    while j < n
        invariant
            0 <= j <= n,
            n == v@.len(),
            out@ == v@.take(j as int),
        decreases n - j,
    {
        out.push(v[j].clone());
        proof {
            assert(out@ =~= v@.take(j as int + 1));
        }
        j += 1;
    }
    proof {
        assert(v@.take(n as int) =~= v@);
    }
    out
}

/// Character-sequence equality of two string slices.
pub fn str_eq(a: &str, b: &str) -> (r: bool)
    ensures
        r == (a@ == b@),
{
    let x = a.to_owned();
    let y = b.to_owned();
    x == y
}

/// Whether `prefix@` is a prefix of `s@`.
pub fn str_starts_with(s: &str, prefix: &str) -> (r: bool)
    ensures
        r == prefix@.is_prefix_of(s@),
{
    let n = s.unicode_len();
    let p = prefix.unicode_len();
    if p > n {
        assert(!prefix@.is_prefix_of(s@));
        return false;
    }
    let head = s.substring_char(0, p);
    str_eq(head, prefix)
}

/// The position of the first occurrence of `c` in `s`, or `s@.len()` if absent.
pub fn find_first(s: &str, c: char) -> (r: usize)
    ensures
        r == first_index_of(s@, c),
{
    let n = s.unicode_len();
    let mut i: usize = 0;
    while i < n
        invariant
            0 <= i <= n,
            n == s@.len(),
            forall|j: int| 0 <= j < i ==> s@[j] != c,
        decreases n - i,
    {
        if s.get_char(i) == c {
            proof {
                lemma_first_index_of(s@, c);
            }
            return i;
        }
        i += 1;
    }
    proof {
        lemma_first_index_of(s@, c);
        if first_index_of(s@, c) < n {
            assert(s@[first_index_of(s@, c)] == c);
        }
    }
    n
}

/// The position just past the last occurrence of `c` in `s`, or `0` if absent;
/// that is, `last_index_of(s@, c) + 1`.
pub fn find_last(s: &str, c: char) -> (r: usize)
    ensures
        r == last_index_of(s@, c) + 1,
{
    let n = s.unicode_len();
    let mut i: usize = n;
    while i > 0
        invariant
            0 <= i <= n,
            n == s@.len(),
            forall|j: int| i <= j < n ==> s@[j] != c,
        decreases i,
    {
        if s.get_char(i - 1) == c {
            proof {
                lemma_last_index_of(s@, c);
            }
            return i;
        }
        i -= 1;
    }
    proof {
        lemma_last_index_of(s@, c);
        if last_index_of(s@, c) >= 0 {
            assert(s@[last_index_of(s@, c)] == c);
        }
    }
    0
}

/// Whether `c` occurs in `s`.
pub fn str_contains_char(s: &str, c: char) -> (r: bool)
    ensures
        r == (first_index_of(s@, c) < s@.len()),
{
    let n = s.unicode_len();
    let i = find_first(s, c);
    i < n
}

/// Whether `pat@` occurs anywhere in `s@`.
pub fn str_contains(s: &str, pat: &str) -> (r: bool)
    ensures
        r == contains_seq(s@, pat@),
{
    let n = s.unicode_len();
    let p = pat.unicode_len();
    if p == 0 {
        assert(contains_seq_at(s@, pat@, 0)) by {
            assert(s@.subrange(0, 0) =~= pat@);
        }
        return true;
    }
    if p > n {
        assert(!contains_seq(s@, pat@));
        return false;
    }
    let mut i: usize = 0;
    while i <= n - p
        invariant
            0 <= i <= n - p + 1,
            0 < p <= n,
            n == s@.len(),
            p == pat@.len(),
            forall|j: int| 0 <= j < i ==> !contains_seq_at(s@, pat@, j),
        decreases n - i,
    {
        let window = s.substring_char(i, i + p);
        if str_eq(window, pat) {
            assert(contains_seq_at(s@, pat@, i as int));
            return true;
        }
        assert(!contains_seq_at(s@, pat@, i as int));
        i += 1;
    }
    proof {
        assert forall|j: int| !contains_seq_at(s@, pat@, j) by {
            if 0 <= j && j + pat@.len() <= s@.len() {
                assert(j < i);
            }
        }
    }
    false
}

/// A copy of `s` with leading and trailing spaces removed.
pub fn str_trim_spaces(s: &str) -> (r: String)
    ensures
        r@ == trim_spaces(s@),
{
    let n = s.unicode_len();
    let mut lo: usize = 0;
    while lo < n && s.get_char(lo) == ' '
        invariant
            0 <= lo <= n,
            n == s@.len(),
            forall|j: int| 0 <= j < lo ==> s@[j] == ' ',
        decreases n - lo,
    {
        lo += 1;
    }
    proof {
        lemma_first_non_space(s@);
        assert(lo == first_non_space(s@)) by {
            if lo < n {
                assert(s@[lo as int] != ' ');
            }
            if first_non_space(s@) < lo {
                assert(s@[first_non_space(s@)] == ' ');
            }
        }
    }
    if lo == n {
        proof {
            lemma_last_non_space(s@);
            if last_non_space(s@) >= lo {
                assert(s@[last_non_space(s@)] == ' ');
            }
        }
        return String::new();
    }
    let mut hi: usize = n;
    while hi > 0 && s.get_char(hi - 1) == ' '
        invariant
            0 <= hi <= n,
            n == s@.len(),
            forall|j: int| hi <= j < n ==> s@[j] == ' ',
        decreases hi,
    {
        hi -= 1;
    }
    proof {
        lemma_last_non_space(s@);
        assert(hi == last_non_space(s@) + 1) by {
            if hi > 0 {
                assert(s@[hi - 1] != ' ');
            }
            if last_non_space(s@) + 1 < hi {
                assert(s@[last_non_space(s@) + 1 - 1] != ' ');
                assert(s@[last_non_space(s@)] == ' ');
            }
        }
        assert(lo <= hi) by {
            if hi < lo {
                assert(s@[lo as int] == ' ');
            }
        }
    }
    let out = s.substring_char(lo, hi);
    out.to_owned()
}

} // verus!
