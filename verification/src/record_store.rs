//! Line-oriented persistence of path/value records.
//!
//! A record file holds one record per line, `"<path>: <encoded-value>"`. A
//! line splits at its first colon; both sides are trimmed of spaces, which
//! also absorbs the padding that an in-place patch may leave behind. The
//! patch itself works on the file's bytes: it overwrites the first line that
//! contains a search text with a replacement of no greater length, padding
//! with spaces so that every other byte of the file keeps its place.

use crate::strutil::{
    contains_seq, contains_seq_at, find_first, first_index_of, lemma_first_index_of,
    str_trim_spaces, string_push, trim_spaces,
};
use vstd::prelude::*;

verus! {

// ---------------------------------------------------------------------------
// Record lines
// ---------------------------------------------------------------------------

/// The pieces of `s` between newlines, in order; the final piece is the tail
/// after the last newline, so splitting never loses characters.
pub open spec fn lines_of(s: Seq<char>) -> Seq<Seq<char>>
    decreases s.len(),
    via lines_of_decreases
{
    let k = first_index_of(s, '\n');
    if k == s.len() {
        seq![s]
    } else {
        seq![s.subrange(0, k)] + lines_of(s.skip(k + 1))
    }
}

#[via_fn]
proof fn lines_of_decreases(s: Seq<char>) {
    lemma_first_index_of(s, '\n');
}

/// Whether a line holds a record: it contains a colon.
pub open spec fn is_record_line(l: Seq<char>) -> bool {
    first_index_of(l, ':') < l.len()
}

/// The record a line holds: the trimmed text before its first colon, and the
/// trimmed text after it.
pub open spec fn record_of_line(l: Seq<char>) -> (Seq<char>, Seq<char>) {
    let k = first_index_of(l, ':');
    (trim_spaces(l.subrange(0, k)), trim_spaces(l.skip(k + 1)))
}

/// The records of a sequence of lines, in order; lines without a colon are
/// not records and are passed over.
pub open spec fn records_of_lines(ls: Seq<Seq<char>>) -> Seq<(Seq<char>, Seq<char>)>
    decreases ls.len(),
{
    if ls.len() == 0 {
        Seq::empty()
    } else if is_record_line(ls[0]) {
        seq![record_of_line(ls[0])] + records_of_lines(ls.drop_first())
    } else {
        records_of_lines(ls.drop_first())
    }
}

/// The records a whole file's text holds, in line order.
pub open spec fn records_of(content: Seq<char>) -> Seq<(Seq<char>, Seq<char>)> {
    records_of_lines(lines_of(content))
}

/// One serialized record line, without its newline.
pub open spec fn record_line(k: Seq<char>, v: Seq<char>) -> Seq<char> {
    k + seq![':', ' '] + v
}

/// The serialized form of a sequence of records: one line each, every line
/// newline-terminated.
pub open spec fn serialized_records(entries: Seq<(Seq<char>, Seq<char>)>) -> Seq<char>
    decreases entries.len(),
{
    if entries.len() == 0 {
        Seq::empty()
    } else {
        record_line(entries[0].0, entries[0].1) + seq!['\n'] + serialized_records(
            entries.drop_first(),
        )
    }
}

/// The pieces of `p` between newlines, in order.
pub fn split_lines(p: &str) -> (r: Vec<String>)
    ensures
        r.deep_view() == lines_of(p@),
    decreases p@.len(),
{
    let n = p.unicode_len();
    proof {
        lemma_first_index_of(p@, '\n');
    }
    let k = find_first(p, '\n');
    if k == n {
        let mut r: Vec<String> = Vec::new();
        r.push(p.to_owned());
        proof {
            assert(r.deep_view() =~= lines_of(p@));
        }
        r
    } else {
        let head = p.substring_char(0, k).to_owned();
        let tail = p.substring_char(k + 1, n);
        proof {
            assert(tail@ == p@.skip(k as int + 1));
        }
        let mut rest = split_lines(tail);
        let ghost rest_entries = rest@;
        let ghost head_view = head@;
        let mut r: Vec<String> = Vec::new();
        r.push(head);
        r.append(&mut rest);
        proof {
            assert(r@ =~= seq![].push(r@[0]) + rest_entries);
            assert(r.deep_view() =~= lines_of(p@)) by {
                assert(lines_of(p@) == seq![p@.subrange(0, k as int)] + lines_of(
                    p@.skip(k as int + 1),
                ));
                assert forall|j: int| 0 <= j < r.deep_view().len() implies r.deep_view()[j]
                    == lines_of(p@)[j] by {
                    assert(r.deep_view()[j] == r@[j]@);
                    if j == 0 {
                        assert(r@[0]@ == head_view);
                    } else {
                        assert(r@[j] == rest_entries[j - 1]);
                        assert(rest_entries[j - 1]@ == lines_of(p@.skip(k as int + 1))[j - 1]);
                    }
                }
            }
        }
        r
    }
}

/// The record a line holds, if it holds one: the line splits at its first
/// colon and both sides are trimmed of spaces.
pub fn parse_record_line(line: &str) -> (r: Option<(String, String)>)
    ensures
        r is Some <==> is_record_line(line@),
        r matches Some(kv) ==> (kv.0@, kv.1@) == record_of_line(line@),
{
    let n = line.unicode_len();
    proof {
        lemma_first_index_of(line@, ':');
    }
    let k = find_first(line, ':');
    if k == n {
        return None;
    }
    let key = str_trim_spaces(line.substring_char(0, k));
    let value = str_trim_spaces(line.substring_char(k + 1, n));
    proof {
        assert(line@.subrange(k as int + 1, n as int) =~= line@.skip(k as int + 1));
    }
    Some((key, value))
}

/// The records a whole file's text holds, in line order; lines without a
/// colon are passed over.
pub fn parse_records(content: &str) -> (r: Vec<(String, String)>)
    ensures
        r.deep_view() == records_of(content@),
{
    let lines = split_lines(content);
    let ghost ls = lines.deep_view();
    let n = lines.len();
    let mut out: Vec<(String, String)> = Vec::new();
    proof {
        assert(ls.skip(0) == ls);
        assert(out.deep_view() =~~= Seq::<(Seq<char>, Seq<char>)>::empty());
        assert(out.deep_view() + records_of_lines(ls) =~~= records_of_lines(ls));
    }
    let mut i: usize = 0;
    while i < n
        invariant
            0 <= i <= n,
            n == lines@.len(),
            ls == lines.deep_view(),
            records_of_lines(ls) == out.deep_view() + records_of_lines(ls.skip(i as int)),
        decreases n - i,
    {
        let ghost out_before = out.deep_view();
        proof {
            assert(lines@[i as int]@ == ls[i as int]);
            assert(ls.skip(i as int)[0] == ls[i as int]);
            assert(ls.skip(i as int).drop_first() =~= ls.skip(i as int + 1));
        }
        match parse_record_line(lines[i].as_str()) {
            Some(kv) => {
                out.push(kv);
                proof {
                    assert(out.deep_view() =~~= out_before.push(
                        (out@[out@.len() - 1].0@, out@[out@.len() - 1].1@),
                    ));
                    assert(out.deep_view() + records_of_lines(ls.skip(i as int + 1)) =~~=
                        out_before + records_of_lines(ls.skip(i as int)));
                }
            },
            None => {},
        }
        i += 1;
    }
    proof {
        assert(ls.skip(n as int) =~= Seq::<Seq<char>>::empty());
        assert(out.deep_view() + records_of_lines(ls.skip(n as int)) =~~= out.deep_view());
    }
    out
}

/// The serialized form of a sequence of records: one newline-terminated line
/// per record, `"<key>: <value>"`.
pub fn serialize_records(entries: &Vec<(String, String)>) -> (r: String)
    ensures
        r@ == serialized_records(entries.deep_view()),
{
    let ghost es = entries.deep_view();
    let n = entries.len();
    let mut out = String::new();
    proof {
        assert(es.skip(0) == es);
        assert(out@ + serialized_records(es) =~= serialized_records(es));
    }
    let mut i: usize = 0;
    while i < n
        invariant
            0 <= i <= n,
            n == entries@.len(),
            es == entries.deep_view(),
            serialized_records(es) == out@ + serialized_records(es.skip(i as int)),
        decreases n - i,
    {
        let ghost out_before = out@;
        proof {
            assert(es.skip(i as int)[0] == es[i as int]);
            assert(es.skip(i as int).drop_first() =~= es.skip(i as int + 1));
            assert((entries@[i as int].0@, entries@[i as int].1@) == es[i as int]);
        }
        out.append(entries[i].0.as_str());
        string_push(&mut out, ':');
        string_push(&mut out, ' ');
        out.append(entries[i].1.as_str());
        string_push(&mut out, '\n');
        proof {
            assert(out@ =~= out_before + record_line(es[i as int].0, es[i as int].1) + seq!['\n']);
        }
        i += 1;
    }
    proof {
        assert(es.skip(n as int) =~= Seq::<(Seq<char>, Seq<char>)>::empty());
        assert(out@ + serialized_records(es.skip(n as int)) =~= out@);
    }
    out
}

// ---------------------------------------------------------------------------
// In-place patch over file bytes
// ---------------------------------------------------------------------------

/// What a patch did.
#[derive(Clone, Copy, Debug, PartialEq, Eq, Structural)]
pub enum PatchOutcome {
    /// A line matched and was overwritten in place.
    Replaced,
    /// No line contains the search text; the content is untouched.
    NotFound,
    /// The replacement would outgrow the matched line; the content is
    /// untouched rather than corrupted.
    ReplacementTooLong,
}

/// The newline byte.
pub open spec fn newline_byte() -> u8 {
    10u8
}

/// The space byte used as padding.
pub open spec fn space_byte() -> u8 {
    32u8
}

/// The offset just past the line that starts at `a`: past its newline byte,
/// or the end of the content for an unterminated final line.
pub open spec fn line_end(c: Seq<u8>, a: int) -> int {
    let k = a + first_index_of(c.skip(a), newline_byte());
    if k < c.len() {
        k + 1
    } else {
        c.len() as int
    }
}

/// The start offset of the first line at or after offset `a` that contains
/// `pat`, or `c.len()` if no line from `a` on does.
pub open spec fn find_match_from(c: Seq<u8>, pat: Seq<u8>, a: int) -> int
    decreases c.len() - a,
    via find_match_from_decreases
{
    if !(0 <= a < c.len()) {
        c.len() as int
    } else if contains_seq(c.subrange(a, line_end(c, a)), pat) {
        a
    } else {
        find_match_from(c, pat, line_end(c, a))
    }
}

#[via_fn]
proof fn find_match_from_decreases(c: Seq<u8>, pat: Seq<u8>, a: int) {
    if 0 <= a < c.len() {
        lemma_line_end(c, a);
    }
}

/// `n` space bytes.
pub open spec fn space_bytes(n: int) -> Seq<u8> {
    Seq::new(n as nat, |i: int| space_byte())
}

/// The content after overwriting the line `[a, e)` with `rep`, a newline,
/// and space padding up to the line's old length.
pub open spec fn patched(c: Seq<u8>, a: int, e: int, rep: Seq<u8>) -> Seq<u8> {
    c.subrange(0, a) + rep + seq![newline_byte()] + space_bytes(e - a - rep.len() - 1) + c.skip(e)
}

pub proof fn lemma_line_end(c: Seq<u8>, a: int)
    requires
        0 <= a <= c.len(),
    ensures
        a <= line_end(c, a) <= c.len(),
        a < c.len() ==> a < line_end(c, a),
{
    lemma_first_index_of(c.skip(a), newline_byte());
}

/// Patch preserves the total byte length, and every byte outside the matched
/// line keeps its place and its value: the bytes before the line and the
/// bytes after it are unchanged.
pub proof fn lemma_patch_preserves(c: Seq<u8>, a: int, e: int, rep: Seq<u8>)
    requires
        0 <= a <= e <= c.len(),
        rep.len() + 1 <= e - a,
    ensures
        patched(c, a, e, rep).len() == c.len(),
        forall|j: int| 0 <= j < a ==> patched(c, a, e, rep)[j] == c[j],
        forall|j: int| e <= j < c.len() ==> patched(c, a, e, rep)[j] == c[j],
{
    let r = patched(c, a, e, rep);
    assert(r.len() == c.len());
    assert forall|j: int| e <= j < c.len() implies r[j] == c[j] by {
        assert(r[j] == c.skip(e)[j - e]);
    }
}

/// Overwrite the first line of `content` that contains `search` with
/// `replacement`, newline-terminated and padded with spaces to the line's
/// byte length, so the file's length and all other lines' offsets survive.
/// A replacement longer than the matched line is rejected untouched.
pub fn replace_first_line_containing(content: &mut Vec<u8>, search: &[u8], replacement: &[u8]) -> (r:
    PatchOutcome)
    ensures
        ({
            let c = old(content)@;
            let a = find_match_from(c, search@, 0);
            if a == c.len() {
                r == PatchOutcome::NotFound && final(content)@ == c
            } else if replacement@.len() + 1 <= line_end(c, a) - a {
                r == PatchOutcome::Replaced && final(content)@ == patched(
                    c,
                    a,
                    line_end(c, a),
                    replacement@,
                )
            } else {
                r == PatchOutcome::ReplacementTooLong && final(content)@ == c
            }
        }),
{
    let ghost c = content@;
    let n = content.len();
    let mut a: usize = 0;
    proof {
        if n == 0 {
            assert(find_match_from(c, search@, 0) == c.len());
        }
    }
    while a < n
        invariant
            0 <= a <= n,
            n == content@.len(),
            content@ == c,
            c == old(content)@,
            find_match_from(c, search@, 0) == find_match_from(c, search@, a as int),
        decreases n - a,
    {
        // find the end of the line that starts at `a`
        let mut e: usize = a;
        while e < n && content[e] != 10u8
            invariant
                a <= e <= n,
                n == content@.len(),
                content@ == c,
                forall|j: int| a <= j < e ==> c[j] != newline_byte(),
            decreases n - e,
        {
            e += 1;
        }
        let line_stop: usize = if e < n {
            e + 1
        } else {
            n
        };
        proof {
            let k = first_index_of(c.skip(a as int), newline_byte());
            lemma_first_index_of(c.skip(a as int), newline_byte());
            assert(c.skip(a as int).len() == n - a);
            assert(k == e - a) by {
                if k < e - a {
                    assert(c.skip(a as int)[k] == c[a + k]);
                    assert(c.skip(a as int)[k] == newline_byte());
                }
                if k > e - a && e < n {
                    assert(c.skip(a as int)[e - a] == c[e as int]);
                    assert(c[e as int] == newline_byte());
                }
            }
            assert(line_stop == line_end(c, a as int));
            assert(line_stop > a);
        }
        if bytes_range_contains(content, a, line_stop, search) {
            proof {
                assert(find_match_from(c, search@, a as int) == a);
            }
            if replacement.len() < line_stop - a {
                // rebuild the file's bytes: prefix, replacement, newline,
                // padding, suffix
                let out = splice(content, a, line_stop, replacement);
                *content = out;
                return PatchOutcome::Replaced;
            } else {
                return PatchOutcome::ReplacementTooLong;
            }
        }
        proof {
            assert(find_match_from(c, search@, a as int) == find_match_from(
                c,
                search@,
                line_stop as int,
            ));
        }
        a = line_stop;
    }
    proof {
        assert(find_match_from(c, search@, a as int) == c.len());
    }
    PatchOutcome::NotFound
}

/// Whether `pat` occurs in `c[lo..hi]`.
fn bytes_range_contains(c: &Vec<u8>, lo: usize, hi: usize, pat: &[u8]) -> (r: bool)
    requires
        lo <= hi <= c@.len(),
    ensures
        r == contains_seq(c@.subrange(lo as int, hi as int), pat@),
{
    let ghost window = c@.subrange(lo as int, hi as int);
    let p = pat.len();
    if p == 0 {
        proof {
            assert(window.subrange(0, 0) =~= pat@);
            assert(contains_seq_at(window, pat@, 0));
        }
        return true;
    }
    if p > hi - lo {
        proof {
            assert(!contains_seq(window, pat@));
        }
        return false;
    }
    let mut i: usize = lo;
    while i <= hi - p
        invariant
            lo <= i <= hi - p + 1,
            1 <= p == pat@.len(),
            p <= hi - lo,
            lo <= hi <= c@.len(),
            window == c@.subrange(lo as int, hi as int),
            forall|j: int| 0 <= j < i - lo ==> !contains_seq_at(window, pat@, j),
        decreases hi - i,
    {
        if bytes_match_at(c, i, pat) {
            proof {
                assert(window.subrange(i - lo, i - lo + p) =~= c@.subrange(
                    i as int,
                    i as int + p,
                ));
                assert(contains_seq_at(window, pat@, i - lo));
            }
            return true;
        }
        proof {
            assert(window.subrange(i - lo, i - lo + p) =~= c@.subrange(i as int, i as int + p));
            assert(!contains_seq_at(window, pat@, i - lo));
        }
        i += 1;
    }
    proof {
        assert forall|j: int| !contains_seq_at(window, pat@, j) by {
            if 0 <= j && j + pat@.len() <= window.len() {
                assert(j < i - lo);
            }
        }
    }
    false
}

/// Whether `pat` occurs in `c` starting exactly at `at`.
fn bytes_match_at(c: &Vec<u8>, at: usize, pat: &[u8]) -> (r: bool)
    requires
        at + pat@.len() <= c@.len(),
    ensures
        r == (c@.subrange(at as int, at as int + pat@.len()) == pat@),
{
    let n = c.len();
    let p = pat.len();
    let mut j: usize = 0;
    while j < p
        invariant
            0 <= j <= p,
            p == pat@.len(),
            n == c@.len(),
            at + p <= n,
            forall|t: int| 0 <= t < j ==> c@[at + t] == pat@[t],
        decreases p - j,
    {
        if content_byte(c, at + j) != pat[j] {
            proof {
                assert(c@.subrange(at as int, at as int + pat@.len())[j as int] == c@[at + j]);
            }
            return false;
        }
        j += 1;
    }
    proof {
        assert(c@.subrange(at as int, at as int + pat@.len()) =~= pat@);
    }
    true
}

/// One byte of the content.
fn content_byte(c: &Vec<u8>, i: usize) -> (r: u8)
    requires
        i < c@.len(),
    ensures
        r == c@[i as int],
{
    c[i]
}

/// The patched bytes: `c[..a]`, then `rep`, a newline, space padding up to
/// the old line length, then `c[e..]`.
fn splice(c: &Vec<u8>, a: usize, e: usize, rep: &[u8]) -> (r: Vec<u8>)
    requires
        a <= e <= c@.len(),
        rep@.len() + 1 <= e - a,
    ensures
        r@ == patched(c@, a as int, e as int, rep@),
{
    let n = c.len();
    let p = rep.len();
    let mut out: Vec<u8> = Vec::new();
    let mut i: usize = 0;
    while i < a
        invariant
            0 <= i <= a,
            a <= c@.len(),
            out@ == c@.subrange(0, i as int),
        decreases a - i,
    {
        out.push(c[i]);
        proof {
            assert(out@ =~= c@.subrange(0, i as int + 1));
        }
        i += 1;
    }
    let mut j: usize = 0;
    while j < p
        invariant
            0 <= j <= p,
            p == rep@.len(),
            a <= c@.len(),
            out@ == c@.subrange(0, a as int) + rep@.subrange(0, j as int),
        decreases p - j,
    {
        out.push(rep[j]);
        proof {
            assert(out@ =~= c@.subrange(0, a as int) + rep@.subrange(0, j as int + 1));
        }
        j += 1;
    }
    proof {
        assert(rep@.subrange(0, p as int) =~= rep@);
    }
    out.push(10u8);
    let pad = e - a - p - 1;
    let mut t: usize = 0;
    while t < pad
        invariant
            0 <= t <= pad,
            pad == e - a - p - 1,
            a <= e <= c@.len(),
            p == rep@.len(),
            out@ == c@.subrange(0, a as int) + rep@ + seq![newline_byte()] + space_bytes(t as int),
        decreases pad - t,
    {
        out.push(32u8);
        proof {
            assert(space_bytes(t as int).push(space_byte()) =~= space_bytes(t as int + 1));
            assert(out@ =~= c@.subrange(0, a as int) + rep@ + seq![newline_byte()] + space_bytes(
                t as int + 1,
            ));
        }
        t += 1;
    }
    let mut u: usize = e;
    while u < n
        invariant
            e <= u <= n,
            n == c@.len(),
            a <= e <= n,
            p == rep@.len(),
            pad == e - a - p - 1,
            out@ == c@.subrange(0, a as int) + rep@ + seq![newline_byte()] + space_bytes(
                pad as int,
            ) + c@.subrange(e as int, u as int),
        decreases n - u,
    {
        out.push(c[u]);
        proof {
            assert(c@.subrange(e as int, u as int).push(c@[u as int]) =~= c@.subrange(
                e as int,
                u as int + 1,
            ));
            assert(out@ =~= c@.subrange(0, a as int) + rep@ + seq![newline_byte()] + space_bytes(
                pad as int,
            ) + c@.subrange(e as int, u as int + 1));
        }
        u += 1;
    }
    proof {
        assert(c@.subrange(e as int, n as int) =~= c@.skip(e as int));
        assert(out@ =~= patched(c@, a as int, e as int, rep@));
    }
    out
}

} // verus!
