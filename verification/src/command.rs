//! Parsing of the session's free-text commands.
//!
//! The command surface is free text, not flags: `exit`, `refresh`, `reload`,
//! `migration`, `set <value>`, `select <index>`, `insert
//! <path>:<value>[:<type>]`, `search <term>`; any other input selects that
//! literal path.

use crate::strutil::{
    find_first, find_last, first_index_of, first_non_space, last_index_of, lemma_first_index_of,
    lemma_first_non_space, lemma_last_index_of, str_eq, str_starts_with, str_trim_spaces,
    trim_spaces,
};
use vstd::prelude::*;

verus! {

/// A malformed command.
#[derive(Clone, Copy, Debug, PartialEq, Eq, Structural)]
pub enum FormatError {
    /// An `insert` without the path/value separator.
    MissingSeparator,
}

/// One parsed command of the session.
pub enum Command {
    /// End the session.
    Exit,
    /// Force a full remote reload.
    Refresh,
    /// Re-encode the whole values file.
    Migration,
    /// Re-fetch the currently selected path.
    Reload,
    /// Update the selected path to the given value.
    SetValue(String),
    /// Choose an entry of the last search result by index.
    Select(String),
    /// Insert a new record; the payload still holds `path:value[:type]`.
    Insert(String),
    /// Substring search over the cached paths.
    Search(String),
    /// Any other input selects that literal path.
    SelectPath(String),
}

/// `s` without its leading spaces.
pub open spec fn trim_front(s: Seq<char>) -> Seq<char> {
    s.skip(first_non_space(s))
}

/// A copy of `s` with leading spaces removed.
fn str_trim_front(s: &str) -> (r: String)
    ensures
        r@ == trim_front(s@),
{
    let n = s.unicode_len();
    let mut lo: usize = 0;
    while lo < n && s.get_char(lo) == ' '
        invariant
            0 <= lo <= n,
            n == s@.len(),
            forall|j: int| 0 <= j < lo ==> s@[j] == ' ',
        decreases n - lo,
    {
        lo += 1;
    }
    proof {
        lemma_first_non_space(s@);
        assert(lo == first_non_space(s@)) by {
            if lo < n {
                assert(s@[lo as int] != ' ');
            }
            if first_non_space(s@) < lo {
                assert(s@[first_non_space(s@)] == ' ');
            }
        }
    }
    s.substring_char(lo, n).to_owned()
}

/// Parse one line of input into a command, by the session's dispatch order:
/// the exact keywords first, then the prefixed verbs, and any other input
/// selects a literal path.
pub fn parse_command(line: &str) -> (r: Command)
    ensures
        ({
            let l = line@;
            if l == "exit"@ {
                r is Exit
            } else if l == "refresh"@ {
                r is Refresh
            } else if l == "migration"@ {
                r is Migration
            } else if l == "reload"@ {
                r is Reload
            } else if "set"@.is_prefix_of(l) {
                r matches Command::SetValue(v) && v@ == trim_front(l.skip(3))
            } else if "sel"@.is_prefix_of(l) {
                r matches Command::Select(a) && a@ == ({
                    let sp = first_index_of(l, ' ');
                    if sp == l.len() {
                        Seq::<char>::empty()
                    } else {
                        trim_spaces(l.skip(sp + 1))
                    }
                })
            } else if "insert"@.is_prefix_of(l) {
                r matches Command::Insert(p) && p@ == trim_front(l.skip(6))
            } else if "search"@.is_prefix_of(l) {
                r matches Command::Search(t) && t@ == trim_spaces(l.skip(6))
            } else {
                r matches Command::SelectPath(p) && p@ == l
            }
        }),
{
    proof {
        reveal_strlit("exit");
        reveal_strlit("refresh");
        reveal_strlit("migration");
        reveal_strlit("reload");
        reveal_strlit("set");
        reveal_strlit("sel");
        reveal_strlit("insert");
        reveal_strlit("search");
    }
    let n = line.unicode_len();
    if str_eq(line, "exit") {
        return Command::Exit;
    }
    if str_eq(line, "refresh") {
        return Command::Refresh;
    }
    if str_eq(line, "migration") {
        return Command::Migration;
    }
    if str_eq(line, "reload") {
        return Command::Reload;
    }
    if str_starts_with(line, "set") {
        let tail = line.substring_char(3, n);
        let v = str_trim_front(tail);
        proof {
            assert(tail@ =~= line@.skip(3));
        }
        return Command::SetValue(v);
    }
    if str_starts_with(line, "sel") {
        proof {
            lemma_first_index_of(line@, ' ');
        }
        let sp = find_first(line, ' ');
        if sp == n {
            return Command::Select(String::new());
        }
        let tail = line.substring_char(sp + 1, n);
        proof {
            assert(tail@ =~= line@.skip(sp as int + 1));
        }
        return Command::Select(str_trim_spaces(tail));
    }
    if str_starts_with(line, "insert") {
        let tail = line.substring_char(6, n);
        proof {
            assert(tail@ =~= line@.skip(6));
        }
        return Command::Insert(str_trim_front(tail));
    }
    if str_starts_with(line, "search") {
        let tail = line.substring_char(6, n);
        proof {
            assert(tail@ =~= line@.skip(6));
        }
        return Command::Search(str_trim_spaces(tail));
    }
    Command::SelectPath(line.to_owned())
}

/// Split an `insert` payload, `path:value[:type]`, at its first colon, with
/// an optional type after the last colon. A payload without any colon is
/// malformed.
pub fn parse_insert_command(rest: &str) -> (r: Result<(String, String, Option<String>), FormatError>)
    ensures
        r is Ok <==> first_index_of(rest@, ':') < rest@.len(),
        r matches Ok(t) ==> ({
            let l = rest@;
            let first = first_index_of(l, ':');
            let last = last_index_of(l, ':');
            &&& t.0@ == l.subrange(0, first)
            &&& (last > first ==> t.1@ == l.subrange(first + 1, last) && (t.2 matches Some(ty)
                && ty@ == l.skip(last + 1)))
            &&& (last == first ==> t.1@ == l.skip(first + 1) && t.2 is None)
        }),
        r matches Err(e) ==> e == FormatError::MissingSeparator,
{
    let n = rest.unicode_len();
    proof {
        lemma_first_index_of(rest@, ':');
        lemma_last_index_of(rest@, ':');
    }
    let first = find_first(rest, ':');
    if first == n {
        return Err(FormatError::MissingSeparator);
    }
    proof {
        assert(rest@[first as int] == ':');
        if last_index_of(rest@, ':') < first as int {
            assert(rest@[first as int] != ':');
        }
    }
    let last_plus = find_last(rest, ':');
    let path = rest.substring_char(0, first).to_owned();
    if last_plus - 1 > first {
        let value = rest.substring_char(first + 1, last_plus - 1).to_owned();
        let ty = rest.substring_char(last_plus, n).to_owned();
        proof {
            assert(value@ =~= rest@.subrange(first as int + 1, last_index_of(rest@, ':')));
            assert(ty@ =~= rest@.skip(last_index_of(rest@, ':') + 1));
        }
        Ok((path, value, Some(ty)))
    } else {
        let value = rest.substring_char(first + 1, n).to_owned();
        proof {
            assert(value@ =~= rest@.skip(first as int + 1));
        }
        Ok((path, value, None))
    }
}

/// Whether `c` is a decimal digit.
pub open spec fn is_digit(c: char) -> bool {
    '0' <= c && c <= '9'
}

/// Whether `s` is all decimal digits.
pub open spec fn all_digits(s: Seq<char>) -> bool {
    forall|j: int| 0 <= j < s.len() ==> is_digit(#[trigger] s[j])
}

/// The numeric value of a digit.
pub open spec fn digit_val(c: char) -> int {
    (c as u32) as int - 48
}

/// The number a digit string denotes.
pub open spec fn digits_value(s: Seq<char>) -> int
    decreases s.len(),
{
    if s.len() == 0 {
        0
    } else {
        digits_value(s.drop_last()) * 10 + digit_val(s.last())
    }
}

proof fn lemma_digits_value_nonneg(s: Seq<char>)
    requires
        all_digits(s),
    ensures
        digits_value(s) >= 0,
    decreases s.len(),
{
    if s.len() > 0 {
        assert(all_digits(s.drop_last())) by {
            assert forall|j: int| 0 <= j < s.drop_last().len() implies is_digit(
                #[trigger] s.drop_last()[j],
            ) by {
                assert(s.drop_last()[j] == s[j]);
            }
        }
        lemma_digits_value_nonneg(s.drop_last());
    }
}

/// A digit string's value never falls below any of its prefixes' values.
proof fn lemma_digits_value_prefix(s: Seq<char>, k: int)
    requires
        all_digits(s),
        0 <= k <= s.len(),
    ensures
        digits_value(s) >= digits_value(s.take(k)),
    decreases s.len() - k,
{
    if k == s.len() {
        assert(s.take(k) =~= s);
    } else {
        assert(s.take(k + 1).drop_last() =~= s.take(k));
        assert(s.take(k + 1).last() == s[k]);
        assert(all_digits(s.take(k))) by {
            assert forall|j: int| 0 <= j < s.take(k).len() implies is_digit(
                #[trigger] s.take(k)[j],
            ) by {
                assert(s.take(k)[j] == s[j]);
            }
        }
        lemma_digits_value_nonneg(s.take(k));
        assert(digits_value(s.take(k + 1)) >= digits_value(s.take(k)));
        lemma_digits_value_prefix(s, k + 1);
    }
}

/// Parse a decimal number. The result is exact for every number up to
/// `u32::MAX`; a string that is empty, not all digits, or denotes a larger
/// number is rejected.
pub fn parse_usize(s: &str) -> (r: Option<usize>)
    ensures
        r matches Some(v) ==> s@.len() > 0 && all_digits(s@) && v == digits_value(s@),
        s@.len() > 0 && all_digits(s@) && digits_value(s@) <= 0xFFFF_FFFF ==> r is Some,
{
    let n = s.unicode_len();
    if n == 0 {
        return None;
    }
    let mut acc: usize = 0;
    let mut i: usize = 0;
    proof {
        assert(s@.take(0) =~= Seq::<char>::empty());
    }
    while i < n
        invariant
            0 <= i <= n,
            n == s@.len(),
            forall|j: int| 0 <= j < i ==> is_digit(#[trigger] s@[j]),
            acc <= 0xFFFF_FFFF,
            acc == digits_value(s@.take(i as int)),
        decreases n - i,
    {
        let c = s.get_char(i);
        if c < '0' || c > '9' {
            proof {
                assert(!is_digit(s@[i as int]));
            }
            return None;
        }
        let d: usize = (c as u32 as usize) - 48;
        proof {
            assert(d <= 9);
            assert(s@.take(i as int + 1).drop_last() =~= s@.take(i as int));
            assert(s@.take(i as int + 1).last() == s@[i as int]);
        }
        if acc > (0xFFFF_FFFFusize - d) / 10 {
            proof {
                assert(10 * acc + d > 0xFFFF_FFFF);
                assert(digits_value(s@.take(i as int + 1)) > 0xFFFF_FFFF);
                if all_digits(s@) {
                    lemma_digits_value_prefix(s@, i as int + 1);
                }
            }
            return None;
        }
        acc = acc * 10 + d;
        i += 1;
    }
    proof {
        assert(s@.take(n as int) =~= s@);
    }
    Some(acc)
}

} // verus!
