//! Path-prefix completion over the index: the mathematical model, and the
//! law that completion returns exactly the matching children, re-qualified.
//!
//! Given raw input, completion either reconstructs a stateful command from
//! the session's selected path (for inputs that open like `set` or `insert`),
//! or treats the input as a partial path: everything before its last
//! delimiter names the lookup path, the rest is a prefix, and the candidates
//! are the lookup path's children whose names start with that prefix,
//! case-insensitively, each re-qualified into a full path.

use crate::assoc::assoc_get;
use crate::path_index::{children_of, lemma_root_literal, IndexView};
use crate::root_path;
use crate::strutil::{
    find_first, find_last, first_index_of, last_index_of, lemma_first_index_of,
    lemma_last_index_of, lower_of, str_eq,
};
use crate::value_map::MapView;
use vstd::prelude::*;

verus! {

/// The metadata key under which the session stores the selected path.
pub open spec fn selected_key() -> Seq<char> {
    seq!['s', 'e', 'l', 'e', 'c', 't', 'e', 'd']
}

/// The session's selected path, or empty if none is selected.
pub open spec fn selected_of(meta: MapView) -> Seq<char> {
    match assoc_get(meta, selected_key()) {
        Option::Some(s) => s,
        Option::None => Seq::empty(),
    }
}

/// The cached value of `k`, or empty if `k` is not cached.
pub open spec fn value_or_empty(values: MapView, k: Seq<char>) -> Seq<char> {
    match assoc_get(values, k) {
        Option::Some(v) => v,
        Option::None => Seq::empty(),
    }
}

/// The path whose children are offered for `input`: everything before the
/// last delimiter, or the root when the input has no delimiter or starts
/// with its only one.
pub open spec fn lookup_path_of(input: Seq<char>) -> Seq<char> {
    if input.len() == 0 || first_index_of(input, '/') == input.len() {
        root_path()
    } else if last_index_of(input, '/') == 0 {
        root_path()
    } else {
        input.subrange(0, last_index_of(input, '/'))
    }
}

/// The partial segment being completed: everything after the last delimiter,
/// or the whole input when it has no delimiter.
pub open spec fn prefix_of_input(input: Seq<char>) -> Seq<char> {
    if first_index_of(input, '/') == input.len() {
        input
    } else {
        input.subrange(last_index_of(input, '/') + 1, input.len() as int)
    }
}

/// A child name re-qualified into a full path under the lookup path.
pub open spec fn requalified(lookup: Seq<char>, child: Seq<char>) -> Seq<char> {
    if lookup == root_path() {
        seq!['/'] + child
    } else {
        lookup + seq!['/'] + child
    }
}

/// Whether `child` is offered for `prefix`: its lowercase form starts with
/// the prefix's lowercase form.
pub open spec fn child_matches(prefix: Seq<char>, child: Seq<char>) -> bool {
    lower_of(prefix).is_prefix_of(lower_of(child))
}

/// The matching children, in order, each re-qualified under `lookup`.
pub open spec fn filtered_requalified(
    children: Seq<Seq<char>>,
    lookup: Seq<char>,
    prefix: Seq<char>,
) -> Seq<Seq<char>>
    decreases children.len(),
{
    if children.len() == 0 {
        Seq::empty()
    } else if child_matches(prefix, children[0]) {
        seq![requalified(lookup, children[0])] + filtered_requalified(
            children.drop_first(),
            lookup,
            prefix,
        )
    } else {
        filtered_requalified(children.drop_first(), lookup, prefix)
    }
}

/// The path candidates for `input`: the case-insensitive-prefix-matching
/// children of the lookup path, re-qualified under it.
pub open spec fn path_candidates(index: IndexView, input: Seq<char>) -> Seq<Seq<char>> {
    filtered_requalified(
        children_of(index, lookup_path_of(input)),
        lookup_path_of(input),
        prefix_of_input(input),
    )
}

/// The single reconstruction candidate for an input opening like `set`.
pub open spec fn set_candidate(value: Seq<char>) -> Seq<char> {
    seq!['s', 'e', 't', ' '] + value
}

/// The single reconstruction candidate for an input opening like `insert`.
pub open spec fn insert_candidate(selected: Seq<char>, value: Seq<char>) -> Seq<char> {
    seq!['i', 'n', 's', 'e', 'r', 't', ' '] + selected + seq![':'] + value + seq![
        ':',
        'S',
        't',
        'r',
        'i',
        'n',
        'g',
    ]
}

/// What completion returns for `input`: a single reconstruction candidate
/// for the stateful verbs, else the path candidates.
pub open spec fn completions_model(
    index: IndexView,
    values: MapView,
    meta: MapView,
    input: Seq<char>,
) -> Seq<Seq<char>> {
    let lowered = lower_of(input);
    if seq!['s', 'e', 't'].is_prefix_of(lowered) {
        seq![set_candidate(value_or_empty(values, selected_of(meta)))]
    } else if seq!['i', 'n', 's', 'e', 'r', 't'].is_prefix_of(lowered) {
        seq![
            insert_candidate(
                selected_of(meta),
                value_or_empty(values, selected_of(meta)),
            ),
        ]
    } else {
        path_candidates(index, input)
    }
}

/// The command keywords whose lowercase form starts with the lowercase
/// input, in order.
pub open spec fn command_matches(commands: Seq<Seq<char>>, input: Seq<char>) -> Seq<Seq<char>>
    decreases commands.len(),
{
    if commands.len() == 0 {
        Seq::empty()
    } else if lower_of(input).is_prefix_of(lower_of(commands[0])) {
        seq![commands[0]] + command_matches(commands.drop_first(), input)
    } else {
        command_matches(commands.drop_first(), input)
    }
}

/// The path whose children are offered for `input`.
pub fn lookup_path(input: &str) -> (r: String)
    ensures
        r@ == lookup_path_of(input@),
{
    let n = input.unicode_len();
    proof {
        lemma_first_index_of(input@, '/');
        lemma_last_index_of(input@, '/');
        lemma_root_literal();
    }
    let k = find_first(input, '/');
    if n == 0 || k == n {
        return String::from_str("/");
    }
    proof {
        assert(input@[k as int] == '/');
        if last_index_of(input@, '/') < k as int {
            assert(input@[k as int] != '/');
        }
    }
    let last_plus = find_last(input, '/');
    if last_plus == 1 {
        String::from_str("/")
    } else {
        input.substring_char(0, last_plus - 1).to_owned()
    }
}

/// The partial segment being completed for `input`.
pub fn input_prefix(input: &str) -> (r: String)
    ensures
        r@ == prefix_of_input(input@),
{
    let n = input.unicode_len();
    proof {
        lemma_first_index_of(input@, '/');
        lemma_last_index_of(input@, '/');
    }
    let k = find_first(input, '/');
    if k == n {
        return input.to_owned();
    }
    proof {
        assert(input@[k as int] == '/');
        if last_index_of(input@, '/') < k as int {
            assert(input@[k as int] != '/');
        }
    }
    let last_plus = find_last(input, '/');
    input.substring_char(last_plus, n).to_owned()
}

/// A child name re-qualified into a full path under the lookup path.
pub fn requalify(lookup: &str, child: &str) -> (r: String)
    ensures
        r@ == requalified(lookup@, child@),
{
    proof {
        lemma_root_literal();
    }
    if str_eq(lookup, "/") {
        let mut out = String::from_str("/");
        out.append(child);
        proof {
            assert(out@ =~= requalified(lookup@, child@));
        }
        out
    } else {
        let mut out = lookup.to_owned();
        out.append("/");
        out.append(child);
        proof {
            assert(out@ =~= requalified(lookup@, child@));
        }
        out
    }
}

/// Completion law: the path candidates are exactly the matching children of
/// the lookup path, re-qualified under it — every candidate comes from a
/// matching child, and every matching child yields its candidate; no entry
/// outside the child list ever appears.
pub proof fn lemma_filtered_requalified_exact(
    children: Seq<Seq<char>>,
    lookup: Seq<char>,
    prefix: Seq<char>,
)
    ensures
        forall|x: Seq<char>| #[trigger]
            filtered_requalified(children, lookup, prefix).contains(x) ==> exists|j: int|
                0 <= j < children.len() && child_matches(prefix, #[trigger] children[j]) && x
                    == requalified(lookup, children[j]),
        forall|j: int|
            0 <= j < children.len() && child_matches(prefix, #[trigger] children[j])
                ==> filtered_requalified(children, lookup, prefix).contains(
                requalified(lookup, children[j]),
            ),
    decreases children.len(),
{
    let r = filtered_requalified(children, lookup, prefix);
    assert forall|x: Seq<char>| #[trigger]
        filtered_requalified(children, lookup, prefix).contains(x) implies exists|j: int|
        0 <= j < children.len() && child_matches(prefix, #[trigger] children[j]) && x
            == requalified(lookup, children[j]) by {
        let i = choose|i: int| 0 <= i < r.len() && r[i] == x;
        assert(children.len() > 0);
        let t = children.drop_first();
        lemma_filtered_requalified_exact(t, lookup, prefix);
        let rt = filtered_requalified(t, lookup, prefix);
        if child_matches(prefix, children[0]) {
            if i == 0 {
                assert(r[0] == requalified(lookup, children[0]));
                assert(0 <= 0 < children.len() && child_matches(prefix, children[0]) && r[0]
                    == requalified(lookup, children[0]));
            }
            if i > 0 {
                assert(r[i] == rt[i - 1]);
                assert(0 <= i - 1 < rt.len());
                assert(rt.contains(rt[i - 1]));
                let j0 = choose|j0: int|
                    0 <= j0 < t.len() && child_matches(prefix, t[j0]) && rt[i - 1] == requalified(
                        lookup,
                        t[j0],
                    );
                assert(children[j0 + 1] == t[j0]);
            }
        } else {
            assert(r[i] == rt[i]);
            assert(0 <= i < rt.len());
            assert(rt.contains(rt[i]));
            let j0 = choose|j0: int|
                0 <= j0 < t.len() && child_matches(prefix, t[j0]) && rt[i] == requalified(
                    lookup,
                    t[j0],
                );
            assert(children[j0 + 1] == t[j0]);
        }
    }
    if children.len() > 0 {
        let t = children.drop_first();
        lemma_filtered_requalified_exact(t, lookup, prefix);
        let rt = filtered_requalified(t, lookup, prefix);
        assert forall|j: int|
            0 <= j < children.len() && child_matches(prefix, #[trigger] children[j]) implies r.contains(
            requalified(lookup, children[j]),
        ) by {
            if j == 0 {
                assert(r[0] == requalified(lookup, children[0]));
            } else {
                assert(children[j] == t[j - 1]);
                assert(rt.contains(requalified(lookup, t[j - 1])));
                let i0 = choose|i0: int|
                    0 <= i0 < rt.len() && rt[i0] == requalified(lookup, t[j - 1]);
                if child_matches(prefix, children[0]) {
                    assert(r[i0 + 1] == rt[i0]);
                } else {
                    assert(r[i0] == rt[i0]);
                }
            }
        }
    }
}

} // verus!
