//! In-memory tree of hierarchical keys: insertion and children lookup.
//!
//! The index maps each known path to the ordered list of its immediate child
//! segment names. The root path is always present, and every non-root key's
//! parent path is also a key: inserting a path registers every prefix on the
//! way down. Inserting the same full path twice appends duplicate child
//! entries; duplicates are kept, not folded.

use crate::assoc::{
    assoc_get, assoc_index, assoc_set, lemma_assoc_index, lemma_assoc_set, lemma_assoc_set_push,
    lemma_assoc_set_update,
};
use crate::root_path;
use crate::strutil::{
    clone_string_vec, find_first, first_index_of, last_index_of, lemma_first_index_of,
    lemma_last_index_of, str_eq,
};
use vstd::prelude::*;

verus! {

/// The view of a path index: keys with their child lists, in insertion order.
pub type IndexView = Seq<(Seq<char>, Seq<Seq<char>>)>;

/// One key of the index, with its ordered child segment names.
struct IndexEntry {
    path: String,
    children: Vec<String>,
}

/// In-memory tree of hierarchical keys.
pub struct PathIndex {
    entries: Vec<IndexEntry>,
}

// ---------------------------------------------------------------------------
// The mathematical model of paths and insertion
// ---------------------------------------------------------------------------

/// The non-empty, delimiter-free pieces of `p`, in order.
pub open spec fn segments_of(p: Seq<char>) -> Seq<Seq<char>>
    decreases p.len(),
    via segments_of_decreases
{
    if p.len() == 0 {
        Seq::empty()
    } else if p[0] == '/' {
        segments_of(p.drop_first())
    } else {
        seq![p.subrange(0, first_index_of(p, '/'))] + segments_of(p.skip(first_index_of(p, '/')))
    }
}

#[via_fn]
proof fn segments_of_decreases(p: Seq<char>) {
    if p.len() > 0 && p[0] != '/' {
        lemma_first_index_of(p, '/');
    }
}

/// A well-formed segment: non-empty and free of the delimiter.
pub open spec fn seg_ok(s: Seq<char>) -> bool {
    s.len() > 0 && forall|j: int| 0 <= j < s.len() ==> s[j] != '/'
}

/// The key reached by descending from `parent` into the child segment `seg`.
pub open spec fn child_path(parent: Seq<char>, seg: Seq<char>) -> Seq<char> {
    if parent.len() > 0 && parent.last() == '/' {
        parent + seg
    } else {
        parent + seq!['/'] + seg
    }
}

/// The parent key of `k`: everything before the last delimiter, or the root
/// when `k` has no delimiter or starts with its only one.
pub open spec fn parent_of(k: Seq<char>) -> Seq<char> {
    if last_index_of(k, '/') <= 0 {
        root_path()
    } else {
        k.subrange(0, last_index_of(k, '/'))
    }
}

/// The registered children of `k`, or the empty sequence for an unknown key.
pub open spec fn children_of(m: IndexView, k: Seq<char>) -> Seq<Seq<char>> {
    match assoc_get(m, k) {
        Option::Some(ks) => ks,
        Option::None => Seq::empty(),
    }
}

/// The index invariant: the root key is present, and every non-root key's
/// parent is also a key.
pub open spec fn wf(m: IndexView) -> bool {
    &&& assoc_get(m, root_path()) is Some
    &&& forall|k: Seq<char>|
        (#[trigger] assoc_get(m, k)) is Some ==> k == root_path() || assoc_get(
            m,
            parent_of(k),
        ) is Some
}

/// Append `seg` to `parent`'s child list, creating `parent` if absent.
pub open spec fn register_child(m: IndexView, parent: Seq<char>, seg: Seq<char>) -> IndexView {
    assoc_set(m, parent, children_of(m, parent).push(seg))
}

/// Make `k` a key, with no children yet, if it is not one.
pub open spec fn ensure_key(m: IndexView, k: Seq<char>) -> IndexView {
    if assoc_get(m, k) is Some {
        m
    } else {
        assoc_set(m, k, Seq::empty())
    }
}

/// Walk down from `cur`, registering each segment as a child of the
/// accumulated parent path and making each accumulated path a key.
pub open spec fn insert_segments(m: IndexView, cur: Seq<char>, segs: Seq<Seq<char>>) -> IndexView
    decreases segs.len(),
{
    if segs.len() == 0 {
        m
    } else {
        insert_segments(
            ensure_key(register_child(m, cur, segs[0]), child_path(cur, segs[0])),
            child_path(cur, segs[0]),
            segs.drop_first(),
        )
    }
}

/// What inserting `path` does to an index: the root is made a key, then the
/// path's segments are walked down from the root.
pub open spec fn insert_path(m: IndexView, path: Seq<char>) -> IndexView {
    insert_segments(ensure_key(m, root_path()), root_path(), segments_of(path))
}

/// A key the insertion walk can stand at: the root, or a key that does not
/// end with the delimiter.
pub open spec fn walk_key(k: Seq<char>) -> bool {
    k == root_path() || (k.len() > 0 && k.last() != '/')
}

// ---------------------------------------------------------------------------
// Lemmas
// ---------------------------------------------------------------------------

/// The literal `/` spells the root path.
pub proof fn lemma_root_literal()
    ensures
        "/"@ == root_path(),
{
    reveal_strlit("/");
    assert("/"@ =~= root_path());
}

/// Every segment of every path is non-empty and delimiter-free.
pub proof fn lemma_segments_ok(p: Seq<char>)
    ensures
        forall|i: int| 0 <= i < segments_of(p).len() ==> seg_ok(#[trigger] segments_of(p)[i]),
    decreases p.len(),
{
    if p.len() == 0 {
    } else if p[0] == '/' {
        lemma_segments_ok(p.drop_first());
        assert forall|i: int| 0 <= i < segments_of(p).len() implies seg_ok(
            #[trigger] segments_of(p)[i],
        ) by {
            assert(segments_of(p)[i] == segments_of(p.drop_first())[i]);
        }
    } else {
        lemma_first_index_of(p, '/');
        let k = first_index_of(p, '/');
        lemma_segments_ok(p.skip(k));
        let head = p.subrange(0, k);
        assert(seg_ok(head));
        assert forall|i: int| 0 <= i < segments_of(p).len() implies seg_ok(
            #[trigger] segments_of(p)[i],
        ) by {
            if i > 0 {
                assert(segments_of(p)[i] == segments_of(p.skip(k))[i - 1]);
            }
        }
    }
}

/// Descending from a walk key by a well-formed segment gives a non-root walk
/// key whose parent is the key descended from.
pub proof fn lemma_child_path_parent(cur: Seq<char>, seg: Seq<char>)
    requires
        walk_key(cur),
        cur.len() > 0,
        seg_ok(seg),
    ensures
        parent_of(child_path(cur, seg)) == cur,
        walk_key(child_path(cur, seg)),
        child_path(cur, seg) != root_path(),
        child_path(cur, seg).len() > cur.len(),
{
    let c = child_path(cur, seg);
    lemma_last_index_of(c, '/');
    if cur == root_path() {
        assert(c =~= seq!['/'] + seg);
        assert(c[0] == '/');
        assert forall|j: int| 0 < j < c.len() implies c[j] != '/' by {
            assert(c[j] == seg[j - 1]);
        }
        assert(last_index_of(c, '/') == 0) by {
            if last_index_of(c, '/') > 0 {
                assert(c[last_index_of(c, '/')] == '/');
            }
            if last_index_of(c, '/') < 0 {
                assert(c[0] != '/');
            }
        }
        assert(parent_of(c) == root_path());
        assert(c.last() == seg.last());
    } else {
        assert(c =~= cur + seq!['/'] + seg);
        assert(c[cur.len() as int] == '/');
        assert forall|j: int| cur.len() < j < c.len() implies c[j] != '/' by {
            assert(c[j] == seg[j - cur.len() - 1]);
        }
        assert(last_index_of(c, '/') == cur.len()) by {
            if last_index_of(c, '/') > cur.len() {
                assert(c[last_index_of(c, '/')] == '/');
            }
            if last_index_of(c, '/') < cur.len() {
                assert(c[cur.len() as int] != '/');
            }
        }
        assert(parent_of(c) =~= cur);
        assert(c.last() == seg.last());
        assert(c.len() > 1);
        assert(c != root_path());
    }
}

/// Registering a child of a present key keeps the invariant and the key set.
pub proof fn lemma_register_child_wf(m: IndexView, parent: Seq<char>, seg: Seq<char>)
    requires
        wf(m),
        assoc_get(m, parent) is Some,
    ensures
        wf(register_child(m, parent, seg)),
        forall|k: Seq<char>|
            (#[trigger] assoc_get(register_child(m, parent, seg), k)) is Some <==> assoc_get(
                m,
                k,
            ) is Some,
{
    lemma_assoc_set(m, parent, children_of(m, parent).push(seg));
}

/// Making `k` a key keeps the invariant when `k`'s parent is already a key.
pub proof fn lemma_ensure_key_wf(m: IndexView, k: Seq<char>)
    requires
        wf(m),
        k == root_path() || assoc_get(m, parent_of(k)) is Some,
    ensures
        wf(ensure_key(m, k)),
        assoc_get(ensure_key(m, k), k) is Some,
        forall|k2: Seq<char>|
            (#[trigger] assoc_get(ensure_key(m, k), k2)) is Some <==> (assoc_get(m, k2) is Some
                || k2 == k),
{
    if assoc_get(m, k) is None {
        lemma_assoc_set(m, k, Seq::<Seq<char>>::empty());
    }
}

// ---------------------------------------------------------------------------
// The executable index
// ---------------------------------------------------------------------------

impl View for PathIndex {
    type V = IndexView;

    closed spec fn view(&self) -> IndexView {
        self.entries@.map_values(|e: IndexEntry| (e.path@, e.children.deep_view()))
    }
}

impl PathIndex {
    /// A fresh index holding only the root key.
    pub fn new() -> (r: PathIndex)
        ensures
            r@ == Seq::empty().push((root_path(), Seq::<Seq<char>>::empty())),
            wf(r@),
    {
        let mut entries: Vec<IndexEntry> = Vec::new();
        entries.push(IndexEntry { path: String::from_str("/"), children: Vec::new() });
        let r = PathIndex { entries };
        proof {
            lemma_root_literal();
            assert(r@ =~~= Seq::empty().push((root_path(), Seq::<Seq<char>>::empty())));
            assert(r@[0].0 == root_path());
            assert(r@.drop_first() =~= Seq::<(Seq<char>, Seq<Seq<char>>)>::empty());
            assert forall|k: Seq<char>| (#[trigger] assoc_get(r@, k)) is Some implies k
                == root_path() by {
                if k != root_path() {
                    assert(assoc_get(r@.drop_first(), k) is None);
                }
            }
        }
        r
    }

    /// The position of `key` among the entries, or their number if absent.
    fn find(&self, key: &str) -> (r: usize)
        ensures
            r == assoc_index(self@, key@),
    {
        let n = self.entries.len();
        proof {
            lemma_assoc_index(self@, key@);
        }
        let mut i: usize = 0;
        while i < n
            invariant
                0 <= i <= n,
                n == self@.len(),
                n == self.entries@.len(),
                forall|j: int| 0 <= j < i ==> self@[j].0 != key@,
            decreases n - i,
        {
            proof {
                assert(self@[i as int].0 == self.entries@[i as int].path@);
            }
            if str_eq(self.entries[i].path.as_str(), key) {
                proof {
                    lemma_assoc_index(self@, key@);
                }
                return i;
            }
            i += 1;
        }
        proof {
            lemma_assoc_index(self@, key@);
            if assoc_index(self@, key@) < n {
                assert(self@[assoc_index(self@, key@)].0 == key@);
            }
        }
        n
    }

    /// Whether `path` is a key.
    pub fn contains_key(&self, path: &str) -> (r: bool)
        ensures
            r == (assoc_get(self@, path@) is Some),
    {
        let i = self.find(path);
        proof {
            lemma_assoc_index(self@, path@);
        }
        i < self.entries.len()
    }

    /// The registered immediate children of `path`, or the empty sequence for
    /// an unknown key.
    pub fn children(&self, path: &str) -> (r: Vec<String>)
        ensures
            r.deep_view() == children_of(self@, path@),
    {
        let i = self.find(path);
        proof {
            lemma_assoc_index(self@, path@);
        }
        if i < self.entries.len() {
            let r = clone_string_vec(&self.entries[i].children);
            proof {
                assert(self@[i as int].1 == self.entries@[i as int].children.deep_view());
                assert(r.deep_view() =~= self.entries@[i as int].children.deep_view());
            }
            r
        } else {
            Vec::new()
        }
    }

    /// Append `child` to `parent`'s child list, creating `parent` if absent.
    fn push_child(&mut self, parent: &str, child: &str)
        ensures
            final(self)@ == register_child(old(self)@, parent@, child@),
    {
        let ghost m = self@;
        let i = self.find(parent);
        proof {
            lemma_assoc_index(m, parent@);
        }
        if i < self.entries.len() {
            let ghost before = self.entries@;
            let mut entry = self.entries.remove(i);
            let ghost kids_before = entry.children.deep_view();
            entry.children.push(child.to_owned());
            proof {
                assert(kids_before == m[i as int].1);
                assert(kids_before == children_of(m, parent@));
                assert(entry.children.deep_view() =~~= kids_before.push(child@));
                assert(entry.path@ == parent@);
            }
            self.entries.insert(i, entry);
            proof {
                lemma_assoc_set_update(m, parent@, children_of(m, parent@).push(child@));
                let target = m.update(i as int, (parent@, children_of(m, parent@).push(child@)));
                assert(self@ =~~= target) by {
                    assert(self.entries@ =~= before.remove(i as int).insert(
                        i as int,
                        self.entries@[i as int],
                    ));
                    assert forall|j: int| 0 <= j < self@.len() implies self@[j] =~~= target[j] by {
                        if j != i {
                            assert(self.entries@[j] == before[j]);
                        }
                    }
                }
            }
        } else {
            let mut kids: Vec<String> = Vec::new();
            kids.push(child.to_owned());
            proof {
                assert(kids.deep_view() =~~= children_of(m, parent@).push(child@));
            }
            self.entries.push(IndexEntry { path: parent.to_owned(), children: kids });
            proof {
                lemma_assoc_set_push(m, parent@, children_of(m, parent@).push(child@));
                assert(self@ =~~= m.push((parent@, children_of(m, parent@).push(child@))));
            }
        }
    }

    /// Make `key` a key, with no children yet, if it is not one.
    fn ensure_entry(&mut self, key: &str)
        ensures
            final(self)@ == ensure_key(old(self)@, key@),
    {
        let ghost m = self@;
        let i = self.find(key);
        proof {
            lemma_assoc_index(m, key@);
        }
        if i == self.entries.len() {
            self.entries.push(IndexEntry { path: key.to_owned(), children: Vec::new() });
            proof {
                lemma_assoc_set_push(m, key@, Seq::<Seq<char>>::empty());
                assert(self@ =~~= m.push((key@, Seq::<Seq<char>>::empty())));
            }
        }
    }

    /// Bind `key` to an empty child list, replacing any previous children.
    /// The key must be the root or one whose parent is already present, so
    /// that the index invariant survives.
    pub fn register(&mut self, key: &str)
        requires
            wf(old(self)@),
            key@ == root_path() || assoc_get(old(self)@, parent_of(key@)) is Some,
        ensures
            final(self)@ == assoc_set(old(self)@, key@, Seq::<Seq<char>>::empty()),
            wf(final(self)@),
    {
        let ghost m = self@;
        let i = self.find(key);
        proof {
            lemma_assoc_index(m, key@);
            lemma_assoc_set(m, key@, Seq::<Seq<char>>::empty());
        }
        if i < self.entries.len() {
            let ghost before = self.entries@;
            let mut entry = self.entries.remove(i);
            entry.children = Vec::new();
            proof {
                assert(entry.path@ == key@);
                assert(entry.children.deep_view() =~~= Seq::<Seq<char>>::empty());
            }
            self.entries.insert(i, entry);
            proof {
                lemma_assoc_set_update(m, key@, Seq::<Seq<char>>::empty());
                let target = m.update(i as int, (key@, Seq::<Seq<char>>::empty()));
                assert(self@ =~~= target) by {
                    assert(self.entries@ =~= before.remove(i as int).insert(
                        i as int,
                        self.entries@[i as int],
                    ));
                    assert forall|j: int| 0 <= j < self@.len() implies self@[j] =~~= target[j] by {
                        if j != i {
                            assert(self.entries@[j] == before[j]);
                        }
                    }
                }
            }
        } else {
            self.entries.push(IndexEntry { path: key.to_owned(), children: Vec::new() });
            proof {
                lemma_assoc_set_push(m, key@, Seq::<Seq<char>>::empty());
                assert(self@ =~~= m.push((key@, Seq::<Seq<char>>::empty())));
            }
        }
    }

    /// How many keys the index holds.
    pub fn entry_count(&self) -> (r: usize)
        ensures
            r == self@.len(),
    {
        self.entries.len()
    }

    /// The key at position `i`.
    pub fn path_at(&self, i: usize) -> (r: &String)
        requires
            i < self@.len(),
        ensures
            r@ == self@[i as int].0,
    {
        proof {
            assert(self@[i as int].0 == self.entries@[i as int].path@);
        }
        &self.entries[i].path
    }

    /// The child list at position `i`.
    pub fn children_at(&self, i: usize) -> (r: &Vec<String>)
        requires
            i < self@.len(),
        ensures
            r.deep_view() == self@[i as int].1,
    {
        proof {
            assert(self@[i as int].1 == self.entries@[i as int].children.deep_view());
        }
        &self.entries[i].children
    }

    /// Insert a full path: walk from the root and, for every segment,
    /// register it as a child of the accumulated parent path and make the
    /// accumulated path itself a key.
    pub fn insert(&mut self, full_path: &str)
        requires
            wf(old(self)@),
        ensures
            final(self)@ == insert_path(old(self)@, full_path@),
            wf(final(self)@),
    {
        let ghost m0 = self@;
        proof {
            lemma_root_literal();
        }
        self.ensure_entry("/");
        proof {
            lemma_ensure_key_wf(m0, root_path());
            lemma_segments_ok(full_path@);
        }
        let segs = split_segments(full_path);
        let ghost segs_view = segments_of(full_path@);
        let mut cur = String::from_str("/");
        proof {
            assert(cur@ == root_path());
            assert(segs_view.skip(0) =~= segs_view);
        }
        let n = segs.len();
        let mut i: usize = 0;
        while i < n
            invariant
                0 <= i <= n,
                n == segs@.len(),
                segs.deep_view() == segs_view,
                forall|j: int| 0 <= j < segs_view.len() ==> seg_ok(#[trigger] segs_view[j]),
                wf(self@),
                assoc_get(self@, cur@) is Some,
                walk_key(cur@),
                cur@.len() > 0,
                insert_path(m0, full_path@) == insert_segments(self@, cur@, segs_view.skip(i as int)),
            decreases n - i,
        {
            let ghost m_before = self@;
            let ghost cur_before = cur@;
            proof {
                assert(segs@[i as int]@ == segs_view[i as int]);
            }
            let seg = &segs[i];
            self.push_child(cur.as_str(), seg.as_str());
            proof {
                lemma_register_child_wf(m_before, cur_before, seg@);
                lemma_child_path_parent(cur_before, seg@);
            }
            cur = join_child(&cur, seg.as_str());
            let ghost m_mid = self@;
            self.ensure_entry(cur.as_str());
            proof {
                lemma_ensure_key_wf(m_mid, cur@);
                assert(segs_view.skip(i as int).drop_first() =~= segs_view.skip(i as int + 1));
                assert(segs_view.skip(i as int)[0] == segs_view[i as int]);
                assert(insert_segments(m_before, cur_before, segs_view.skip(i as int))
                    == insert_segments(self@, cur@, segs_view.skip(i as int + 1)));
            }
            i += 1;
        }
        proof {
            assert(segs_view.skip(n as int) =~= Seq::<Seq<char>>::empty());
        }
    }
}

/// The key reached by descending from `parent` into the child segment `seg`.
fn join_child(parent: &String, seg: &str) -> (r: String)
    ensures
        r@ == child_path(parent@, seg@),
{
    let n = parent.as_str().unicode_len();
    proof {
        lemma_root_literal();
    }
    if n > 0 && parent.as_str().get_char(n - 1) == '/' {
        let r = parent.clone().concat(seg);
        proof {
            assert(r@ =~= child_path(parent@, seg@));
        }
        r
    } else {
        let mut r = parent.clone();
        r.append("/");
        r.append(seg);
        proof {
            assert(r@ =~= child_path(parent@, seg@));
        }
        r
    }
}

/// The non-empty, delimiter-free pieces of `p`, in order.
fn split_segments(p: &str) -> (r: Vec<String>)
    ensures
        r.deep_view() == segments_of(p@),
    decreases p@.len(),
{
    let n = p.unicode_len();
    if n == 0 {
        let r: Vec<String> = Vec::new();
        proof {
            assert(r.deep_view() =~= segments_of(p@));
        }
        r
    } else if p.get_char(0) == '/' {
        let rest = p.substring_char(1, n);
        let r = split_segments(rest);
        proof {
            assert(rest@ == p@.drop_first());
        }
        r
    } else {
        proof {
            lemma_first_index_of(p@, '/');
        }
        let k = find_first(p, '/');
        let head = p.substring_char(0, k).to_owned();
        let tail = p.substring_char(k, n);
        proof {
            assert(tail@ == p@.skip(k as int));
        }
        let mut rest = split_segments(tail);
        let ghost rest_entries = rest@;
        let ghost head_view = head@;
        let mut r: Vec<String> = Vec::new();
        r.push(head);
        r.append(&mut rest);
        proof {
            assert(r@ =~= seq![].push(r@[0]) + rest_entries);
            assert(r.deep_view() =~= segments_of(p@)) by {
                assert(segments_of(p@) == seq![p@.subrange(0, k as int)] + segments_of(
                    p@.skip(k as int),
                ));
                assert forall|j: int| 0 <= j < r.deep_view().len() implies r.deep_view()[j]
                    == segments_of(p@)[j] by {
                    assert(r.deep_view()[j] == r@[j]@);
                    if j == 0 {
                        assert(r@[0]@ == head_view);
                    } else {
                        assert(r@[j] == rest_entries[j - 1]);
                        assert(rest_entries[j - 1]@ == segments_of(p@.skip(k as int))[j - 1]);
                    }
                }
            }
        }
        r
    }
}

} // verus!
