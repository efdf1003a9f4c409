//! String keys bound to string values, with insertion order kept: the
//! in-memory value map, and the session's small metadata map.

use crate::assoc::{
    assoc_get, assoc_index, assoc_set, lemma_assoc_index, lemma_assoc_set_push,
    lemma_assoc_set_update,
};
use crate::strutil::str_eq;
use vstd::prelude::*;

verus! {

/// The view of a value map: keys with their values, in insertion order.
pub type MapView = Seq<(Seq<char>, Seq<char>)>;

/// A mapping from string keys to string values; a key bound twice keeps its
/// position and takes the later value.
pub struct ValueMap {
    entries: Vec<(String, String)>,
}

impl View for ValueMap {
    type V = MapView;

    closed spec fn view(&self) -> MapView {
        self.entries@.map_values(|p: (String, String)| (p.0@, p.1@))
    }
}

impl ValueMap {
    /// A fresh, empty map.
    pub fn new() -> (r: ValueMap)
        ensures
            r@ == Seq::<(Seq<char>, Seq<char>)>::empty(),
    {
        let r = ValueMap { entries: Vec::new() };
        proof {
            assert(r@ =~= Seq::<(Seq<char>, Seq<char>)>::empty());
        }
        r
    }

    /// The position of `key` among the entries, or their number if absent.
    fn find(&self, key: &str) -> (r: usize)
        ensures
            r == assoc_index(self@, key@),
    {
        let n = self.entries.len();
        proof {
            lemma_assoc_index(self@, key@);
        }
        let mut i: usize = 0;
        while i < n
            invariant
                0 <= i <= n,
                n == self@.len(),
                n == self.entries@.len(),
                forall|j: int| 0 <= j < i ==> self@[j].0 != key@,
            decreases n - i,
        {
            proof {
                assert(self@[i as int].0 == self.entries@[i as int].0@);
            }
            if str_eq(self.entries[i].0.as_str(), key) {
                proof {
                    lemma_assoc_index(self@, key@);
                }
                return i;
            }
            i += 1;
        }
        proof {
            lemma_assoc_index(self@, key@);
            if assoc_index(self@, key@) < n {
                assert(self@[assoc_index(self@, key@)].0 == key@);
            }
        }
        n
    }

    /// Whether `key` is bound.
    pub fn contains_key(&self, key: &str) -> (r: bool)
        ensures
            r == (assoc_get(self@, key@) is Some),
    {
        let i = self.find(key);
        proof {
            lemma_assoc_index(self@, key@);
        }
        i < self.entries.len()
    }

    /// The value bound to `key`, if any, as a fresh copy.
    pub fn get(&self, key: &str) -> (r: Option<String>)
        ensures
            r is Some <==> assoc_get(self@, key@) is Some,
            r matches Some(v) ==> assoc_get(self@, key@) == Some(v@),
    {
        let i = self.find(key);
        proof {
            lemma_assoc_index(self@, key@);
        }
        if i < self.entries.len() {
            proof {
                assert(self@[i as int].1 == self.entries@[i as int].1@);
            }
            Some(self.entries[i].1.clone())
        } else {
            None
        }
    }

    /// Bind `key` to `value`: an existing binding keeps its position and
    /// takes the new value; a new key goes at the end.
    pub fn insert(&mut self, key: &str, value: String)
        ensures
            final(self)@ == assoc_set(old(self)@, key@, value@),
    {
        let ghost m = self@;
        let ghost value_view = value@;
        let i = self.find(key);
        proof {
            lemma_assoc_index(m, key@);
        }
        if i < self.entries.len() {
            let ghost before = self.entries@;
            self.entries.remove(i);
            self.entries.insert(i, (key.to_owned(), value));
            proof {
                lemma_assoc_set_update(m, key@, value_view);
                let target = m.update(i as int, (key@, value_view));
                assert(self@ =~~= target) by {
                    assert(self.entries@ =~= before.remove(i as int).insert(
                        i as int,
                        self.entries@[i as int],
                    ));
                    assert forall|j: int| 0 <= j < self@.len() implies self@[j] =~~= target[j] by {
                        if j != i {
                            assert(self.entries@[j] == before[j]);
                        }
                    }
                }
            }
        } else {
            self.entries.push((key.to_owned(), value));
            proof {
                lemma_assoc_set_push(m, key@, value_view);
                assert(self@ =~~= m.push((key@, value_view)));
            }
        }
    }

    /// How many keys are bound.
    pub fn len(&self) -> (r: usize)
        ensures
            r == self@.len(),
    {
        self.entries.len()
    }

    /// The key of the entry at position `i`.
    pub fn key_at(&self, i: usize) -> (r: &String)
        requires
            i < self@.len(),
        ensures
            r@ == self@[i as int].0,
    {
        proof {
            assert(self@[i as int].0 == self.entries@[i as int].0@);
        }
        &self.entries[i].0
    }

    /// The value of the entry at position `i`.
    pub fn value_at(&self, i: usize) -> (r: &String)
        requires
            i < self@.len(),
        ensures
            r@ == self@[i as int].1,
    {
        proof {
            assert(self@[i as int].1 == self.entries@[i as int].1@);
        }
        &self.entries[i].1
    }

    /// All entries, as fresh copies, in insertion order.
    pub fn to_records(&self) -> (r: Vec<(String, String)>)
        ensures
            r.deep_view() == self@,
    {
        let n = self.entries.len();
        let mut out: Vec<(String, String)> = Vec::new();
        proof {
            assert(out.deep_view() =~~= self@.take(0));
        }
        let mut i: usize = 0;
        while i < n
            invariant
                0 <= i <= n,
                n == self.entries@.len(),
                n == self@.len(),
                out.deep_view() == self@.take(i as int),
            decreases n - i,
        {
            let ghost before = out.deep_view();
            out.push((self.entries[i].0.clone(), self.entries[i].1.clone()));
            proof {
                assert(self@[i as int] == (self.entries@[i as int].0@, self.entries@[i as int].1@));
                assert(out.deep_view() =~~= self@.take(i as int + 1)) by {
                    assert(out.deep_view() =~~= before.push(
                        (out@[out@.len() - 1].0@, out@[out@.len() - 1].1@),
                    ));
                    assert(self@.take(i as int + 1) =~~= self@.take(i as int).push(
                        self@[i as int],
                    ));
                }
            }
            i += 1;
        }
        proof {
            assert(self@.take(n as int) =~= self@);
        }
        out
    }
}

} // verus!
