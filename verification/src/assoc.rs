//! Association sequences: the mathematical model shared by the path index
//! and the value map. A mapping is a sequence of (key, value) pairs looked up
//! by first match; `assoc_set` updates in place or appends, so insertion
//! order is kept and keys stay unique.

use vstd::prelude::*;

verus! {

/// The value bound to `k`, by first match.
pub open spec fn assoc_get<V>(s: Seq<(Seq<char>, V)>, k: Seq<char>) -> Option<V>
    decreases s.len(),
{
    if s.len() == 0 {
        None
    } else if s[0].0 == k {
        Some(s[0].1)
    } else {
        assoc_get(s.drop_first(), k)
    }
}

/// The position of the first pair with key `k`, or `s.len()` if `k` is absent.
pub open spec fn assoc_index<V>(s: Seq<(Seq<char>, V)>, k: Seq<char>) -> int
    decreases s.len(),
{
    if s.len() == 0 {
        0
    } else if s[0].0 == k {
        0
    } else {
        1 + assoc_index(s.drop_first(), k)
    }
}

/// Bind `k` to `v`: update the first pair with key `k` in place, or append a
/// new pair at the end.
pub open spec fn assoc_set<V>(s: Seq<(Seq<char>, V)>, k: Seq<char>, v: V) -> Seq<(Seq<char>, V)>
    decreases s.len(),
{
    if s.len() == 0 {
        seq![(k, v)]
    } else if s[0].0 == k {
        seq![(k, v)] + s.drop_first()
    } else {
        seq![s[0]] + assoc_set(s.drop_first(), k, v)
    }
}

/// The keys of `s`, in order.
pub open spec fn assoc_keys<V>(s: Seq<(Seq<char>, V)>) -> Seq<Seq<char>> {
    s.map_values(|p: (Seq<char>, V)| p.0)
}

pub proof fn lemma_assoc_index<V>(s: Seq<(Seq<char>, V)>, k: Seq<char>)
    ensures
        0 <= assoc_index(s, k) <= s.len(),
        assoc_index(s, k) < s.len() ==> s[assoc_index(s, k)].0 == k && assoc_get(s, k) == Some(
            s[assoc_index(s, k)].1,
        ),
        assoc_index(s, k) == s.len() ==> assoc_get(s, k) is None,
        forall|j: int| 0 <= j < assoc_index(s, k) ==> s[j].0 != k,
    decreases s.len(),
{
    if s.len() > 0 && s[0].0 != k {
        let t = s.drop_first();
        lemma_assoc_index(t, k);
        let f = assoc_index(s, k);
        if f < s.len() {
            assert(s[f] == t[f - 1]);
        }
        assert forall|j: int| 0 <= j < f implies s[j].0 != k by {
            if j > 0 {
                assert(s[j] == t[j - 1]);
            }
        }
    }
}

pub proof fn lemma_assoc_set<V>(s: Seq<(Seq<char>, V)>, k: Seq<char>, v: V)
    ensures
        forall|k2: Seq<char>| #[trigger]
            assoc_get(assoc_set(s, k, v), k2) == if k2 == k {
                Some(v)
            } else {
                assoc_get(s, k2)
            },
        assoc_keys(assoc_set(s, k, v)) == if assoc_get(s, k) is Some {
            assoc_keys(s)
        } else {
            assoc_keys(s).push(k)
        },
    decreases s.len(),
{
    let r = assoc_set(s, k, v);
    if s.len() == 0 {
        assert forall|k2: Seq<char>| #[trigger]
            assoc_get(r, k2) == if k2 == k {
                Some(v)
            } else {
                assoc_get(s, k2)
            } by {
            assert(r[0] == (k, v));
            if k2 != k {
                assert(r.drop_first() =~= Seq::<(Seq<char>, V)>::empty());
                assert(assoc_get(r.drop_first(), k2) is None);
            }
        }
        assert(assoc_keys(r) =~= assoc_keys(s).push(k));
    } else if s[0].0 == k {
        assert forall|k2: Seq<char>| #[trigger]
            assoc_get(r, k2) == if k2 == k {
                Some(v)
            } else {
                assoc_get(s, k2)
            } by {
            assert(r[0] == (k, v));
            if k2 != k {
                assert(r.drop_first() =~= s.drop_first());
                assert(assoc_get(r, k2) == assoc_get(s.drop_first(), k2));
            }
        }
        assert(assoc_keys(r) =~= assoc_keys(s));
    } else {
        let t = s.drop_first();
        lemma_assoc_set(t, k, v);
        assert(r[0] == s[0]);
        assert(r.drop_first() =~= assoc_set(t, k, v));
        assert forall|k2: Seq<char>| #[trigger]
            assoc_get(r, k2) == if k2 == k {
                Some(v)
            } else {
                assoc_get(s, k2)
            } by {
            if k2 != s[0].0 {
                assert(assoc_get(r, k2) == assoc_get(assoc_set(t, k, v), k2));
                assert(assoc_get(s, k2) == assoc_get(t, k2));
            }
        }
        let rt = assoc_set(t, k, v);
        assert(r.len() == 1 + rt.len());
        assert forall|i: int| 0 <= i < r.len() implies #[trigger] assoc_keys(r)[i] == (if i == 0 {
            s[0].0
        } else {
            assoc_keys(rt)[i - 1]
        }) by {
            if i > 0 {
                assert(r[i] == rt[i - 1]);
            }
        }
        if assoc_get(s, k) is Some {
            assert(assoc_get(t, k) is Some);
            assert(assoc_keys(rt) == assoc_keys(t));
            assert(assoc_keys(r) =~= assoc_keys(s)) by {
                assert forall|i: int| 0 <= i < assoc_keys(s).len() implies assoc_keys(s)[i]
                    == assoc_keys(r)[i] by {
                    assert(assoc_keys(s)[i] == s[i].0);
                    assert(assoc_keys(r)[i] == r[i].0);
                    if i > 0 {
                        assert(r[i] == rt[i - 1]);
                        assert(assoc_keys(rt)[i - 1] == rt[i - 1].0);
                        assert(assoc_keys(t)[i - 1] == t[i - 1].0);
                        assert(s[i] == t[i - 1]);
                    }
                }
            }
        } else {
            assert(assoc_get(t, k) is None);
            assert(assoc_keys(rt) == assoc_keys(t).push(k));
            assert(assoc_keys(rt).len() == rt.len());
            assert(rt.len() == t.len() + 1);
            assert(r.len() == s.len() + 1);
            assert(assoc_keys(r) =~= assoc_keys(s).push(k)) by {
                assert forall|i: int| 0 <= i < assoc_keys(s).push(k).len() implies assoc_keys(
                    s,
                ).push(k)[i] == assoc_keys(r)[i] by {
                    assert(assoc_keys(r)[i] == r[i].0);
                    if i > 0 {
                        assert(r[i] == rt[i - 1]);
                        assert(assoc_keys(rt)[i - 1] == rt[i - 1].0);
                    }
                    if i > 0 && i < s.len() {
                        assert(assoc_keys(t).push(k)[i - 1] == assoc_keys(t)[i - 1]);
                        assert(assoc_keys(t)[i - 1] == t[i - 1].0);
                        assert(s[i] == t[i - 1]);
                        assert(assoc_keys(s)[i] == s[i].0);
                    }
                    if i == s.len() {
                        assert(assoc_keys(t).push(k)[i - 1] == k);
                    }
                    if i == 0 {
                        assert(assoc_keys(s)[0] == s[0].0);
                    }
                }
            }
        }
    }
}

/// When `k` is present, `assoc_set` is an update in place.
pub proof fn lemma_assoc_set_update<V>(s: Seq<(Seq<char>, V)>, k: Seq<char>, v: V)
    requires
        assoc_index(s, k) < s.len(),
    ensures
        assoc_set(s, k, v) == s.update(assoc_index(s, k), (k, v)),
    decreases s.len(),
{
    if s.len() > 0 {
        if s[0].0 == k {
            assert(assoc_set(s, k, v) =~= s.update(0, (k, v)));
        } else {
            let t = s.drop_first();
            lemma_assoc_index(t, k);
            lemma_assoc_set_update(t, k, v);
            assert(assoc_set(s, k, v) =~= s.update(assoc_index(s, k), (k, v)));
        }
    }
}

/// When `k` is absent, `assoc_set` appends.
pub proof fn lemma_assoc_set_push<V>(s: Seq<(Seq<char>, V)>, k: Seq<char>, v: V)
    requires
        assoc_index(s, k) == s.len(),
    ensures
        assoc_set(s, k, v) == s.push((k, v)),
    decreases s.len(),
{
    if s.len() == 0 {
        assert(assoc_set(s, k, v) =~= s.push((k, v)));
    } else {
        let t = s.drop_first();
        lemma_assoc_index(s, k);
        lemma_assoc_set_push(t, k, v);
        assert(assoc_set(s, k, v) =~= s.push((k, v)));
    }
}

} // verus!
