//! String-keyed association lists with distinct keys: the executable
//! carrier for every keyed collection of the store, together with the
//! lookup/update/removal algebra that the store's contracts are written in.

use vstd::prelude::*;
use crate::text::str_eq;

verus! {

/// No two entries share a key.
pub open spec fn adistinct<V>(m: Seq<(Seq<char>, V)>) -> bool {
    forall|i: int, j: int| 0 <= i < j < m.len() ==> m[i].0 != m[j].0
}

/// The value bound to `k`, if any (first match).
pub open spec fn alookup<V>(m: Seq<(Seq<char>, V)>, k: Seq<char>) -> Option<V>
    decreases m.len(),
{
    if m.len() == 0 {
        None
    } else if m[0].0 == k {
        Some(m[0].1)
    } else {
        alookup(m.drop_first(), k)
    }
}

/// `m` with `k` bound to `v`: the first entry for `k` replaced in place,
/// or a new entry appended.
pub open spec fn aset<V>(m: Seq<(Seq<char>, V)>, k: Seq<char>, v: V) -> Seq<(Seq<char>, V)>
    decreases m.len(),
{
    if m.len() == 0 {
        seq![(k, v)]
    } else if m[0].0 == k {
        seq![(k, v)] + m.drop_first()
    } else {
        seq![m[0]] + aset(m.drop_first(), k, v)
    }
}

/// `m` with the first entry for `k` removed, if there is one.
pub open spec fn aremove<V>(m: Seq<(Seq<char>, V)>, k: Seq<char>) -> Seq<(Seq<char>, V)>
    decreases m.len(),
{
    if m.len() == 0 {
        m
    } else if m[0].0 == k {
        m.drop_first()
    } else {
        seq![m[0]] + aremove(m.drop_first(), k)
    }
}

// ---------------------------------------------------------------------------
// Algebra
// ---------------------------------------------------------------------------

/// A binding exists exactly when some entry carries the key; with distinct
/// keys, the entry at any matching index is the one found.
pub proof fn lemma_alookup_index<V>(m: Seq<(Seq<char>, V)>, k: Seq<char>)
    ensures
        (alookup(m, k) is Some) <==> exists|i: int| 0 <= i < m.len() && m[i].0 == k,
        adistinct(m) ==> forall|i: int|
            0 <= i < m.len() && (#[trigger] m[i]).0 == k ==> alookup(m, k) == Some(m[i].1),
    decreases m.len(),
{
    if m.len() > 0 {
        lemma_alookup_index(m.drop_first(), k);
        if m[0].0 == k {
            assert(m[0].0 == k && 0 <= 0 < m.len());
        } else {
            assert forall|i: int| 0 <= i < m.len() && (#[trigger] m[i]).0 == k implies exists|
                j: int,
            | 0 <= j < m.drop_first().len() && m.drop_first()[j].0 == k by {
                assert(m.drop_first()[i - 1].0 == k);
            }
            assert(adistinct(m) ==> adistinct(m.drop_first())) by {
                if adistinct(m) {
                    assert forall|i: int, j: int|
                        0 <= i < j < m.drop_first().len() implies m.drop_first()[i].0
                        != m.drop_first()[j].0 by {
                        assert(m[i + 1].0 != m[j + 1].0);
                    }
                }
            }
        }
    }
}

/// Distinct keys survive dropping the first entry.
pub proof fn lemma_adistinct_drop_first<V>(m: Seq<(Seq<char>, V)>)
    requires
        adistinct(m),
        m.len() > 0,
    ensures
        adistinct(m.drop_first()),
{
    assert forall|i: int, j: int|
        0 <= i < j < m.drop_first().len() implies m.drop_first()[i].0 != m.drop_first()[j].0 by {
        assert(m[i + 1].0 != m[j + 1].0);
    }
}

/// When the key is absent, binding it appends one entry.
pub proof fn lemma_aset_is_push<V>(m: Seq<(Seq<char>, V)>, k: Seq<char>, v: V)
    requires
        forall|i: int| 0 <= i < m.len() ==> (#[trigger] m[i]).0 != k,
    ensures
        aset(m, k, v) == m.push((k, v)),
    decreases m.len(),
{
    if m.len() == 0 {
        assert(aset(m, k, v) =~= m.push((k, v)));
    } else {
        assert(forall|i: int|
            0 <= i < m.drop_first().len() ==> (#[trigger] m.drop_first()[i]).0 != k) by {
            assert(forall|i: int|
                0 <= i < m.drop_first().len() ==> m.drop_first()[i] == m[i + 1]);
        }
        lemma_aset_is_push(m.drop_first(), k, v);
        assert(aset(m, k, v) =~= m.push((k, v)));
    }
}

/// When entry `i` carries the key and keys are distinct, binding the key
/// updates exactly that entry.
pub proof fn lemma_aset_is_update<V>(m: Seq<(Seq<char>, V)>, k: Seq<char>, v: V, i: int)
    requires
        adistinct(m),
        0 <= i < m.len(),
        m[i].0 == k,
    ensures
        aset(m, k, v) == m.update(i, (k, v)),
    decreases m.len(),
{
    if i == 0 {
        assert(aset(m, k, v) =~= m.update(0, (k, v)));
    } else {
        assert(m[0].0 != k);
        lemma_adistinct_drop_first(m);
        assert(m.drop_first()[i - 1].0 == k);
        lemma_aset_is_update(m.drop_first(), k, v, i - 1);
        assert(aset(m, k, v) =~= m.update(i, (k, v)));
    }
}

/// When entry `i` carries the key and keys are distinct, removing the key
/// removes exactly that entry.
pub proof fn lemma_aremove_is_remove<V>(m: Seq<(Seq<char>, V)>, k: Seq<char>, i: int)
    requires
        adistinct(m),
        0 <= i < m.len(),
        m[i].0 == k,
    ensures
        aremove(m, k) == m.remove(i),
    decreases m.len(),
{
    if i == 0 {
        assert(aremove(m, k) =~= m.remove(0));
    } else {
        assert(m[0].0 != k);
        lemma_adistinct_drop_first(m);
        assert(m.drop_first()[i - 1].0 == k);
        lemma_aremove_is_remove(m.drop_first(), k, i - 1);
        assert(aremove(m, k) =~= m.remove(i));
    }
}

/// When the key is absent, removing it changes nothing.
pub proof fn lemma_aremove_absent<V>(m: Seq<(Seq<char>, V)>, k: Seq<char>)
    requires
        forall|i: int| 0 <= i < m.len() ==> (#[trigger] m[i]).0 != k,
    ensures
        aremove(m, k) == m,
    decreases m.len(),
{
    if m.len() > 0 {
        assert(forall|i: int|
            0 <= i < m.drop_first().len() ==> (#[trigger] m.drop_first()[i]).0 != k) by {
            assert(forall|i: int|
                0 <= i < m.drop_first().len() ==> m.drop_first()[i] == m[i + 1]);
        }
        lemma_aremove_absent(m.drop_first(), k);
        assert(aremove(m, k) =~= m);
    }
}

/// How a binding changes every lookup: the bound key reads back the new
/// value, all other keys are untouched.
pub proof fn lemma_alookup_aset<V>(m: Seq<(Seq<char>, V)>, k: Seq<char>, v: V, k2: Seq<char>)
    ensures
        alookup(aset(m, k, v), k2) == if k2 == k {
            Some(v)
        } else {
            alookup(m, k2)
        },
    decreases m.len(),
{
    if m.len() == 0 {
        let s = aset(m, k, v);
        assert(s == seq![(k, v)]);
        assert(s[0] == (k, v));
        assert(s.drop_first() =~= Seq::<(Seq<char>, V)>::empty());
    } else if m[0].0 == k {
        let s = aset(m, k, v);
        assert(s == seq![(k, v)] + m.drop_first());
        assert(s[0] == (k, v));
        assert(s.drop_first() =~= m.drop_first());
        if k2 != k {
            assert(alookup(s, k2) == alookup(m.drop_first(), k2));
            assert(alookup(m, k2) == alookup(m.drop_first(), k2));
        }
    } else {
        lemma_alookup_aset(m.drop_first(), k, v, k2);
        let s = aset(m, k, v);
        assert(s == seq![m[0]] + aset(m.drop_first(), k, v));
        assert(s[0] == m[0]);
        assert(s.drop_first() =~= aset(m.drop_first(), k, v));
        if k2 == m[0].0 {
            assert(alookup(s, k2) == Some(m[0].1));
            assert(alookup(m, k2) == Some(m[0].1));
        } else {
            assert(alookup(s, k2) == alookup(s.drop_first(), k2));
            assert(alookup(m, k2) == alookup(m.drop_first(), k2));
        }
    }
}

/// How a removal changes every lookup, under distinct keys.
pub proof fn lemma_alookup_aremove<V>(m: Seq<(Seq<char>, V)>, k: Seq<char>, k2: Seq<char>)
    requires
        adistinct(m),
    ensures
        alookup(aremove(m, k), k2) == if k2 == k {
            None::<V>
        } else {
            alookup(m, k2)
        },
    decreases m.len(),
{
    if m.len() > 0 {
        lemma_adistinct_drop_first(m);
        if m[0].0 == k {
            if k2 == k {
                lemma_alookup_index(m.drop_first(), k2);
                assert(forall|i: int|
                    0 <= i < m.drop_first().len() ==> (#[trigger] m.drop_first()[i]) == m[i + 1]);
            }
        } else {
            lemma_alookup_aremove(m.drop_first(), k, k2);
            assert((seq![m[0]] + aremove(m.drop_first(), k)).drop_first() =~= aremove(
                m.drop_first(),
                k,
            ));
        }
    }
}

/// Binding a key keeps keys distinct.
pub proof fn lemma_aset_distinct<V>(m: Seq<(Seq<char>, V)>, k: Seq<char>, v: V)
    requires
        adistinct(m),
    ensures
        adistinct(aset(m, k, v)),
{
    lemma_alookup_index(m, k);
    if exists|i: int| 0 <= i < m.len() && (#[trigger] m[i]).0 == k {
        let i = choose|i: int| 0 <= i < m.len() && (#[trigger] m[i]).0 == k;
        lemma_aset_is_update(m, k, v, i);
    } else {
        lemma_aset_is_push(m, k, v);
    }
}

/// Removing a key keeps keys distinct.
pub proof fn lemma_aremove_distinct<V>(m: Seq<(Seq<char>, V)>, k: Seq<char>)
    requires
        adistinct(m),
    ensures
        adistinct(aremove(m, k)),
{
    lemma_alookup_index(m, k);
    if exists|i: int| 0 <= i < m.len() && (#[trigger] m[i]).0 == k {
        let i = choose|i: int| 0 <= i < m.len() && (#[trigger] m[i]).0 == k;
        lemma_aremove_is_remove(m, k, i);
    } else {
        lemma_aremove_absent(m, k);
    }
}

// ---------------------------------------------------------------------------
// Executable operations
// ---------------------------------------------------------------------------

/// The index of the entry keyed `k`, if any.
pub fn kv_find<V>(m: &Vec<(String, V)>, k: &str) -> (r: Option<usize>)
    ensures
        match r {
            Some(i) => i < m@.len() && m@[i as int].0@ == k@ && forall|j: int|
                0 <= j < i ==> (#[trigger] m@[j]).0@ != k@,
            None => forall|i: int| 0 <= i < m@.len() ==> (#[trigger] m@[i]).0@ != k@,
        },
{
    let mut i: usize = 0;
    while i < m.len()
        invariant
            i <= m@.len(),
            forall|j: int| 0 <= j < i ==> (#[trigger] m@[j]).0@ != k@,
        decreases m@.len() - i,
    {
        let p: &(String, V) = &m[i];
        if str_eq(p.0.as_str(), k) {
            return Some(i);
        }
        i += 1;
    }
    None
}

/// Relates an index fact on the vector to the deep view used by contracts.
proof fn lemma_deep_index<V: DeepView>(m: Seq<(String, V)>, i: int)
    requires
        0 <= i < m.len(),
    ensures
        dview(m)[i] == (m[i].0@, m[i].1.deep_view()),
{
}

/// The deep view of a keyed vector: keys and values as their models.
pub open spec fn dview<V: DeepView>(m: Seq<(String, V)>) -> Seq<(Seq<char>, V::V)> {
    Seq::new(m.len(), |i: int| (m[i].0@, m[i].1.deep_view()))
}

/// A reference to the value bound to `k`, if any.
pub fn kv_get<'a, V: DeepView>(m: &'a Vec<(String, V)>, k: &str) -> (r: Option<&'a V>)
    ensures
        match r {
            Some(x) => alookup(dview(m@), k@) == Some(x.deep_view()),
            None => alookup(dview(m@), k@) is None,
        },
{
    match kv_find(m, k) {
        Some(i) => {
            let p: &(String, V) = &m[i];
            proof {
                lemma_alookup_first(dview(m@), k@, i as int);
            }
            Some(&p.1)
        },
        None => {
            proof {
                lemma_alookup_index(dview(m@), k@);
            }
            None
        },
    }
}

/// The first matching entry is the one a lookup returns, provided no
/// earlier entry matches.
pub proof fn lemma_alookup_first<V>(m: Seq<(Seq<char>, V)>, k: Seq<char>, i: int)
    requires
        0 <= i < m.len(),
        m[i].0 == k,
        forall|j: int| 0 <= j < i ==> (#[trigger] m[j]).0 != k,
    ensures
        alookup(m, k) == Some(m[i].1),
    decreases i,
{
    if i > 0 {
        assert(forall|j: int|
            0 <= j < i - 1 ==> (#[trigger] m.drop_first()[j]).0 != k) by {
            assert(forall|j: int| 0 <= j < i - 1 ==> m.drop_first()[j] == m[j + 1]);
        }
        assert(m.drop_first()[i - 1] == m[i]);
        lemma_alookup_first(m.drop_first(), k, i - 1);
    }
}

/// Binds `k` to `v`, replacing any earlier binding.
pub fn kv_set<V: DeepView>(m: &mut Vec<(String, V)>, k: String, v: V)
    requires
        adistinct(dview(old(m)@)),
    ensures
        dview(final(m)@) == aset(dview(old(m)@), k@, v.deep_view()),
        adistinct(dview(final(m)@)),
{
    proof {
        lemma_aset_distinct(dview(m@), k@, v.deep_view());
    }
    let ghost m0 = dview(m@);
    match kv_find(m, k.as_str()) {
        Some(i) => {
            let ghost v0 = m@;
            m.remove(i);
            m.insert(i, (k, v));
            proof {
                assert(m@ =~= v0.update(i as int, (k, v)));
                lemma_aset_is_update(m0, k@, v.deep_view(), i as int);
                assert(dview(m@) =~= m0.update(i as int, (k@, v.deep_view())));
            }
        },
        None => {
            m.push((k, v));
            proof {
                lemma_aset_is_push(m0, k@, v.deep_view());
                assert(dview(m@) =~= m0.push((k@, v.deep_view())));
            }
        },
    }
}

/// Removes the binding for `k`, if there is one.
pub fn kv_remove<V: DeepView>(m: &mut Vec<(String, V)>, k: &str)
    requires
        adistinct(dview(old(m)@)),
    ensures
        dview(final(m)@) == aremove(dview(old(m)@), k@),
        adistinct(dview(final(m)@)),
{
    proof {
        lemma_aremove_distinct(dview(m@), k@);
    }
    let ghost m0 = dview(m@);
    match kv_find(m, k) {
        Some(i) => {
            m.remove(i);
            proof {
                lemma_aremove_is_remove(m0, k@, i as int);
                assert(dview(m@) =~= m0.remove(i as int));
            }
        },
        None => {
            proof {
                lemma_aremove_absent(m0, k@);
            }
        },
    }
}

} // verus!
