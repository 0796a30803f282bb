//! Sequence helpers for the store's set- and list-shaped fields: sequences
//! without duplicates, and removal of a value's first occurrence.

use vstd::prelude::*;

verus! {

/// No value occurs twice.
pub open spec fn nodup<T>(s: Seq<T>) -> bool {
    forall|i: int, j: int| 0 <= i < j < s.len() ==> s[i] != s[j]
}

/// `s` with the first occurrence of `x` removed, if there is one.
pub open spec fn remove_first<T>(s: Seq<T>, x: T) -> Seq<T>
    decreases s.len(),
{
    if s.len() == 0 {
        s
    } else if s[0] == x {
        s.drop_first()
    } else {
        seq![s[0]] + remove_first(s.drop_first(), x)
    }
}

/// When `x` first occurs at `i`, removing it removes exactly entry `i`.
pub proof fn lemma_remove_first_at<T>(s: Seq<T>, x: T, i: int)
    requires
        0 <= i < s.len(),
        s[i] == x,
        forall|j: int| 0 <= j < i ==> s[j] != x,
    ensures
        remove_first(s, x) == s.remove(i),
    decreases i,
{
    if i == 0 {
        assert(remove_first(s, x) =~= s.remove(0));
    } else {
        let rest = s.drop_first();
        assert(forall|j: int| 0 <= j < i - 1 ==> #[trigger] rest[j] != x) by {
            assert(forall|j: int| 0 <= j < rest.len() ==> (#[trigger] rest[j]) == s[j + 1]);
        }
        assert(rest[i - 1] == x);
        lemma_remove_first_at(rest, x, i - 1);
        assert(remove_first(s, x) =~= s.remove(i));
    }
}

/// When `x` never occurs, removing it changes nothing.
pub proof fn lemma_remove_first_absent<T>(s: Seq<T>, x: T)
    requires
        forall|j: int| 0 <= j < s.len() ==> s[j] != x,
    ensures
        remove_first(s, x) == s,
    decreases s.len(),
{
    if s.len() > 0 {
        let rest = s.drop_first();
        assert(forall|j: int| 0 <= j < rest.len() ==> #[trigger] rest[j] != x) by {
            assert(forall|j: int| 0 <= j < rest.len() ==> (#[trigger] rest[j]) == s[j + 1]);
        }
        lemma_remove_first_absent(rest, x);
        assert(remove_first(s, x) =~= s);
    }
}

/// Removing one entry of a duplicate-free sequence: what remains is
/// duplicate-free, the removed value is gone, everything else stays.
pub proof fn lemma_remove_nodup<T>(s: Seq<T>, i: int)
    requires
        nodup(s),
        0 <= i < s.len(),
    ensures
        nodup(s.remove(i)),
        !s.remove(i).contains(s[i]),
        forall|y: T| y != s[i] ==> (s.remove(i).contains(y) == s.contains(y)),
        s.remove(i).len() == s.len() - 1,
{
    let r = s.remove(i);
    assert(forall|j: int|
        0 <= j < r.len() ==> (#[trigger] r[j]) == if j < i {
            s[j]
        } else {
            s[j + 1]
        });
    assert forall|y: T| y != s[i] && s.contains(y) implies r.contains(y) by {
        let j = choose|j: int| 0 <= j < s.len() && s[j] == y;
        if j < i {
            assert(r[j] == y);
        } else {
            assert(j != i);
            assert(r[j - 1] == y);
        }
    }
}

/// Appending a fresh value keeps a sequence duplicate-free.
pub proof fn lemma_push_nodup<T>(s: Seq<T>, x: T)
    requires
        nodup(s),
        !s.contains(x),
    ensures
        nodup(s.push(x)),
        forall|y: T| s.push(x).contains(y) == (s.contains(y) || y == x),
{
    assert forall|y: T| s.push(x).contains(y) == (s.contains(y) || y == x) by {
        if s.push(x).contains(y) {
            let j = choose|j: int| 0 <= j < s.push(x).len() && s.push(x)[j] == y;
            if j < s.len() {
                assert(s[j] == y);
            }
        }
        if s.contains(y) {
            let j = choose|j: int| 0 <= j < s.len() && s[j] == y;
            assert(s.push(x)[j] == y);
        }
        if y == x {
            assert(s.push(x)[s.len() as int] == y);
        }
    }
}

/// Prepending a fresh value keeps a sequence duplicate-free.
pub proof fn lemma_cons_nodup<T>(s: Seq<T>, x: T)
    requires
        nodup(s),
        !s.contains(x),
    ensures
        nodup(seq![x] + s),
        forall|y: T| (seq![x] + s).contains(y) == (s.contains(y) || y == x),
{
    let c = seq![x] + s;
    assert(c[0] == x);
    assert(forall|j: int| 0 < j < c.len() ==> (#[trigger] c[j]) == s[j - 1]);
    assert forall|y: T| c.contains(y) == (s.contains(y) || y == x) by {
        if c.contains(y) {
            let j = choose|j: int| 0 <= j < c.len() && c[j] == y;
            if j > 0 {
                assert(s[j - 1] == y);
            }
        }
        if s.contains(y) {
            let j = choose|j: int| 0 <= j < s.len() && s[j] == y;
            assert(c[j + 1] == y);
        }
    }
}

/// Membership of a value in a sequence of strings, decided by character
/// comparison.
pub open spec fn str_views(s: Seq<String>) -> Seq<Seq<char>> {
    Seq::new(s.len(), |i: int| s[i]@)
}

/// The index of the first string whose characters equal `k`, if any.
pub fn find_str(v: &Vec<String>, k: &str) -> (r: Option<usize>)
    ensures
        match r {
            Some(i) => i < v@.len() && v@[i as int]@ == k@ && forall|j: int|
                0 <= j < i ==> v@[j]@ != k@,
            None => forall|j: int| 0 <= j < v@.len() ==> (#[trigger] v@[j])@ != k@,
        },
{
    let mut i: usize = 0;
    while i < v.len()
        invariant
            i <= v@.len(),
            forall|j: int| 0 <= j < i ==> (#[trigger] v@[j])@ != k@,
        decreases v@.len() - i,
    {
        if crate::text::str_eq(v[i].as_str(), k) {
            return Some(i);
        }
        i += 1;
    }
    None
}

} // verus!
