//! Stable descending sort of `(index, rank)` pairs: the single ordering
//! primitive behind every ranked listing. A pair is placed after all pairs
//! of equal or higher rank, so equal ranks keep their original order.

use vstd::prelude::*;

verus! {

/// Ranks never increase along the sequence.
pub open spec fn sorted_desc(s: Seq<(usize, i64)>) -> bool {
    forall|i: int, j: int| 0 <= i < j < s.len() ==> s[i].1 >= s[j].1
}

/// `x` placed after every pair ranked at least as high.
pub open spec fn insert_desc(s: Seq<(usize, i64)>, x: (usize, i64)) -> Seq<(usize, i64)>
    decreases s.len(),
{
    if s.len() == 0 {
        seq![x]
    } else if s[0].1 >= x.1 {
        seq![s[0]] + insert_desc(s.drop_first(), x)
    } else {
        seq![x] + s
    }
}

/// Stable insertion sort, descending by rank.
pub open spec fn sort_desc(s: Seq<(usize, i64)>) -> Seq<(usize, i64)>
    decreases s.len(),
{
    if s.len() == 0 {
        s
    } else {
        insert_desc(sort_desc(s.drop_last()), s.last())
    }
}

/// Inserting at the first position of strictly lower rank is exactly
/// `insert_desc`.
proof fn lemma_insert_desc_at(s: Seq<(usize, i64)>, x: (usize, i64), pos: int)
    requires
        0 <= pos <= s.len(),
        forall|j: int| 0 <= j < pos ==> s[j].1 >= x.1,
        pos < s.len() ==> s[pos].1 < x.1,
    ensures
        insert_desc(s, x) == s.subrange(0, pos) + seq![x] + s.subrange(pos, s.len() as int),
    decreases pos,
{
    if s.len() == 0 {
        assert(insert_desc(s, x) =~= s.subrange(0, pos) + seq![x] + s.subrange(
            pos,
            s.len() as int,
        ));
    } else if pos == 0 {
        assert(s[0].1 < x.1);
        assert(insert_desc(s, x) =~= s.subrange(0, 0) + seq![x] + s.subrange(0, s.len() as int));
    } else {
        assert(s[0].1 >= x.1);
        let rest = s.drop_first();
        assert(forall|j: int| 0 <= j < pos - 1 ==> (#[trigger] rest[j]).1 >= x.1) by {
            assert(forall|j: int| 0 <= j < rest.len() ==> (#[trigger] rest[j]) == s[j + 1]);
        }
        assert(pos - 1 < rest.len() ==> rest[pos - 1].1 < x.1);
        lemma_insert_desc_at(rest, x, pos - 1);
        assert(insert_desc(s, x) =~= s.subrange(0, pos) + seq![x] + s.subrange(
            pos,
            s.len() as int,
        ));
    }
}

/// Insertion keeps the sequence sorted.
proof fn lemma_insert_desc_sorted(s: Seq<(usize, i64)>, x: (usize, i64))
    requires
        sorted_desc(s),
    ensures
        sorted_desc(insert_desc(s, x)),
        insert_desc(s, x).len() == s.len() + 1,
    decreases s.len(),
{
    if s.len() > 0 && s[0].1 >= x.1 {
        let rest = s.drop_first();
        assert(sorted_desc(rest)) by {
            assert(forall|j: int| 0 <= j < rest.len() ==> (#[trigger] rest[j]) == s[j + 1]);
        }
        lemma_insert_desc_sorted(rest, x);
        let out = insert_desc(s, x);
        assert(out == seq![s[0]] + insert_desc(rest, x));
        assert forall|i: int, j: int| 0 <= i < j < out.len() implies out[i].1 >= out[j].1 by {
            if i > 0 {
                assert(out[i] == insert_desc(rest, x)[i - 1]);
                assert(out[j] == insert_desc(rest, x)[j - 1]);
            } else {
                assert(out[j] == insert_desc(rest, x)[j - 1]);
                let ins = insert_desc(rest, x);
                // every element of the inserted tail is bounded by s[0]
                lemma_insert_desc_at_member(rest, x, j - 1);
            }
        }
    }
}

/// Every element of `insert_desc(s, x)` is `x` or an element of `s`.
proof fn lemma_insert_desc_at_member(s: Seq<(usize, i64)>, x: (usize, i64), i: int)
    requires
        0 <= i < insert_desc(s, x).len(),
    ensures
        insert_desc(s, x)[i] == x || exists|j: int|
            0 <= j < s.len() && #[trigger] s[j] == insert_desc(s, x)[i],
    decreases s.len(),
{
    if s.len() == 0 {
    } else if s[0].1 >= x.1 {
        if i > 0 {
            lemma_insert_desc_at_member(s.drop_first(), x, i - 1);
            let e = insert_desc(s, x)[i];
            if e != x {
                let j = choose|j: int|
                    0 <= j < s.drop_first().len() && #[trigger] s.drop_first()[j] == e;
                assert(s[j + 1] == e);
            }
        }
    } else {
        if i > 0 {
            assert(s[i - 1] == insert_desc(s, x)[i]);
        }
    }
}

/// The sort yields a sorted sequence of the same length.
pub proof fn lemma_sort_desc_sorted(s: Seq<(usize, i64)>)
    ensures
        sorted_desc(sort_desc(s)),
        sort_desc(s).len() == s.len(),
    decreases s.len(),
{
    if s.len() > 0 {
        lemma_sort_desc_sorted(s.drop_last());
        lemma_insert_desc_sorted(sort_desc(s.drop_last()), s.last());
    }
}

/// Every element of the sorted sequence is an element of the input.
pub proof fn lemma_sort_desc_member(s: Seq<(usize, i64)>, i: int)
    requires
        0 <= i < sort_desc(s).len(),
    ensures
        exists|j: int| 0 <= j < s.len() && #[trigger] s[j] == sort_desc(s)[i],
    decreases s.len(),
{
    if s.len() > 0 {
        lemma_insert_desc_at_member(sort_desc(s.drop_last()), s.last(), i);
        let e = sort_desc(s)[i];
        if e == s.last() {
            assert(s[s.len() - 1] == e);
        } else {
            let prev = sort_desc(s.drop_last());
            let j = choose|j: int| 0 <= j < prev.len() && #[trigger] prev[j] == e;
            lemma_sort_desc_member(s.drop_last(), j);
            let j2 = choose|j2: int|
                0 <= j2 < s.drop_last().len() && #[trigger] s.drop_last()[j2] == e;
            assert(s[j2] == e);
        }
    }
}

/// The pairs ranked strictly above `floor`, in order.
pub open spec fn filter_above(s: Seq<(usize, i64)>, floor: i64) -> Seq<(usize, i64)>
    decreases s.len(),
{
    if s.len() == 0 {
        s
    } else {
        let rest = filter_above(s.drop_last(), floor);
        if s.last().1 > floor {
            rest.push(s.last())
        } else {
            rest
        }
    }
}

/// Every filtered pair ranks above the floor and is a pair of the input.
pub proof fn lemma_filter_above_member(s: Seq<(usize, i64)>, floor: i64, i: int)
    requires
        0 <= i < filter_above(s, floor).len(),
    ensures
        filter_above(s, floor)[i].1 > floor,
        exists|j: int| 0 <= j < s.len() && #[trigger] s[j] == filter_above(s, floor)[i],
    decreases s.len(),
{
    if s.len() > 0 {
        let rest = filter_above(s.drop_last(), floor);
        if s.last().1 > floor && i == rest.len() {
            assert(s[s.len() - 1] == filter_above(s, floor)[i]);
        } else {
            lemma_filter_above_member(s.drop_last(), floor, i);
            let j = choose|j: int|
                0 <= j < s.drop_last().len() && #[trigger] s.drop_last()[j] == filter_above(
                    s,
                    floor,
                )[i];
            assert(s[j] == filter_above(s, floor)[i]);
        }
    }
}

/// `x` and every element of `s` appear in `insert_desc(s, x)`.
proof fn lemma_insert_desc_member_rev(s: Seq<(usize, i64)>, x: (usize, i64))
    ensures
        exists|i: int|
            0 <= i < insert_desc(s, x).len() && #[trigger] insert_desc(s, x)[i] == x,
        forall|j: int|
            0 <= j < s.len() ==> exists|i: int|
                0 <= i < insert_desc(s, x).len() && insert_desc(s, x)[i] == #[trigger] s[j],
    decreases s.len(),
{
    if s.len() == 0 {
        assert(insert_desc(s, x)[0] == x);
    } else if s[0].1 >= x.1 {
        let rest = s.drop_first();
        lemma_insert_desc_member_rev(rest, x);
        let out = insert_desc(s, x);
        let i = choose|i: int|
            0 <= i < insert_desc(rest, x).len() && #[trigger] insert_desc(rest, x)[i] == x;
        assert(out[i + 1] == x);
        assert forall|j: int| 0 <= j < s.len() implies exists|i2: int|
            0 <= i2 < out.len() && out[i2] == #[trigger] s[j] by {
            if j == 0 {
                assert(out[0] == s[0]);
            } else {
                assert(rest[j - 1] == s[j]);
                let i2 = choose|i2: int|
                    0 <= i2 < insert_desc(rest, x).len() && #[trigger] insert_desc(rest, x)[i2]
                        == s[j];
                assert(out[i2 + 1] == s[j]);
            }
        }
    } else {
        let out = insert_desc(s, x);
        assert(out[0] == x);
        assert forall|j: int| 0 <= j < s.len() implies exists|i2: int|
            0 <= i2 < out.len() && out[i2] == #[trigger] s[j] by {
            assert(out[j + 1] == s[j]);
        }
    }
}

/// Every input pair appears in the sorted sequence.
pub proof fn lemma_sort_desc_member_rev(s: Seq<(usize, i64)>, j: int)
    requires
        0 <= j < s.len(),
    ensures
        exists|i: int| 0 <= i < sort_desc(s).len() && #[trigger] sort_desc(s)[i] == s[j],
    decreases s.len(),
{
    if s.len() > 0 {
        let pre = s.drop_last();
        let prev = sort_desc(pre);
        let x = s.last();
        lemma_insert_desc_member_rev(prev, x);
        assert(sort_desc(s) == insert_desc(prev, x));
        if j == s.len() - 1 {
            let i = choose|i: int|
                0 <= i < insert_desc(prev, x).len() && #[trigger] insert_desc(prev, x)[i] == x;
            assert(sort_desc(s)[i] == s[j]);
        } else {
            assert(pre[j] == s[j]);
            lemma_sort_desc_member_rev(pre, j);
            let i = choose|i: int| 0 <= i < prev.len() && #[trigger] prev[i] == s[j];
            assert(exists|i2: int|
                0 <= i2 < insert_desc(prev, x).len() && insert_desc(prev, x)[i2] == prev[i]);
            let i2 = choose|i2: int|
                0 <= i2 < insert_desc(prev, x).len() && insert_desc(prev, x)[i2] == prev[i];
            assert(sort_desc(s)[i2] == s[j]);
        }
    }
}

/// Inserts `x` into a sorted vector, after all pairs ranked at least as
/// high.
fn sorted_insert(out: &mut Vec<(usize, i64)>, x: (usize, i64))
    requires
        sorted_desc(old(out)@),
    ensures
        final(out)@ == insert_desc(old(out)@, x),
        sorted_desc(final(out)@),
{
    let mut pos: usize = 0;
    while pos < out.len()
        invariant_except_break
            pos <= out@.len(),
            forall|j: int| 0 <= j < pos ==> (#[trigger] out@[j]).1 >= x.1,
        ensures
            pos <= out@.len(),
            forall|j: int| 0 <= j < pos ==> (#[trigger] out@[j]).1 >= x.1,
            pos < out@.len() ==> out@[pos as int].1 < x.1,
        decreases out@.len() - pos,
    {
        let p: &(usize, i64) = &out[pos];
        if p.1 < x.1 {
            break;
        }
        pos += 1;
    }
    proof {
        lemma_insert_desc_at(out@, x, pos as int);
        lemma_insert_desc_sorted(out@, x);
    }
    let ghost prev = out@;
    out.insert(pos, x);
    proof {
        assert(out@ =~= prev.subrange(0, pos as int) + seq![x] + prev.subrange(
            pos as int,
            prev.len() as int,
        ));
    }
}

/// Sorts `(index, rank)` pairs by rank, descending; pairs of equal rank
/// keep their order.
pub fn sort_pairs_desc(v: &Vec<(usize, i64)>) -> (r: Vec<(usize, i64)>)
    ensures
        r@ == sort_desc(v@),
        sorted_desc(r@),
{
    let mut out: Vec<(usize, i64)> = Vec::new();
    let mut i: usize = 0;
    proof {
        assert(v@.take(0) =~= Seq::<(usize, i64)>::empty());
    }
    while i < v.len()
        invariant
            i <= v@.len(),
            out@ == sort_desc(v@.take(i as int)),
            sorted_desc(out@),
        decreases v@.len() - i,
    {
        let p: &(usize, i64) = &v[i];
        let x: (usize, i64) = (p.0, p.1);
        sorted_insert(&mut out, x);
        proof {
            assert(v@.take(i as int + 1).drop_last() =~= v@.take(i as int));
            assert(v@.take(i as int + 1).last() == v@[i as int]);
            assert(x == v@[i as int]);
        }
        i += 1;
    }
    proof {
        assert(v@.take(v@.len() as int) =~= v@);
    }
    out
}

} // verus!
