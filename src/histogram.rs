//! Sums over face-count histograms, and the facts about them that the
//! strategies' proofs share.

use vstd::prelude::*;

verus! {

/// The number of dice a histogram holds.
pub open spec fn sum(s: Seq<usize>) -> int
    decreases s.len(),
{
    if s.len() == 0 {
        0
    } else {
        sum(s.drop_last()) + s.last()
    }
}

/// The histogram `s` with every count but those at `a` and `b` set to zero.
pub open spec fn keep_faces(s: Seq<usize>, a: int, b: int) -> Seq<usize> {
    Seq::new(s.len(), |i: int| if i == a || i == b { s[i] } else { 0 })
}

/// Every count of `s` is at most the count at the same face of `t`.
pub open spec fn pointwise_le(s: Seq<usize>, t: Seq<usize>) -> bool {
    &&& s.len() == t.len()
    &&& forall|i: int| 0 <= i < s.len() ==> s[i] <= t[i]
}

pub proof fn lemma_sum_nonneg(s: Seq<usize>)
    ensures
        sum(s) >= 0,
    decreases s.len(),
{
    if s.len() > 0 {
        lemma_sum_nonneg(s.drop_last());
    }
}

pub proof fn lemma_sum_prefix(s: Seq<usize>, i: int)
    requires
        0 <= i < s.len(),
    ensures
        sum(s.subrange(0, i + 1)) == sum(s.subrange(0, i)) + s[i],
{
    assert(s.subrange(0, i + 1).drop_last() =~= s.subrange(0, i));
}

pub proof fn lemma_sum_le(s: Seq<usize>, t: Seq<usize>)
    requires
        pointwise_le(s, t),
    ensures
        sum(s) <= sum(t),
    decreases s.len(),
{
    if s.len() > 0 {
        lemma_sum_le(s.drop_last(), t.drop_last());
    }
}

pub proof fn lemma_sum_prefix_le(s: Seq<usize>, i: int)
    requires
        0 <= i <= s.len(),
    ensures
        sum(s.subrange(0, i)) <= sum(s),
    decreases s.len() - i,
{
    if i < s.len() {
        lemma_sum_prefix(s, i);
        lemma_sum_prefix_le(s, i + 1);
    } else {
        assert(s.subrange(0, i) =~= s);
    }
}

pub proof fn lemma_elem_le_sum(s: Seq<usize>, i: int)
    requires
        0 <= i < s.len(),
    ensures
        s[i] <= sum(s),
    decreases s.len(),
{
    lemma_sum_nonneg(s.drop_last());
    if i < s.len() - 1 {
        lemma_elem_le_sum(s.drop_last(), i);
    }
}

pub proof fn lemma_sum_update(s: Seq<usize>, i: int, v: usize)
    requires
        0 <= i < s.len(),
    ensures
        sum(s.update(i, v)) == sum(s) - s[i] + v,
    decreases s.len(),
{
    if i < s.len() - 1 {
        assert(s.update(i, v).drop_last() =~= s.drop_last().update(i, v));
        lemma_sum_update(s.drop_last(), i, v);
    } else {
        assert(s.update(i, v).drop_last() =~= s.drop_last());
    }
}

/// A histogram whose counts are all zero but at `m` holds exactly that count.
pub proof fn lemma_sum_single(s: Seq<usize>, m: int)
    requires
        0 <= m < s.len(),
        forall|i: int| 0 <= i < s.len() && i != m ==> s[i] == 0,
    ensures
        sum(s) == s[m],
    decreases s.len(),
{
    if m < s.len() - 1 {
        lemma_sum_single(s.drop_last(), m);
    } else {
        lemma_sum_zero(s.drop_last());
    }
}

/// Keeping two faces keeps exactly their dice.
pub proof fn lemma_sum_keep_faces(s: Seq<usize>, a: int, b: int)
    requires
        0 <= a < s.len(),
        0 <= b < s.len(),
    ensures
        sum(keep_faces(s, a, b)) == s[a] + if a != b { s[b] as int } else { 0 },
    decreases s.len(),
{
    let k = keep_faces(s, a, b);
    let last = s.len() - 1;
    if a == last || b == last {
        let other = if a == last { b } else { a };
        if other == last {
            lemma_sum_zero(k.drop_last());
        } else {
            assert(k.drop_last() =~= keep_faces(s.drop_last(), other, other));
            lemma_sum_keep_faces(s.drop_last(), other, other);
        }
    } else {
        assert(k.drop_last() =~= keep_faces(s.drop_last(), a, b));
        lemma_sum_keep_faces(s.drop_last(), a, b);
    }
}

pub proof fn lemma_sum_zero(s: Seq<usize>)
    requires
        forall|i: int| 0 <= i < s.len() ==> s[i] == 0,
    ensures
        sum(s) == 0,
    decreases s.len(),
{
    if s.len() > 0 {
        lemma_sum_zero(s.drop_last());
    }
}

/// Two histograms of which one is below the other face by face, with the same
/// number of dice, are the same.
pub proof fn lemma_sum_eq_pointwise(s: Seq<usize>, t: Seq<usize>)
    requires
        pointwise_le(s, t),
        sum(s) == sum(t),
    ensures
        s == t,
    decreases s.len(),
{
    if s.len() > 0 {
        lemma_sum_le(s.drop_last(), t.drop_last());
        lemma_sum_eq_pointwise(s.drop_last(), t.drop_last());
        assert(s =~= t.drop_last().push(t.last()));
        assert(t =~= t.drop_last().push(t.last()));
    } else {
        assert(s =~= t);
    }
}

/// The number of dice in a histogram.
pub fn total(counts: &[usize]) -> (r: usize)
    requires
        sum(counts@) <= usize::MAX,
    ensures
        r == sum(counts@),
{
    let mut acc: usize = 0;
    let mut i: usize = 0;
    while i < counts.len()
        invariant
            i <= counts@.len(),
            sum(counts@) <= usize::MAX,
            acc == sum(counts@.subrange(0, i as int)),
        decreases counts@.len() - i,
    {
        proof {
            lemma_sum_prefix(counts@, i as int);
            lemma_sum_prefix_le(counts@, i + 1);
        }
        acc = acc + counts[i];
        i = i + 1;
    }
    assert(counts@.subrange(0, i as int) =~= counts@);
    acc
}

} // verus!
