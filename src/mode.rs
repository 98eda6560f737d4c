//! Mode arithmetic over a face-count histogram.
//!
//! A histogram `counts` holds at index `i` the number of dice showing face
//! `i + 1`. Faces returned by this module are 1-based.

use vstd::prelude::*;

verus! {

/// Index `i` holds the largest count, and no later index holds as many.
pub open spec fn is_last_max(s: Seq<usize>, i: int) -> bool {
    &&& 0 <= i < s.len()
    &&& forall|j: int| 0 <= j < s.len() ==> s[j] <= s[i]
    &&& forall|j: int| i < j < s.len() ==> s[j] < s[i]
}

/// Leaving index `m` aside, index `i` holds the largest count, and no later
/// index (other than `m`) holds as many.
pub open spec fn is_last_runner_up(s: Seq<usize>, m: int, i: int) -> bool {
    &&& 0 <= i < s.len()
    &&& i != m
    &&& forall|j: int| 0 <= j < s.len() && j != m ==> s[j] <= s[i]
    &&& forall|j: int| i < j < s.len() && j != m ==> s[j] < s[i]
}

/// The index of the last largest count.
pub open spec fn mode_index(s: Seq<usize>) -> int {
    choose|i: int| is_last_max(s, i)
}

/// The index of the last largest count once the mode's index is left aside.
pub open spec fn runner_up_index(s: Seq<usize>) -> int {
    choose|i: int| is_last_runner_up(s, mode_index(s), i)
}

pub proof fn lemma_last_max_unique(s: Seq<usize>, a: int, b: int)
    requires
        is_last_max(s, a),
        is_last_max(s, b),
    ensures
        a == b,
{
    if a < b {
        assert(s[b] < s[a]);
        assert(s[a] <= s[b]);
    } else if b < a {
        assert(s[a] < s[b]);
        assert(s[b] <= s[a]);
    }
}

pub proof fn lemma_runner_up_unique(s: Seq<usize>, m: int, a: int, b: int)
    requires
        is_last_runner_up(s, m, a),
        is_last_runner_up(s, m, b),
    ensures
        a == b,
{
    if a < b {
        assert(s[b] < s[a]);
        assert(s[a] <= s[b]);
    } else if b < a {
        assert(s[a] < s[b]);
        assert(s[b] <= s[a]);
    }
}

/// The face with the most dice; on a tie, the highest such face.
pub fn mode_from_counts(counts: &[usize]) -> (r: usize)
    requires
        counts@.len() >= 1,
    ensures
        1 <= r <= counts@.len(),
        is_last_max(counts@, r - 1),
        r - 1 == mode_index(counts@),
{
    let mut best: usize = 0;
    let mut i: usize = 1;
    while i < counts.len()
        invariant
            1 <= i <= counts@.len(),
            best < i,
            forall|j: int| 0 <= j < i ==> counts@[j] <= counts@[best as int],
            forall|j: int| best < j < i ==> counts@[j] < counts@[best as int],
        decreases counts@.len() - i,
    {
        if counts[i] >= counts[best] {
            best = i;
        }
        i = i + 1;
    }
    proof {
        assert(is_last_max(counts@, best as int));
        lemma_last_max_unique(counts@, best as int, mode_index(counts@));
    }
    best + 1
}

/// The two faces with the most dice, the leader first. Ties go to the higher
/// face, for the leader and the runner-up alike: the result is the last two
/// entries of the faces sorted stably by ascending count.
pub fn top_two_modes_from_counts(counts: &[usize]) -> (r: (usize, usize))
    requires
        counts@.len() >= 2,
    ensures
        1 <= r.0 <= counts@.len(),
        1 <= r.1 <= counts@.len(),
        is_last_max(counts@, r.0 - 1),
        is_last_runner_up(counts@, r.0 - 1, r.1 - 1),
        r.0 - 1 == mode_index(counts@),
        r.1 - 1 == runner_up_index(counts@),
{
    let (mut first, mut second): (usize, usize) = if counts[1] >= counts[0] {
        (1, 0)
    } else {
        (0, 1)
    };
    let mut i: usize = 2;
    while i < counts.len()
        invariant
            2 <= i <= counts@.len(),
            first < i,
            second < i,
            first != second,
            forall|j: int| 0 <= j < i ==> counts@[j] <= counts@[first as int],
            forall|j: int| first < j < i ==> counts@[j] < counts@[first as int],
            forall|j: int| 0 <= j < i && j != first ==> counts@[j] <= counts@[second as int],
            forall|j: int| second < j < i && j != first ==> counts@[j] < counts@[second as int],
        decreases counts@.len() - i,
    {
        if counts[i] >= counts[first] {
            second = first;
            first = i;
        } else if counts[i] >= counts[second] {
            second = i;
        }
        i = i + 1;
    }
    proof {
        assert(is_last_max(counts@, first as int));
        lemma_last_max_unique(counts@, first as int, mode_index(counts@));
        assert(is_last_runner_up(counts@, first as int, second as int));
        lemma_runner_up_unique(counts@, first as int, second as int, runner_up_index(counts@));
    }
    (first + 1, second + 1)
}

/// No two distinct faces both have dice.
pub open spec fn at_most_one_face(s: Seq<usize>) -> bool {
    forall|i: int, j: int|
        0 <= i < s.len() && 0 <= j < s.len() && s[i] > 0 && s[j] > 0 ==> i == j
}

/// Every face that has dice has the same number of them, which is then the
/// count of the mode.
pub open spec fn all_faces_tied(s: Seq<usize>) -> bool {
    forall|i: int, j: int|
        0 <= i < s.len() && 0 <= j < s.len() && s[i] > 0 && s[j] > 0 ==> s[i] == s[j]
}

/// Index `i` is the first that holds any dice.
pub open spec fn is_first_nonzero(s: Seq<usize>, i: int) -> bool {
    &&& 0 <= i < s.len()
    &&& s[i] > 0
    &&& forall|j: int| 0 <= j < i ==> s[j] == 0
}

/// `m` is the smallest nonzero count.
pub open spec fn is_min_nonzero(s: Seq<usize>, m: usize) -> bool {
    &&& m > 0
    &&& exists|i: int| 0 <= i < s.len() && s[i] == m
    &&& forall|j: int| 0 <= j < s.len() && s[j] > 0 ==> m <= s[j]
}

/// The smallest nonzero count, where any count is nonzero.
pub open spec fn min_nonzero(s: Seq<usize>) -> usize {
    choose|m: usize| is_min_nonzero(s, m)
}

/// Index `i` is an anti-mode of `s`: with two faces or more in play, the
/// first face in play when all of them are tied, else a face holding the
/// smallest nonzero count.
pub open spec fn is_anti_mode(s: Seq<usize>, i: int) -> bool {
    &&& !at_most_one_face(s)
    &&& if all_faces_tied(s) {
        is_first_nonzero(s, i)
    } else {
        0 <= i < s.len() && s[i] == min_nonzero(s)
    }
}

/// The faces an anti-mode policy re-rolls, in ascending order.
///
/// With at most one face in play there is nothing to re-roll. When every face
/// in play is tied with the mode, only the lowest of them is returned, so
/// that a policy which removes the least represented faces still moves on.
/// Otherwise every face holding the smallest nonzero count is returned.
pub fn anti_modes(counts: &[usize]) -> (r: Vec<usize>)
    ensures
        forall|k: int| 0 <= k < r@.len() ==> 1 <= #[trigger] r@[k] <= counts@.len(),
        forall|k1: int, k2: int| 0 <= k1 < k2 < r@.len() ==> r@[k1] < r@[k2],
        at_most_one_face(counts@) ==> r@.len() == 0,
        !at_most_one_face(counts@) && all_faces_tied(counts@) ==> r@.len() == 1
            && is_first_nonzero(counts@, r@[0] - 1),
        !at_most_one_face(counts@) && !all_faces_tied(counts@) ==> forall|f: usize|
            1 <= f <= counts@.len() ==> (r@.contains(f) <==> counts@[f - 1] == min_nonzero(
                counts@,
            )),
        forall|f: usize|
            1 <= f <= counts@.len() ==> (r@.contains(f) <==> is_anti_mode(counts@, f - 1)),
        forall|k: int| 0 <= k < r@.len() ==> counts@[r@[k] - 1] > 0,
        !at_most_one_face(counts@) ==> r@.len() >= 1,
{
    let s = Ghost(counts@);
    let len = counts.len();
    // Index of the first face in play, or `len` while none is found.
    let mut first: usize = len;
    // A later face in play, found when `several` is set.
    let mut other: usize = 0;
    let mut several = false;
    // A face in play whose count differs from the first, found when `tied` is cleared.
    let mut odd: usize = 0;
    let mut tied = true;
    let mut min: usize = usize::MAX;
    let mut min_at: usize = 0;
    let mut i: usize = 0;
    while i < len
        invariant
            len == s@.len(),
            s@ == counts@,
            i <= len,
            first == len ==> forall|j: int| 0 <= j < i ==> s@[j] == 0,
            first <= len,
            first == len ==> !several && tied,
            first < len ==> first < i && is_first_nonzero(s@, first as int),
            first < len ==> min > 0 && min_at < i && s@[min_at as int] == min,
            first < len ==> forall|j: int| 0 <= j < i && s@[j] > 0 ==> min <= s@[j],
            several ==> first < other < i && s@[other as int] > 0,
            !several ==> forall|j: int| first < j < i ==> s@[j] == 0,
            tied ==> forall|j: int| 0 <= j < i && s@[j] > 0 ==> s@[j] == s@[first as int],
            !tied ==> first < len && odd < i && s@[odd as int] > 0 && s@[odd as int]
                != s@[first as int],
        decreases len - i,
    {
        let c = counts[i];
        if c > 0 {
            if first == len {
                first = i;
                min = c;
                min_at = i;
            } else {
                several = true;
                other = i;
                if c != counts[first] {
                    tied = false;
                    odd = i;
                }
                if c < min {
                    min = c;
                    min_at = i;
                }
            }
        }
        i = i + 1;
    }
    if !several {
        assert(at_most_one_face(s@)) by {
            assert forall|a: int, b: int|
                0 <= a < s@.len() && 0 <= b < s@.len() && s@[a] > 0 && s@[b] > 0 implies a
                == b by {
                assert(a == first && b == first);
            }
        }
        return Vec::new();
    }
    assert(!at_most_one_face(s@)) by {
        assert(s@[first as int] > 0 && s@[other as int] > 0);
    }
    if tied {
        let mut r = Vec::new();
        r.push(first + 1);
        proof {
            assert(all_faces_tied(s@));
            assert forall|f: usize| 1 <= f <= s@.len() implies (r@.contains(f) <==> is_anti_mode(
                s@,
                f - 1,
            )) by {
                if is_first_nonzero(s@, f - 1) {
                    assert(f - 1 == first);
                    assert(r@[0] == f);
                }
                if r@.contains(f) {
                    assert(r@[0] == f);
                }
            }
        }
        return r;
    }
    assert(!all_faces_tied(s@)) by {
        assert(s@[first as int] > 0 && s@[odd as int] > 0);
    }
    assert(is_min_nonzero(s@, min));
    assert(min_nonzero(s@) == min) by {
        let m = min_nonzero(s@);
        assert(is_min_nonzero(s@, m));
        let w = choose|w: int| 0 <= w < s@.len() && s@[w] == m;
        assert(min <= m);
        assert(m <= min);
    }
    let mut r: Vec<usize> = Vec::new();
    let mut k: usize = 0;
    while k < len
        invariant
            len == s@.len(),
            s@ == counts@,
            k <= len,
            forall|q: int| 0 <= q < r@.len() ==> 1 <= #[trigger] r@[q] <= k,
            forall|q1: int, q2: int| 0 <= q1 < q2 < r@.len() ==> r@[q1] < r@[q2],
            forall|f: usize| 1 <= f <= k ==> (r@.contains(f) <==> s@[f - 1] == min),
            forall|f: usize| r@.contains(f) ==> 1 <= f <= k,
            forall|q: int| 0 <= q < r@.len() ==> s@[r@[q] - 1] == min,
            min > 0,
            min_at < len,
            s@[min_at as int] == min,
            k > min_at ==> r@.len() >= 1,
        decreases len - k,
    {
        let ghost before = r@;
        if counts[k] == min {
            r.push(k + 1);
        }
        proof {
            assert forall|f: usize|
                1 <= f <= k + 1 implies (r@.contains(f) <==> s@[f - 1] == min) by {
                if before.contains(f) {
                    let q = choose|q: int| 0 <= q < before.len() && before[q] == f;
                    assert(r@[q] == f);
                }
                if r@.contains(f) {
                    let q = choose|q: int| 0 <= q < r@.len() && r@[q] == f;
                    if q < before.len() {
                        assert(before[q] == f);
                    }
                }
                if f == k + 1 && s@[f - 1] == min {
                    assert(r@[r@.len() - 1] == f);
                }
            }
            assert forall|f: usize| r@.contains(f) implies 1 <= f <= k + 1 by {
                let q = choose|q: int| 0 <= q < r@.len() && r@[q] == f;
                if q < before.len() {
                    assert(before[q] == f);
                }
            }
        }
        k = k + 1;
    }
    r
}

} // verus!
