//! One trial of Tenzi as a state machine over a face-count histogram, and the
//! three keep/re-roll policies built on it.

use vstd::prelude::*;
use crate::dice::DieSource;
use crate::histogram::{
    keep_faces,
    lemma_elem_le_sum,
    lemma_sum_eq_pointwise,
    lemma_sum_keep_faces,
    lemma_sum_le,
    lemma_sum_nonneg,
    lemma_sum_single,
    lemma_sum_update,
    lemma_sum_zero,
    pointwise_le,
    sum,
    total,
};
use crate::mode::{
    anti_modes,
    at_most_one_face,
    is_anti_mode,
    is_last_max,
    lemma_last_max_unique,
    mode_from_counts,
    mode_index,
    runner_up_index,
    top_two_modes_from_counts,
};

verus! {

/// The counters every strategy keeps for its trial.
#[derive(Clone, Copy, Debug)]
pub struct Counters {
    /// Dice rolled so far.
    pub num_rolls: usize,
    /// Rounds played so far.
    pub num_steps: usize,
    /// Whether the trial has ended.
    pub done: bool,
}

/// A trial's histogram and size, as the contracts see them.
pub struct TrialView {
    /// Dice kept on each face; index `i` stands for face `i + 1`.
    pub buckets: Seq<usize>,
    pub num_dice: usize,
    pub num_sides: usize,
    /// Dice to roll in the next round.
    pub num_to_roll: usize,
}

/// `h` is the histogram of `before` once its free dice are rolled: no count
/// went down, and every die of the trial is on some face.
pub open spec fn rolled_from(before: TrialView, h: Seq<usize>) -> bool {
    &&& pointwise_le(before.buckets, h)
    &&& sum(h) == before.num_dice
}

/// Tenzi: one face holds every die of the trial.
pub open spec fn is_tenzi(v: TrialView) -> bool {
    exists|f: int| 0 <= f < v.buckets.len() && #[trigger] v.buckets[f] == v.num_dice
}

/// `kept` is `h` with some faces cleared and the others left as they were.
pub open spec fn clears_only(h: Seq<usize>, kept: Seq<usize>) -> bool {
    &&& kept.len() == h.len()
    &&& forall|i: int| 0 <= i < h.len() ==> kept[i] == h[i] || kept[i] == 0
}

/// `after` follows from `before` by one round: the free dice were rolled,
/// then some faces were cleared.
pub open spec fn round_outcome(before: TrialView, after: TrialView) -> bool {
    exists|h: Seq<usize>| #[trigger] rolled_from(before, h) && clears_only(h, after.buckets)
}

/// The state that all three strategies share: the histogram, the trial's
/// size, and its counters.
#[derive(Clone)]
pub struct Trial {
    buckets: Vec<usize>,
    num_dice: usize,
    num_sides: usize,
    num_to_roll: usize,
    counters: Counters,
}

impl View for Trial {
    type V = TrialView;

    closed spec fn view(&self) -> TrialView {
        TrialView {
            buckets: self.buckets@,
            num_dice: self.num_dice,
            num_sides: self.num_sides,
            num_to_roll: self.num_to_roll,
        }
    }
}

impl Trial {
    pub closed spec fn tally(&self) -> Counters {
        self.counters
    }

    /// Between rounds: one count per face, every die either kept or still to
    /// roll, and the trial over exactly when none is left to roll.
    pub closed spec fn wf(&self) -> bool {
        &&& self.num_sides >= 1
        &&& self.num_dice >= 1
        &&& self.buckets@.len() == self.num_sides
        &&& sum(self.buckets@) + self.num_to_roll == self.num_dice
        &&& self.counters.done == (self.num_to_roll == 0)
    }

    /// A trial with no die kept yet.
    pub fn new(num_sides: usize, num_dice: usize) -> (r: Trial)
        requires
            num_sides >= 1,
            num_dice >= 1,
        ensures
            r.wf(),
            r@.buckets == Seq::new(num_sides as nat, |i: int| 0usize),
            r@.num_sides == num_sides,
            r@.num_dice == num_dice,
            r@.num_to_roll == num_dice,
            r.tally().num_rolls == 0,
            r.tally().num_steps == 0,
            !r.tally().done,
    {
        let buckets = vec![0usize; num_sides];
        assert(buckets@ =~= Seq::new(num_sides as nat, |i: int| 0usize));
        proof {
            lemma_sum_zero(buckets@);
        }
        Trial {
            buckets,
            num_dice,
            num_sides,
            num_to_roll: num_dice,
            counters: Counters { num_rolls: 0, num_steps: 0, done: false },
        }
    }

    /// Rolls each of the `num_to_roll` free dice once and counts its face.
    pub fn roll(&mut self, dice: &mut DieSource)
        requires
            old(self).wf(),
            old(self).tally().num_rolls + old(self)@.num_to_roll <= usize::MAX,
        ensures
            rolled_from(old(self)@, final(self)@.buckets),
            final(self)@.num_dice == old(self)@.num_dice,
            final(self)@.num_sides == old(self)@.num_sides,
            final(self)@.num_to_roll == old(self)@.num_to_roll,
            final(self).tally().num_rolls == old(self).tally().num_rolls + old(self)@.num_to_roll,
            final(self).tally().num_steps == old(self).tally().num_steps,
            final(self).tally().done == old(self).tally().done,
    {
        let n = self.num_to_roll;
        let ghost start = self.buckets@;
        let mut j: usize = 0;
        while j < n
            invariant
                self.num_sides == old(self).num_sides,
                self.num_dice == old(self).num_dice,
                self.num_to_roll == n,
                self.counters == old(self).counters,
                start == old(self).buckets@,
                old(self).wf(),
                n == old(self).num_to_roll,
                j <= n,
                pointwise_le(start, self.buckets@),
                sum(self.buckets@) == sum(start) + j,
            decreases n - j,
        {
            let face = dice.roll(self.num_sides);
            let k = face - 1;
            proof {
                lemma_elem_le_sum(self.buckets@, k as int);
                lemma_sum_update(self.buckets@, k as int, (self.buckets@[k as int] + 1) as usize);
            }
            let c = self.buckets[k];
            self.buckets.set(k, c + 1);
            j = j + 1;
        }
        self.counters.num_rolls = self.counters.num_rolls + n;
    }

    /// Clears every face but the faces at indices `a` and `b`.
    pub fn keep_only(&mut self, a: usize, b: usize)
        requires
            a < old(self)@.buckets.len(),
            b < old(self)@.buckets.len(),
        ensures
            final(self)@ == (TrialView {
                buckets: keep_faces(old(self)@.buckets, a as int, b as int),
                ..old(self)@
            }),
            final(self).tally() == old(self).tally(),
    {
        let ghost h = self.buckets@;
        let len = self.buckets.len();
        let mut k: usize = 0;
        while k < len
            invariant
                self.num_dice == old(self).num_dice,
                self.num_sides == old(self).num_sides,
                self.num_to_roll == old(self).num_to_roll,
                self.counters == old(self).counters,
                h == old(self).buckets@,
                len == h.len(),
                a < len,
                b < len,
                k <= len,
                self.buckets@.len() == len,
                forall|i: int|
                    0 <= i < k ==> self.buckets@[i] == keep_faces(h, a as int, b as int)[i],
                forall|i: int| k <= i < len ==> self.buckets@[i] == h[i],
            decreases len - k,
        {
            if k != a && k != b {
                self.buckets.set(k, 0);
            }
            k = k + 1;
        }
        assert(self.buckets@ =~= keep_faces(h, a as int, b as int));
    }

    /// Clears every face listed in `faces` (faces are 1-based).
    pub fn clear_faces(&mut self, faces: &Vec<usize>)
        requires
            forall|q: int|
                0 <= q < faces@.len() ==> 1 <= #[trigger] faces@[q] <= old(self)@.buckets.len(),
        ensures
            final(self)@ == (TrialView {
                buckets: Seq::new(
                    old(self)@.buckets.len(),
                    |i: int|
                        if faces@.contains((i + 1) as usize) {
                            0
                        } else {
                            old(self)@.buckets[i]
                        },
                ),
                ..old(self)@
            }),
            final(self).tally() == old(self).tally(),
    {
        let ghost h = self.buckets@;
        let len = self.buckets.len();
        let mut q: usize = 0;
        while q < faces.len()
            invariant
                self.num_dice == old(self).num_dice,
                self.num_sides == old(self).num_sides,
                self.num_to_roll == old(self).num_to_roll,
                self.counters == old(self).counters,
                h == old(self).buckets@,
                len == h.len(),
                q <= faces@.len(),
                forall|p: int| 0 <= p < faces@.len() ==> 1 <= #[trigger] faces@[p] <= len,
                self.buckets@.len() == len,
                forall|i: int|
                    0 <= i < len ==> self.buckets@[i] == if faces@.subrange(0, q as int).contains(
                        (i + 1) as usize,
                    ) {
                        0
                    } else {
                        h[i]
                    },
            decreases faces@.len() - q,
        {
            let f = faces[q];
            self.buckets.set(f - 1, 0);
            proof {
                let done_faces = faces@.subrange(0, q as int);
                let next_faces = faces@.subrange(0, q + 1);
                assert(next_faces =~= done_faces.push(f));
                assert forall|i: int| 0 <= i < len implies (#[trigger] next_faces.contains(
                    (i + 1) as usize,
                ) <==> done_faces.contains((i + 1) as usize) || i == f - 1) by {
                    if done_faces.contains((i + 1) as usize) {
                        let p = choose|p: int|
                            0 <= p < done_faces.len() && done_faces[p] == (i + 1) as usize;
                        assert(next_faces[p] == (i + 1) as usize);
                    }
                    if i == f - 1 {
                        assert(next_faces[q as int] == f);
                    }
                    if next_faces.contains((i + 1) as usize) {
                        let p = choose|p: int|
                            0 <= p < next_faces.len() && next_faces[p] == (i + 1) as usize;
                        if p < q {
                            assert(done_faces[p] == (i + 1) as usize);
                        }
                    }
                }
            }
            q = q + 1;
        }
        assert(faces@.subrange(0, faces@.len() as int) =~= faces@);
        assert(self.buckets@ =~= Seq::new(
            len as nat,
            |i: int| if faces@.contains((i + 1) as usize) { 0 } else { h[i] },
        ));
    }

    /// Ends a round once a policy has cleared the faces it re-rolls: the dice
    /// still kept decide what is left to roll and whether the trial is over.
    pub fn finish_round(&mut self)
        requires
            old(self)@.num_sides >= 1,
            old(self)@.num_dice >= 1,
            old(self)@.buckets.len() == old(self)@.num_sides,
            sum(old(self)@.buckets) <= old(self)@.num_dice,
            old(self).tally().num_steps < usize::MAX,
        ensures
            final(self).wf(),
            final(self)@.buckets == old(self)@.buckets,
            final(self)@.num_dice == old(self)@.num_dice,
            final(self)@.num_sides == old(self)@.num_sides,
            final(self)@.num_to_roll == old(self)@.num_dice - sum(old(self)@.buckets),
            final(self).tally().done == (sum(old(self)@.buckets) == old(self)@.num_dice),
            final(self).tally().num_rolls == old(self).tally().num_rolls,
            final(self).tally().num_steps == old(self).tally().num_steps + 1,
    {
        let kept = total(self.buckets.as_slice());
        self.num_to_roll = self.num_dice - kept;
        self.counters.done = kept == self.num_dice;
        self.counters.num_steps = self.counters.num_steps + 1;
    }
}

/// Read access to a trial's counters.
pub trait Counted {
    /// The counters, as the contracts see them.
    spec fn counters(&self) -> Counters;

    /// Dice rolled so far.
    fn num_rolls(&self) -> (r: usize)
        ensures
            r == self.counters().num_rolls,
    ;

    /// Rounds played so far.
    fn num_steps(&self) -> (r: usize)
        ensures
            r == self.counters().num_steps,
    ;

    /// Whether all the dice show one face, which ends the trial.
    fn done(&self) -> (r: bool)
        ensures
            r == self.counters().done,
    ;
}

/// A keep/re-roll policy that plays one trial, round by round.
pub trait Strategy: Counted {
    /// The histogram and size of the trial, as the contracts see them.
    spec fn state(&self) -> TrialView;

    /// The state holds between rounds.
    spec fn well_formed(&self) -> bool;

    /// The dice kept on each face.
    fn buckets(&self) -> (r: &[usize])
        ensures
            r@ == self.state().buckets,
    ;

    /// The number of faces of each die.
    fn num_sides(&self) -> (r: usize)
        ensures
            r == self.state().num_sides,
    ;

    /// The number of dice the next round rolls.
    fn num_to_roll(&self) -> (r: usize)
        ensures
            r == self.state().num_to_roll,
    ;

    /// Plays one round: rolls the free dice, then clears the faces that the
    /// policy re-rolls. The trial ends when every die is kept.
    fn step(&mut self, dice: &mut DieSource)
        requires
            old(self).well_formed(),
            !old(self).counters().done,
            old(self).counters().num_rolls + old(self).state().num_to_roll <= usize::MAX,
            old(self).counters().num_steps < usize::MAX,
        ensures
            final(self).well_formed(),
            final(self).state().num_dice == old(self).state().num_dice,
            final(self).state().num_sides == old(self).state().num_sides,
            final(self).counters().num_rolls == old(self).counters().num_rolls
                + old(self).state().num_to_roll,
            final(self).counters().num_steps == old(self).counters().num_steps + 1,
            sum(final(self).state().buckets) + final(self).state().num_to_roll
                == final(self).state().num_dice,
            final(self).counters().done == (final(self).state().num_to_roll == 0),
            final(self).counters().done == is_tenzi(final(self).state()),
            old(self).state().num_sides == 1 ==> final(self).counters().done,
            round_outcome(old(self).state(), final(self).state()),
    ;
}

/// The index of the face that the naive policy keeps: the cached one, or
/// else the mode of the first roll.
pub open spec fn naive_face(cached: Option<usize>, h: Seq<usize>) -> int {
    match cached {
        Some(m) => m - 1,
        None => mode_index(h),
    }
}

/// One naive round: the free dice are rolled, and only the face chosen by
/// the first round keeps its dice.
pub open spec fn naive_round(before: NaiveSimulation, after: NaiveSimulation) -> bool {
    exists|h: Seq<usize>|
        {
            &&& #[trigger] rolled_from(before.state(), h)
            &&& after.state().buckets == keep_faces(
                h,
                naive_face(before.cached_mode(), h),
                naive_face(before.cached_mode(), h),
            )
            &&& after.cached_mode() == Some((naive_face(before.cached_mode(), h) + 1) as usize)
        }
}

/// After a round's roll `h` of `num_dice` dice, keeping `kept` of it: with a
/// face holding every die, every die is kept.
proof fn lemma_tenzi_keeps_all(h: Seq<usize>, after: TrialView)
    requires
        pointwise_le(after.buckets, h),
        sum(h) == after.num_dice,
        is_tenzi(after),
    ensures
        sum(after.buckets) == after.num_dice,
{
    let f = choose|f: int|
        0 <= f < after.buckets.len() && #[trigger] after.buckets[f] == after.num_dice;
    lemma_elem_le_sum(after.buckets, f);
    lemma_sum_le(after.buckets, h);
}

/// Keeps only the dice on the mode of the first roll, for the whole trial.
#[derive(Clone)]
pub struct NaiveSimulation {
    trial: Trial,
    mode: Option<usize>,
}

impl NaiveSimulation {
    /// The face kept for the whole trial, once the first round chose it.
    pub closed spec fn cached_mode(&self) -> Option<usize> {
        self.mode
    }

    /// A trial of `num_dice` dice with `num_sides` sides, nothing kept yet.
    pub fn new(num_sides: usize, num_dice: usize) -> (r: NaiveSimulation)
        requires
            num_sides >= 1,
            num_dice >= 1,
        ensures
            r.well_formed(),
            r.state().buckets == Seq::new(num_sides as nat, |i: int| 0usize),
            r.state().num_sides == num_sides,
            r.state().num_dice == num_dice,
            r.state().num_to_roll == num_dice,
            r.counters().num_rolls == 0,
            r.counters().num_steps == 0,
            !r.counters().done,
            r.cached_mode() is None,
    {
        NaiveSimulation { trial: Trial::new(num_sides, num_dice), mode: None }
    }

    /// The face kept for the whole trial, once the first round chose it.
    pub fn mode(&self) -> (r: Option<usize>)
        ensures
            r == self.cached_mode(),
    {
        self.mode
    }
}

impl Counted for NaiveSimulation {
    closed spec fn counters(&self) -> Counters {
        self.trial.tally()
    }

    fn num_rolls(&self) -> (r: usize) {
        self.trial.counters.num_rolls
    }

    fn num_steps(&self) -> (r: usize) {
        self.trial.counters.num_steps
    }

    fn done(&self) -> (r: bool) {
        self.trial.counters.done
    }
}

impl Strategy for NaiveSimulation {
    closed spec fn state(&self) -> TrialView {
        self.trial@
    }

    closed spec fn well_formed(&self) -> bool {
        &&& self.trial.wf()
        &&& match self.mode {
            None => forall|i: int|
                0 <= i < self.trial.buckets@.len() ==> self.trial.buckets@[i] == 0,
            Some(m) => {
                &&& 1 <= m <= self.trial.num_sides
                &&& forall|i: int|
                    0 <= i < self.trial.buckets@.len() && i != m - 1 ==> self.trial.buckets@[i]
                        == 0
            },
        }
    }

    fn buckets(&self) -> (r: &[usize]) {
        self.trial.buckets.as_slice()
    }

    fn num_sides(&self) -> (r: usize) {
        self.trial.num_sides
    }

    fn num_to_roll(&self) -> (r: usize) {
        self.trial.num_to_roll
    }

    fn step(&mut self, dice: &mut DieSource)
        ensures
            naive_round(*old(self), *final(self)),
    {
        self.trial.roll(dice);
        let ghost h = self.trial.buckets@;
        let m = match self.mode {
            Some(m) => m,
            None => mode_from_counts(self.trial.buckets.as_slice()),
        };
        self.mode = Some(m);
        let keep = m - 1;
        assert(keep == naive_face(old(self).mode, h));
        self.trial.keep_only(keep, keep);
        proof {
            let kept = keep_faces(h, keep as int, keep as int);
            lemma_sum_le(kept, h);
            assert(clears_only(h, kept));
            if self.trial.num_sides == 1 {
                assert(kept =~= h);
            }
            lemma_sum_keep_faces(h, keep as int, keep as int);
            if is_tenzi(self.trial@) {
                lemma_tenzi_keeps_all(h, self.trial@);
            }
            if sum(kept) == self.trial.num_dice {
                assert(kept[keep as int] == self.trial.num_dice);
            }
        }
        self.trial.finish_round();
    }
}

/// The indices of the faces that the divide policy keeps: the mode alone
/// once it holds at least half the dice, else the mode and the runner-up.
pub open spec fn divide_faces(h: Seq<usize>, num_dice: usize) -> (int, int) {
    let a = mode_index(h);
    if h[a] >= num_dice / 2 {
        (a, a)
    } else {
        (a, runner_up_index(h))
    }
}

/// One divide round: the free dice are rolled, and the faces that
/// `divide_faces` names keep their dice.
pub open spec fn divide_round(before: TrialView, after: TrialView) -> bool {
    exists|h: Seq<usize>|
        {
            &&& #[trigger] rolled_from(before, h)
            &&& after.buckets == keep_faces(
                h,
                divide_faces(h, before.num_dice).0,
                divide_faces(h, before.num_dice).1,
            )
        }
}

/// Keeps the two leading faces of each roll, and only the leader once it
/// holds at least half the dice.
#[derive(Clone)]
pub struct DivideSimulation {
    trial: Trial,
}

impl DivideSimulation {
    /// A trial of `num_dice` dice with `num_sides` sides, nothing kept yet.
    pub fn new(num_sides: usize, num_dice: usize) -> (r: DivideSimulation)
        requires
            num_sides >= 1,
            num_dice >= 1,
        ensures
            r.well_formed(),
            r.state().buckets == Seq::new(num_sides as nat, |i: int| 0usize),
            r.state().num_sides == num_sides,
            r.state().num_dice == num_dice,
            r.state().num_to_roll == num_dice,
            r.counters().num_rolls == 0,
            r.counters().num_steps == 0,
            !r.counters().done,
    {
        DivideSimulation { trial: Trial::new(num_sides, num_dice) }
    }
}

impl Counted for DivideSimulation {
    closed spec fn counters(&self) -> Counters {
        self.trial.tally()
    }

    fn num_rolls(&self) -> (r: usize) {
        self.trial.counters.num_rolls
    }

    fn num_steps(&self) -> (r: usize) {
        self.trial.counters.num_steps
    }

    fn done(&self) -> (r: bool) {
        self.trial.counters.done
    }
}

impl Strategy for DivideSimulation {
    closed spec fn state(&self) -> TrialView {
        self.trial@
    }

    closed spec fn well_formed(&self) -> bool {
        self.trial.wf()
    }

    fn buckets(&self) -> (r: &[usize]) {
        self.trial.buckets.as_slice()
    }

    fn num_sides(&self) -> (r: usize) {
        self.trial.num_sides
    }

    fn num_to_roll(&self) -> (r: usize) {
        self.trial.num_to_roll
    }

    fn step(&mut self, dice: &mut DieSource)
        ensures
            divide_round(old(self).state(), final(self).state()),
    {
        self.trial.roll(dice);
        let ghost h = self.trial.buckets@;
        let (m1, m2) = if self.trial.num_sides >= 2 {
            top_two_modes_from_counts(self.trial.buckets.as_slice())
        } else {
            (1, 1)
        };
        let a = m1 - 1;
        let b = if self.trial.buckets[a] >= self.trial.num_dice / 2 {
            a
        } else {
            m2 - 1
        };
        proof {
            if self.trial.num_sides < 2 {
                assert(is_last_max(h, 0));
                lemma_last_max_unique(h, 0, mode_index(h));
                lemma_sum_single(h, 0);
            }
            assert((a as int, b as int) == divide_faces(h, self.trial.num_dice));
        }
        self.trial.keep_only(a, b);
        proof {
            let kept = keep_faces(h, a as int, b as int);
            lemma_sum_le(kept, h);
            assert(clears_only(h, kept));
            if self.trial.num_sides == 1 {
                assert(kept =~= h);
            }
            lemma_sum_keep_faces(h, a as int, b as int);
            if is_tenzi(self.trial@) {
                lemma_tenzi_keeps_all(h, self.trial@);
            }
            if sum(kept) == self.trial.num_dice {
                assert(h[b as int] <= h[a as int]);
                assert(a == b);
                assert(kept[a as int] == self.trial.num_dice);
            }
        }
        self.trial.finish_round();
    }
}

/// What the merge policy keeps of a rolled histogram: every face but its
/// anti-modes.
pub open spec fn merge_kept(h: Seq<usize>) -> Seq<usize> {
    Seq::new(h.len(), |i: int| if is_anti_mode(h, i) { 0 } else { h[i] })
}

/// One merge round: the free dice are rolled, and the anti-modes of the
/// result are cleared.
pub open spec fn merge_round(before: TrialView, after: TrialView) -> bool {
    exists|h: Seq<usize>| #[trigger] rolled_from(before, h) && after.buckets == merge_kept(h)
}

/// Re-rolls only the least represented faces of each roll.
#[derive(Clone)]
pub struct MergeSimulation {
    trial: Trial,
}

impl MergeSimulation {
    /// A trial of `num_dice` dice with `num_sides` sides, nothing kept yet.
    pub fn new(num_sides: usize, num_dice: usize) -> (r: MergeSimulation)
        requires
            num_sides >= 1,
            num_dice >= 1,
        ensures
            r.well_formed(),
            r.state().buckets == Seq::new(num_sides as nat, |i: int| 0usize),
            r.state().num_sides == num_sides,
            r.state().num_dice == num_dice,
            r.state().num_to_roll == num_dice,
            r.counters().num_rolls == 0,
            r.counters().num_steps == 0,
            !r.counters().done,
    {
        MergeSimulation { trial: Trial::new(num_sides, num_dice) }
    }
}

impl Counted for MergeSimulation {
    closed spec fn counters(&self) -> Counters {
        self.trial.tally()
    }

    fn num_rolls(&self) -> (r: usize) {
        self.trial.counters.num_rolls
    }

    fn num_steps(&self) -> (r: usize) {
        self.trial.counters.num_steps
    }

    fn done(&self) -> (r: bool) {
        self.trial.counters.done
    }
}

impl Strategy for MergeSimulation {
    closed spec fn state(&self) -> TrialView {
        self.trial@
    }

    closed spec fn well_formed(&self) -> bool {
        self.trial.wf()
    }

    fn buckets(&self) -> (r: &[usize]) {
        self.trial.buckets.as_slice()
    }

    fn num_sides(&self) -> (r: usize) {
        self.trial.num_sides
    }

    fn num_to_roll(&self) -> (r: usize) {
        self.trial.num_to_roll
    }

    fn step(&mut self, dice: &mut DieSource)
        ensures
            merge_round(old(self).state(), final(self).state()),
    {
        self.trial.roll(dice);
        let ghost h = self.trial.buckets@;
        let anti = anti_modes(self.trial.buckets.as_slice());
        self.trial.clear_faces(&anti);
        proof {
            let kept = merge_kept(h);
            assert(self.trial.buckets@ =~= kept) by {
                assert forall|i: int|
                    0 <= i < h.len() implies self.trial.buckets@[i] == kept[i] by {
                    assert(anti@.contains((i + 1) as usize) == is_anti_mode(h, i));
                }
            }
            lemma_sum_le(kept, h);
            assert(clears_only(h, kept));
            if self.trial.num_sides == 1 {
                assert(at_most_one_face(h));
                assert(kept =~= h);
            }
            if is_tenzi(self.trial@) {
                lemma_tenzi_keeps_all(h, self.trial@);
            }
            if sum(kept) == self.trial.num_dice {
                lemma_sum_eq_pointwise(kept, h);
                if !at_most_one_face(h) {
                    let f = anti@[0];
                    assert(anti@.contains(f));
                    assert(h[f - 1] > 0);
                    assert(kept[f - 1] == 0);
                    assert(false);
                }
                if forall|i: int| 0 <= i < h.len() ==> h[i] == 0 {
                    lemma_sum_zero(h);
                }
                let g = choose|g: int| 0 <= g < h.len() && h[g] != 0;
                lemma_sum_single(h, g);
                assert(kept[g] == self.trial.num_dice);
            }
        }
        self.trial.finish_round();
    }
}

/// One of the three strategies, chosen at run time.
#[derive(Clone)]
pub enum SimulationType {
    Naive(NaiveSimulation),
    Divide(DivideSimulation),
    Merge(MergeSimulation),
}

impl Counted for SimulationType {
    open spec fn counters(&self) -> Counters {
        match self {
            SimulationType::Naive(sim) => sim.counters(),
            SimulationType::Divide(sim) => sim.counters(),
            SimulationType::Merge(sim) => sim.counters(),
        }
    }

    fn num_rolls(&self) -> (r: usize) {
        match self {
            SimulationType::Naive(sim) => sim.num_rolls(),
            SimulationType::Divide(sim) => sim.num_rolls(),
            SimulationType::Merge(sim) => sim.num_rolls(),
        }
    }

    fn num_steps(&self) -> (r: usize) {
        match self {
            SimulationType::Naive(sim) => sim.num_steps(),
            SimulationType::Divide(sim) => sim.num_steps(),
            SimulationType::Merge(sim) => sim.num_steps(),
        }
    }

    fn done(&self) -> (r: bool) {
        match self {
            SimulationType::Naive(sim) => sim.done(),
            SimulationType::Divide(sim) => sim.done(),
            SimulationType::Merge(sim) => sim.done(),
        }
    }
}

impl Strategy for SimulationType {
    open spec fn state(&self) -> TrialView {
        match self {
            SimulationType::Naive(sim) => sim.state(),
            SimulationType::Divide(sim) => sim.state(),
            SimulationType::Merge(sim) => sim.state(),
        }
    }

    open spec fn well_formed(&self) -> bool {
        match self {
            SimulationType::Naive(sim) => sim.well_formed(),
            SimulationType::Divide(sim) => sim.well_formed(),
            SimulationType::Merge(sim) => sim.well_formed(),
        }
    }

    fn buckets(&self) -> (r: &[usize]) {
        match self {
            SimulationType::Naive(sim) => sim.buckets(),
            SimulationType::Divide(sim) => sim.buckets(),
            SimulationType::Merge(sim) => sim.buckets(),
        }
    }

    fn num_sides(&self) -> (r: usize) {
        match self {
            SimulationType::Naive(sim) => sim.num_sides(),
            SimulationType::Divide(sim) => sim.num_sides(),
            SimulationType::Merge(sim) => sim.num_sides(),
        }
    }

    fn num_to_roll(&self) -> (r: usize) {
        match self {
            SimulationType::Naive(sim) => sim.num_to_roll(),
            SimulationType::Divide(sim) => sim.num_to_roll(),
            SimulationType::Merge(sim) => sim.num_to_roll(),
        }
    }

    fn step(&mut self, dice: &mut DieSource) {
        match self {
            SimulationType::Naive(sim) => sim.step(dice),
            SimulationType::Divide(sim) => sim.step(dice),
            SimulationType::Merge(sim) => sim.step(dice),
        }
    }
}

/// A round after which fewer than all the dice are kept has cleared some
/// face that held dice once the free dice were rolled: no round stands still.
pub proof fn lemma_unfinished_round_clears_a_face(before: TrialView, after: TrialView)
    requires
        round_outcome(before, after),
        sum(after.buckets) < before.num_dice,
    ensures
        exists|h: Seq<usize>, f: int|
            #![trigger rolled_from(before, h), h[f]]
            rolled_from(before, h) && 0 <= f < h.len() && h[f] > 0 && after.buckets[f] == 0,
{
    let h = choose|h: Seq<usize>|
        #[trigger] rolled_from(before, h) && clears_only(h, after.buckets);
    if forall|i: int| 0 <= i < h.len() ==> !(h[i] > 0 && after.buckets[i] == 0) {
        assert(after.buckets =~= h) by {
            assert forall|i: int| 0 <= i < h.len() implies after.buckets[i] == h[i] by {
                if after.buckets[i] != h[i] {
                    assert(after.buckets[i] == 0);
                }
            }
        }
        assert(false);
    }
    let f = choose|f: int| 0 <= f < h.len() && h[f] > 0 && after.buckets[f] == 0;
    assert(rolled_from(before, h) && 0 <= f < h.len() && h[f] > 0 && after.buckets[f] == 0);
}

/// Under the naive policy the dice kept never decrease from one round to
/// the next.
pub proof fn lemma_naive_kept_never_shrinks(before: NaiveSimulation, after: NaiveSimulation)
    requires
        before.well_formed(),
        naive_round(before, after),
    ensures
        sum(after.state().buckets) >= sum(before.state().buckets),
{
    let h = choose|h: Seq<usize>|
        {
            &&& #[trigger] rolled_from(before.state(), h)
            &&& after.state().buckets == keep_faces(
                h,
                naive_face(before.cached_mode(), h),
                naive_face(before.cached_mode(), h),
            )
            &&& after.cached_mode() == Some((naive_face(before.cached_mode(), h) + 1) as usize)
        };
    let k = naive_face(before.cached_mode(), h);
    let kept = after.state().buckets;
    match before.mode {
        None => {
            lemma_sum_zero(before.state().buckets);
            lemma_sum_nonneg(kept);
        },
        Some(_) => {
            lemma_sum_single(before.state().buckets, k);
            lemma_sum_single(kept, k);
        },
    }
}

} // verus!
