//! Playing whole trials, and the totals that many trials add up to.

use vstd::prelude::*;
use crate::dice::DieSource;
use crate::histogram::lemma_sum_nonneg;
use crate::simulation::{Counted, SimulationType, Strategy};

verus! {

/// Plays rounds until the trial ends.
///
/// A trial with any die left to roll is not bound to end: a run also stops
/// when the counters could no longer count another round, which no run of a
/// practical size comes near.
pub fn run<S: Strategy>(strategy: &mut S, dice: &mut DieSource)
    requires
        old(strategy).well_formed(),
        old(strategy).state().num_to_roll <= old(strategy).state().num_dice,
    ensures
        final(strategy).well_formed(),
        final(strategy).state().num_dice == old(strategy).state().num_dice,
        final(strategy).state().num_sides == old(strategy).state().num_sides,
        final(strategy).counters().done
            || final(strategy).counters().num_steps == usize::MAX
            || final(strategy).counters().num_rolls + final(strategy).state().num_to_roll
            > usize::MAX,
        final(strategy).counters().num_steps >= old(strategy).counters().num_steps,
        final(strategy).counters().num_rolls >= old(strategy).counters().num_rolls,
        rolls_within(
            final(strategy).counters().num_rolls - old(strategy).counters().num_rolls,
            final(strategy).counters().num_steps - old(strategy).counters().num_steps,
            old(strategy).state().num_dice as int,
        ),
        can_play_round(*old(strategy)) ==> {
            &&& final(strategy).counters().num_steps > old(strategy).counters().num_steps
            &&& final(strategy).counters().num_rolls >= old(strategy).counters().num_rolls
                + old(strategy).state().num_to_roll
        },
        can_play_round(*old(strategy)) && old(strategy).state().num_sides == 1 ==> {
            &&& final(strategy).counters().done
            &&& final(strategy).counters().num_steps == old(strategy).counters().num_steps + 1
            &&& final(strategy).counters().num_rolls == old(strategy).counters().num_rolls
                + old(strategy).state().num_to_roll
        },
{
    let ghost start_rolls = strategy.counters().num_rolls as int;
    let ghost start_steps = strategy.counters().num_steps as int;
    let ghost d = strategy.state().num_dice as int;
    let ghost playable = can_play_round(*strategy);
    let ghost single = playable && strategy.state().num_sides == 1;
    let ghost first_roll = strategy.state().num_to_roll as int;
    while !strategy.done() && strategy.num_steps() < usize::MAX && strategy.num_rolls()
        <= usize::MAX - strategy.num_to_roll()
        invariant
            strategy.well_formed(),
            strategy.state().num_dice == d,
            strategy.state().num_sides == old(strategy).state().num_sides,
            strategy.state().num_to_roll <= d,
            strategy.counters().num_steps >= start_steps,
            strategy.counters().num_rolls >= start_rolls,
            rolls_within(
                strategy.counters().num_rolls - start_rolls,
                strategy.counters().num_steps - start_steps,
                d,
            ),
            playable ==> at_start(*strategy, start_steps, start_rolls, first_roll) || (
            strategy.counters().num_steps > start_steps && strategy.counters().num_rolls
                >= start_rolls + first_roll),
            single ==> strategy.state().num_sides == 1,
            single ==> at_start(*strategy, start_steps, start_rolls, first_roll) || (
            strategy.counters().done
                && strategy.counters().num_steps == start_steps + 1
                && strategy.counters().num_rolls == start_rolls + first_roll),
        decreases usize::MAX - strategy.counters().num_steps,
    {
        let ghost rolls = strategy.counters().num_rolls as int;
        let ghost steps = strategy.counters().num_steps as int;
        let ghost t = strategy.state().num_to_roll as int;
        strategy.step(dice);
        proof {
            lemma_sum_nonneg(strategy.state().buckets);
            assert((steps + 1 - start_steps) * d == (steps - start_steps) * d + d)
                by (nonlinear_arith);
        }
    }
}

/// `rolls` dice rolled over `steps` rounds of at most `num_dice` dice each.
pub open spec fn rolls_within(rolls: int, steps: int, num_dice: int) -> bool {
    rolls <= steps * num_dice
}

/// No round has been played since the counters stood at `steps` and `rolls`
/// with `to_roll` dice to roll.
pub open spec fn at_start<S: Strategy>(s: S, steps: int, rolls: int, to_roll: int) -> bool {
    &&& s.counters().num_steps == steps
    &&& s.counters().num_rolls == rolls
    &&& s.state().num_to_roll == to_roll
    &&& !s.counters().done
}

/// The trial is not over, and its counters can count one more round.
pub open spec fn can_play_round<S: Strategy>(s: S) -> bool {
    &&& !s.counters().done
    &&& s.counters().num_steps < usize::MAX
    &&& s.counters().num_rolls + s.state().num_to_roll <= usize::MAX
}

/// Plays one trial to its end and returns the dice rolled and the rounds
/// played.
pub fn sim(simulation_type: SimulationType, dice: &mut DieSource) -> (r: (usize, usize))
    requires
        simulation_type.well_formed(),
        simulation_type.counters().num_rolls == 0,
        simulation_type.counters().num_steps == 0,
        !simulation_type.counters().done,
        simulation_type.state().num_to_roll == simulation_type.state().num_dice,
    ensures
        r.1 >= 1,
        simulation_type.state().num_dice <= r.0 <= r.1 * simulation_type.state().num_dice,
        simulation_type.state().num_sides == 1 ==> r == (simulation_type.state().num_dice, 1usize),
{
    let mut strategy = simulation_type;
    run(&mut strategy, dice);
    (strategy.num_rolls(), strategy.num_steps())
}

/// Running totals over many trials: how many there were, and the sums and
/// sums of squares of their rolls and of their rounds.
#[derive(Clone, Copy, Debug)]
pub struct Totals {
    pub count: u64,
    pub rolls: u128,
    pub squared_rolls: u128,
    pub steps: u128,
    pub squared_steps: u128,
}

/// `count` squared times the population variance of values whose sum is
/// `total` and whose sum of squares is `squared`.
pub open spec fn spread(count: int, total: int, squared: int) -> int {
    count * squared - total * total
}

impl Totals {
    /// Totals over no trial at all.
    pub open spec fn empty() -> Totals {
        Totals { count: 0, rolls: 0, squared_rolls: 0, steps: 0, squared_steps: 0 }
    }

    /// One more trial fits in every total.
    pub open spec fn fits(self, rolls: usize, steps: usize) -> bool {
        &&& self.count + 1 <= u64::MAX
        &&& self.rolls + rolls <= u128::MAX
        &&& self.squared_rolls + rolls * rolls <= u128::MAX
        &&& self.steps + steps <= u128::MAX
        &&& self.squared_steps + steps * steps <= u128::MAX
    }

    /// The totals with one more trial of `rolls` rolls and `steps` rounds.
    pub open spec fn added(self, rolls: usize, steps: usize) -> Totals {
        Totals {
            count: (self.count + 1) as u64,
            rolls: (self.rolls + rolls) as u128,
            squared_rolls: (self.squared_rolls + rolls * rolls) as u128,
            steps: (self.steps + steps) as u128,
            squared_steps: (self.squared_steps + steps * steps) as u128,
        }
    }

    /// Totals over no trial at all.
    pub fn new() -> (r: Totals)
        ensures
            r == Totals::empty(),
    {
        Totals { count: 0, rolls: 0, squared_rolls: 0, steps: 0, squared_steps: 0 }
    }

    /// Adds one trial of `rolls` rolls and `steps` rounds, unless a total
    /// would overflow, in which case nothing changes.
    pub fn add_trial(&mut self, rolls: usize, steps: usize) -> (ok: bool)
        ensures
            ok == old(self).fits(rolls, steps),
            ok ==> *final(self) == old(self).added(rolls, steps),
            !ok ==> *final(self) == *old(self),
    {
        let r = rolls as u128;
        let s = steps as u128;
        proof {
            assert(r * r <= u128::MAX) by (nonlinear_arith)
                requires
                    r <= u64::MAX,
            ;
            assert(s * s <= u128::MAX) by (nonlinear_arith)
                requires
                    s <= u64::MAX,
            ;
        }
        let rr = r * r;
        let ss = s * s;
        if self.count == u64::MAX || self.rolls > u128::MAX - r || self.squared_rolls
            > u128::MAX - rr || self.steps > u128::MAX - s || self.squared_steps > u128::MAX
            - ss {
            return false;
        }
        self.count = self.count + 1;
        self.rolls = self.rolls + r;
        self.squared_rolls = self.squared_rolls + rr;
        self.steps = self.steps + s;
        self.squared_steps = self.squared_steps + ss;
        true
    }
}

/// Over a single trial, the totals of rolls and rounds are that trial's own
/// counts, so their means are those counts and their spreads are zero.
pub proof fn lemma_single_trial(rolls: usize, steps: usize)
    ensures
        Totals::empty().fits(rolls, steps),
        Totals::empty().added(rolls, steps).count == 1,
        Totals::empty().added(rolls, steps).rolls == rolls,
        Totals::empty().added(rolls, steps).steps == steps,
        spread(1, rolls as int, Totals::empty().added(rolls, steps).squared_rolls as int) == 0,
        spread(1, steps as int, Totals::empty().added(rolls, steps).squared_steps as int) == 0,
{
    assert(rolls * rolls <= u128::MAX) by (nonlinear_arith)
        requires
            rolls <= u64::MAX,
    ;
    assert(steps * steps <= u128::MAX) by (nonlinear_arith)
        requires
            steps <= u64::MAX,
    ;
}

} // verus!
