//! Fitness: an exact rational score `1 / (1 + conflict_count)` that ranks
//! candidates, higher is better.

use crate::conflict::{calculate_conflicts, conflict_count, lemma_conflict_count_bound};
use crate::schedule::ClassSchedule;
use vstd::prelude::*;

verus! {

/// A fitness score as an exact rational `numerator / denominator`, avoiding
/// any rounding in the scoring logic.
#[derive(Clone, Copy, Debug, PartialEq, Eq, Structural)]
pub struct Fitness {
    pub numerator: u64,
    pub denominator: u64,
}

/// The rational fitness of a candidate, as a (numerator, denominator) pair:
/// `1 / (1 + conflict_count)`.
pub open spec fn spec_fitness(s: Seq<ClassSchedule>) -> (nat, nat) {
    (1nat, 1nat + conflict_count(s))
}

/// Scores a candidate: fitness is exactly `1 / (1 + conflict_count)`.
pub fn fitness(schedule: &Vec<ClassSchedule>) -> (f: Fitness)
    requires
        schedule@.len() <= u32::MAX as int,
    ensures
        f.numerator == spec_fitness(schedule@).0,
        f.denominator == spec_fitness(schedule@).1,
{
    proof {
        lemma_conflict_count_bound(schedule@);
        assert(schedule@.len() * schedule@.len() < u64::MAX as int) by (nonlinear_arith)
            requires
                0 <= schedule@.len() <= u32::MAX as int,
        ;
    }
    let count = calculate_conflicts(schedule);
    Fitness { numerator: 1, denominator: 1 + count }
}

impl Fitness {
    /// True exactly for a perfect score: the rational equals 1, which the
    /// scoring function produces exactly for conflict-free candidates.
    pub fn is_perfect(&self) -> (r: bool)
        ensures
            r == (self.numerator == self.denominator),
    {
        self.numerator == self.denominator
    }

    /// Whether `self` ranks at least as high as `other`. Scores produced by
    /// `fitness` always have numerator 1, so the rational comparison reduces
    /// to comparing denominators the other way round.
    pub fn at_least(&self, other: &Fitness) -> (r: bool)
        requires
            self.numerator == 1,
            other.numerator == 1,
        ensures
            r == (self.denominator <= other.denominator),
            r == (self.numerator * other.denominator >= other.numerator * self.denominator),
    {
        self.denominator <= other.denominator
    }
}

/// A candidate's fitness equals 1 exactly when it has no conflicts: the
/// numerator and denominator of `spec_fitness` agree iff the conflict count
/// is zero.
pub proof fn lemma_fitness_one_iff_no_conflicts(s: Seq<ClassSchedule>)
    ensures
        (spec_fitness(s).0 == spec_fitness(s).1) <==> conflict_count(s) == 0,
{
}

/// Every candidate's fitness lies in the half-open unit interval (0, 1]: the
/// numerator is positive and never exceeds the denominator.
pub proof fn lemma_fitness_in_unit_interval(s: Seq<ClassSchedule>)
    ensures
        0 < spec_fitness(s).0,
        spec_fitness(s).0 <= spec_fitness(s).1,
{
}

/// Fitness orders candidates exactly opposite to conflict count: as
/// rationals (compared by cross-multiplication), one candidate scores at
/// least as high as another iff it has at most as many conflicts.
pub proof fn lemma_fitness_orders_by_conflicts(s: Seq<ClassSchedule>, t: Seq<ClassSchedule>)
    ensures
        (spec_fitness(s).0 * spec_fitness(t).1 >= spec_fitness(t).0 * spec_fitness(s).1)
            <==> conflict_count(s) <= conflict_count(t),
{
    let ds = spec_fitness(s).1;
    let dt = spec_fitness(t).1;
    assert(1nat * dt == dt) by (nonlinear_arith);
    assert(1nat * ds == ds) by (nonlinear_arith);
}

} // verus!
