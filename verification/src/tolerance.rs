//! The stopping rule, in exact arithmetic.
//!
//! The half-width of the 95% confidence interval of an estimate is 1.96 of
//! its standard deviations. An estimation stops once the half-width of the
//! root's integrated estimate is within the tolerance. A half-width is a
//! square root; the rule is stated here over its square.

use crate::estimator::{Outcome, Run};
use crate::integrated::{
    integrated_estimate, integrated_variance, lemma_certain_tree, lemma_split_variance,
};
use crate::tree::{split_cells, tree_wf, Cell, Tally};
use vstd::prelude::*;

verus! {

/// When the confidence interval counts as narrow enough.
pub enum Tolerance {
    /// The half-width is at most this value.
    CI95Abs(real),
    /// The half-width is at most this fraction of the estimate.
    CI95Rel(real),
}

/// Square of the half-width of an estimate with the given variance.
pub open spec fn half_width_squared(variance: real) -> real {
    (196 as real / 100 as real) * (196 as real / 100 as real) * variance
}

/// The half-width of an estimate with the given variance is at most
/// `bound`. A half-width is never negative: it is within a bound exactly
/// where the bound is not negative and the squares say so.
pub open spec fn half_width_within(variance: real, bound: real) -> bool {
    bound >= 0 as real && half_width_squared(variance) <= bound * bound
}

impl Tolerance {
    /// An estimate with the given variance meets the tolerance.
    pub open spec fn met(self, estimate: real, variance: real) -> bool {
        match self {
            Tolerance::CI95Abs(bound) => half_width_within(variance, bound),
            Tolerance::CI95Rel(fraction) => half_width_within(variance, fraction * estimate),
        }
    }
}

/// The factor between a variance and the square of its half-width is
/// positive.
pub proof fn lemma_half_width_factor()
    ensures
        (196 as real / 100 as real) * (196 as real / 100 as real) > 0 as real,
{
    let k = 196 as real / 100 as real;
    assert(k > 0 as real) by (nonlinear_arith)
        requires
            k == 196 as real / 100 as real,
    ;
    assert(k * k > 0 as real) by (nonlinear_arith)
        requires
            k > 0 as real,
    ;
}

/// A tolerance of zero, absolute or relative, is met by an estimate without
/// variance and by no other.
pub proof fn lemma_zero_tolerance(estimate: real, variance: real)
    requires
        variance >= 0 as real,
    ensures
        Tolerance::CI95Abs(0 as real).met(estimate, variance) <==> variance == 0 as real,
        Tolerance::CI95Rel(0 as real).met(estimate, variance) <==> variance == 0 as real,
{
    let zero = 0 as real;
    let c = (196 as real / 100 as real) * (196 as real / 100 as real);
    lemma_half_width_factor();
    assert(zero * estimate == zero) by (nonlinear_arith)
        requires
            zero == 0 as real,
    ;
    assert(zero * zero == zero) by (nonlinear_arith)
        requires
            zero == 0 as real,
    ;
    assert(c * variance <= zero <==> variance == zero) by (nonlinear_arith)
        requires
            c > 0 as real,
            variance >= 0 as real,
            zero == 0 as real,
    ;
}

/// A bound that holds of a variance holds of every smaller one.
pub proof fn lemma_half_width_monotone(lower: real, upper: real, bound: real)
    requires
        lower <= upper,
        half_width_within(upper, bound),
    ensures
        half_width_within(lower, bound),
{
    let c = (196 as real / 100 as real) * (196 as real / 100 as real);
    lemma_half_width_factor();
    assert(c * lower <= c * upper) by (nonlinear_arith)
        requires
            c > 0 as real,
            lower <= upper,
    ;
}

/// An absolute tolerance that the root meets is still met after any split.
pub proof fn lemma_split_keeps_absolute_tolerance(
    cells: Seq<Cell>,
    leaf: int,
    axis: usize,
    first: Tally,
    second: Tally,
    volume: real,
    bound: real,
)
    requires
        tree_wf(cells),
        0 <= leaf < cells.len(),
        cells[leaf].is_leaf(),
        first.wf(),
        second.wf(),
        cells.len() + 1 <= usize::MAX,
        Tolerance::CI95Abs(bound).met(
            integrated_estimate(cells, 0, volume),
            integrated_variance(cells, 0, volume),
        ),
    ensures
        Tolerance::CI95Abs(bound).met(
            integrated_estimate(split_cells(cells, leaf, axis, first, second), 0, volume),
            integrated_variance(split_cells(cells, leaf, axis, first, second), 0, volume),
        ),
{
    lemma_split_variance(cells, leaf, axis, first, second, 0, volume);
    lemma_half_width_monotone(
        integrated_variance(split_cells(cells, leaf, axis, first, second), 0, volume),
        integrated_variance(cells, 0, volume),
        bound,
    );
}

/// Under a tolerance of zero, an estimation whose root keeps some variance
/// is never told that it has converged: it splits until its budget is spent.
pub proof fn lemma_zero_tolerance_run(run: Run, estimate: real, variance: real)
    requires
        variance > 0 as real,
    ensures
        run.decide(Tolerance::CI95Abs(0 as real).met(estimate, variance)) == run.decide(false),
        run.decide(Tolerance::CI95Rel(0 as real).met(estimate, variance)) == run.decide(false),
        run.decide(false) != Outcome::Converged,
{
    lemma_zero_tolerance(estimate, variance);
}

/// A tree whose every batch hit with every point has converged at once: its
/// root meets every absolute tolerance that is not negative, and every
/// relative one whose share of the volume is not negative.
pub proof fn lemma_certain_tree_converges(cells: Seq<Cell>, volume: real, run: Run, bound: real)
    requires
        tree_wf(cells),
        forall|i: int| 0 <= i < cells.len() ==> (#[trigger] cells[i]).hits == cells[i].samples,
    ensures
        bound >= 0 as real ==> run.decide(
            Tolerance::CI95Abs(bound).met(
                integrated_estimate(cells, 0, volume),
                integrated_variance(cells, 0, volume),
            ),
        ) == Outcome::Converged,
        bound * volume >= 0 as real ==> run.decide(
            Tolerance::CI95Rel(bound).met(
                integrated_estimate(cells, 0, volume),
                integrated_variance(cells, 0, volume),
            ),
        ) == Outcome::Converged,
{
    lemma_certain_tree(cells, 0, volume);
    let c = (196 as real / 100 as real) * (196 as real / 100 as real);
    let zero = 0 as real;
    assert(c * zero == zero) by (nonlinear_arith)
        requires
            zero == 0 as real,
    ;
    let b = bound;
    assert(b * b >= 0 as real) by (nonlinear_arith);
    let r = bound * volume;
    assert(r * r >= 0 as real) by (nonlinear_arith);
}

} // verus!
