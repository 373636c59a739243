//! The sample budget of one estimation and the rule that spends it.
//!
//! An estimation draws a first batch for the whole box and then, as long as
//! the confidence interval is too wide and samples are left, spends one batch
//! per split of the tree. Drawing points and testing the interval are the
//! caller's work; this module decides how many samples each batch gets, along
//! which axis the next split goes, and when the estimation ends.

use crate::tree::{lemma_split_total_samples, split_cells, total_samples, Cell, Tally};
use vstd::arithmetic::div_mod::{lemma_basic_div, lemma_div_plus_one};
use vstd::prelude::*;

verus! {

/// Batch size and total sample budget of an estimation.
#[derive(Clone, Copy, Debug, PartialEq, Eq, Structural)]
pub struct BspMonteCarlo {
    /// Samples drawn per batch.
    pub step_samples: usize,
    /// Samples that one estimation may draw in all.
    pub max_samples: usize,
}

/// What the estimation does after a test of the confidence interval.
#[derive(Clone, Copy, Debug, PartialEq, Eq, Structural)]
pub enum Outcome {
    /// The interval meets the tolerance: report the root's values.
    Converged,
    /// No samples are left: report the root's values as they are.
    BudgetExhausted,
    /// Split the most uncertain leaf along `axis`, spending `samples` on its
    /// two halves.
    Split { axis: usize, samples: usize },
}

/// The budget and the split counter of a running estimation.
#[derive(Clone, Copy, Debug, PartialEq, Eq, Structural)]
pub struct Run {
    /// Samples not yet handed out.
    pub remaining: usize,
    /// Samples per batch.
    pub step_samples: usize,
    /// Number of axes of the bounding box.
    pub dim: usize,
    /// Splits made so far.
    pub splits: usize,
}

/// The smaller of a batch size and what is left of the budget.
pub open spec fn batch_of(step_samples: usize, remaining: usize) -> usize {
    if step_samples <= remaining {
        step_samples
    } else {
        remaining
    }
}

impl BspMonteCarlo {
    /// Batches of 1000 samples, one million samples in all.
    pub fn new() -> (config: Self)
        ensures
            config.step_samples == 1000,
            config.max_samples == 1_000_000,
    {
        BspMonteCarlo { step_samples: 1000, max_samples: 1_000_000 }
    }

    /// The run as it stands once the root's batch has been handed out.
    pub open spec fn started(self, dim: usize) -> Run {
        Run {
            remaining: (self.max_samples - batch_of(self.step_samples, self.max_samples)) as usize,
            step_samples: self.step_samples,
            dim,
            splits: 0,
        }
    }

    /// Starts an estimation over a box of `dim` axes. Returns the run and the
    /// number of samples to draw for the root, which is already taken from
    /// the budget.
    pub fn begin(&self, dim: usize) -> (start: (Run, usize))
        requires
            dim > 0,
            self.step_samples > 0,
        ensures
            start.0 == self.started(dim),
            start.0.wf(),
            start.1 == batch_of(self.step_samples, self.max_samples),
            start.0.remaining + start.1 == self.max_samples,
    {
        let first: usize = if self.step_samples <= self.max_samples {
            self.step_samples
        } else {
            self.max_samples
        };
        (
            Run {
                remaining: self.max_samples - first,
                step_samples: self.step_samples,
                dim,
                splits: 0,
            },
            first,
        )
    }
}

impl Run {
    /// A run has at least one axis and a batch size above zero. The split
    /// counter cannot overflow, since every split spends at least one sample.
    pub open spec fn wf(self) -> bool {
        &&& self.dim > 0
        &&& self.step_samples > 0
        &&& self.splits + self.remaining <= usize::MAX
    }

    /// Size of the next batch.
    pub open spec fn batch(self) -> usize {
        batch_of(self.step_samples, self.remaining)
    }

    /// Axis of the next split: the axes take turns.
    pub open spec fn axis(self) -> int {
        self.splits as int % self.dim as int
    }

    /// What follows a test of the confidence interval. The tolerance is
    /// looked at first, then the budget.
    pub open spec fn decide(self, tolerance_met: bool) -> Outcome {
        if tolerance_met {
            Outcome::Converged
        } else if self.remaining == 0 {
            Outcome::BudgetExhausted
        } else {
            Outcome::Split { axis: self.axis() as usize, samples: self.batch() }
        }
    }

    /// The run after one more split.
    pub open spec fn advance(self) -> Run {
        Run {
            remaining: (self.remaining - self.batch()) as usize,
            splits: (self.splits + 1) as usize,
            ..self
        }
    }

    /// The run after `k` more splits.
    pub open spec fn after(self, k: nat) -> Run
        decreases k,
    {
        if k == 0 {
            self
        } else {
            self.advance().after((k - 1) as nat)
        }
    }

    /// Number of batches that the remaining budget pays for: the last one may
    /// be short.
    pub open spec fn batches_left(self) -> int {
        (self.remaining + self.step_samples - 1) / (self.step_samples as int)
    }

    /// One turn of the estimation loop. The caller says whether the root's
    /// confidence interval meets the tolerance. A split is charged to the
    /// budget here; the two terminal outcomes leave the run as it is.
    pub fn next(&mut self, tolerance_met: bool) -> (outcome: Outcome)
        requires
            old(self).wf(),
        ensures
            outcome == old(self).decide(tolerance_met),
            final(self).wf(),
            outcome is Split ==> *final(self) == old(self).advance(),
            !(outcome is Split) ==> *final(self) == *old(self),
            outcome matches Outcome::Split { axis, samples } ==> {
                &&& axis < old(self).dim
                &&& 0 < samples <= old(self).step_samples
                &&& final(self).remaining + samples == old(self).remaining
            },
    {
        if tolerance_met {
            return Outcome::Converged;
        }
        if self.remaining == 0 {
            return Outcome::BudgetExhausted;
        }
        let samples: usize = if self.step_samples <= self.remaining {
            self.step_samples
        } else {
            self.remaining
        };
        let axis: usize = self.splits % self.dim;
        self.remaining = self.remaining - samples;
        self.splits = self.splits + 1;
        Outcome::Split { axis, samples }
    }
}

/// The two shares of a batch that is spent on a split: the first half of the
/// cell gets the larger share where the batch is odd.
pub fn halve(samples: usize) -> (shares: (usize, usize))
    ensures
        shares.0 == samples - samples / 2,
        shares.1 == samples / 2,
        shares.0 + shares.1 == samples,
        shares.1 <= shares.0 <= shares.1 + 1,
{
    (samples - samples / 2, samples / 2)
}

/// One split lowers the number of batches left by one, and no batch is left
/// exactly when the budget is spent.
pub proof fn lemma_batches_left_step(run: Run)
    requires
        run.wf(),
    ensures
        run.batches_left() >= 0,
        run.remaining == 0 <==> run.batches_left() == 0,
        run.remaining > 0 ==> run.advance().wf(),
        run.remaining > 0 ==> run.advance().batches_left() == run.batches_left() - 1,
        run.remaining > 0 ==> run.advance().splits == run.splits + 1,
        run.remaining > 0 ==> run.advance().remaining + run.batch() == run.remaining,
{
    let r = run.remaining as int;
    let s = run.step_samples as int;
    if r == 0 {
        lemma_basic_div(s - 1, s);
    } else {
        lemma_div_plus_one(r - 1, s);
        if r < s {
            lemma_basic_div(r - 1, s);
            lemma_basic_div(s - 1, s);
        } else {
            vstd::arithmetic::div_mod::lemma_div_pos_is_pos(r - 1, s);
        }
    }
}

/// The run after `k` of the batches that are left: the counter has gone up
/// by `k`, and the budget is spent after the last of them and not before.
pub proof fn lemma_after(run: Run, k: nat)
    requires
        run.wf(),
        k <= run.batches_left(),
    ensures
        run.after(k).wf(),
        run.after(k).dim == run.dim,
        run.after(k).step_samples == run.step_samples,
        run.after(k).splits == run.splits + k,
        run.after(k).batches_left() == run.batches_left() - k,
        run.after(k).remaining <= run.remaining,
        run.after(k).remaining == 0 <==> k == run.batches_left(),
    decreases k,
{
    lemma_batches_left_step(run);
    if k > 0 {
        lemma_after(run.advance(), (k - 1) as nat);
    }
}

/// The axes take turns: as long as the tolerance is not met, the split that
/// follows `k` earlier ones goes along axis `(splits + k) mod dim`, whatever
/// leaves the earlier ones refined. In a run fresh from `begin` that is
/// `k mod dim`.
pub proof fn lemma_round_robin(run: Run, k: nat)
    requires
        run.wf(),
        k < run.batches_left(),
    ensures
        run.after(k).decide(false) == (Outcome::Split {
            axis: ((run.splits + k) % (run.dim as int)) as usize,
            samples: run.after(k).batch(),
        }),
        0 < run.after(k).batch() <= run.step_samples,
{
    lemma_after(run, k);
}

/// In an estimation fresh from `begin`, the split that follows `k` earlier
/// ones goes along axis `k mod dim`.
pub proof fn lemma_round_robin_from_start(config: BspMonteCarlo, dim: usize, k: nat)
    requires
        dim > 0,
        config.step_samples > 0,
        k < config.started(dim).batches_left(),
    ensures
        config.started(dim).after(k).decide(false) matches Outcome::Split { axis, samples }
            && axis == k % (dim as nat) && 0 < samples <= config.step_samples,
{
    lemma_round_robin(config.started(dim), k);
}

/// A run whose tolerance is never met ends by exhausting its budget: each of
/// the batches that are left is spent on a split, and the test after the
/// last of them finds no samples left.
pub proof fn lemma_ends_by_exhaustion(run: Run)
    requires
        run.wf(),
    ensures
        forall|k: nat| k < run.batches_left() ==> #[trigger] run.after(k).decide(false) is Split,
        run.after(run.batches_left() as nat).decide(false) == Outcome::BudgetExhausted,
        run.after(run.batches_left() as nat).splits == run.splits + run.batches_left(),
{
    lemma_batches_left_step(run);
    assert forall|k: nat| k < run.batches_left() implies #[trigger] run.after(k).decide(
        false,
    ) is Split by {
        lemma_after(run, k);
    }
    lemma_after(run, run.batches_left() as nat);
}

/// The budget pays for every point drawn, once: where the batch of a split
/// is shared between the two new halves, the points in the tree and the
/// samples left add up to what they added up to before.
pub proof fn lemma_split_is_paid_for(
    run: Run,
    cells: Seq<Cell>,
    leaf: int,
    axis: usize,
    first: Tally,
    second: Tally,
)
    requires
        run.wf(),
        run.remaining > 0,
        0 <= leaf < cells.len(),
        first.samples + second.samples == run.batch(),
    ensures
        total_samples(split_cells(cells, leaf, axis, first, second)) + run.advance().remaining
            == total_samples(cells) + run.remaining,
{
    lemma_split_total_samples(cells, leaf, axis, first, second);
}

} // verus!
