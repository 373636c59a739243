use bsp_monte_carlo::estimator::{halve, BspMonteCarlo, Outcome, Run};

#[test]
fn default_configuration() {
    let config = BspMonteCarlo::new();
    assert_eq!(config.step_samples, 1000);
    assert_eq!(config.max_samples, 1_000_000);
}

#[test]
fn halves_of_a_batch() {
    assert_eq!(halve(7), (4, 3));
    assert_eq!(halve(1000), (500, 500));
    assert_eq!(halve(2), (1, 1));
    assert_eq!(halve(1), (1, 0));
    assert_eq!(halve(0), (0, 0));
    assert_eq!(halve(usize::MAX), (usize::MAX / 2 + 1, usize::MAX / 2));
}

#[test]
fn root_batch_is_one_step() {
    let config = BspMonteCarlo { step_samples: 100, max_samples: 250 };
    let (run, root) = config.begin(3);
    assert_eq!(root, 100);
    assert_eq!(run, Run { remaining: 150, step_samples: 100, dim: 3, splits: 0 });
}

#[test]
fn root_batch_is_capped_by_the_budget() {
    let config = BspMonteCarlo { step_samples: 100, max_samples: 40 };
    let (mut run, root) = config.begin(2);
    assert_eq!(root, 40);
    assert_eq!(run.remaining, 0);
    assert_eq!(run.next(false), Outcome::BudgetExhausted);
}

#[test]
fn empty_budget_gives_an_empty_root_batch() {
    let config = BspMonteCarlo { step_samples: 10, max_samples: 0 };
    let (mut run, root) = config.begin(1);
    assert_eq!(root, 0);
    assert_eq!(run.next(false), Outcome::BudgetExhausted);
    assert_eq!(run.next(true), Outcome::Converged);
}

#[test]
fn default_run_pays_for_999_splits() {
    let (mut run, root) = BspMonteCarlo::new().begin(2);
    assert_eq!(root, 1000);
    assert_eq!(run.remaining, 999_000);
    let mut splits = 0;
    while let Outcome::Split { axis, samples } = run.next(false) {
        assert_eq!(axis, splits % 2);
        assert_eq!(samples, 1000);
        splits += 1;
    }
    assert_eq!(splits, 999);
    assert_eq!(run.remaining, 0);
}

#[test]
fn last_batch_is_short() {
    let config = BspMonteCarlo { step_samples: 100, max_samples: 250 };
    let (mut run, _) = config.begin(3);
    assert_eq!(run.next(false), Outcome::Split { axis: 0, samples: 100 });
    assert_eq!(run.remaining, 50);
    assert_eq!(run.next(false), Outcome::Split { axis: 1, samples: 50 });
    assert_eq!(run.remaining, 0);
    assert_eq!(run.splits, 2);
    assert_eq!(run.next(false), Outcome::BudgetExhausted);
    assert_eq!(run.splits, 2);
}

#[test]
fn axes_take_turns() {
    let config = BspMonteCarlo { step_samples: 1, max_samples: 12 };
    let (mut run, _) = config.begin(3);
    let mut axes = Vec::new();
    while let Outcome::Split { axis, .. } = run.next(false) {
        axes.push(axis);
    }
    assert_eq!(axes, vec![0, 1, 2, 0, 1, 2, 0, 1, 2, 0, 1]);
}

#[test]
fn one_axis_is_always_axis_zero() {
    let config = BspMonteCarlo { step_samples: 2, max_samples: 10 };
    let (mut run, _) = config.begin(1);
    for _ in 0..4 {
        assert_eq!(run.next(false), Outcome::Split { axis: 0, samples: 2 });
    }
    assert_eq!(run.next(false), Outcome::BudgetExhausted);
}

#[test]
fn tolerance_is_looked_at_before_the_budget() {
    let mut spent = Run { remaining: 0, step_samples: 5, dim: 2, splits: 7 };
    assert_eq!(spent.next(true), Outcome::Converged);
    assert_eq!(spent.next(false), Outcome::BudgetExhausted);
    let mut open = Run { remaining: 9, step_samples: 5, dim: 2, splits: 7 };
    assert_eq!(open.next(true), Outcome::Converged);
    assert_eq!(open, Run { remaining: 9, step_samples: 5, dim: 2, splits: 7 });
    assert_eq!(open.next(false), Outcome::Split { axis: 1, samples: 5 });
    assert_eq!(open, Run { remaining: 4, step_samples: 5, dim: 2, splits: 8 });
}

#[test]
fn unmet_tolerance_ends_by_exhaustion() {
    for max_samples in [1usize, 2, 99, 100, 101, 1000, 1001] {
        for step_samples in [1usize, 3, 100, 5000] {
            let config = BspMonteCarlo { step_samples, max_samples };
            let (mut run, root) = config.begin(4);
            let budget = run.remaining;
            let mut spent = 0;
            let mut splits = 0;
            loop {
                match run.next(false) {
                    Outcome::Split { axis, samples } => {
                        assert_eq!(axis, splits % 4);
                        assert!(samples >= 1 && samples <= step_samples);
                        spent += samples;
                        splits += 1;
                    }
                    outcome => {
                        assert_eq!(outcome, Outcome::BudgetExhausted);
                        break;
                    }
                }
            }
            assert_eq!(spent, budget);
            assert_eq!(root + spent, max_samples);
            assert_eq!(splits, (budget + step_samples - 1) / step_samples);
        }
    }
}
