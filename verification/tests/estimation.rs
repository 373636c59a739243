use bsp_monte_carlo::estimator::{halve, BspMonteCarlo, Outcome};
use bsp_monte_carlo::tree::{BspTree, Tally};
use rand::rngs::StdRng;
use rand::{Rng, SeedableRng};

struct Values {
    est: f64,
    var: f64,
    iest: f64,
    ivar: f64,
    lower: Vec<f64>,
    upper: Vec<f64>,
}

fn draw(
    inside: &dyn Fn(&[f64]) -> bool,
    lower: &[f64],
    upper: &[f64],
    samples: usize,
    rng: &mut StdRng,
) -> (usize, Values) {
    let mut hits = 0;
    for _ in 0..samples {
        let point: Vec<f64> = (0..lower.len()).map(|i| rng.gen_range(lower[i]..upper[i])).collect();
        if inside(&point) {
            hits += 1;
        }
    }
    let p = hits as f64 / samples as f64;
    let volume: f64 = (0..lower.len()).map(|i| upper[i] - lower[i]).product();
    let est = p * volume;
    let var = p * (1.0 - p) * volume * volume / samples as f64;
    (hits, Values { est, var, iest: est, ivar: var, lower: lower.to_vec(), upper: upper.to_vec() })
}

struct Report {
    estimate: f64,
    half_width: f64,
    outcome: Outcome,
    axes: Vec<usize>,
    cells: usize,
    drawn: usize,
}

fn estimate(
    config: BspMonteCarlo,
    tolerance: f64,
    inside: &dyn Fn(&[f64]) -> bool,
    lower: &[f64],
    upper: &[f64],
    seed: u64,
) -> Report {
    let mut rng = StdRng::seed_from_u64(seed);
    let (mut run, root_samples) = config.begin(lower.len());
    let (hits, root) = draw(inside, lower, upper, root_samples, &mut rng);
    let mut tree =
        BspTree::new(lower.len(), Tally { hits, samples: root_samples, key: root.ivar.to_bits() });
    let mut values = vec![root];
    let mut axes = Vec::new();
    let mut drawn = root_samples;
    let outcome = loop {
        let half_width = values[0].ivar.sqrt() * 1.96;
        match run.next(half_width <= tolerance * values[0].iest) {
            Outcome::Split { axis, samples } => {
                axes.push(axis);
                drawn += samples;
                let path = tree.descend();
                let leaf = *path.last().unwrap();
                let (first, second) = halve(samples);
                let mid = (values[leaf].lower[axis] + values[leaf].upper[axis]) / 2.0;
                let mut upper_a = values[leaf].upper.clone();
                let mut lower_b = values[leaf].lower.clone();
                upper_a[axis] = mid;
                lower_b[axis] = mid;
                let (hits_a, a) = draw(inside, &values[leaf].lower, &upper_a, first, &mut rng);
                let (hits_b, b) = draw(inside, &lower_b, &values[leaf].upper, second, &mut rng);
                let refined = tree.refine(
                    axis,
                    Tally { hits: hits_a, samples: first, key: a.ivar.to_bits() },
                    Tally { hits: hits_b, samples: second, key: b.ivar.to_bits() },
                );
                assert_eq!(refined, path);
                values.push(a);
                values.push(b);
                for &node in path.iter().rev() {
                    let (first, second) = tree.cell(node).children.unwrap();
                    let before = values[node].ivar;
                    let children_est = values[first].iest + values[second].iest;
                    let children_var = values[first].ivar + values[second].ivar;
                    let alpha = values[node].var / (values[node].var + children_var);
                    values[node].iest = (1.0 - alpha) * values[node].est + alpha * children_est;
                    values[node].ivar = (1.0 - alpha) * (1.0 - alpha) * values[node].var
                        + alpha * alpha * children_var;
                    assert!(values[node].ivar >= 0.0);
                    assert!(values[node].ivar <= before * (1.0 + 1e-12));
                    tree.set_key(node, values[node].ivar.to_bits());
                }
            }
            outcome => break outcome,
        }
    };
    Report {
        estimate: values[0].iest,
        half_width: values[0].ivar.sqrt() * 1.96,
        outcome,
        axes,
        cells: tree.len(),
        drawn,
    }
}

#[test]
fn unit_interval_is_measured_by_the_first_batch() {
    let config = BspMonteCarlo { step_samples: 100, max_samples: 1_000_000 };
    let report = estimate(config, 0.01, &|_| true, &[0.0], &[1.0], 1);
    assert_eq!(report.estimate, 1.0);
    assert_eq!(report.half_width, 0.0);
    assert_eq!(report.outcome, Outcome::Converged);
    assert_eq!(report.cells, 1);
    assert_eq!(report.drawn, 100);
}

#[test]
fn whole_box_is_measured_exactly() {
    let config = BspMonteCarlo { step_samples: 50, max_samples: 1000 };
    let report = estimate(config, 0.01, &|_| true, &[-1.0, 2.0, 0.0], &[3.0, 2.5, 10.0], 2);
    assert_eq!(report.estimate, 20.0);
    assert_eq!(report.half_width, 0.0);
    assert_eq!(report.outcome, Outcome::Converged);
}

#[test]
fn empty_region_is_measured_as_nothing() {
    let config = BspMonteCarlo { step_samples: 50, max_samples: 1000 };
    let report = estimate(config, 0.01, &|_| false, &[0.0, 0.0], &[1.0, 1.0], 3);
    assert_eq!(report.estimate, 0.0);
    assert_eq!(report.half_width, 0.0);
    assert_eq!(report.outcome, Outcome::Converged);
}

#[test]
fn disc_area_is_within_the_interval() {
    let config = BspMonteCarlo { step_samples: 1000, max_samples: 200_000 };
    let inside = |p: &[f64]| p[0] * p[0] + p[1] * p[1] <= 1.0;
    let report = estimate(config, 0.01, &inside, &[-1.1, -1.1], &[1.1, 1.1], 4);
    assert!(report.half_width > 0.0);
    assert!((report.estimate - std::f64::consts::PI).abs() <= 3.0 * report.half_width);
    assert!((report.estimate - std::f64::consts::PI).abs() < 0.1);
    for (k, axis) in report.axes.iter().enumerate() {
        assert_eq!(*axis, k % 2);
    }
    assert_eq!(report.cells, 1 + 2 * report.axes.len());
    assert!(report.drawn <= 200_000);
}

#[test]
fn zero_tolerance_spends_the_whole_budget() {
    let config = BspMonteCarlo { step_samples: 100, max_samples: 5_050 };
    let inside = |p: &[f64]| p[0] + p[1] + p[2] <= 1.0;
    let report = estimate(config, 0.0, &inside, &[0.0, 0.0, 0.0], &[1.0, 1.0, 1.0], 5);
    assert_eq!(report.outcome, Outcome::BudgetExhausted);
    assert_eq!(report.drawn, 5_050);
    assert_eq!(report.axes.len(), 50);
    assert_eq!(report.cells, 101);
    assert!((report.estimate - 1.0 / 6.0).abs() < 0.05);
}
