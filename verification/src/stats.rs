//! The statistics of a cell in exact arithmetic.
//!
//! A cell of volume `V` in which `hits` of `samples` uniform points fell into
//! the region estimates the region's share of it as `p * V`, with `p` the hit
//! rate, and the variance of that estimate as `p * (1 - p) * V^2 / samples`.
//! A cell with children combines its own estimate with the sum of theirs,
//! each weighted by the other's variance. The functions here say what these
//! values are over the reals; the lemmas are the facts that the refinement of
//! a tree relies on.

use vstd::prelude::*;

verus! {

/// Share of the samples that fell into the region.
pub open spec fn hit_rate(hits: nat, samples: nat) -> real {
    hits as real / samples as real
}

/// Estimate of the region's volume inside a cell of the given volume.
pub open spec fn leaf_estimate(hits: nat, samples: nat, volume: real) -> real {
    hit_rate(hits, samples) * volume
}

/// Variance of `leaf_estimate`: that of a binomial proportion, in units of
/// volume squared.
pub open spec fn leaf_variance(hits: nat, samples: nat, volume: real) -> real {
    let p = hit_rate(hits, samples);
    p * (1 as real - p) * (volume * volume) / samples as real
}

/// Weight of the children's sum in the combination: the noisier the cell's
/// own estimate, the more the children count.
pub open spec fn weight(own_var: real, children_var: real) -> real {
    own_var / (own_var + children_var)
}

/// A cell's own estimate combined with the sum of its children's.
pub open spec fn combined_estimate(
    own_est: real,
    own_var: real,
    children_est: real,
    children_var: real,
) -> real {
    let alpha = weight(own_var, children_var);
    (1 as real - alpha) * own_est + alpha * children_est
}

/// Variance of `combined_estimate`.
pub open spec fn combined_variance(own_var: real, children_var: real) -> real {
    let alpha = weight(own_var, children_var);
    (1 as real - alpha) * (1 as real - alpha) * own_var + alpha * alpha * children_var
}

/// The hit rate of a batch lies between 0 and 1, and is 0 or 1 only where
/// no point or every point hit.
pub proof fn lemma_hit_rate(hits: nat, samples: nat)
    requires
        0 < samples,
        hits <= samples,
    ensures
        0 as real <= hit_rate(hits, samples) <= 1 as real,
        hit_rate(hits, samples) * samples as real == hits as real,
        hit_rate(hits, samples) == 0 as real <==> hits == 0,
        hit_rate(hits, samples) == 1 as real <==> hits == samples,
{
    let h = hits as real;
    let n = samples as real;
    let p = h / n;
    assert(p * n == h) by (nonlinear_arith)
        requires
            p == h / n,
            n > 0 as real,
    ;
    assert(0 as real <= p <= 1 as real) by (nonlinear_arith)
        requires
            p * n == h,
            0 as real <= h <= n,
            n > 0 as real,
    ;
    assert(p == 0 as real ==> h == 0 as real) by (nonlinear_arith)
        requires
            p * n == h,
    ;
    assert(p == 1 as real ==> h == n) by (nonlinear_arith)
        requires
            p * n == h,
    ;
    assert(h == 0 as real ==> p == 0 as real) by (nonlinear_arith)
        requires
            p * n == h,
            n > 0 as real,
    ;
    assert(h == n ==> p == 1 as real) by (nonlinear_arith)
        requires
            p * n == h,
            n > 0 as real,
    ;
}

/// The variance of a leaf is never negative, whatever the sign of the
/// volume, and the estimate of a box of positive volume lies within it.
pub proof fn lemma_leaf_bounds(hits: nat, samples: nat, volume: real)
    requires
        0 < samples,
        hits <= samples,
    ensures
        leaf_variance(hits, samples, volume) >= 0 as real,
        volume >= 0 as real ==> 0 as real <= leaf_estimate(hits, samples, volume) <= volume,
{
    let n = samples as real;
    let p = hit_rate(hits, samples);
    let q = 1 as real - p;
    let w = volume * volume;
    lemma_hit_rate(hits, samples);
    assert(w >= 0 as real) by (nonlinear_arith)
        requires
            w == volume * volume,
    ;
    let t = p * q * w;
    assert(t >= 0 as real) by (nonlinear_arith)
        requires
            t == p * q * w,
            p >= 0 as real,
            q >= 0 as real,
            w >= 0 as real,
    ;
    let v = t / n;
    assert(v >= 0 as real) by (nonlinear_arith)
        requires
            v == t / n,
            t >= 0 as real,
            n > 0 as real,
    ;
    if volume >= 0 as real {
        assert(0 as real <= p * volume <= volume) by (nonlinear_arith)
            requires
                0 as real <= p <= 1 as real,
                volume >= 0 as real,
        ;
    }
}

/// A batch in which every point hit estimates the cell's whole volume, one
/// in which none hit estimates nothing, and both leave no variance.
pub proof fn lemma_leaf_certain(hits: nat, samples: nat, volume: real)
    requires
        0 < samples,
        hits == 0 || hits == samples,
    ensures
        leaf_variance(hits, samples, volume) == 0 as real,
        hits == samples ==> leaf_estimate(hits, samples, volume) == volume,
        hits == 0 ==> leaf_estimate(hits, samples, volume) == 0 as real,
{
    let n = samples as real;
    let p = hit_rate(hits, samples);
    let q = 1 as real - p;
    let w = volume * volume;
    lemma_hit_rate(hits, samples);
    let t = p * q * w;
    assert(t == 0 as real) by (nonlinear_arith)
        requires
            t == p * q * w,
            p == 0 as real || q == 0 as real,
    ;
    assert(t / n == 0 as real) by (nonlinear_arith)
        requires
            t == 0 as real,
            n > 0 as real,
    ;
    assert(p == 1 as real ==> p * volume == volume) by (nonlinear_arith);
    assert(p == 0 as real ==> p * volume == 0 as real) by (nonlinear_arith);
}

/// Where the two variances are not both zero, the weight is a share: it
/// lies between 0 and 1.
pub proof fn lemma_weight(own_var: real, children_var: real)
    requires
        own_var >= 0 as real,
        children_var >= 0 as real,
        own_var + children_var > 0 as real,
    ensures
        weight(own_var, children_var) * (own_var + children_var) == own_var,
        0 as real <= weight(own_var, children_var) <= 1 as real,
{
    let s = own_var + children_var;
    let a = own_var / s;
    assert(a * s == own_var) by (nonlinear_arith)
        requires
            a == own_var / s,
            s > 0 as real,
    ;
    assert(a >= 0 as real) by (nonlinear_arith)
        requires
            a * s == own_var,
            own_var >= 0 as real,
            s > 0 as real,
    ;
    assert(a <= 1 as real) by (nonlinear_arith)
        requires
            a * s == own_var,
            own_var <= s,
            s > 0 as real,
    ;
}

/// The combination is never less certain than either of its two sources:
/// its variance is at most the cell's own and at most the children's, and
/// never negative. Where the two are not both zero it is their product over
/// their sum.
pub proof fn lemma_combined_variance(own_var: real, children_var: real)
    requires
        own_var >= 0 as real,
        children_var >= 0 as real,
    ensures
        combined_variance(own_var, children_var) * (own_var + children_var) == own_var
            * children_var,
        0 as real <= combined_variance(own_var, children_var) <= own_var,
        combined_variance(own_var, children_var) <= children_var,
        own_var + children_var > 0 as real ==> combined_variance(own_var, children_var) == own_var
            * (1 as real - weight(own_var, children_var)),
{
    let s = own_var + children_var;
    let a = weight(own_var, children_var);
    let b = 1 as real - a;
    let v = combined_variance(own_var, children_var);
    if s > 0 as real {
        lemma_weight(own_var, children_var);
        assert(b * s == children_var) by (nonlinear_arith)
            requires
                a * s == own_var,
                b == 1 as real - a,
                s == own_var + children_var,
        ;
        assert(v == a * b * s) by (nonlinear_arith)
            requires
                v == b * b * own_var + a * a * children_var,
                own_var == a * s,
                children_var == b * s,
                a + b == 1 as real,
        ;
        assert(v * s == own_var * children_var) by (nonlinear_arith)
            requires
                v == a * b * s,
                own_var == a * s,
                children_var == b * s,
        ;
        assert(v == own_var * b) by (nonlinear_arith)
            requires
                v == a * b * s,
                own_var == a * s,
        ;
        assert(0 as real <= a * b * s <= a * s && a * b * s <= b * s) by (nonlinear_arith)
            requires
                0 as real <= a <= 1 as real,
                0 as real <= b <= 1 as real,
                s > 0 as real,
        ;
    } else {
        assert(v == 0 as real) by (nonlinear_arith)
            requires
                v == b * b * own_var + a * a * children_var,
                own_var == 0 as real,
                children_var == 0 as real,
        ;
        assert(v * s == own_var * children_var) by (nonlinear_arith)
            requires
                v == 0 as real,
                own_var == 0 as real,
        ;
    }
}

/// More certain children make a more certain combination.
pub proof fn lemma_combined_variance_monotone(own_var: real, lower: real, upper: real)
    requires
        own_var >= 0 as real,
        0 as real <= lower <= upper,
    ensures
        combined_variance(own_var, lower) <= combined_variance(own_var, upper),
{
    let s1 = own_var + lower;
    let s2 = own_var + upper;
    lemma_combined_variance(own_var, lower);
    lemma_combined_variance(own_var, upper);
    if s1 > 0 as real {
        let a1 = weight(own_var, lower);
        let a2 = weight(own_var, upper);
        lemma_weight(own_var, lower);
        lemma_weight(own_var, upper);
        assert(a2 * s2 >= a2 * s1) by (nonlinear_arith)
            requires
                a2 >= 0 as real,
                s2 >= s1,
        ;
        assert(a1 >= a2) by (nonlinear_arith)
            requires
                a1 * s1 >= a2 * s1,
                s1 > 0 as real,
        ;
        assert(own_var * (1 as real - a1) <= own_var * (1 as real - a2)) by (nonlinear_arith)
            requires
                own_var >= 0 as real,
                a1 >= a2,
        ;
    }
}

/// The combined estimate lies between the cell's own and the children's
/// sum.
pub proof fn lemma_combined_estimate_between(
    own_est: real,
    own_var: real,
    children_est: real,
    children_var: real,
)
    requires
        own_var >= 0 as real,
        children_var >= 0 as real,
        own_var + children_var > 0 as real,
        own_est <= children_est,
    ensures
        own_est <= combined_estimate(own_est, own_var, children_est, children_var) <= children_est,
{
    let a = weight(own_var, children_var);
    lemma_weight(own_var, children_var);
    let e = (1 as real - a) * own_est + a * children_est;
    assert(own_est <= e <= children_est) by (nonlinear_arith)
        requires
            e == (1 as real - a) * own_est + a * children_est,
            0 as real <= a <= 1 as real,
            own_est <= children_est,
    ;
}

/// Two sources that agree combine to what they agree on, whatever their
/// variances.
pub proof fn lemma_combined_estimate_agreeing(est: real, own_var: real, children_var: real)
    ensures
        combined_estimate(est, own_var, est, children_var) == est,
{
    let a = weight(own_var, children_var);
    assert((1 as real - a) * est + a * est == est) by (nonlinear_arith);
}

} // verus!
