//! Properties of the difficulty adjustment that hold across inputs.
use vstd::arithmetic::div_mod::{
    lemma_div_by_multiple, lemma_div_is_ordered, lemma_div_is_ordered_by_denominator,
    lemma_div_multiples_vanish_quotient, lemma_div_pos_is_pos, lemma_fundamental_div_mod,
};
use vstd::prelude::*;
use vstd::relations::sorted_by;
use vstd::seq_lib::{group_to_multiset_ensures, lemma_sorted_unique};

use crate::config::Config;
use crate::simulation::{SimModel, WINDOW_SIZE};

use crate::digishield::{
    actual_timespan, adjustment_defined, adjustment_spec, ascending, block_step, bounded_timespan, damped_timespan,
    digishield_defined, digishield_spec, in_fork_window, increasing_tail, inverse_sum,
    lemma_ascending_total, max_int, max_timespan, mean_defined, mean_spec, median_spec,
    min_timespan, newer_median, older_median, target_timespan, trunc_div, wrap_i64,
    DIFFICULTY_SCALE, POW_ADJUSTMENT_BLOCK_SPAN, POW_AVERAGING_WINDOW, POW_MEDIAN_BLOCK_SPAN,
};

verus! {

/// The median depends only on which values occur and how often, not on their order.
pub proof fn lemma_median_ignores_order(s1: Seq<u64>, s2: Seq<u64>)
    requires
        s1.to_multiset() == s2.to_multiset(),
    ensures
        median_spec(s1) == median_spec(s2),
{
    lemma_ascending_total();
    s1.lemma_sort_by_ensures(ascending());
    s2.lemma_sort_by_ensures(ascending());
    lemma_sorted_unique(s1.sort_by(ascending()), s2.sort_by(ascending()), ascending());
    s1.to_multiset_ensures();
    s2.to_multiset_ensures();
}

proof fn lemma_trunc_div_nonneg(a: int, b: int)
    requires
        0 <= a,
        0 < b,
    ensures
        trunc_div(a, b) == a / b,
        0 <= trunc_div(a, b),
{
    lemma_div_pos_is_pos(a, b);
}

/// Division by a positive constant rounded toward zero is monotone.
proof fn lemma_trunc_div_monotone(x: int, y: int, d: int)
    requires
        x <= y,
        0 < d,
    ensures
        trunc_div(x, d) <= trunc_div(y, d),
{
    if 0 <= x {
        lemma_div_is_ordered(x, y, d);
    } else if y < 0 {
        lemma_div_is_ordered(-y, -x, d);
    } else {
        lemma_div_pos_is_pos(-x, d);
        lemma_div_pos_is_pos(y, d);
    }
}

/// For a non-negative target, the least accepted timespan is at most the greatest.
proof fn lemma_min_le_max(target: int)
    requires
        0 <= target,
    ensures
        0 <= min_timespan(target) <= max_timespan(target),
{
    lemma_trunc_div_nonneg(target * 84, 100);
    lemma_trunc_div_nonneg(target * 132, 100);
    lemma_div_is_ordered(target * 84, target * 132, 100);
}

/// The timespan that the adjustment divides by always lies between the least and the
/// greatest accepted timespan, whatever the measured timespan.
pub proof fn lemma_timespan_clamped(actual: int, t: u64)
    requires
        t <= i64::MAX,
    ensures
        min_timespan(target_timespan(t)) <= bounded_timespan(actual, target_timespan(t))
            <= max_timespan(target_timespan(t)),
{
    lemma_min_le_max(target_timespan(t));
}

/// A longer measured timespan never gives a shorter bounded timespan.
proof fn lemma_bounded_monotone(a1: int, a2: int, target: int)
    requires
        a1 <= a2,
        0 <= target,
    ensures
        bounded_timespan(a1, target) <= bounded_timespan(a2, target),
{
    lemma_trunc_div_monotone(a1 - target, a2 - target, 4);
    lemma_min_le_max(target);
}

/// With a positive target, the bounded timespan is positive.
proof fn lemma_bounded_positive(actual: int, t: u64)
    requires
        1 <= t <= i64::MAX,
    ensures
        14 <= min_timespan(target_timespan(t)) <= bounded_timespan(actual, target_timespan(t)),
{
    let target = target_timespan(t);
    lemma_min_le_max(target);
    lemma_trunc_div_nonneg(target * 84, 100);
    lemma_div_is_ordered(17 * 84int, target * 84, 100);
}

/// Outside the fork window, blocks that took longer never raise the difficulty: with the
/// same cumulative difficulties and target, a window whose medians lie further apart
/// gives a difficulty at most that of one whose medians lie closer together.
pub proof fn lemma_slower_blocks_never_raise_difficulty(
    ts1: Seq<u64>,
    ts2: Seq<u64>,
    cd: Seq<u64>,
    t: u64,
    height: u64,
    fork_height: u64,
    difficulty_guess: u64,
)
    requires
        digishield_defined(ts1, cd, t, height, fork_height),
        digishield_defined(ts2, cd, t, height, fork_height),
        !in_fork_window(height, fork_height),
        1 <= t <= i64::MAX,
        mean_spec(cd) <= i64::MAX,
        actual_timespan(newer_median(ts1), older_median(ts1)) <= actual_timespan(
            newer_median(ts2),
            older_median(ts2),
        ),
    ensures
        digishield_spec(ts1, cd, t, height, fork_height, difficulty_guess) >= digishield_spec(
            ts2,
            cd,
            t,
            height,
            fork_height,
            difficulty_guess,
        ),
{
    let target = target_timespan(t);
    let a1 = actual_timespan(newer_median(ts1), older_median(ts1));
    let a2 = actual_timespan(newer_median(ts2), older_median(ts2));
    let mean = mean_spec(cd) as u64;
    lemma_mean_positive(cd);
    let b1 = bounded_timespan(a1, target);
    let b2 = bounded_timespan(a2, target);
    lemma_bounded_monotone(a1, a2, target);
    lemma_bounded_positive(a1, t);
    lemma_bounded_positive(a2, t);
    let p = wrap_i64(mean) * target;
    assert(0 <= p) by (nonlinear_arith)
        requires
            0 <= wrap_i64(mean),
            0 <= target,
            p == wrap_i64(mean) * target,
    ;
    lemma_trunc_div_nonneg(p, b1);
    lemma_trunc_div_nonneg(p, b2);
    lemma_div_is_ordered_by_denominator(p, b1, b2);
}

/// The mean of a window in which the cumulative difficulty grows is positive and at most
/// `POW_AVERAGING_WINDOW * DIFFICULTY_SCALE`.
proof fn lemma_mean_positive(cd: Seq<u64>)
    requires
        mean_defined(cd),
        cd.len() == POW_ADJUSTMENT_BLOCK_SPAN + 1,
    ensures
        1 <= mean_spec(cd) <= POW_AVERAGING_WINDOW * DIFFICULTY_SCALE,
{
    lemma_inverse_sum_bounded_by(cd, cd.len() as int, 1);
    let s = (POW_AVERAGING_WINDOW * DIFFICULTY_SCALE) as int;
    let inv = inverse_sum(cd, cd.len() as int);
    assert(inv <= s);
    lemma_div_is_ordered_by_denominator(s, inv, s);
    lemma_div_is_ordered_by_denominator(s, 1, inv);
}

/// If every per-block difficulty is at least `d`, each scaled inverse is at most
/// `DIFFICULTY_SCALE / d`.
proof fn lemma_inverse_sum_bounded_by(cd: Seq<u64>, end: int, d: int)
    requires
        increasing_tail(cd),
        end <= cd.len(),
        1 <= d,
        forall|i: int| POW_MEDIAN_BLOCK_SPAN < i < cd.len() ==> #[trigger] block_step(cd, i) >= d,
    ensures
        inverse_sum(cd, end) <= max_int(end - (POW_MEDIAN_BLOCK_SPAN + 1), 0) * (
        DIFFICULTY_SCALE as int / d),
    decreases end,
{
    if end > POW_MEDIAN_BLOCK_SPAN + 1 {
        lemma_inverse_sum_bounded_by(cd, end - 1, d);
        let step = block_step(cd, end - 1);
        assert(step >= d);
        lemma_div_is_ordered_by_denominator(DIFFICULTY_SCALE as int, d, step);
        let q = DIFFICULTY_SCALE as int / d;
        let k = end - (POW_MEDIAN_BLOCK_SPAN + 1);
        assert((k - 1) * q + q == k * q) by (nonlinear_arith);
    }
}


/// Outside the fork window, one adjustment moves the difficulty no further than the
/// bounded timespan allows: at least the mean scaled by the target over the greatest
/// accepted timespan, and at most (or 1) the mean scaled by the target over the least.
pub proof fn lemma_adjustment_limited(
    ts: Seq<u64>,
    cd: Seq<u64>,
    t: u64,
    height: u64,
    fork_height: u64,
    difficulty_guess: u64,
)
    requires
        digishield_defined(ts, cd, t, height, fork_height),
        !in_fork_window(height, fork_height),
        1 <= t <= i64::MAX,
        mean_spec(cd) <= i64::MAX,
    ensures
        mean_spec(cd) * target_timespan(t) / max_timespan(target_timespan(t)) <= digishield_spec(
            ts,
            cd,
            t,
            height,
            fork_height,
            difficulty_guess,
        ),
        digishield_spec(ts, cd, t, height, fork_height, difficulty_guess) <= max_int(
            1,
            mean_spec(cd) * target_timespan(t) / min_timespan(target_timespan(t)),
        ),
{
    let target = target_timespan(t);
    let a = actual_timespan(newer_median(ts), older_median(ts));
    let mean = mean_spec(cd) as u64;
    lemma_mean_positive(cd);
    lemma_timespan_clamped(a, t);
    lemma_bounded_positive(a, t);
    let b = bounded_timespan(a, target);
    let p = wrap_i64(mean) * target;
    assert(0 <= p) by (nonlinear_arith)
        requires
            0 <= wrap_i64(mean),
            0 <= target,
            p == wrap_i64(mean) * target,
    ;
    lemma_trunc_div_nonneg(p, b);
    lemma_div_is_ordered_by_denominator(p, b, max_timespan(target));
    lemma_div_is_ordered_by_denominator(p, min_timespan(target), b);
}

/// Outside the fork window, blocks that arrived exactly on target keep the difficulty at
/// the mean difficulty of the window.
pub proof fn lemma_on_target_keeps_mean(
    ts: Seq<u64>,
    cd: Seq<u64>,
    t: u64,
    height: u64,
    fork_height: u64,
    difficulty_guess: u64,
)
    requires
        digishield_defined(ts, cd, t, height, fork_height),
        !in_fork_window(height, fork_height),
        1 <= t <= i64::MAX,
        mean_spec(cd) <= i64::MAX,
        actual_timespan(newer_median(ts), older_median(ts)) == target_timespan(t),
    ensures
        digishield_spec(ts, cd, t, height, fork_height, difficulty_guess) == mean_spec(cd),
{
    let target = target_timespan(t);
    let mean = mean_spec(cd) as u64;
    lemma_mean_positive(cd);
    assert(damped_timespan(target, target) == target);
    lemma_trunc_div_nonneg(target * 84, 100);
    lemma_trunc_div_nonneg(target * 132, 100);
    lemma_div_is_ordered(target * 84, target * 100, 100);
    lemma_div_is_ordered(target * 100, target * 132, 100);
    lemma_div_by_multiple(target, 100);
    assert(bounded_timespan(target, target) == target);
    lemma_trunc_div_nonneg(wrap_i64(mean) * target, target);
    lemma_div_by_multiple(wrap_i64(mean), target);
}

/// In a full window, the harmonic mean is at least any lower bound `d` of the
/// per-block difficulties.
pub proof fn lemma_mean_at_least_lower_bound(cd: Seq<u64>, d: int)
    requires
        mean_defined(cd),
        cd.len() == POW_ADJUSTMENT_BLOCK_SPAN + 1,
        1 <= d,
        forall|i: int| POW_MEDIAN_BLOCK_SPAN < i < cd.len() ==> #[trigger] block_step(cd, i) >= d,
    ensures
        mean_spec(cd) >= d,
{
    let s = DIFFICULTY_SCALE as int;
    let q = s / d;
    let inv = inverse_sum(cd, cd.len() as int);
    lemma_inverse_sum_bounded_by(cd, cd.len() as int, d);
    assert(inv <= 17 * q);
    assert(1 <= q);
    lemma_div_is_ordered_by_denominator(17 * s, inv, 17 * q);
    lemma_div_multiples_vanish_quotient(17, s, q);
    lemma_fundamental_div_mod(s, d);
    assert(d * q <= s) by {
        assert(0 <= s % d);
    }
    lemma_div_is_ordered(d * q, s, q);
    assert((d * q) / q == d) by {
        lemma_div_by_multiple(d, q);
        assert(d * q == q * d) by (nonlinear_arith);
    }
}

/// Summing `k` equal scaled inverses gives `k` times the inverse.
proof fn lemma_inverse_sum_steady(cd: Seq<u64>, end: int, d: int)
    requires
        end <= cd.len(),
        1 <= d,
        forall|i: int| POW_MEDIAN_BLOCK_SPAN < i < cd.len() ==> #[trigger] block_step(cd, i) == d,
    ensures
        inverse_sum(cd, end) == max_int(end - (POW_MEDIAN_BLOCK_SPAN + 1), 0) * (
        DIFFICULTY_SCALE as int / d),
    decreases end,
{
    if end > POW_MEDIAN_BLOCK_SPAN + 1 {
        lemma_inverse_sum_steady(cd, end - 1, d);
        assert(block_step(cd, end - 1) == d);
        let q = DIFFICULTY_SCALE as int / d;
        let k = end - (POW_MEDIAN_BLOCK_SPAN + 1);
        assert(inverse_sum(cd, end) == inverse_sum(cd, end - 1) + q);
        assert(inverse_sum(cd, end - 1) == (k - 1) * q);
        assert((k - 1) * q + q == k * q) by (nonlinear_arith);
    } else {
        assert(0 * (DIFFICULTY_SCALE as int / d) == 0);
    }
}

/// A full window in which every block has the same difficulty `d`, a divisor of the
/// scale, has mean difficulty `d`.
pub proof fn lemma_steady_difficulty_is_its_own_mean(cd: Seq<u64>, d: int)
    requires
        cd.len() == POW_ADJUSTMENT_BLOCK_SPAN + 1,
        1 <= d,
        DIFFICULTY_SCALE as int % d == 0,
        forall|i: int| POW_MEDIAN_BLOCK_SPAN < i < cd.len() ==> #[trigger] block_step(cd, i) == d,
    ensures
        mean_defined(cd),
        mean_spec(cd) == d,
{
    let s = DIFFICULTY_SCALE as int;
    let q = s / d;
    lemma_inverse_sum_steady(cd, cd.len() as int, d);
    lemma_fundamental_div_mod(s, d);
    assert(s == d * q);
    assert(1 <= q) by (nonlinear_arith)
        requires
            s == d * q,
            1 <= d,
            s > 0,
    ;
    assert(q <= s) by (nonlinear_arith)
        requires
            s == d * q,
            1 <= d,
            1 <= q,
    ;
    lemma_div_multiples_vanish_quotient(17, s, q);
    assert(s / q == d) by {
        lemma_div_by_multiple(d, q);
        assert(d * q == q * d) by (nonlinear_arith);
    }
}


/// Before the transition block the next difficulty does not read the new target: two
/// scenarios that differ only in `t` give the same next difficulty.
pub proof fn lemma_next_difficulty_ignores_new_target(m: SimModel, config: &Config, config2: &Config)
    requires
        config2.attack_mode == config.attack_mode,
        config2.fork_height == config.fork_height,
        config2.baseline_d == config.baseline_d,
        m.solvetimes.len() < config.transition_block(),
    ensures
        m.next_difficulty(config) == m.next_difficulty(config2),
{
    assert(m.effective_t(config) == m.effective_t(config2));
}

proof fn lemma_run_length(m: SimModel, config: &Config, draw: spec_fn(nat, u64) -> u64, n: nat)
    ensures
        m.run(config, draw, n) matches Some(r) ==> r.solvetimes.len() == m.solvetimes.len() + n,
    decreases n,
{
    if n > 0 {
        lemma_run_length(m, config, draw, (n - 1) as nat);
    }
}

/// Up to the transition block a whole run does not read the new target: two scenarios
/// that differ only in `t`, fed the same solvetime draws, reach the same state.
pub proof fn lemma_run_ignores_new_target(
    m: SimModel,
    config: &Config,
    config2: &Config,
    draw: spec_fn(nat, u64) -> u64,
    n: nat,
)
    requires
        config2.attack_mode == config.attack_mode,
        config2.fork_height == config.fork_height,
        config2.baseline_d == config.baseline_d,
        m.solvetimes.len() + n <= config.transition_block(),
    ensures
        m.run(config, draw, n) == m.run(config2, draw, n),
    decreases n,
{
    if n > 0 {
        lemma_run_ignores_new_target(m, config, config2, draw, (n - 1) as nat);
        lemma_run_length(m, config, draw, (n - 1) as nat);
        if let Some(r) = m.run(config, draw, (n - 1) as nat) {
            lemma_next_difficulty_ignores_new_target(r, config, config2);
        }
    }
}


/// Every entry of `s` moved by `c`.
pub open spec fn shifted(s: Seq<u64>, c: int) -> Seq<u64> {
    s.map_values(|x: u64| (x + c) as u64)
}

/// Mapping two sequences with the same entries gives two sequences with the same entries.
proof fn lemma_shifted_same_entries(a: Seq<u64>, b: Seq<u64>, c: int)
    requires
        a.to_multiset() == b.to_multiset(),
    ensures
        shifted(a, c).to_multiset() == shifted(b, c).to_multiset(),
    decreases a.len(),
{
    broadcast use group_to_multiset_ensures;
    broadcast use vstd::multiset::group_multiset_axioms;

    if a.len() == 0 {
        assert(a.to_multiset().len() == 0);
        assert(b.to_multiset().len() == b.len());
        assert(b.len() == 0);
        assert(shifted(a, c) =~= Seq::<u64>::empty());
        assert(shifted(b, c) =~= Seq::<u64>::empty());
    } else {
        let x = a[0];
        assert(a.to_multiset().contains(x));
        assert(b.contains(x));
        let i = choose|i: int| 0 <= i < b.len() && b[i] == x;
        let a1 = a.remove(0);
        let b1 = b.remove(i);
        assert(a1.to_multiset() == b1.to_multiset());
        lemma_shifted_same_entries(a1, b1, c);
        let fa = shifted(a, c);
        let fb = shifted(b, c);
        assert(shifted(a1, c) =~= fa.remove(0));
        assert(shifted(b1, c) =~= fb.remove(i));
        assert(fa.to_multiset().contains(fa[0]));
        assert(fb.to_multiset().contains(fb[i]));
        assert(fa.to_multiset() =~= fa.to_multiset().remove(fa[0]).insert(fa[0]));
        assert(fb.to_multiset() =~= fb.to_multiset().remove(fb[i]).insert(fb[i]));
    }
}

/// Moving every entry by `c`, without leaving `u64`, moves the median by `c`.
proof fn lemma_median_shift(s: Seq<u64>, c: int)
    requires
        s.len() > 0,
        forall|i: int| 0 <= i < s.len() ==> 0 <= #[trigger] s[i] + c <= u64::MAX,
    ensures
        median_spec(shifted(s, c)) == median_spec(s) + c,
{
    broadcast use group_to_multiset_ensures;

    lemma_ascending_total();
    let r = s.sort_by(ascending());
    s.lemma_sort_by_ensures(ascending());
    assert(r.len() == s.len()) by {
        assert(r.to_multiset().len() == s.to_multiset().len());
    }
    assert forall|i: int| 0 <= i < r.len() implies 0 <= #[trigger] r[i] + c <= u64::MAX by {
        assert(r.contains(r[i]));
        assert(r.to_multiset().contains(r[i]));
        assert(s.contains(r[i]));
    }
    let r2 = shifted(r, c);
    assert(sorted_by(r2, ascending())) by {
        assert forall|i: int, j: int| 0 <= i < j < r2.len() implies #[trigger] (ascending())(
            r2[i],
            r2[j],
        ) by {
            assert((ascending())(r[i], r[j]));
            assert(r[i] + c <= u64::MAX && r[j] + c <= u64::MAX);
        }
    }
    lemma_shifted_same_entries(r, s, c);
    let s2 = shifted(s, c);
    s2.lemma_sort_by_ensures(ascending());
    lemma_sorted_unique(r2, s2.sort_by(ascending()), ascending());
    assert(r2[(s.len() / 2) as int] == r[(s.len() / 2) as int] + c);
}

/// Shifting the cumulative difficulties from index `POW_MEDIAN_BLOCK_SPAN` on by one
/// constant leaves every scaled inverse unchanged.
proof fn lemma_inverse_sum_shift(cd: Seq<u64>, cd2: Seq<u64>, k: int, end: int)
    requires
        end <= cd.len(),
        end <= cd2.len(),
        forall|i: int| POW_MEDIAN_BLOCK_SPAN <= i < end ==> #[trigger] cd2[i] == cd[i] + k,
    ensures
        inverse_sum(cd2, end) == inverse_sum(cd, end),
    decreases end,
{
    if end > POW_MEDIAN_BLOCK_SPAN + 1 {
        lemma_inverse_sum_shift(cd, cd2, k, end - 1);
        assert(cd2[end - 1] == cd[end - 1] + k);
        assert(cd2[end - 2] == cd[end - 2] + k);
        assert(block_step(cd2, end - 1) == block_step(cd, end - 1));
    }
}

/// The difficulty reads only the gap between the two medians and the last
/// `POW_AVERAGING_WINDOW` difficulty increments: reordering each median span within
/// itself and moving all its timestamps by one constant `c`, changing the other
/// timestamps at will, and shifting the cumulative difficulties from index
/// `POW_MEDIAN_BLOCK_SPAN` on by one constant `k`, leave the difficulty unchanged.
pub proof fn lemma_difficulty_reads_only_median_gap_and_increments(
    ts: Seq<u64>,
    cd: Seq<u64>,
    ts2: Seq<u64>,
    cd2: Seq<u64>,
    c: int,
    k: int,
    t: u64,
    height: u64,
    fork_height: u64,
    difficulty_guess: u64,
)
    requires
        digishield_defined(ts, cd, t, height, fork_height),
        digishield_defined(ts2, cd2, t, height, fork_height),
        ts.len() == POW_ADJUSTMENT_BLOCK_SPAN + 1,
        ts2.len() == POW_ADJUSTMENT_BLOCK_SPAN + 1,
        forall|i: int|
            1 <= i < POW_MEDIAN_BLOCK_SPAN + 1 || POW_AVERAGING_WINDOW + 1 <= i < ts.len() ==> 0
                <= #[trigger] ts[i] + c <= u64::MAX,
        ts2.subrange(1, POW_MEDIAN_BLOCK_SPAN + 1).to_multiset() == shifted(
            ts.subrange(1, POW_MEDIAN_BLOCK_SPAN + 1),
            c,
        ).to_multiset(),
        ts2.subrange(POW_AVERAGING_WINDOW + 1, ts2.len() as int).to_multiset() == shifted(
            ts.subrange(POW_AVERAGING_WINDOW + 1, ts.len() as int),
            c,
        ).to_multiset(),
        forall|i: int| POW_MEDIAN_BLOCK_SPAN <= i < cd.len() ==> #[trigger] cd2[i] == cd[i] + k,
    ensures
        digishield_spec(ts2, cd2, t, height, fork_height, difficulty_guess) == digishield_spec(
            ts,
            cd,
            t,
            height,
            fork_height,
            difficulty_guess,
        ),
{
    if !in_fork_window(height, fork_height) {
        let old1 = ts.subrange(1, POW_MEDIAN_BLOCK_SPAN + 1);
        let new1 = ts.subrange(POW_AVERAGING_WINDOW + 1, ts.len() as int);
        let old2 = ts2.subrange(1, POW_MEDIAN_BLOCK_SPAN + 1);
        let new2 = ts2.subrange(POW_AVERAGING_WINDOW + 1, ts2.len() as int);
        assert forall|i: int| 0 <= i < old1.len() implies 0 <= #[trigger] old1[i] + c <= u64::MAX by {
            assert(old1[i] == ts[i + 1]);
        }
        assert forall|i: int| 0 <= i < new1.len() implies 0 <= #[trigger] new1[i] + c <= u64::MAX by {
            assert(new1[i] == ts[i + POW_AVERAGING_WINDOW + 1]);
        }
        lemma_median_shift(old1, c);
        lemma_median_shift(new1, c);
        lemma_median_ignores_order(old2, shifted(old1, c));
        lemma_median_ignores_order(new2, shifted(new1, c));
        let a1 = actual_timespan(newer_median(ts), older_median(ts));
        let a2 = actual_timespan(newer_median(ts2), older_median(ts2));
        assert(a1 == a2);
        lemma_inverse_sum_shift(cd, cd2, k, cd.len() as int);
        assert(mean_spec(cd2) == mean_spec(cd));
    }
}


/// The next difficulty of a simulation is read at height `fork_height + blocks done`,
/// whatever the transition block: for the first `POW_ADJUSTMENT_BLOCK_SPAN + 2` blocks
/// (heights `fork_height` through `fork_height + POW_ADJUSTMENT_BLOCK_SPAN + 1`) it is the
/// guess `baseline_d`; from then on it is never the guess but the adjustment of the
/// window's mean difficulty by its median timespan, at target `old_t` before the
/// transition block and `t` from it on; and `None` where the height overflows.
pub proof fn lemma_next_difficulty_by_height(m: SimModel, config: &Config)
    requires
        m.wf(),
    ensures
        config.fork_height + m.solvetimes.len() > u64::MAX ==> m.next_difficulty(config) is None,
        config.fork_height + POW_ADJUSTMENT_BLOCK_SPAN + 1 <= u64::MAX && m.solvetimes.len()
            <= POW_ADJUSTMENT_BLOCK_SPAN + 1 ==> m.next_difficulty(config) == Some(
            config.baseline_d,
        ),
        config.fork_height + m.solvetimes.len() <= u64::MAX && m.solvetimes.len()
            > POW_ADJUSTMENT_BLOCK_SPAN + 1 ==> m.next_difficulty(config) == ({
            let target: u64 = if m.solvetimes.len() < config.transition_block() {
                config.old_t()
            } else {
                config.t
            };
            let ts = m.timestamps;
            let cd = m.cumulative_difficulties;
            if mean_defined(cd) && adjustment_defined(
                mean_spec(cd) as u64,
                actual_timespan(newer_median(ts), older_median(ts)),
                target_timespan(target),
            ) {
                Some(
                    adjustment_spec(mean_spec(cd) as u64, newer_median(ts), older_median(ts), target),
                )
            } else {
                None::<u64>
            }
        }),
{
}


/// The guess is returned exactly at the heights `fork_height` through
/// `fork_height + POW_ADJUSTMENT_BLOCK_SPAN + 1`; at every other height the difficulty is
/// at least 1 and is the window's mean difficulty adjusted by the gap between the median
/// of the newest `POW_MEDIAN_BLOCK_SPAN` timestamps and the median of those after the
/// oldest one.
pub proof fn lemma_guess_only_in_fork_window(
    ts: Seq<u64>,
    cd: Seq<u64>,
    t: u64,
    height: u64,
    fork_height: u64,
    difficulty_guess: u64,
)
    requires
        digishield_defined(ts, cd, t, height, fork_height),
    ensures
        fork_height <= height <= fork_height + POW_ADJUSTMENT_BLOCK_SPAN + 1 ==> digishield_spec(
            ts,
            cd,
            t,
            height,
            fork_height,
            difficulty_guess,
        ) == difficulty_guess,
        !(fork_height <= height <= fork_height + POW_ADJUSTMENT_BLOCK_SPAN + 1) ==> {
            &&& digishield_spec(ts, cd, t, height, fork_height, difficulty_guess)
                == adjustment_spec(
                mean_spec(cd) as u64,
                median_spec(ts.subrange(POW_AVERAGING_WINDOW + 1, ts.len() as int)),
                median_spec(ts.subrange(1, POW_MEDIAN_BLOCK_SPAN + 1)),
                t,
            )
            &&& digishield_spec(ts, cd, t, height, fork_height, difficulty_guess) >= 1
        },
{
}

/// Recording a block: it fails exactly where the new cumulative difficulty or timestamp
/// would overflow; otherwise its solvetime is the simulated one raised to at least 1
/// second, both windows keep `WINDOW_SIZE` entries, drop their oldest entry and end with
/// the newest one plus the difficulty or the solvetime, and the state stays well formed.
pub proof fn lemma_record_block_effect(m: SimModel, next_d: u64, simulated_st: u64)
    requires
        m.wf(),
    ensures
        ({
            let st: u64 = if simulated_st >= 1 {
                simulated_st
            } else {
                1
            };
            let n = m.after_block(next_d, simulated_st);
            &&& m.can_record(next_d, simulated_st) <==> (m.cumulative_difficulties[WINDOW_SIZE
                - 1] + next_d <= u64::MAX && m.timestamps[WINDOW_SIZE - 1] + st <= u64::MAX)
            &&& n.solvetimes.len() == m.solvetimes.len() + 1
            &&& n.solvetimes.last() == st
            &&& n.difficulties.last() == next_d
            &&& forall|i: int| 0 <= i < m.solvetimes.len() ==> n.solvetimes[i] == m.solvetimes[i]
                && n.difficulties[i] == m.difficulties[i]
            &&& n.timestamps.len() == WINDOW_SIZE
            &&& n.cumulative_difficulties.len() == WINDOW_SIZE
            &&& forall|i: int|
                0 <= i < WINDOW_SIZE - 1 ==> n.timestamps[i] == m.timestamps[i + 1]
                    && n.cumulative_difficulties[i] == m.cumulative_difficulties[i + 1]
            &&& m.can_record(next_d, simulated_st) ==> {
                &&& n.timestamps[WINDOW_SIZE - 1] == m.timestamps[WINDOW_SIZE - 1] + st
                &&& n.cumulative_difficulties[WINDOW_SIZE - 1] == m.cumulative_difficulties[
                WINDOW_SIZE - 1] + next_d
                &&& n.wf()
            }
        }),
{
    let st: u64 = if simulated_st >= 1 {
        simulated_st
    } else {
        1
    };
    let n = m.after_block(next_d, simulated_st);
    if m.can_record(next_d, simulated_st) {
        assert forall|a: int, b: int| 0 <= a <= b < n.timestamps.len() implies n.timestamps[a]
            <= n.timestamps[b] by {
            if a < WINDOW_SIZE - 1 {
                assert(m.timestamps[a + 1] <= m.timestamps[WINDOW_SIZE - 1]);
                if b < WINDOW_SIZE - 1 {
                    assert(m.timestamps[a + 1] <= m.timestamps[b + 1]);
                }
            }
        }
        assert forall|a: int, b: int| 0 <= a <= b < n.cumulative_difficulties.len() implies n.cumulative_difficulties[a]
            <= n.cumulative_difficulties[b] by {
            if a < WINDOW_SIZE - 1 {
                assert(m.cumulative_difficulties[a + 1] <= m.cumulative_difficulties[WINDOW_SIZE
                    - 1]);
                if b < WINDOW_SIZE - 1 {
                    assert(m.cumulative_difficulties[a + 1] <= m.cumulative_difficulties[b + 1]);
                }
            }
        }
    }
}


/// For medians and a target that read the same as `i64`, and a mean difficulty that does
/// too, the adjustment is: the measured timespan `A = newer - older` against the target
/// `T = 17 * t`, its deviation divided by 4 (rounded toward zero) and added to `T`,
/// clamped to `[T * 84 / 100, T * 132 / 100]`, and the mean scaled by `T` over that
/// timespan, rounded down and at least 1.
pub proof fn lemma_adjustment_formula(mean: u64, newer: u64, older: u64, t: u64)
    requires
        adjustment_defined(
            mean,
            actual_timespan(newer, older),
            target_timespan(t),
        ),
        newer <= i64::MAX,
        older <= i64::MAX,
        mean <= i64::MAX,
        1 <= t <= i64::MAX,
    ensures
        ({
            let a = newer - older;
            let target = 17 * t;
            let damped = if a >= target {
                target + (a - target) / 4
            } else {
                target - (target - a) / 4
            };
            let lo = target * 84 / 100;
            let hi = target * 132 / 100;
            let bounded = if damped < lo {
                lo
            } else if damped > hi {
                hi
            } else {
                damped
            };
            let d = mean * target / bounded;
            adjustment_spec(mean, newer, older, t) == if d >= 1 {
                d
            } else {
                1
            }
        }),
{
    let target = target_timespan(t);
    let a = actual_timespan(newer, older);
    lemma_min_le_max(target);
    lemma_trunc_div_nonneg(target * 84, 100);
    lemma_trunc_div_nonneg(target * 132, 100);
    lemma_bounded_positive(a, t);
    if a >= target {
        lemma_trunc_div_nonneg(a - target, 4);
    } else {
        lemma_trunc_div_nonneg(target - a, 4);
    }
    let b = bounded_timespan(a, target);
    let p = wrap_i64(mean) * target;
    assert(0 <= p) by (nonlinear_arith)
        requires
            0 <= wrap_i64(mean),
            0 <= target,
            p == wrap_i64(mean) * target,
    ;
    lemma_trunc_div_nonneg(p, b);
}

} // verus!
