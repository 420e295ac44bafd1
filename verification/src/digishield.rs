use vstd::prelude::*;
use vstd::relations::{sorted_by, total_ordering};
use vstd::seq_lib::group_to_multiset_ensures;
use vstd::slice::slice_subrange;

verus! {

/// Number of block intervals averaged by the difficulty adjustment.
pub const POW_AVERAGING_WINDOW: usize = 17;

/// Number of blocks whose median timestamp is taken at each end of the window.
pub const POW_MEDIAN_BLOCK_SPAN: usize = 11;

/// Blocks spanned by one adjustment: the averaging window plus the median span.
pub const POW_ADJUSTMENT_BLOCK_SPAN: usize = POW_AVERAGING_WINDOW + POW_MEDIAN_BLOCK_SPAN;

/// The deviation of the measured timespan from the target is divided by this factor.
pub const POW_DAMPING_FACTOR: i64 = 4;

/// The timespan may shrink to at most this many percent below the target.
pub const POW_MAX_ADJUST_UP_PERCENT: i64 = 16;

/// The timespan may grow to at most this many percent above the target.
pub const POW_MAX_ADJUST_DOWN_PERCENT: i64 = 32;

/// The ascending order on `u64`.
pub open spec fn ascending() -> spec_fn(u64, u64) -> bool {
    |a: u64, b: u64| a <= b
}

/// The element in the middle of `s` once `s` is sorted ascending
/// (the upper middle for an even length).
pub open spec fn median_spec(s: Seq<u64>) -> u64 {
    s.sort_by(ascending())[(s.len() / 2) as int]
}

pub proof fn lemma_ascending_total()
    ensures
        total_ordering(ascending()),
{
}

/// Returns a copy of `times` sorted ascending.
fn sorted_copy(times: &[u64]) -> (v: Vec<u64>)
    ensures
        v@ == times@.sort_by(ascending()),
{
    let mut v: Vec<u64> = Vec::new();
    let n = times.len();
    proof {
        broadcast use group_to_multiset_ensures;

        assert(times@.subrange(0, 0) =~= v@);
    }
    for i in 0..n
        invariant
            n == times@.len(),
            sorted_by(v@, ascending()),
            v@.to_multiset() == times@.subrange(0, i as int).to_multiset(),
    {
        let x = times[i];
        let mut j: usize = 0;
        while j < v.len() && v[j] <= x
            invariant
                j <= v@.len(),
                forall|k: int| 0 <= k < j ==> v@[k] <= x,
            decreases v@.len() - j,
        {
            j = j + 1;
        }
        let ghost old_v = v@;
        v.insert(j, x);
        proof {
            broadcast use group_to_multiset_ensures;

            assert(v@ == old_v.insert(j as int, x));
            assert(times@.subrange(0, i + 1) == times@.subrange(0, i as int).push(x));
            assert forall|a: int, b: int| 0 <= a < b < v@.len() implies #[trigger] (ascending())(
                v@[a],
                v@[b],
            ) by {
                assert(sorted_by(old_v, ascending()));
                if b < j {
                    assert((ascending())(old_v[a], old_v[b]));
                } else if a > j {
                    assert((ascending())(old_v[a - 1], old_v[b - 1]));
                } else if a == j {
                    if b > j {
                        assert(!(j < old_v.len() && old_v[j as int] <= x) || j >= old_v.len());
                        assert((ascending())(old_v[j as int], old_v[b - 1]));
                    }
                } else {
                    // a < j, b >= j
                    if b > j {
                        assert((ascending())(old_v[a], old_v[b - 1]));
                    }
                }
            }
        }
    }
    proof {
        assert(times@.subrange(0, n as int) == times@);
        lemma_ascending_total();
        times@.lemma_sort_by_ensures(ascending());
        vstd::seq_lib::lemma_sorted_unique(v@, times@.sort_by(ascending()), ascending());
    }
    v
}

/// The median of `times`: its middle element in ascending order.
pub fn median_time(times: &[u64]) -> (m: u64)
    requires
        times@.len() > 0,
    ensures
        m == median_spec(times@),
{
    let sorted = sorted_copy(times);
    proof {
        lemma_ascending_total();
        times@.lemma_sort_by_ensures(ascending());
        broadcast use group_to_multiset_ensures;
        assert(sorted@.to_multiset().len() == times@.to_multiset().len());
    }
    sorted[sorted.len() / 2]
}


/// Fixed-point scale of the harmonic mean of the per-block difficulties.
pub const DIFFICULTY_SCALE: u64 = 10_000_000_000_000;

/// Each per-block difficulty that the mean reads, `cd[i] - cd[i - 1]` for
/// `POW_MEDIAN_BLOCK_SPAN < i < cd.len()`, is positive.
pub open spec fn increasing_tail(cd: Seq<u64>) -> bool {
    forall|i: int| POW_MEDIAN_BLOCK_SPAN < i < cd.len() ==> #[trigger] block_step(cd, i) > 0
}

/// The difficulty of block `i`: the growth of the cumulative difficulty at `i`.
pub open spec fn block_step(cd: Seq<u64>, i: int) -> int {
    cd[i] - cd[i - 1]
}

/// The sum of `DIFFICULTY_SCALE / (cd[i] - cd[i - 1])` over `POW_MEDIAN_BLOCK_SPAN < i < end`.
pub open spec fn inverse_sum(cd: Seq<u64>, end: int) -> int
    decreases end,
{
    if end <= POW_MEDIAN_BLOCK_SPAN + 1 {
        0
    } else {
        inverse_sum(cd, end - 1) + (DIFFICULTY_SCALE as int) / block_step(cd, end - 1)
    }
}

/// The inputs on which the harmonic mean is computed without a panic.
pub open spec fn mean_defined(cd: Seq<u64>) -> bool {
    &&& increasing_tail(cd)
    &&& 0 < inverse_sum(cd, cd.len() as int) <= u64::MAX
}

/// `POW_AVERAGING_WINDOW` times the scale, over the sum of scaled inverse difficulties:
/// the harmonic mean of the per-block difficulties.
pub open spec fn mean_spec(cd: Seq<u64>) -> int {
    (POW_AVERAGING_WINDOW * DIFFICULTY_SCALE) as int / inverse_sum(cd, cd.len() as int)
}

/// Larger `end` never decreases the sum over an increasing window.
pub proof fn lemma_inverse_sum_monotone(cd: Seq<u64>, a: int, b: int)
    requires
        increasing_tail(cd),
        a <= b <= cd.len(),
    ensures
        0 <= inverse_sum(cd, a) <= inverse_sum(cd, b),
    decreases b - a,
{
    if a < b {
        lemma_inverse_sum_monotone(cd, a, b - 1);
        if b > POW_MEDIAN_BLOCK_SPAN + 1 {
            assert(block_step(cd, b - 1) > 0);
        }
    } else {
        lemma_inverse_sum_nonneg(cd, a);
    }
}

proof fn lemma_inverse_sum_nonneg(cd: Seq<u64>, a: int)
    requires
        increasing_tail(cd),
        a <= cd.len(),
    ensures
        0 <= inverse_sum(cd, a),
    decreases a,
{
    if a > POW_MEDIAN_BLOCK_SPAN + 1 {
        lemma_inverse_sum_nonneg(cd, a - 1);
        assert(block_step(cd, a - 1) > 0);
    }
}

/// The sum of the scaled inverse per-block difficulties, or `None` where a per-block
/// difficulty is not positive or the sum exceeds `u64::MAX`.
fn inverse_sum_checked(cd: &[u64]) -> (r: Option<u64>)
    ensures
        r == (if increasing_tail(cd@) && inverse_sum(cd@, cd@.len() as int) <= u64::MAX {
            Some(inverse_sum(cd@, cd@.len() as int) as u64)
        } else {
            None::<u64>
        }),
{
    let start = POW_MEDIAN_BLOCK_SPAN + 1;
    let scale: u64 = DIFFICULTY_SCALE;
    let mut inv_sum: u64 = 0;
    if cd.len() <= start {
        assert(inverse_sum(cd@, cd@.len() as int) == 0);
        assert(increasing_tail(cd@));
        return Some(0);
    }
    let mut i = start;
    while i < cd.len()
        invariant
            start == POW_MEDIAN_BLOCK_SPAN + 1,
            start <= i <= cd@.len(),
            scale == DIFFICULTY_SCALE,
            inv_sum == inverse_sum(cd@, i as int),
            forall|k: int| POW_MEDIAN_BLOCK_SPAN < k < i ==> #[trigger] block_step(cd@, k) > 0,
        decreases cd@.len() - i,
    {
        if cd[i] <= cd[i - 1] {
            assert(block_step(cd@, i as int) <= 0);
            return None;
        }
        let d_i = cd[i] - cd[i - 1];
        let q = scale / d_i;
        assert(inverse_sum(cd@, i + 1) == inverse_sum(cd@, i as int) + q);
        if inv_sum > u64::MAX - q {
            proof {
                if increasing_tail(cd@) {
                    lemma_inverse_sum_monotone(cd@, i + 1, cd@.len() as int);
                }
            }
            return None;
        }
        inv_sum = inv_sum + q;
        i = i + 1;
    }
    Some(inv_sum)
}

/// The harmonic mean of the per-block difficulties, or `None` on the inputs on which
/// computing it panics (a non-increasing pair, an overflowing sum, a zero sum).
pub fn mean_difficulty_checked(cumulative_difficulties: &[u64]) -> (r: Option<u64>)
    ensures
        r == (if mean_defined(cumulative_difficulties@) {
            Some(mean_spec(cumulative_difficulties@) as u64)
        } else {
            None::<u64>
        }),
{
    let inv_sum = match inverse_sum_checked(cumulative_difficulties) {
        Some(s) => s,
        None => return None,
    };
    proof {
        lemma_inverse_sum_nonneg(cumulative_difficulties@, cumulative_difficulties@.len() as int);
    }
    if inv_sum == 0 {
        return None;
    }
    let total: u64 = POW_AVERAGING_WINDOW as u64 * DIFFICULTY_SCALE;
    assert(total / inv_sum <= total) by (nonlinear_arith)
        requires
            inv_sum >= 1,
    ;
    assert(total as int == (POW_AVERAGING_WINDOW * DIFFICULTY_SCALE) as int);
    assert(inv_sum as int == inverse_sum(cumulative_difficulties@, cumulative_difficulties@.len() as int));
    assert(mean_spec(cumulative_difficulties@) == total as int / inv_sum as int);
    Some(total / inv_sum)
}

/// The harmonic mean of the per-block difficulties read from the cumulative
/// difficulties after the first `POW_MEDIAN_BLOCK_SPAN + 1` entries.
pub fn mean_difficulty(cumulative_difficulties: &[u64]) -> (m: u64)
    requires
        mean_defined(cumulative_difficulties@),
    ensures
        m == mean_spec(cumulative_difficulties@),
{
    match mean_difficulty_checked(cumulative_difficulties) {
        Some(m) => m,
        None => 0,
    }
}


/// `x` read as an `i64`: the value of `x as i64` in Rust.
pub open spec fn wrap_i64(x: u64) -> int {
    if x <= i64::MAX {
        x as int
    } else {
        x - 0x1_0000_0000_0000_0000
    }
}

/// `x` read as a `u64`: the value of `x as u64` for an `i64` `x` in Rust.
pub open spec fn wrap_u64(x: int) -> int {
    if x >= 0 {
        x
    } else {
        x + 0x1_0000_0000_0000_0000
    }
}

pub open spec fn fits_i64(x: int) -> bool {
    i64::MIN <= x <= i64::MAX
}

pub open spec fn abs(x: int) -> int {
    if x < 0 {
        -x
    } else {
        x
    }
}

/// Rust's integer division: the quotient rounded toward zero.
pub open spec fn trunc_div(a: int, b: int) -> int {
    let q = abs(a) / abs(b);
    if (a < 0) == (b < 0) {
        q
    } else {
        -q
    }
}

pub open spec fn min_int(a: int, b: int) -> int {
    if a <= b {
        a
    } else {
        b
    }
}

pub open spec fn max_int(a: int, b: int) -> int {
    if a >= b {
        a
    } else {
        b
    }
}

/// The median of the newest `POW_MEDIAN_BLOCK_SPAN` timestamps.
pub open spec fn newer_median(ts: Seq<u64>) -> u64 {
    median_spec(ts.subrange(POW_AVERAGING_WINDOW + 1, ts.len() as int))
}

/// The median of the `POW_MEDIAN_BLOCK_SPAN` timestamps after the oldest one.
pub open spec fn older_median(ts: Seq<u64>) -> u64 {
    median_spec(ts.subrange(1, POW_MEDIAN_BLOCK_SPAN + 1))
}

/// The measured timespan of the averaging window: the difference of the two medians.
pub open spec fn actual_timespan(newer: u64, older: u64) -> int {
    wrap_i64(newer) - wrap_i64(older)
}

/// The timespan the averaging window should take at target solvetime `t`.
pub open spec fn target_timespan(t: u64) -> int {
    POW_AVERAGING_WINDOW * wrap_i64(t)
}

/// The target plus the deviation of the measured timespan divided by the damping factor.
pub open spec fn damped_timespan(actual: int, target: int) -> int {
    target + trunc_div(actual - target, POW_DAMPING_FACTOR as int)
}

/// The least timespan the adjustment accepts.
pub open spec fn min_timespan(target: int) -> int {
    trunc_div(target * (100 - POW_MAX_ADJUST_UP_PERCENT), 100)
}

/// The greatest timespan the adjustment accepts.
pub open spec fn max_timespan(target: int) -> int {
    trunc_div(target * (100 + POW_MAX_ADJUST_DOWN_PERCENT), 100)
}

/// The damped timespan clamped to `[min_timespan, max_timespan]`.
pub open spec fn bounded_timespan(actual: int, target: int) -> int {
    max_int(min_timespan(target), min_int(max_timespan(target), damped_timespan(actual, target)))
}

/// The mean difficulty scaled by the target timespan over the bounded timespan.
pub open spec fn adjusted_difficulty(mean: u64, actual: int, target: int) -> int {
    trunc_div(wrap_i64(mean) * target, bounded_timespan(actual, target))
}

/// Every `i64` operation of the adjustment stays in range and no divisor is zero.
pub open spec fn adjustment_defined(mean: u64, actual: int, target: int) -> bool {
    &&& fits_i64(actual)
    &&& fits_i64(target)
    &&& fits_i64(actual - target)
    &&& fits_i64(damped_timespan(actual, target))
    &&& fits_i64(target * (100 - POW_MAX_ADJUST_UP_PERCENT))
    &&& fits_i64(target * (100 + POW_MAX_ADJUST_DOWN_PERCENT))
    &&& fits_i64(wrap_i64(mean) * target)
    &&& bounded_timespan(actual, target) != 0
    &&& fits_i64(adjusted_difficulty(mean, actual, target))
}

/// The adjusted difficulty read as a `u64`, and at least 1.
pub open spec fn positive_difficulty(d: int) -> u64 {
    if wrap_u64(d) >= 1 {
        wrap_u64(d) as u64
    } else {
        1
    }
}

/// The `POW_ADJUSTMENT_BLOCK_SPAN + 2` heights from the fork on, whose difficulty is the guess.
pub open spec fn in_fork_window(height: u64, fork_height: u64) -> bool {
    fork_height <= height <= fork_height + POW_ADJUSTMENT_BLOCK_SPAN + 1
}

/// The new difficulty from the mean difficulty and the two median times.
pub open spec fn adjustment_spec(mean: u64, newer: u64, older: u64, t: u64) -> u64 {
    positive_difficulty(adjusted_difficulty(mean, actual_timespan(newer, older), target_timespan(t)))
}

/// The inputs on which the difficulty is computed without a panic.
pub open spec fn digishield_defined(
    ts: Seq<u64>,
    cd: Seq<u64>,
    t: u64,
    height: u64,
    fork_height: u64,
) -> bool {
    &&& ts.len() == cd.len()
    &&& height >= fork_height ==> fork_height + POW_ADJUSTMENT_BLOCK_SPAN + 1 <= u64::MAX
    &&& !in_fork_window(height, fork_height) ==> {
        &&& ts.len() == POW_ADJUSTMENT_BLOCK_SPAN + 1
        &&& mean_defined(cd)
        &&& adjustment_defined(
            mean_spec(cd) as u64,
            actual_timespan(newer_median(ts), older_median(ts)),
            target_timespan(t),
        )
    }
}

/// The difficulty of block `height`: the guess in the fork window, else the adjustment
/// of the window's mean difficulty by its median timespan.
pub open spec fn digishield_spec(
    ts: Seq<u64>,
    cd: Seq<u64>,
    t: u64,
    height: u64,
    fork_height: u64,
    difficulty_guess: u64,
) -> u64 {
    if in_fork_window(height, fork_height) {
        difficulty_guess
    } else {
        adjustment_spec(mean_spec(cd) as u64, newer_median(ts), older_median(ts), t)
    }
}

const I64_MIN: i128 = -0x8000_0000_0000_0000;

const I64_MAX: i128 = 0x7fff_ffff_ffff_ffff;

fn fits(x: i128) -> (b: bool)
    ensures
        b == fits_i64(x as int),
{
    I64_MIN <= x && x <= I64_MAX
}

/// `x as i64`, held in an `i128`.
fn read_i64(x: u64) -> (r: i128)
    ensures
        r == wrap_i64(x),
{
    if x <= 0x7fff_ffff_ffff_ffff {
        x as i128
    } else {
        x as i128 - 0x1_0000_0000_0000_0000
    }
}

/// Division rounded toward zero, as Rust's `/` on signed integers.
fn div_toward_zero(a: i128, b: i128) -> (q: i128)
    requires
        b != 0,
        -0x1_0000_0000_0000_0000_0000 <= a <= 0x1_0000_0000_0000_0000_0000,
        -0x1_0000_0000_0000_0000_0000 <= b <= 0x1_0000_0000_0000_0000_0000,
    ensures
        q == trunc_div(a as int, b as int),
{
    let ma: u128 = if a < 0 {
        (-a) as u128
    } else {
        a as u128
    };
    let mb: u128 = if b < 0 {
        (-b) as u128
    } else {
        b as u128
    };
    let m = ma / mb;
    assert(m <= ma) by (nonlinear_arith)
        requires
            mb >= 1,
            m == ma / mb,
    ;
    let q = m as i128;
    if (a < 0) == (b < 0) {
        q
    } else {
        -q
    }
}

/// The new difficulty from the mean difficulty of the window, the medians of its newer
/// and older timestamps and the target solvetime `t`; `None` where an `i64` operation of
/// the adjustment overflows or divides by zero.
pub fn adjust_difficulty(mean_d: u64, newer_median: u64, older_median: u64, t: u64) -> (r: Option<u64>)
    ensures
        r == (if adjustment_defined(
            mean_d,
            actual_timespan(newer_median, older_median),
            target_timespan(t),
        ) {
            Some(adjustment_spec(mean_d, newer_median, older_median, t))
        } else {
            None::<u64>
        }),
{
    let ghost actual_s = actual_timespan(newer_median, older_median);
    let ghost target_s = target_timespan(t);
    let actual = read_i64(newer_median) - read_i64(older_median);
    if !fits(actual) {
        return None;
    }
    let target = POW_AVERAGING_WINDOW as i128 * read_i64(t);
    if !fits(target) {
        return None;
    }
    let variance = actual - target;
    if !fits(variance) {
        return None;
    }
    let damped = target + div_toward_zero(variance, POW_DAMPING_FACTOR as i128);
    if !fits(damped) {
        return None;
    }
    let up_factor = 100 - POW_MAX_ADJUST_UP_PERCENT as i128;
    let down_factor = 100 + POW_MAX_ADJUST_DOWN_PERCENT as i128;
    assert(up_factor == 84 && down_factor == 132);
    let min_product = target * up_factor;
    if !fits(min_product) {
        return None;
    }
    let max_product = target * down_factor;
    if !fits(max_product) {
        return None;
    }
    let min_span = div_toward_zero(min_product, 100);
    let max_span = div_toward_zero(max_product, 100);
    let capped = if max_span <= damped {
        max_span
    } else {
        damped
    };
    let bounded = if min_span >= capped {
        min_span
    } else {
        capped
    };
    let mean = read_i64(mean_d);
    assert(-0x4000_0000_0000_0000_0000_0000_0000_0000 <= mean * target <= 0x4000_0000_0000_0000_0000_0000_0000_0000)
        by (nonlinear_arith)
        requires
            -0x8000_0000_0000_0000 <= mean <= 0x8000_0000_0000_0000,
            -0x8000_0000_0000_0000 <= target <= 0x8000_0000_0000_0000,
    ;
    let product = mean * target;
    if !fits(product) {
        return None;
    }
    if bounded == 0 {
        return None;
    }
    let new_d = div_toward_zero(product, bounded);
    if !fits(new_d) {
        return None;
    }
    let as_u64: u64 = if new_d >= 0 {
        new_d as u64
    } else {
        (new_d + 0x1_0000_0000_0000_0000) as u64
    };
    Some(
        if as_u64 >= 1 {
            as_u64
        } else {
            1
        },
    )
}


/// The difficulty of block `height`, or `None` on the inputs on which computing it
/// panics (see `digishield_defined`).
pub fn digishield_checked(
    timestamps: &[u64],
    cumulative_difficulties: &[u64],
    t: u64,
    height: u64,
    fork_height: u64,
    difficulty_guess: u64,
) -> (r: Option<u64>)
    ensures
        r == (if digishield_defined(timestamps@, cumulative_difficulties@, t, height, fork_height) {
            Some(
                digishield_spec(
                    timestamps@,
                    cumulative_difficulties@,
                    t,
                    height,
                    fork_height,
                    difficulty_guess,
                ),
            )
        } else {
            None::<u64>
        }),
{
    let required_size = POW_ADJUSTMENT_BLOCK_SPAN + 1;
    if timestamps.len() != cumulative_difficulties.len() {
        return None;
    }
    if height >= fork_height {
        if fork_height > u64::MAX - (POW_ADJUSTMENT_BLOCK_SPAN as u64 + 1) {
            return None;
        }
        if height <= fork_height + POW_ADJUSTMENT_BLOCK_SPAN as u64 + 1 {
            return Some(difficulty_guess);
        }
    }
    if timestamps.len() != required_size {
        return None;
    }
    let mean_d = match mean_difficulty_checked(cumulative_difficulties) {
        Some(m) => m,
        None => return None,
    };
    let newer = median_time(slice_subrange(timestamps, POW_AVERAGING_WINDOW + 1, timestamps.len()));
    let older = median_time(slice_subrange(timestamps, 1, POW_MEDIAN_BLOCK_SPAN + 1));
    adjust_difficulty(mean_d, newer, older, t)
}

/// The Digishield difficulty of block `height`: `difficulty_guess` from the fork height
/// through `POW_ADJUSTMENT_BLOCK_SPAN + 1` blocks after it, else the harmonic mean of the
/// window's difficulties scaled by the target timespan over the damped and bounded
/// timespan between the medians of its newer and older timestamps, and at least 1.
pub fn digishield(
    timestamps: &[u64],
    cumulative_difficulties: &[u64],
    t: u64,
    height: u64,
    fork_height: u64,
    difficulty_guess: u64,
) -> (d: u64)
    requires
        digishield_defined(timestamps@, cumulative_difficulties@, t, height, fork_height),
    ensures
        d == digishield_spec(
            timestamps@,
            cumulative_difficulties@,
            t,
            height,
            fork_height,
            difficulty_guess,
        ),
        !in_fork_window(height, fork_height) ==> d >= 1,
{
    match digishield_checked(
        timestamps,
        cumulative_difficulties,
        t,
        height,
        fork_height,
        difficulty_guess,
    ) {
        Some(d) => d,
        None => difficulty_guess,
    }
}

} // verus!
