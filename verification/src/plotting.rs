//! The integer side of the fork-transition chart: which blocks it shows and the rolling
//! sums of their solvetimes.
use vstd::prelude::*;

verus! {

/// Blocks shown before the transition block.
pub const VIEW_BEFORE: usize = 500;

/// Blocks shown from the transition block on.
pub const VIEW_AFTER: usize = 2000;

/// Solvetimes taken on each side of a block for its rolling average.
pub const ROLLING_HALF_WIDTH: usize = 5;

/// The first and one-past-last block shown: from `VIEW_BEFORE` blocks before the
/// transition (from `start` when the transition comes earlier) to `VIEW_AFTER` blocks
/// after it, cut at the number of simulated blocks `len`.
pub fn fork_view_window(transition_block: usize, start: usize, len: usize) -> (r: (usize, usize))
    requires
        transition_block + VIEW_AFTER <= usize::MAX,
    ensures
        r.0 == (if transition_block > VIEW_BEFORE {
            transition_block - VIEW_BEFORE
        } else {
            start as int
        }),
        r.1 == (if transition_block + VIEW_AFTER <= len {
            transition_block + VIEW_AFTER
        } else {
            len as int
        }),
{
    let view_start = if transition_block > VIEW_BEFORE {
        transition_block - VIEW_BEFORE
    } else {
        start
    };
    let end = transition_block + VIEW_AFTER;
    let view_end = if end <= len {
        end
    } else {
        len
    };
    (view_start, view_end)
}

/// The sum of the entries of `s`.
pub open spec fn seq_sum(s: Seq<u64>) -> int
    decreases s.len(),
{
    if s.len() == 0 {
        0
    } else {
        seq_sum(s.drop_last()) + s.last()
    }
}

/// For block `i` with `ROLLING_HALF_WIDTH` solvetimes on each side, the sum of the
/// solvetimes from `i - ROLLING_HALF_WIDTH` through `i + ROLLING_HALF_WIDTH` and their
/// number; `None` for the blocks nearer an end.
pub fn rolling_solvetime(sts: &[u64], i: usize) -> (r: Option<(u128, u64)>)
    ensures
        r == (if ROLLING_HALF_WIDTH <= i && i + ROLLING_HALF_WIDTH < sts@.len() {
            Some(
                (
                    seq_sum(
                        sts@.subrange(
                            i - ROLLING_HALF_WIDTH,
                            i + ROLLING_HALF_WIDTH + 1,
                        ),
                    ) as u128,
                    (2 * ROLLING_HALF_WIDTH + 1) as u64,
                ),
            )
        } else {
            None::<(u128, u64)>
        }),
{
    if sts.len() < ROLLING_HALF_WIDTH || i < ROLLING_HALF_WIDTH || i >= sts.len() - ROLLING_HALF_WIDTH {
        return None;
    }
    let lo = i - ROLLING_HALF_WIDTH;
    let hi = i + ROLLING_HALF_WIDTH + 1;
    let mut sum: u128 = 0;
    let mut j = lo;
    while j < hi
        invariant
            lo <= j <= hi,
            hi <= sts@.len(),
            hi - lo == 2 * ROLLING_HALF_WIDTH + 1,
            sum == seq_sum(sts@.subrange(lo as int, j as int)),
            sum <= (j - lo) * 0xffff_ffff_ffff_ffff,
        decreases hi - j,
    {
        assert(sts@.subrange(lo as int, j + 1).drop_last() == sts@.subrange(lo as int, j as int));
        sum = sum + sts[j] as u128;
        j = j + 1;
    }
    Some((sum, (hi - lo) as u64))
}

} // verus!
