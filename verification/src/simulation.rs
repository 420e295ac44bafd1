//! The sliding block window of the solvetime simulation, advanced one block at a time.
use vstd::prelude::*;

use crate::config::Config;
use crate::digishield::{
    digishield_checked, digishield_defined, digishield_spec, POW_ADJUSTMENT_BLOCK_SPAN,
};

verus! {

/// Entries kept in the window: one more than the adjustment span, so that it holds
/// `POW_ADJUSTMENT_BLOCK_SPAN` intervals.
pub const WINDOW_SIZE: usize = 29;

/// Timestamp of the oldest fabricated block.
pub const START_TIMESTAMP: u64 = 1772055701;

/// Cumulative difficulty of the oldest fabricated block.
pub const START_CUMULATIVE_DIFFICULTY: u64 = 1_000_000_000;

/// The solvetimes and difficulties of the simulated blocks, in block order.
pub struct SimResult {
    pub sts: Vec<u64>,
    pub ds: Vec<u64>,
}

/// The hashrate at which blocks of difficulty `baseline_d`, scaled by `dx`, take `t`
/// seconds on average; `None` where the product overflows or `t` is 0.
pub fn baseline_hashrate(baseline_d: u64, dx: u64, t: u64) -> (r: Option<u64>)
    ensures
        r == (if baseline_d * dx <= u64::MAX && t != 0 {
            Some(((baseline_d * dx) / (t as int)) as u64)
        } else {
            None::<u64>
        }),
{
    if t == 0 {
        return None;
    }
    match baseline_d.checked_mul(dx) {
        Some(p) => {
            assert(p / t <= p) by (nonlinear_arith)
                requires
                    t >= 1,
            ;
            Some(p / t)
        },
        None => None,
    }
}

/// Every entry of `s` is at most every later one.
pub open spec fn nondecreasing(s: Seq<u64>) -> bool {
    forall|i: int, j: int| 0 <= i <= j < s.len() ==> s[i] <= s[j]
}

/// The steady-state window before the first simulated block: `WINDOW_SIZE` blocks
/// `old_t` seconds and `baseline_d` difficulty apart.
pub open spec fn steady_window(start: u64, step: u64) -> Seq<u64> {
    Seq::new(WINDOW_SIZE as nat, |i: int| (start + i * step) as u64)
}

/// A simulated solvetime raised to at least 1 second.
pub open spec fn floor_solvetime(simulated_st: u64) -> u64 {
    if simulated_st >= 1 {
        simulated_st
    } else {
        1
    }
}

/// The state of a simulation: the window of the last `WINDOW_SIZE` blocks and the
/// blocks simulated so far.
#[verifier::ext_equal]
pub struct SimModel {
    /// Timestamps of the blocks in the window, oldest first.
    pub timestamps: Seq<u64>,
    /// Cumulative difficulties of the blocks in the window, oldest first.
    pub cumulative_difficulties: Seq<u64>,
    /// Solvetimes of the simulated blocks.
    pub solvetimes: Seq<u64>,
    /// Difficulties of the simulated blocks.
    pub difficulties: Seq<u64>,
}

impl SimModel {
    /// The window holds `WINDOW_SIZE` blocks whose timestamps and cumulative
    /// difficulties never decrease, and each simulated block has a solvetime and a
    /// difficulty.
    pub open spec fn wf(self) -> bool {
        &&& self.timestamps.len() == WINDOW_SIZE
        &&& self.cumulative_difficulties.len() == WINDOW_SIZE
        &&& nondecreasing(self.timestamps)
        &&& nondecreasing(self.cumulative_difficulties)
        &&& self.solvetimes.len() == self.difficulties.len()
    }

    /// The target solvetime in force for the next block.
    pub open spec fn effective_t(self, config: &Config) -> u64 {
        if self.solvetimes.len() < config.transition_block() {
            config.old_t()
        } else {
            config.t
        }
    }

    /// Digishield over the window at height `fork_height + blocks simulated`, with the
    /// target in force and `baseline_d` as the guess; `None` where that height overflows
    /// or the adjustment is not defined.
    pub open spec fn next_difficulty(self, config: &Config) -> Option<u64> {
        let height = config.fork_height + self.solvetimes.len();
        if height <= u64::MAX && digishield_defined(
            self.timestamps,
            self.cumulative_difficulties,
            self.effective_t(config),
            height as u64,
            config.fork_height,
        ) {
            Some(
                digishield_spec(
                    self.timestamps,
                    self.cumulative_difficulties,
                    self.effective_t(config),
                    height as u64,
                    config.fork_height,
                    config.baseline_d,
                ),
            )
        } else {
            None
        }
    }

    /// Neither the new cumulative difficulty nor the new timestamp overflows.
    pub open spec fn can_record(self, next_d: u64, simulated_st: u64) -> bool {
        &&& self.cumulative_difficulties.last() + next_d <= u64::MAX
        &&& self.timestamps.last() + floor_solvetime(simulated_st) <= u64::MAX
    }

    /// The state after a block of difficulty `next_d` and simulated solvetime
    /// `simulated_st`: the window drops its oldest block and takes the new one.
    pub open spec fn after_block(self, next_d: u64, simulated_st: u64) -> SimModel {
        let st = floor_solvetime(simulated_st);
        SimModel {
            timestamps: self.timestamps.drop_first().push(
                (self.timestamps.last() + st) as u64,
            ),
            cumulative_difficulties: self.cumulative_difficulties.drop_first().push(
                (self.cumulative_difficulties.last() + next_d) as u64,
            ),
            solvetimes: self.solvetimes.push(st),
            difficulties: self.difficulties.push(next_d),
        }
    }

    /// The state after `n` more blocks, each of the difficulty the adjustment chooses and
    /// of solvetime `draw(index of the block, its difficulty)`; `None` where a step fails.
    pub open spec fn run(self, config: &Config, draw: spec_fn(nat, u64) -> u64, n: nat) -> Option<
        SimModel,
    >
        decreases n,
    {
        if n == 0 {
            Some(self)
        } else {
            match self.run(config, draw, (n - 1) as nat) {
                Some(m) => match m.next_difficulty(config) {
                    Some(d) => {
                        let st = draw(m.solvetimes.len(), d);
                        if m.can_record(d, st) {
                            Some(m.after_block(d, st))
                        } else {
                            None
                        }
                    },
                    None => None,
                },
                None => None,
            }
        }
    }
}

/// The window of the last `WINDOW_SIZE` blocks and the blocks simulated so far.
pub struct Simulation {
    ts: Vec<u64>,
    cd: Vec<u64>,
    sts: Vec<u64>,
    ds: Vec<u64>,
}

impl View for Simulation {
    type V = SimModel;

    closed spec fn view(&self) -> SimModel {
        SimModel {
            timestamps: self.ts@,
            cumulative_difficulties: self.cd@,
            solvetimes: self.sts@,
            difficulties: self.ds@,
        }
    }
}

impl Simulation {
    /// See `SimModel::wf`.
    pub open spec fn wf(&self) -> bool {
        self@.wf()
    }

    /// A simulation before its first block, its window fabricated at steady state from
    /// `START_TIMESTAMP` and `START_CUMULATIVE_DIFFICULTY`; `None` where the fabricated
    /// timestamps or cumulative difficulties overflow.
    pub fn new(config: &Config) -> (r: Option<Simulation>)
        ensures
            r is Some <==> (START_TIMESTAMP + (WINDOW_SIZE - 1) * config.old_t() <= u64::MAX
                && START_CUMULATIVE_DIFFICULTY + (WINDOW_SIZE - 1) * config.baseline_d
                <= u64::MAX),
            r matches Some(s) ==> {
                &&& s.wf()
                &&& s@.timestamps == steady_window(START_TIMESTAMP, config.old_t())
                &&& s@.cumulative_difficulties == steady_window(
                    START_CUMULATIVE_DIFFICULTY,
                    config.baseline_d,
                )
                &&& s@.solvetimes.len() == 0
                &&& forall|i: int|
                    0 <= i < WINDOW_SIZE ==> s@.timestamps[i] == START_TIMESTAMP + i
                        * config.old_t() && s@.cumulative_difficulties[i]
                        == START_CUMULATIVE_DIFFICULTY + i * config.baseline_d
            },
    {
        let old_t = config.old_t();
        let baseline_d = config.baseline_d;
        let last: u64 = (WINDOW_SIZE - 1) as u64;
        assert(last == 28 && WINDOW_SIZE - 1 == 28);
        assert(old_t * last == (WINDOW_SIZE - 1) * old_t && baseline_d * last == (WINDOW_SIZE - 1)
            * baseline_d) by (nonlinear_arith)
            requires
                last == 28,
                WINDOW_SIZE - 1 == 28,
        ;
        let dt = match old_t.checked_mul(last) {
            Some(p) => p,
            None => return None,
        };
        let dd = match baseline_d.checked_mul(last) {
            Some(p) => p,
            None => return None,
        };
        if dt > u64::MAX - START_TIMESTAMP || dd > u64::MAX - START_CUMULATIVE_DIFFICULTY {
            return None;
        }
        let mut ts: Vec<u64> = Vec::new();
        let mut cd: Vec<u64> = Vec::new();
        ts.push(START_TIMESTAMP);
        cd.push(START_CUMULATIVE_DIFFICULTY);
        assert(0 * old_t == 0 && 0 * baseline_d == 0) by (nonlinear_arith);
        for i in 1..WINDOW_SIZE
            invariant
                ts@.len() == i,
                cd@.len() == i,
                old_t == config.old_t(),
                baseline_d == config.baseline_d,
                START_TIMESTAMP + (WINDOW_SIZE - 1) * old_t <= u64::MAX,
                START_CUMULATIVE_DIFFICULTY + (WINDOW_SIZE - 1) * baseline_d <= u64::MAX,
                forall|k: int| 0 <= k < i ==> ts@[k] == START_TIMESTAMP + k * old_t,
                forall|k: int| 0 <= k < i ==> cd@[k] == START_CUMULATIVE_DIFFICULTY + k * baseline_d,
        {
            assert(i * old_t <= (WINDOW_SIZE - 1) * old_t) by (nonlinear_arith)
                requires
                    i <= WINDOW_SIZE - 1,
            ;
            assert(i * baseline_d <= (WINDOW_SIZE - 1) * baseline_d) by (nonlinear_arith)
                requires
                    i <= WINDOW_SIZE - 1,
            ;
            ts.push(START_TIMESTAMP + (i as u64) * old_t);
            cd.push(START_CUMULATIVE_DIFFICULTY + (i as u64) * baseline_d);
        }
        let s = Simulation { ts, cd, sts: Vec::new(), ds: Vec::new() };
        proof {
            assert(s.ts@ =~= steady_window(START_TIMESTAMP, old_t));
            assert(s.cd@ =~= steady_window(START_CUMULATIVE_DIFFICULTY, baseline_d));
            assert forall|a: int, b: int| 0 <= a <= b < s.ts@.len() implies s.ts@[a] <= s.ts@[b] by {
                assert(a * old_t <= b * old_t) by (nonlinear_arith)
                    requires
                        a <= b,
                ;
            }
            assert forall|a: int, b: int| 0 <= a <= b < s.cd@.len() implies s.cd@[a] <= s.cd@[b] by {
                assert(a * baseline_d <= b * baseline_d) by (nonlinear_arith)
                    requires
                        a <= b,
                ;
            }
        }
        Some(s)
    }

    /// The number of blocks simulated so far.
    pub fn blocks_done(&self) -> (n: usize)
        ensures
            n == self@.solvetimes.len(),
    {
        self.sts.len()
    }

    /// The difficulty of the next block: Digishield over the window at its height
    /// `fork_height + blocks_done()`, with the target in force and `baseline_d` as the
    /// guess; `None` where that height overflows or the adjustment would panic.
    pub fn next_difficulty(&self, config: &Config) -> (r: Option<u64>)
        requires
            self.wf(),
        ensures
            r == self@.next_difficulty(config),
    {
        let done = self.sts.len() as u64;
        if config.fork_height > u64::MAX - done {
            return None;
        }
        let height = config.fork_height + done;
        let effective_t = if done < config.transition_block() {
            config.old_t()
        } else {
            config.t
        };
        digishield_checked(
            self.ts.as_slice(),
            self.cd.as_slice(),
            effective_t,
            height,
            config.fork_height,
            config.baseline_d,
        )
    }

    /// Records a block of difficulty `next_d` whose simulated solvetime is
    /// `simulated_st`: its solvetime is at least 1 second, and the window drops its oldest
    /// block and takes the new one, `next_d` above the newest cumulative difficulty and
    /// the solvetime after the newest timestamp. Returns `false`, and changes nothing,
    /// where either sum overflows.
    pub fn record_block(&mut self, next_d: u64, simulated_st: u64) -> (ok: bool)
        requires
            old(self).wf(),
        ensures
            final(self).wf(),
            ok == old(self)@.can_record(next_d, simulated_st),
            ok ==> final(self)@ == old(self)@.after_block(next_d, simulated_st),
            !ok ==> final(self)@ == old(self)@,
    {
        let current_st: u64 = if simulated_st >= 1 {
            simulated_st
        } else {
            1
        };
        let last_cd = self.cd[WINDOW_SIZE - 1];
        let last_ts = self.ts[WINDOW_SIZE - 1];
        if last_cd > u64::MAX - next_d || last_ts > u64::MAX - current_st {
            return false;
        }
        let ghost old_ts = self.ts@;
        let ghost old_cd = self.cd@;
        self.cd.push(last_cd + next_d);
        self.cd.remove(0);
        self.ts.push(last_ts + current_st);
        self.ts.remove(0);
        self.ds.push(next_d);
        self.sts.push(current_st);
        proof {
            assert(self.ts@ =~= old_ts.drop_first().push((last_ts + current_st) as u64));
            assert(self.cd@ =~= old_cd.drop_first().push((last_cd + next_d) as u64));
            assert(old_ts[WINDOW_SIZE - 1] == last_ts);
            assert(old_cd[WINDOW_SIZE - 1] == last_cd);
        }
        true
    }

    /// The solvetimes and difficulties of the simulated blocks.
    pub fn into_result(self) -> (r: SimResult)
        ensures
            r.sts@ == self@.solvetimes,
            r.ds@ == self@.difficulties,
    {
        SimResult { sts: self.sts, ds: self.ds }
    }
}

} // verus!
