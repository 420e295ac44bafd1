//! Parameters of one simulated scenario.
use vstd::prelude::*;

verus! {

/// How the hashrate or the target changes during a scenario.
pub enum AttackMode {
    /// Neither the hashrate nor the target changes.
    NoAttack,
    /// The target solvetime is `old_t` before block `transition_block` and the scenario's
    /// `t` from there on.
    ForkTransition { transition_block: u64, old_t: u64 },
}

/// The parameters of one simulated scenario.
pub struct Config {
    /// Name of the scenario in reports.
    pub label: String,
    /// Number of blocks to simulate.
    pub blocks: u64,
    /// Target solvetime in seconds.
    pub t: u64,
    /// Blocks spanned by one difficulty adjustment.
    pub n: u64,
    /// Difficulty scaling factor.
    pub dx: u64,
    /// Starting difficulty.
    pub baseline_d: u64,
    /// Percentage of `baseline_d` at which an on-off attacker starts mining.
    pub attack_start: u64,
    /// Percentage of `baseline_d` at which an on-off attacker stops mining.
    pub attack_stop: u64,
    /// Hashrate of the attacker as a percentage of the baseline hashrate.
    pub attack_size: u64,
    /// Height of the first simulated block; 0 for genesis.
    pub fork_height: u64,
    /// Whether and how the target changes during the scenario.
    pub attack_mode: AttackMode,
}

impl Config {
    /// The number of blocks mined at the old target before the target changes; 0 when
    /// it never changes.
    pub open spec fn transition_block_spec(&self) -> u64 {
        match self.attack_mode {
            AttackMode::ForkTransition { transition_block, .. } => transition_block,
            AttackMode::NoAttack => 0,
        }
    }

    /// The target solvetime before the transition: the scenario's own target when it
    /// never changes.
    pub open spec fn old_t_spec(&self) -> u64 {
        match self.attack_mode {
            AttackMode::ForkTransition { old_t, .. } => old_t,
            AttackMode::NoAttack => self.t,
        }
    }

    #[verifier::when_used_as_spec(transition_block_spec)]
    pub fn transition_block(&self) -> (b: u64)
        ensures
            b == self.transition_block_spec(),
    {
        match self.attack_mode {
            AttackMode::ForkTransition { transition_block, .. } => transition_block,
            AttackMode::NoAttack => 0,
        }
    }

    #[verifier::when_used_as_spec(old_t_spec)]
    pub fn old_t(&self) -> (t: u64)
        ensures
            t == self.old_t_spec(),
    {
        match self.attack_mode {
            AttackMode::ForkTransition { old_t, .. } => old_t,
            AttackMode::NoAttack => self.t,
        }
    }
}

/// The standard scenario: 20000 blocks at target `t` from fork height 200, with the
/// Zcash adjustment span, difficulty scale and a difficulty close to mainnet's.
pub fn make_config(label: &str, t: u64) -> (c: Config)
    ensures
        c.label@ == label@,
        c.blocks == 20_000,
        c.t == t,
        c.n == 28,
        c.dx == 8192,
        c.baseline_d == 104_070_000,
        c.attack_start == 130,
        c.attack_stop == 135,
        c.attack_size == 800,
        c.fork_height == 200,
        c.attack_mode is NoAttack,
{
    Config {
        label: label.to_owned(),
        blocks: 20_000,
        t,
        n: 28,
        dx: 8192,
        baseline_d: 104_070_000,
        attack_start: 130,
        attack_stop: 135,
        attack_size: 800,
        fork_height: 200,
        attack_mode: AttackMode::NoAttack,
    }
}

} // verus!
