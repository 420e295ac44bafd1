use digishield_sim::config::{make_config, AttackMode, Config};
use digishield_sim::simulation::{baseline_hashrate, Simulation};

fn fork_config() -> Config {
    let mut c = make_config("fork", 25);
    c.attack_mode = AttackMode::ForkTransition { transition_block: 2, old_t: 75 };
    c
}

#[test]
fn make_config_values() {
    let c = make_config("No Attack", 75);
    assert_eq!(c.label, "No Attack");
    assert_eq!(c.blocks, 20_000);
    assert_eq!(c.t, 75);
    assert_eq!(c.n, 28);
    assert_eq!(c.dx, 8192);
    assert_eq!(c.baseline_d, 104_070_000);
    assert_eq!(c.attack_start, 130);
    assert_eq!(c.attack_stop, 135);
    assert_eq!(c.attack_size, 800);
    assert_eq!(c.fork_height, 200);
    assert!(matches!(c.attack_mode, AttackMode::NoAttack));
    assert_eq!(c.transition_block(), 0);
    assert_eq!(c.old_t(), 75);
}

#[test]
fn fork_config_targets() {
    let c = fork_config();
    assert_eq!(c.transition_block(), 2);
    assert_eq!(c.old_t(), 75);
    assert_eq!(c.t, 25);
}

#[test]
fn baseline_hashrate_values() {
    assert_eq!(baseline_hashrate(104_070_000, 8192, 75), Some(11_367_219_200));
    assert_eq!(baseline_hashrate(104_070_000, 8192, 0), None);
    assert_eq!(baseline_hashrate(u64::MAX, 2, 1), None);
}

#[test]
fn first_blocks_use_the_guess() {
    let c = fork_config();
    let sim = Simulation::new(&c).unwrap();
    assert_eq!(sim.blocks_done(), 0);
    assert_eq!(sim.next_difficulty(&c), Some(104_070_000));
}

#[test]
fn record_block_extends_result() {
    let c = fork_config();
    let mut sim = Simulation::new(&c).unwrap();
    assert!(sim.record_block(104_070_000, 0));
    assert!(sim.record_block(104_070_000, 80));
    assert_eq!(sim.blocks_done(), 2);
    let r = sim.into_result();
    assert_eq!(r.sts, vec![1, 80]);
    assert_eq!(r.ds, vec![104_070_000, 104_070_000]);
}

#[test]
fn record_block_refuses_overflow() {
    let c = fork_config();
    let mut sim = Simulation::new(&c).unwrap();
    assert!(!sim.record_block(u64::MAX, 10));
    assert!(!sim.record_block(10, u64::MAX));
    assert_eq!(sim.blocks_done(), 0);
}

#[test]
fn new_refuses_overflowing_window() {
    let mut c = make_config("big", u64::MAX / 10);
    assert!(Simulation::new(&c).is_none());
    c.t = 75;
    c.baseline_d = u64::MAX / 10;
    assert!(Simulation::new(&c).is_none());
}

#[test]
fn steady_state_after_the_fork_window() {
    // With steady blocks at the target the difficulty stays at the window's mean.
    let c = make_config("steady", 75);
    let mut sim = Simulation::new(&c).unwrap();
    for _ in 0..40 {
        let d = sim.next_difficulty(&c).unwrap();
        assert!(sim.record_block(d, 75));
    }
    let r = sim.into_result();
    assert_eq!(r.ds[0], 104_070_000);
    assert_eq!(r.ds[29], 104_070_000);
    assert_eq!(r.ds[30], 104_070_184);
    assert!(r.sts.iter().all(|&s| s == 75));
}

fn run_blocks(c: &Config, n: usize) -> (Vec<u64>, Vec<u64>) {
    let mut sim = Simulation::new(c).unwrap();
    for i in 0..n {
        let d = sim.next_difficulty(c).unwrap();
        let st = (d / 1_000_000 + 7 * i as u64) % 150;
        assert!(sim.record_block(d, st));
    }
    let r = sim.into_result();
    (r.sts, r.ds)
}

#[test]
fn new_target_unused_before_transition() {
    let mut a = make_config("a", 25);
    a.attack_mode = AttackMode::ForkTransition { transition_block: 60, old_t: 75 };
    let mut b = make_config("b", 40);
    b.attack_mode = AttackMode::ForkTransition { transition_block: 60, old_t: 75 };
    assert_eq!(run_blocks(&a, 60), run_blocks(&b, 60));
    assert_ne!(run_blocks(&a, 61).1[60], run_blocks(&b, 61).1[60]);
}
