use digishield_sim::digishield::{
    adjust_difficulty, digishield, digishield_checked, mean_difficulty, mean_difficulty_checked,
    median_time,
};

fn steady_timestamps(start: u64, step: u64) -> Vec<u64> {
    (0..29u64).map(|i| start + i * step).collect()
}

fn steady_cumulative(step: u64) -> Vec<u64> {
    (0..29u64).map(|i| 1_000_000_000 + i * step).collect()
}

fn from_steps(start: u64, steps: &[u64]) -> Vec<u64> {
    let mut v = vec![start];
    for s in steps {
        let last = *v.last().unwrap();
        v.push(last + s);
    }
    v
}

#[test]
fn median_of_odd_length_is_middle_of_sorted() {
    assert_eq!(median_time(&[5, 1, 4, 2, 3]), 3);
    assert_eq!(median_time(&[9]), 9);
}

#[test]
fn median_of_even_length_is_upper_middle() {
    assert_eq!(median_time(&[4, 1, 3, 2]), 3);
}

#[test]
fn median_with_repeats() {
    assert_eq!(median_time(&[7, 7, 1, 7, 2]), 7);
    assert_eq!(median_time(&[2, 2, 2, 9, 9]), 2);
}

#[test]
fn median_ignores_order() {
    let a = [10u64, 40, 20, 50, 30, 60, 70, 0, 90, 80, 100];
    let mut b = a;
    b.reverse();
    assert_eq!(median_time(&a), median_time(&b));
    assert_eq!(median_time(&a), 50);
}

#[test]
fn mean_of_steady_divisor_difficulty_is_that_difficulty() {
    let cd: Vec<u64> = (0..29u64).map(|i| 1_000_000_000 + 1000 * i).collect();
    assert_eq!(mean_difficulty(&cd), 1000);
}

#[test]
fn mean_of_mainnet_like_steady_difficulty() {
    assert_eq!(mean_difficulty(&steady_cumulative(104_070_000)), 104_070_184);
}

#[test]
fn mean_at_least_smallest_block_difficulty() {
    let steps = [
        100866024u64, 95061658, 103248078, 111841736, 91620223, 92430558, 117557392, 107981216,
        93158480, 102270483, 109555120, 91946120, 107026717, 97204075, 91258145, 92883910,
        104550734, 104031529, 92343959, 98075310, 93043823, 108490077, 104244500, 91983419,
        117744553, 108973477, 94154104, 97490656,
    ];
    let cd = from_steps(1_000_000_000, &steps);
    let m = mean_difficulty(&cd);
    assert_eq!(m, 99_177_410);
    let smallest = steps[11..].iter().min().unwrap();
    assert!(m >= *smallest);
}

#[test]
fn mean_refused_on_non_increasing_window() {
    let mut cd = steady_cumulative(1000);
    cd[20] = cd[19];
    assert_eq!(mean_difficulty_checked(&cd), None);
    let mut cd = steady_cumulative(1000);
    cd[20] = cd[19] - 1;
    assert_eq!(mean_difficulty_checked(&cd), None);
}

#[test]
fn mean_refused_on_short_window() {
    let cd: Vec<u64> = (0..12u64).map(|i| 1000 * i).collect();
    assert_eq!(mean_difficulty_checked(&cd), None);
}

#[test]
fn mean_refused_when_every_difficulty_exceeds_scale() {
    let cd: Vec<u64> = (0..29u64).map(|i| i * 20_000_000_000_000).collect();
    assert_eq!(mean_difficulty_checked(&cd), None);
}

#[test]
fn mean_ignores_entries_before_the_averaging_window() {
    let mut cd = steady_cumulative(1000);
    cd[0] = 0;
    cd[5] = cd[4];
    assert_eq!(mean_difficulty_checked(&cd), Some(1000));
}

#[test]
fn fork_window_returns_guess() {
    let ts = steady_timestamps(1000, 75);
    let cd = steady_cumulative(104_070_000);
    assert_eq!(digishield(&ts, &cd, 75, 200, 200, 5), 5);
    assert_eq!(digishield(&ts, &cd, 75, 229, 200, 5), 5);
    assert_eq!(digishield(&ts[..3], &cd[..3], 75, 210, 200, 7), 7);
}

#[test]
fn on_target_blocks_keep_the_mean() {
    let ts = steady_timestamps(1000, 75);
    let cd = steady_cumulative(104_070_000);
    assert_eq!(digishield(&ts, &cd, 75, 230, 200, 5), 104_070_184);
    assert_eq!(digishield(&ts, &cd, 75, 100, 200, 5), 104_070_184);
}

#[test]
fn slower_blocks_lower_difficulty() {
    let cd = steady_cumulative(104_070_000);
    let slow = digishield(&steady_timestamps(1000, 100), &cd, 75, 300, 200, 5);
    let fast = digishield(&steady_timestamps(1000, 50), &cd, 75, 300, 200, 5);
    assert_eq!(slow, 96_082_175);
    assert_eq!(fast, 113_506_830);
    assert!(fast > 104_070_184 && 104_070_184 > slow);
}

#[test]
fn adjustment_is_clamped() {
    let cd = steady_cumulative(104_070_000);
    assert_eq!(digishield(&steady_timestamps(1000, 10), &cd, 75, 300, 200, 5), 123_893_076);
    assert_eq!(digishield(&steady_timestamps(1000, 1000), &cd, 75, 300, 200, 5), 78_841_048);
}

#[test]
fn varied_window() {
    let steps = [
        100866024u64, 95061658, 103248078, 111841736, 91620223, 92430558, 117557392, 107981216,
        93158480, 102270483, 109555120, 91946120, 107026717, 97204075, 91258145, 92883910,
        104550734, 104031529, 92343959, 98075310, 93043823, 108490077, 104244500, 91983419,
        117744553, 108973477, 94154104, 97490656,
    ];
    let sts = [
        299u64, 32, 296, 300, 204, 26, 114, 24, 286, 69, 149, 215, 74, 277, 61, 293, 158, 287, 93,
        53, 298, 293, 97, 191, 50, 281, 33, 289,
    ];
    let cd = from_steps(1_000_000_000, &steps);
    let ts = from_steps(1772055701, &sts);
    assert_eq!(median_time(&ts[18..]), 1772059699);
    assert_eq!(median_time(&ts[1..12]), 1772056858);
    assert_eq!(digishield(&ts, &cd, 75, 1000, 200, 5), 75_901_079);
}

#[test]
fn adjust_difficulty_values() {
    assert_eq!(adjust_difficulty(1000, 5000, 4000, 75), Some(1056));
    assert_eq!(adjust_difficulty(1000, 5000, 5000, 75), Some(1190));
    assert_eq!(adjust_difficulty(1000, 5000, 3725, 75), Some(1000));
}

#[test]
fn adjust_difficulty_at_least_one() {
    assert_eq!(adjust_difficulty(0, 5000, 3725, 75), Some(1));
}

#[test]
fn adjust_difficulty_refuses_zero_target() {
    assert_eq!(adjust_difficulty(1000, 5000, 3725, 0), None);
}

#[test]
fn adjust_difficulty_refuses_overflowing_target() {
    assert_eq!(adjust_difficulty(1000, 5000, 3725, 1 << 62), None);
}

#[test]
fn checked_refuses_length_mismatch() {
    let ts = steady_timestamps(1000, 75);
    let cd = steady_cumulative(104_070_000);
    assert_eq!(digishield_checked(&ts, &cd[..28], 75, 200, 200, 5), None);
}

#[test]
fn checked_refuses_short_window_outside_fork() {
    let ts = steady_timestamps(1000, 75);
    let cd = steady_cumulative(104_070_000);
    assert_eq!(digishield_checked(&ts[..20], &cd[..20], 75, 300, 200, 5), None);
}

#[test]
fn checked_refuses_overflowing_fork_window() {
    let ts = steady_timestamps(1000, 75);
    let cd = steady_cumulative(104_070_000);
    assert_eq!(digishield_checked(&ts, &cd, 75, u64::MAX, u64::MAX - 3, 5), None);
    assert_eq!(digishield_checked(&ts, &cd, 75, 3, u64::MAX - 3, 5), Some(104_070_184));
}

#[test]
fn difficulty_reads_only_median_gap_and_increments() {
    let steps = [
        100866024u64, 95061658, 103248078, 111841736, 91620223, 92430558, 117557392, 107981216,
        93158480, 102270483, 109555120, 91946120, 107026717, 97204075, 91258145, 92883910,
        104550734, 104031529, 92343959, 98075310, 93043823, 108490077, 104244500, 91983419,
        117744553, 108973477, 94154104, 97490656,
    ];
    let sts = [
        299u64, 32, 296, 300, 204, 26, 114, 24, 286, 69, 149, 215, 74, 277, 61, 293, 158, 287, 93,
        53, 298, 293, 97, 191, 50, 281, 33, 289,
    ];
    let cd = from_steps(1_000_000_000, &steps);
    let ts = from_steps(1772055701, &sts);
    let base = digishield(&ts, &cd, 75, 1000, 200, 5);
    // Reverse each median span, shift every timestamp, change the unread ones.
    let mut ts2: Vec<u64> = ts.iter().map(|x| x + 12345).collect();
    ts2[1..12].reverse();
    ts2[18..29].reverse();
    ts2[0] = 7;
    ts2[14] = 3;
    // Shift the read cumulative difficulties, change the unread ones.
    let mut cd2: Vec<u64> = cd.iter().map(|x| x + 999).collect();
    cd2[0] = 0;
    cd2[3] = 5;
    assert_eq!(digishield(&ts2, &cd2, 75, 1000, 200, 5), base);
}
