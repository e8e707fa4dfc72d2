use gpu_scan::pipeline::{plan_blocks, plan_single_block, steps, Step};
use gpu_scan::scan::{blocked_exclusive_scan, inplace_exclusive_prefix_sum, prefix_sum, prefix_sum_fits};

fn sequential_exclusive(data: &[u32]) -> Vec<u32> {
    let mut out = Vec::with_capacity(data.len());
    let mut acc = 0u32;
    for &x in data {
        out.push(acc);
        acc += x;
    }
    out
}

#[test]
fn test_single_wg_prefix_sum() {
    const DATA_LEN: usize = 2048;
    let plan = plan_single_block(DATA_LEN).unwrap();
    assert_eq!(plan.block, DATA_LEN);
    assert_eq!(plan.blocks, 1);
    let input = vec![1u32; DATA_LEN];
    let result = blocked_exclusive_scan(&input, plan.block);
    let mut expected = [0u32; DATA_LEN];
    for i in 1..DATA_LEN {
        expected[i] += expected[i - 1] + input[i];
    }
    for i in 0..DATA_LEN {
        assert_eq!(expected[i], result[i]);
        assert_eq!(result[i] as usize, i);
    }
}

#[test]
fn test_multiple_wg_prefix_sum() {
    const DATA_LEN: usize = 262_144;
    const WORK_GROUPS: usize = 128;
    let plan = plan_blocks(DATA_LEN, DATA_LEN / WORK_GROUPS).unwrap();
    assert_eq!(plan.blocks, WORK_GROUPS);
    let input = vec![1u32; DATA_LEN];
    let result = blocked_exclusive_scan(&input, plan.block);
    let mut expected = vec![0u32; DATA_LEN];
    for i in 1..DATA_LEN {
        expected[i] += expected[i - 1] + input[i];
    }
    assert_eq!(result, expected);
}

#[test]
fn all_ones_gives_indices_for_powers_of_two() {
    for log_n in 0..12u32 {
        let n = 1usize << log_n;
        for log_b in 0..=log_n {
            let b = 1usize << log_b;
            let out = blocked_exclusive_scan(&vec![1u32; n], b);
            let expected: Vec<u32> = (0..n as u32).collect();
            assert_eq!(out, expected, "n = {}, b = {}", n, b);
        }
    }
}

#[test]
fn blocked_scan_matches_sequential_scan() {
    let data: Vec<u32> = (0..512u32).map(|i| (i * 7919 + 13) % 101).collect();
    for b in [1usize, 2, 4, 8, 64, 512] {
        assert_eq!(blocked_exclusive_scan(&data, b), sequential_exclusive(&data));
    }
}

#[test]
fn combine_step_offsets() {
    let mut sums = vec![3u32, 1, 4, 1, 5];
    inplace_exclusive_prefix_sum(&mut sums);
    assert_eq!(sums, vec![0, 3, 4, 8, 9]);
    let totals = vec![3u32, 1, 4, 1, 5];
    assert_eq!(sums[0], 0);
    for i in 0..totals.len() - 1 {
        assert_eq!(sums[i + 1] - sums[i], totals[i]);
    }
}

#[test]
fn prefix_sum_of_empty_and_single() {
    assert_eq!(prefix_sum(vec![]), Vec::<u32>::new());
    assert_eq!(prefix_sum(vec![42]), vec![0]);
}

#[test]
fn prefix_sum_copy_leaves_input_shape() {
    assert_eq!(prefix_sum(vec![2, 2, 2, 2]), vec![0, 2, 4, 6]);
}

#[test]
fn prefix_sum_fits_detects_overflow() {
    assert!(prefix_sum_fits(&vec![]));
    assert!(prefix_sum_fits(&vec![u32::MAX, u32::MAX]));
    assert!(prefix_sum_fits(&vec![u32::MAX, 0, u32::MAX]));
    assert!(!prefix_sum_fits(&vec![u32::MAX, 1, 0]));
    let mut last_may_be_large = vec![1, 2, u32::MAX];
    assert!(prefix_sum_fits(&last_may_be_large));
    inplace_exclusive_prefix_sum(&mut last_may_be_large);
    assert_eq!(last_may_be_large, vec![0, 1, 3]);
}

#[test]
fn run_steps_are_strictly_ordered() {
    let plan = plan_blocks(131_072, 128).unwrap();
    let s = steps(&plan, 0);
    assert_eq!(
        s,
        vec![
            Step::LocalScan { groups: 1024 },
            Step::Barrier,
            Step::Combine { start: 0, count: 1024 },
            Step::Distribute { groups: 1024 },
            Step::Barrier,
            Step::ReadBack,
        ]
    );
}

#[test]
fn blocked_scan_needs_only_fitting_block_totals() {
    assert_eq!(blocked_exclusive_scan(&vec![1, u32::MAX], 1), vec![0, 1]);
    assert_eq!(blocked_exclusive_scan(&vec![], 4), Vec::<u32>::new());
}
