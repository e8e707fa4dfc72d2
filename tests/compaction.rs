use gpu_scan::compaction::{compact_even, compacted_len, compaction_offsets, even_indicators};
use gpu_scan::pipeline::{pad_input, plan_blocks, COMPACTION_NEUTRAL};
use gpu_scan::scan::prefix_sum;

#[test]
fn test_single_wg_compaction() {
    const DATA_LEN: usize = 2048;
    let mut data = [0u32; DATA_LEN];
    for i in 0..DATA_LEN {
        data[i] = i as u32 + 1;
    }
    let mut expected = [0u32; DATA_LEN / 2];
    for i in 0..(DATA_LEN / 2) {
        expected[i] = 2 * (i as u32 + 1);
    }
    let out = compact_even(&data.to_vec());
    assert_eq!(out.len(), DATA_LEN / 2);
    assert_eq!(out, expected.to_vec());
}

#[test]
fn test_multiple_wg_compaction() {
    const N: usize = 131_072;
    const B: usize = 128;
    let plan = plan_blocks(N, B).unwrap();
    assert_eq!(plan.blocks, N / B);
    let mut data = vec![0u32; N];
    for i in 0..N {
        data[i] = i as u32 + 1;
    }
    let expected_offsets = prefix_sum(data.iter().map(|n| (n % 2 == 0) as u32).collect());
    let offsets = compaction_offsets(&data);
    assert_eq!(offsets, expected_offsets, "The resulting offsets should match");
    let results = even_indicators(&data);
    let computed_len = compacted_len(&results, &offsets);
    assert_eq!(N / 2, computed_len as usize);
    assert_eq!(computed_len, 65_536);
}

#[test]
fn compaction_of_naturals_keeps_evens_in_order() {
    for n in 0..40u32 {
        let data: Vec<u32> = (1..=n).collect();
        let out = compact_even(&data);
        assert_eq!(out.len() as u32, n / 2);
        let evens: Vec<u32> = (1..=n / 2).map(|k| 2 * k).collect();
        assert_eq!(out, evens);
    }
}

#[test]
fn compaction_is_stable() {
    let data = vec![8, 3, 2, 8, 5, 0, 2];
    assert_eq!(compact_even(&data), vec![8, 2, 8, 0, 2]);
    assert_eq!(compaction_offsets(&data), vec![0, 1, 1, 2, 3, 3, 4]);
}

#[test]
fn indicators_mark_even_values() {
    assert_eq!(even_indicators(&vec![1, 2, 3, 4, 0]), vec![0, 1, 0, 1, 1]);
    assert_eq!(even_indicators(&vec![]), Vec::<u32>::new());
}

#[test]
fn compacted_len_when_nothing_is_kept() {
    assert_eq!(compacted_len(&vec![0, 0, 0], &vec![0, 0, 0]), 0);
    assert_eq!(compacted_len(&vec![], &vec![]), 0);
}

#[test]
fn compacted_len_reads_last_kept_offset() {
    let results = vec![1, 0, 1, 1, 0];
    let offsets = prefix_sum(results.clone());
    assert_eq!(compacted_len(&results, &offsets), 3);
}

#[test]
fn padding_with_the_compaction_neutral_keeps_nothing_more() {
    let data: Vec<u32> = (1..=10).collect();
    let plan = plan_blocks(data.len(), 4).unwrap();
    let padded = pad_input(&data, plan.padded, COMPACTION_NEUTRAL);
    assert_eq!(padded.len(), 12);
    assert_eq!(compact_even(&padded), compact_even(&data));
}
