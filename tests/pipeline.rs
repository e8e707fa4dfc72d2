use gpu_scan::pipeline::{
    next_power_of_two, pad_input, plan_blocks, plan_single_block, PlanError, SUM_NEUTRAL,
};

#[test]
fn block_count_rounds_up() {
    let p = plan_blocks(10, 4).unwrap();
    assert_eq!((p.len, p.block, p.blocks, p.padded), (10, 4, 3, 12));
    let p = plan_blocks(12, 4).unwrap();
    assert_eq!((p.blocks, p.padded), (3, 12));
    let p = plan_blocks(0, 8).unwrap();
    assert_eq!((p.blocks, p.padded), (0, 0));
}

#[test]
fn block_size_must_be_a_power_of_two() {
    assert_eq!(plan_blocks(10, 3).err(), Some(PlanError::BlockNotPowerOfTwo));
    assert_eq!(plan_blocks(10, 0).err(), Some(PlanError::BlockNotPowerOfTwo));
}

#[test]
fn plan_that_does_not_fit_is_refused() {
    assert_eq!(plan_blocks(usize::MAX, 1 << 20).err(), Some(PlanError::TooLarge));
    assert!(plan_single_block(usize::MAX).is_err());
    assert!(plan_single_block((usize::MAX >> 1) + 2).is_err());
    assert_eq!(plan_single_block((usize::MAX >> 1) + 1).unwrap().block, (usize::MAX >> 1) + 1);
}

#[test]
fn single_block_pads_to_next_power_of_two() {
    let p = plan_single_block(2048).unwrap();
    assert_eq!((p.block, p.blocks, p.padded), (2048, 1, 2048));
    let p = plan_single_block(1000).unwrap();
    assert_eq!((p.len, p.block, p.padded), (1000, 1024, 1024));
    assert_eq!(next_power_of_two(0), Some(1));
    assert_eq!(next_power_of_two(1), Some(1));
    assert_eq!(next_power_of_two(5), Some(8));
}

#[test]
fn padding_appends_the_neutral_value() {
    let padded = pad_input(&vec![4, 5, 6], 8, SUM_NEUTRAL);
    assert_eq!(padded, vec![4, 5, 6, 0, 0, 0, 0, 0]);
    assert_eq!(pad_input(&vec![1, 2], 2, 9), vec![1, 2]);
}
