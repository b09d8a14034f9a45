use probe_join::fuse_block::FuseBlock;

#[test]
fn limit_cuts_the_segment_that_reaches_it() {
    let f = FuseBlock::new(None, Some(5));
    assert_eq!(f.block_take_counts(6, &vec![2, 2, 2]), vec![2, 2, 1]);
}

#[test]
fn no_limit_lists_every_block() {
    let f = FuseBlock::new(Some(String::from("abc")), None);
    assert_eq!(f.snapshot_id.as_deref(), Some("abc"));
    assert_eq!(f.block_take_counts(6, &vec![2, 3, 1]), vec![2, 3, 1]);
}

#[test]
fn limit_above_block_count_is_ignored() {
    let f = FuseBlock::new(None, Some(100));
    assert_eq!(f.block_take_counts(4, &vec![1, 3, 9]), vec![1, 3]);
}

#[test]
fn zero_blocks_takes_nothing() {
    let f = FuseBlock::new(None, Some(0));
    assert_eq!(f.block_take_counts(3, &vec![3]), vec![0]);
    assert_eq!(f.block_take_counts(3, &vec![]), Vec::<usize>::new());
}
