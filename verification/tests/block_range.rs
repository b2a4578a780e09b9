use pool_sync::Rpc;

#[test]
fn range_smaller_than_step_is_one_window() {
    assert_eq!(Rpc::get_block_range(10000, 100, 105), vec![(100, 105)]);
}

#[test]
fn range_is_split_at_each_step() {
    assert_eq!(
        Rpc::get_block_range(10000, 0, 25000),
        vec![(0, 9999), (10000, 19999), (20000, 25000)]
    );
}

#[test]
fn empty_or_reversed_range_has_no_window() {
    assert_eq!(Rpc::get_block_range(10, 7, 7), Vec::<(u64, u64)>::new());
    assert_eq!(Rpc::get_block_range(10, 8, 7), Vec::<(u64, u64)>::new());
    assert_eq!(Rpc::get_block_range(1, 0, 0), Vec::<(u64, u64)>::new());
}

#[test]
fn range_of_exactly_one_step_spills_into_a_second_window() {
    assert_eq!(Rpc::get_block_range(10, 0, 10), vec![(0, 9), (10, 10)]);
    assert_eq!(Rpc::get_block_range(10, 0, 9), vec![(0, 9)]);
}

#[test]
fn step_of_one_gives_one_window_per_block() {
    assert_eq!(Rpc::get_block_range(1, 5, 8), vec![(5, 5), (6, 6), (7, 7), (8, 8)]);
}

#[test]
fn windows_near_the_largest_block_do_not_wrap() {
    let end = u64::MAX;
    assert_eq!(
        Rpc::get_block_range(4, end - 9, end),
        vec![(end - 9, end - 6), (end - 5, end - 2), (end - 1, end)]
    );
    assert_eq!(Rpc::get_block_range(u64::MAX, 0, u64::MAX), vec![(0, u64::MAX - 1), (u64::MAX, u64::MAX)]);
}

#[test]
fn windows_partition_the_range() {
    for &(step, start, end) in &[(7u64, 3u64, 100u64), (1, 0, 20), (500, 10_000_000, 10_001_234), (1500, 1, 2)] {
        let windows = Rpc::get_block_range(step, start, end);
        assert!(!windows.is_empty());
        assert_eq!(windows[0].0, start);
        assert_eq!(windows[windows.len() - 1].1, end);
        for k in 0..windows.len() {
            let (from, to) = windows[k];
            assert!(from <= to);
            assert!(to - from + 1 <= step);
            if k + 1 < windows.len() {
                assert_eq!(windows[k + 1].0, to + 1);
            }
        }
    }
}

#[test]
fn creation_logs_are_fetched_in_windows_of_ten_thousand_blocks() {
    assert_eq!(Rpc::address_ranges(0, 25000), vec![(0, 9999), (10000, 19999), (20000, 25000)]);
    assert_eq!(Rpc::address_ranges(100, 200), vec![(100, 200)]);
    assert_eq!(Rpc::address_ranges(200, 200), Vec::<(u64, u64)>::new());
    assert_eq!(Rpc::address_ranges(300, 200), Vec::<(u64, u64)>::new());
}

#[test]
fn request_pause_is_one_second_over_the_limit_rounded_up() {
    assert_eq!(Rpc::request_interval_nanos(1), 1_000_000_000);
    assert_eq!(Rpc::request_interval_nanos(4), 250_000_000);
    assert_eq!(Rpc::request_interval_nanos(3), 333_333_334);
    assert_eq!(Rpc::request_interval_nanos(100), 10_000_000);
    assert_eq!(Rpc::request_interval_nanos(1_000_000_000), 1);
    assert_eq!(Rpc::request_interval_nanos(999_999_999), 2);
    assert_eq!(Rpc::request_interval_nanos(u64::MAX), 1);
}
