use pool_sync::{Address, PoolType, Rpc};

fn addresses(count: u128) -> Vec<Address> {
    (0..count).map(|lo| Address::new(7, lo)).collect()
}

#[test]
fn batch_size_is_ten_for_weighted_pools_and_twenty_otherwise() {
    assert_eq!(Rpc::batch_size(PoolType::BalancerV2), 10);
    assert_eq!(Rpc::batch_size(PoolType::UniswapV2), 20);
    assert_eq!(Rpc::batch_size(PoolType::Aerodrome), 20);
    assert_eq!(Rpc::batch_size(PoolType::UniswapV3), 20);
    assert_eq!(Rpc::batch_size(PoolType::Slipstream), 20);
}

#[test]
fn addresses_are_split_into_full_batches_and_a_rest() {
    let all = addresses(45);
    let batches = Rpc::batch_addresses(&all, PoolType::UniswapV2);
    assert_eq!(batches.len(), 3);
    assert_eq!(batches[0], all[0..20].to_vec());
    assert_eq!(batches[1], all[20..40].to_vec());
    assert_eq!(batches[2], all[40..45].to_vec());

    let batches = Rpc::batch_addresses(&all, PoolType::BalancerV2);
    assert_eq!(batches.len(), 5);
    assert_eq!(batches[4], all[40..45].to_vec());
}

#[test]
fn no_address_gives_no_batch() {
    assert!(Rpc::batch_addresses(&Vec::new(), PoolType::UniswapV3).is_empty());
    assert!(Rpc::chunk_addresses(&Vec::new(), 1).is_empty());
}

#[test]
fn exact_multiple_gives_only_full_batches() {
    let all = addresses(40);
    let batches = Rpc::batch_addresses(&all, PoolType::SushiSwapV2);
    assert_eq!(batches.len(), 2);
    assert_eq!(batches[1].len(), 20);
}

#[test]
fn chunks_keep_every_address_in_its_order() {
    let all = addresses(23);
    for size in 1..30usize {
        let batches = Rpc::chunk_addresses(&all, size);
        assert_eq!(batches.len(), (all.len() + size - 1) / size);
        for (i, address) in all.iter().enumerate() {
            assert_eq!(batches[i / size][i % size], *address);
        }
        let joined = Rpc::join_batches(batches);
        assert_eq!(joined, all);
    }
}

#[test]
fn joined_batches_follow_the_order_of_the_batches() {
    assert_eq!(Rpc::join_batches(vec![vec![1, 2], vec![], vec![3], vec![4, 5]]), vec![1, 2, 3, 4, 5]);
    assert_eq!(Rpc::join_batches(Vec::<Vec<u8>>::new()), Vec::<u8>::new());
}

#[test]
fn joined_windows_hold_every_log_when_all_succeed() {
    let results: Vec<Result<Vec<u32>, String>> = vec![Ok(vec![1]), Ok(vec![]), Ok(vec![2, 3])];
    assert_eq!(Rpc::join_windows(results), Ok(vec![1, 2, 3]));
    assert_eq!(Rpc::join_windows(Vec::<Result<Vec<u32>, String>>::new()), Ok(vec![]));
}

#[test]
fn first_failed_window_fails_the_fetch() {
    let results: Vec<Result<Vec<u32>, String>> = vec![
        Ok(vec![1]),
        Err(String::from("second")),
        Ok(vec![2]),
        Err(String::from("fourth")),
    ];
    assert_eq!(Rpc::join_windows(results), Err(String::from("second")));
    let results: Vec<Result<Vec<u32>, String>> = vec![Ok(vec![1]), Ok(vec![2]), Err(String::from("last"))];
    assert_eq!(Rpc::join_windows(results), Err(String::from("last")));
}
