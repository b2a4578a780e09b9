//! The order in which logs are applied: ascending by block, and within one
//! block in the order in which they were fetched.

use crate::events::PoolLog;
use crate::rpc::Rpc;
use std::collections::BTreeMap;
use vstd::prelude::*;
use vstd::std_specs::btree::increasing_seq;
use vstd::std_specs::cmp::OrdSpec;
use vstd::std_specs::iter::IteratorSpec;

verus! {

/// The block that holds a confirmed log.
pub open spec fn block_of(log: PoolLog) -> u64 {
    match log.block_number {
        Some(block) => block,
        None => 0,
    }
}

/// The logs of one block, in the order in which `logs` holds them.
pub open spec fn in_block(logs: Seq<PoolLog>, block: u64) -> Seq<PoolLog>
    decreases logs.len(),
{
    if logs.len() == 0 {
        Seq::empty()
    } else if logs.last().block_number == Some(block) {
        in_block(logs.drop_last(), block).push(logs.last())
    } else {
        in_block(logs.drop_last(), block)
    }
}

/// Every log is confirmed and none comes before a log of an earlier block.
pub open spec fn ascending(logs: Seq<PoolLog>) -> bool {
    &&& forall|i: int| 0 <= i < logs.len() ==> (#[trigger] logs[i]).block_number is Some
    &&& forall|i: int, j: int|
        0 <= i <= j < logs.len() ==> block_of(#[trigger] logs[i]) <= block_of(#[trigger] logs[j])
}

/// `ordered` holds the confirmed logs of `logs` by ascending block, those of
/// one block in the order in which `logs` holds them.
pub open spec fn is_block_order(ordered: Seq<PoolLog>, logs: Seq<PoolLog>) -> bool {
    &&& ascending(ordered)
    &&& forall|block: u64| #[trigger] in_block(ordered, block) == in_block(logs, block)
}

/// `ordered` with `log` put behind the last log that is not of a later
/// block.
pub open spec fn insert_by_block(ordered: Seq<PoolLog>, log: PoolLog) -> Seq<PoolLog>
    decreases ordered.len(),
{
    if ordered.len() == 0 || block_of(ordered.last()) <= block_of(log) {
        ordered.push(log)
    } else {
        insert_by_block(ordered.drop_last(), log).push(ordered.last())
    }
}

/// The order in which `logs` are applied: each confirmed log in turn is put
/// into its place among those before it; a pending log is left out.
pub open spec fn block_ordered(logs: Seq<PoolLog>) -> Seq<PoolLog>
    decreases logs.len(),
{
    if logs.len() == 0 {
        Seq::empty()
    } else if logs.last().block_number is Some {
        insert_by_block(block_ordered(logs.drop_last()), logs.last())
    } else {
        block_ordered(logs.drop_last())
    }
}

/// The logs of a block after one more log.
proof fn lemma_in_block_push(logs: Seq<PoolLog>, log: PoolLog, block: u64)
    ensures
        in_block(logs.push(log), block) == if log.block_number == Some(block) {
            in_block(logs, block).push(log)
        } else {
            in_block(logs, block)
        },
{
    assert(logs.push(log).drop_last() =~= logs);
}

/// The logs of a block in two runs, one after the other.
proof fn lemma_in_block_add(a: Seq<PoolLog>, b: Seq<PoolLog>, block: u64)
    ensures
        in_block(a + b, block) == in_block(a, block) + in_block(b, block),
    decreases b.len(),
{
    if b.len() == 0 {
        assert(a + b =~= a);
        assert(in_block(a, block) + in_block(b, block) =~= in_block(a, block));
    } else {
        lemma_in_block_add(a, b.drop_last(), block);
        assert((a + b).drop_last() =~= a + b.drop_last());
        assert((a + b).last() == b.last());
        if b.last().block_number == Some(block) {
            assert(in_block(a, block) + in_block(b.drop_last(), block).push(b.last()) =~= (in_block(a, block)
                + in_block(b.drop_last(), block)).push(b.last()));
        }
    }
}

/// A block of none of the logs is a block of which `in_block` holds none.
proof fn lemma_in_block_none(logs: Seq<PoolLog>, block: u64)
    requires
        forall|i: int| 0 <= i < logs.len() ==> (#[trigger] logs[i]).block_number != Some(block),
    ensures
        in_block(logs, block) == Seq::<PoolLog>::empty(),
    decreases logs.len(),
{
    if logs.len() > 0 {
        assert(logs.last() == logs[logs.len() - 1]);
        assert forall|i: int| 0 <= i < logs.drop_last().len() implies (#[trigger] logs.drop_last()[i]).block_number
            != Some(block) by {
            assert(logs.drop_last()[i] == logs[i]);
        }
        lemma_in_block_none(logs.drop_last(), block);
    }
}

/// A block of which `in_block` holds a log is the block of one of the logs.
proof fn lemma_in_block_some(logs: Seq<PoolLog>, block: u64)
    requires
        in_block(logs, block).len() > 0,
    ensures
        exists|i: int| 0 <= i < logs.len() && (#[trigger] logs[i]).block_number == Some(block),
{
    if forall|i: int| 0 <= i < logs.len() ==> (#[trigger] logs[i]).block_number != Some(block) {
        lemma_in_block_none(logs, block);
    }
}

/// Putting a log into its place keeps the logs ascending and below any bound
/// that holds of all of them.
proof fn lemma_insert_ascending(ordered: Seq<PoolLog>, log: PoolLog, bound: u64)
    requires
        ascending(ordered),
        log.block_number is Some,
        block_of(log) <= bound,
        forall|i: int| 0 <= i < ordered.len() ==> block_of(#[trigger] ordered[i]) <= bound,
    ensures
        ascending(insert_by_block(ordered, log)),
        insert_by_block(ordered, log).len() == ordered.len() + 1,
        forall|i: int|
            0 <= i < insert_by_block(ordered, log).len() ==> block_of(#[trigger] insert_by_block(ordered, log)[i])
                <= bound,
    decreases ordered.len(),
{
    let placed = insert_by_block(ordered, log);
    if ordered.len() == 0 || block_of(ordered.last()) <= block_of(log) {
        assert forall|i: int, j: int| 0 <= i <= j < placed.len() implies block_of(#[trigger] placed[i])
            <= block_of(#[trigger] placed[j]) by {
            if j == ordered.len() && i < j {
                assert(placed[i] == ordered[i]);
                assert(block_of(ordered[i]) <= block_of(ordered[ordered.len() - 1]));
            } else if j < ordered.len() {
                assert(placed[i] == ordered[i] && placed[j] == ordered[j]);
            }
        }
    } else {
        let front = ordered.drop_last();
        let last = ordered.last();
        assert forall|i: int| 0 <= i < front.len() implies block_of(#[trigger] front[i]) <= block_of(last) by {
            assert(front[i] == ordered[i]);
            assert(last == ordered[ordered.len() - 1]);
        }
        assert(ascending(front)) by {
            assert forall|i: int| 0 <= i < front.len() implies (#[trigger] front[i]).block_number is Some by {
                assert(front[i] == ordered[i]);
            }
            assert forall|i: int, j: int| 0 <= i <= j < front.len() implies block_of(#[trigger] front[i])
                <= block_of(#[trigger] front[j]) by {
                assert(front[i] == ordered[i] && front[j] == ordered[j]);
            }
        }
        lemma_insert_ascending(front, log, block_of(last));
        let inner = insert_by_block(front, log);
        assert(placed == inner.push(last));
        assert(last == ordered[ordered.len() - 1]);
        assert forall|i: int| 0 <= i < placed.len() implies (#[trigger] placed[i]).block_number is Some
            && block_of(placed[i]) <= bound by {
            if i < inner.len() {
                assert(placed[i] == inner[i]);
            }
        }
        assert forall|i: int, j: int| 0 <= i <= j < placed.len() implies block_of(#[trigger] placed[i])
            <= block_of(#[trigger] placed[j]) by {
            if j < inner.len() {
                assert(placed[i] == inner[i] && placed[j] == inner[j]);
            } else if i < inner.len() {
                assert(placed[i] == inner[i]);
            }
        }
    }
}

/// Putting a log into its place leaves the logs of every block in the order
/// that they have with the log put last.
proof fn lemma_insert_in_block(ordered: Seq<PoolLog>, log: PoolLog, block: u64)
    requires
        log.block_number is Some,
    ensures
        in_block(insert_by_block(ordered, log), block) == in_block(ordered.push(log), block),
    decreases ordered.len(),
{
    if ordered.len() == 0 || block_of(ordered.last()) <= block_of(log) {
    } else {
        let front = ordered.drop_last();
        let last = ordered.last();
        lemma_insert_in_block(front, log, block);
        lemma_in_block_push(insert_by_block(front, log), last, block);
        lemma_in_block_push(front, log, block);
        lemma_in_block_push(ordered, log, block);
        assert(front.push(last) =~= ordered);
        lemma_in_block_push(front, last, block);
    }
}

/// `block_ordered` is ascending by block and keeps the logs of each block in
/// the order in which they were fetched; it holds the confirmed logs and no
/// others.
pub proof fn law_block_ordered(logs: Seq<PoolLog>)
    ensures
        is_block_order(block_ordered(logs), logs),
    decreases logs.len(),
{
    let ordered = block_ordered(logs);
    if logs.len() == 0 {
    } else {
        let front = logs.drop_last();
        let last = logs.last();
        law_block_ordered(front);
        let before = block_ordered(front);
        assert(front.push(last) =~= logs);
        if last.block_number is Some {
            lemma_insert_ascending(before, last, u64::MAX);
            assert forall|block: u64| #[trigger] in_block(ordered, block) == in_block(logs, block) by {
                lemma_insert_in_block(before, last, block);
                lemma_in_block_push(before, last, block);
                lemma_in_block_push(front, last, block);
                assert(in_block(before, block) == in_block(front, block));
            }
        } else {
            assert forall|block: u64| #[trigger] in_block(ordered, block) == in_block(logs, block) by {
                assert(in_block(before, block) == in_block(front, block));
            }
        }
    }
}

/// Only one sequence is the block order of given logs.
pub proof fn law_block_order_unique(first: Seq<PoolLog>, second: Seq<PoolLog>, logs: Seq<PoolLog>)
    requires
        is_block_order(first, logs),
        is_block_order(second, logs),
    ensures
        first == second,
{
    assert forall|block: u64| #[trigger] in_block(first, block) == in_block(second, block) by {
        assert(in_block(first, block) == in_block(logs, block));
        assert(in_block(second, block) == in_block(logs, block));
    }
    lemma_same_blocks_same_order(first, second);
}

/// Two ascending sequences that hold the same logs of every block, in the
/// same order, are one sequence.
proof fn lemma_same_blocks_same_order(first: Seq<PoolLog>, second: Seq<PoolLog>)
    requires
        ascending(first),
        ascending(second),
        forall|block: u64| #[trigger] in_block(first, block) == in_block(second, block),
    ensures
        first == second,
    decreases first.len(),
{
    if first.len() == 0 {
        if second.len() > 0 {
            let block = block_of(second[0]);
            assert(second[0].block_number == Some(block));
            lemma_in_block_has(second, block, 0);
            assert(in_block(first, block) == in_block(second, block));
        }
        assert(first =~= second);
    } else {
        let x = first.last();
        let block = block_of(x);
        assert(x == first[first.len() - 1]);
        assert(x.block_number == Some(block));
        assert(in_block(first, block) == in_block(second, block));
        assert(in_block(first, block).last() == x);
        lemma_in_block_some(second, block);
        let y = second.last();
        let other = block_of(y);
        assert(y == second[second.len() - 1]);
        assert(y.block_number == Some(other));
        assert(in_block(first, other) == in_block(second, other));
        lemma_in_block_some(first, other);
        assert(other == block) by {
            let i = choose|i: int| 0 <= i < second.len() && (#[trigger] second[i]).block_number == Some(block);
            assert(block_of(second[i]) <= block_of(second[second.len() - 1]));
            let j = choose|j: int| 0 <= j < first.len() && (#[trigger] first[j]).block_number == Some(other);
            assert(block_of(first[j]) <= block_of(first[first.len() - 1]));
        }
        assert(y == x);
        let f = first.drop_last();
        let s = second.drop_last();
        assert(ascending(f)) by {
            assert forall|i: int| 0 <= i < f.len() implies (#[trigger] f[i]).block_number is Some by {
                assert(f[i] == first[i]);
            }
            assert forall|i: int, j: int| 0 <= i <= j < f.len() implies block_of(#[trigger] f[i]) <= block_of(
                #[trigger] f[j],
            ) by {
                assert(f[i] == first[i] && f[j] == first[j]);
            }
        }
        assert(ascending(s)) by {
            assert forall|i: int| 0 <= i < s.len() implies (#[trigger] s[i]).block_number is Some by {
                assert(s[i] == second[i]);
            }
            assert forall|i: int, j: int| 0 <= i <= j < s.len() implies block_of(#[trigger] s[i]) <= block_of(
                #[trigger] s[j],
            ) by {
                assert(s[i] == second[i] && s[j] == second[j]);
            }
        }
        assert forall|b: u64| #[trigger] in_block(f, b) == in_block(s, b) by {
            assert(in_block(first, b) == in_block(second, b));
            if b == block {
                assert(in_block(f, b) =~= in_block(first, b).drop_last());
                assert(in_block(s, b) =~= in_block(second, b).drop_last());
            }
        }
        lemma_same_blocks_same_order(f, s);
        assert(first =~= f.push(x));
        assert(second =~= s.push(y));
    }
}

/// A block of one of the logs is a block of which `in_block` holds a log.
proof fn lemma_in_block_has(logs: Seq<PoolLog>, block: u64, i: int)
    requires
        0 <= i < logs.len(),
        logs[i].block_number == Some(block),
    ensures
        in_block(logs, block).len() > 0,
    decreases logs.len(),
{
    if i < logs.len() - 1 {
        assert(logs.drop_last()[i] == logs[i]);
        lemma_in_block_has(logs.drop_last(), block, i);
    }
}

/// The logs of a block are all of that block.
proof fn lemma_in_block_members(logs: Seq<PoolLog>, block: u64)
    ensures
        forall|p: int|
            0 <= p < in_block(logs, block).len() ==> (#[trigger] in_block(logs, block)[p]).block_number == Some(
                block,
            ),
    decreases logs.len(),
{
    if logs.len() > 0 {
        lemma_in_block_members(logs.drop_last(), block);
    }
}

/// Among the logs of a block, those of the same block are all of them and
/// those of another block are none.
proof fn lemma_in_block_twice(logs: Seq<PoolLog>, block: u64, other: u64)
    ensures
        in_block(in_block(logs, block), other) == if other == block {
            in_block(logs, block)
        } else {
            Seq::empty()
        },
    decreases logs.len(),
{
    if logs.len() > 0 {
        lemma_in_block_twice(logs.drop_last(), block, other);
        if logs.last().block_number == Some(block) {
            lemma_in_block_push(in_block(logs.drop_last(), block), logs.last(), other);
        }
    }
}

/// The logs of the first `n` groups, group after group.
spec fn joined<'a>(groups: Seq<(&'a u64, &'a Vec<PoolLog>)>, n: int) -> Seq<PoolLog>
    decreases n,
{
    if n <= 0 {
        Seq::empty()
    } else {
        joined(groups, n - 1) + groups[n - 1].1@
    }
}

/// The groups stand by ascending block, and each holds the logs of its
/// block, in the order in which `logs` holds them.
spec fn groups_by_block<'a>(groups: Seq<(&'a u64, &'a Vec<PoolLog>)>, logs: Seq<PoolLog>) -> bool {
    &&& forall|i: int, j: int| 0 <= i < j < groups.len() ==> *(#[trigger] groups[i]).0 < *(#[trigger] groups[j]).0
    &&& forall|i: int| 0 <= i < groups.len() ==> (#[trigger] groups[i]).1@ == in_block(logs, *groups[i].0)
}

/// Keys that a map hands out in increasing order ascend.
proof fn lemma_increasing_keys(keys: Seq<u64>)
    requires
        increasing_seq(keys),
    ensures
        forall|i: int, j: int| 0 <= i < j < keys.len() ==> keys[i] < keys[j],
{
    broadcast use vstd::std_specs::btree::group_btree_axioms;
    broadcast use vstd::laws_cmp::group_laws_cmp;

    assert forall|i: int, j: int| 0 <= i < j < keys.len() implies keys[i] < keys[j] by {
        assert(keys[i].cmp_spec(&keys[j]) is Less);
    }
}

/// The first `n` groups, joined, are ascending, none of their logs is of a
/// later block than the last of these groups, and of each block they hold
/// what its group holds, or nothing where no group is of that block.
proof fn lemma_joined_groups<'a>(groups: Seq<(&'a u64, &'a Vec<PoolLog>)>, logs: Seq<PoolLog>, n: int)
    requires
        groups_by_block(groups, logs),
        0 <= n <= groups.len(),
    ensures
        ascending(joined(groups, n)),
        forall|p: int|
            0 <= p < joined(groups, n).len() ==> n > 0 && block_of(#[trigger] joined(groups, n)[p])
                <= *groups[n - 1].0,
        forall|i: int|
            0 <= i < n ==> in_block(joined(groups, n), *(#[trigger] groups[i]).0) == in_block(logs, *groups[i].0),
        forall|block: u64|
            (forall|i: int| 0 <= i < n ==> *(#[trigger] groups[i]).0 != block) ==> #[trigger] in_block(
                joined(groups, n),
                block,
            ) == Seq::<PoolLog>::empty(),
    decreases n,
{
    if n > 0 {
        lemma_joined_groups(groups, logs, n - 1);
        let before = joined(groups, n - 1);
        let key = *groups[n - 1].0;
        let group = groups[n - 1].1@;
        let all = joined(groups, n);
        assert(all == before + group);
        assert(group == in_block(logs, key));
        lemma_in_block_members(logs, key);
        assert forall|p: int| 0 <= p < all.len() implies (#[trigger] all[p]).block_number is Some && block_of(all[p])
            <= key && (p >= before.len() ==> block_of(all[p]) == key) by {
            if p < before.len() {
                assert(all[p] == before[p]);
                assert(*groups[n - 2].0 < *groups[n - 1].0);
            } else {
                assert(all[p] == group[p - before.len()]);
            }
        }
        assert forall|p: int, q: int| 0 <= p <= q < all.len() implies block_of(#[trigger] all[p]) <= block_of(
            #[trigger] all[q],
        ) by {
            if q < before.len() {
                assert(all[p] == before[p] && all[q] == before[q]);
            }
        }
        assert forall|block: u64| #[trigger] in_block(all, block) == in_block(before, block) + in_block(
            group,
            block,
        ) by {
            lemma_in_block_add(before, group, block);
        }
        assert forall|i: int| 0 <= i < n implies in_block(all, *(#[trigger] groups[i]).0) == in_block(
            logs,
            *groups[i].0,
        ) by {
            let block = *groups[i].0;
            lemma_in_block_twice(logs, key, block);
            if i < n - 1 {
                assert(*groups[i].0 < *groups[n - 1].0);
                assert(in_block(before, block) + Seq::<PoolLog>::empty() =~= in_block(before, block));
            } else {
                assert forall|j: int| 0 <= j < n - 1 implies *(#[trigger] groups[j]).0 != block by {
                    assert(*groups[j].0 < *groups[n - 1].0);
                }
                assert(Seq::<PoolLog>::empty() + group =~= group);
            }
        }
        assert forall|block: u64| (forall|i: int| 0 <= i < n ==> *(#[trigger] groups[i]).0 != block) implies #[trigger] in_block(
            all,
            block,
        ) == Seq::<PoolLog>::empty() by {
            lemma_in_block_twice(logs, key, block);
            assert(*groups[n - 1].0 != block);
            assert forall|i: int| 0 <= i < n - 1 implies *(#[trigger] groups[i]).0 != block by {}
            assert(in_block(before, block) + Seq::<PoolLog>::empty() =~= in_block(before, block));
        }
    }
}

/// Groups that list every block of which `logs` holds a log give, joined,
/// the block order of `logs`.
proof fn lemma_groups_give_order<'a>(groups: Seq<(&'a u64, &'a Vec<PoolLog>)>, logs: Seq<PoolLog>)
    requires
        groups_by_block(groups, logs),
        forall|block: u64|
            (forall|i: int| 0 <= i < groups.len() ==> *(#[trigger] groups[i]).0 != block) ==> #[trigger] in_block(
                logs,
                block,
            ) == Seq::<PoolLog>::empty(),
    ensures
        is_block_order(joined(groups, groups.len() as int), logs),
{
    let n = groups.len() as int;
    lemma_joined_groups(groups, logs, n);
    assert forall|block: u64| #[trigger] in_block(joined(groups, n), block) == in_block(logs, block) by {
        if exists|i: int| 0 <= i < n && *(#[trigger] groups[i]).0 == block {
            let i = choose|i: int| 0 <= i < n && *(#[trigger] groups[i]).0 == block;
            assert(in_block(joined(groups, n), *groups[i].0) == in_block(logs, *groups[i].0));
        }
    }
}

impl Rpc {
    /// Puts fetched logs into the order in which they are applied: ascending
    /// by block, the logs of one block in the order in which they were
    /// fetched. A pending log, which no block holds yet, is left out.
    pub fn order_logs(logs: Vec<PoolLog>) -> (ordered: Vec<PoolLog>)
        ensures
            ordered@ == block_ordered(logs@),
            is_block_order(ordered@, logs@),
    {
        broadcast use vstd::std_specs::btree::group_btree_axioms;

        let mut groups: BTreeMap<u64, Vec<PoolLog>> = BTreeMap::new();
        let mut i: usize = 0;
        proof {
            assert(logs@.take(0) =~= Seq::empty());
        }
        while i < logs.len()
            invariant
                i <= logs.len(),
                forall|block: u64| #[trigger]
                    groups@.contains_key(block) ==> groups@[block]@ == in_block(logs@.take(i as int), block),
                forall|block: u64|
                    !groups@.contains_key(block) ==> #[trigger] in_block(logs@.take(i as int), block) == Seq::<
                        PoolLog,
                    >::empty(),
            decreases logs.len() - i,
        {
            let log = logs[i];
            let ghost before = groups@;
            proof {
                assert(logs@.take(i + 1) =~= logs@.take(i as int).push(log));
                assert forall|block: u64|
                    in_block(logs@.take(i + 1), block) == if log.block_number == Some(block) {
                        in_block(logs@.take(i as int), block).push(log)
                    } else {
                        in_block(logs@.take(i as int), block)
                    } by {
                    lemma_in_block_push(logs@.take(i as int), log, block);
                }
            }
            match log.block_number {
                Some(block_number) => {
                    let mut log_group: Vec<PoolLog> = match groups.remove(&block_number) {
                        Some(log_group) => log_group,
                        None => Vec::new(),
                    };
                    proof {
                        assert(!before.contains_key(block_number) ==> in_block(logs@.take(i as int), block_number)
                            == Seq::<PoolLog>::empty());
                        assert(log_group@ == in_block(logs@.take(i as int), block_number));
                    }
                    log_group.push(log);
                    groups.insert(block_number, log_group);
                    proof {
                        assert forall|block: u64| #[trigger] groups@.contains_key(block) implies groups@[block]@
                            == in_block(logs@.take(i + 1), block) by {
                            if block != block_number {
                                assert(before.contains_key(block));
                            }
                        }
                        assert forall|block: u64| !groups@.contains_key(block) implies #[trigger] in_block(
                            logs@.take(i + 1),
                            block,
                        ) == Seq::<PoolLog>::empty() by {
                            assert(!before.contains_key(block));
                            assert(in_block(logs@.take(i as int), block) == Seq::<PoolLog>::empty());
                        }
                    }
                },
                None => {
                    proof {
                        assert forall|block: u64| !groups@.contains_key(block) implies #[trigger] in_block(
                            logs@.take(i + 1),
                            block,
                        ) == Seq::<PoolLog>::empty() by {
                            assert(in_block(logs@.take(i as int), block) == Seq::<PoolLog>::empty());
                        }
                    }
                },
            }
            i = i + 1;
        }
        proof {
            assert(logs@.take(i as int) =~= logs@);
        }
        let mut ordered: Vec<PoolLog> = Vec::new();
        let by_block = groups.iter();
        proof {
            let listed = by_block.remaining();
            let keys = listed.map_values(|kv: (&u64, &Vec<PoolLog>)| *kv.0);
            lemma_increasing_keys(keys);
            assert forall|p: int, q: int| 0 <= p < q < listed.len() implies *(#[trigger] listed[p]).0 < *(
            #[trigger] listed[q]).0 by {
                assert(keys[p] < keys[q]);
            }
            assert forall|p: int| 0 <= p < listed.len() implies (#[trigger] listed[p]).1@ == in_block(
                logs@,
                *listed[p].0,
            ) by {
                assert(groups@.contains_key(*listed[p].0));
            }
            assert(groups_by_block(listed, logs@));
            assert forall|block: u64|
                (forall|p: int| 0 <= p < listed.len() ==> *(#[trigger] listed[p]).0 != block) implies #[trigger] in_block(
                    logs@,
                    block,
                ) == Seq::<PoolLog>::empty() by {
                if groups@.contains_key(block) {
                    assert(listed.contains((&block, &groups@[block])));
                    let p = choose|p: int| 0 <= p < listed.len() && listed[p] == (&block, &groups@[block]);
                    assert(*listed[p].0 == block);
                }
            }
            lemma_groups_give_order(listed, logs@);
        }
        for entry in it: by_block
            invariant
                groups_by_block(it.seq(), logs@),
                ordered@ == joined(it.seq(), it.index()),
                is_block_order(joined(it.seq(), it.seq().len() as int), logs@),
        {
            let (_, log_group) = entry;
            let ghost before = ordered@;
            let mut k: usize = 0;
            while k < log_group.len()
                invariant
                    k <= log_group.len(),
                    ordered@ == before + log_group@.take(k as int),
                decreases log_group.len() - k,
            {
                ordered.push(log_group[k]);
                proof {
                    assert(ordered@ =~= before + log_group@.take(k + 1));
                }
                k = k + 1;
            }
            proof {
                assert(log_group@.take(k as int) =~= log_group@);
            }
        }
        proof {
            law_block_ordered(logs@);
            law_block_order_unique(ordered@, block_ordered(logs@), logs@);
        }
        ordered
    }
}

} // verus!
