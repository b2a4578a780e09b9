//! Finding a pool by its address without walking all pools.

use crate::primitives::Address;
use std::collections::HashMap;
use vstd::prelude::*;

verus! {

/// The last position at which `addresses` holds `address`.
pub open spec fn last_index_of(addresses: Seq<Address>, address: Address) -> Option<int>
    decreases addresses.len(),
{
    if addresses.len() == 0 {
        None
    } else if addresses.last() == address {
        Some(addresses.len() - 1)
    } else {
        last_index_of(addresses.drop_last(), address)
    }
}

/// `last_index_of` names a position that holds the address and behind which
/// none does; it names none only where no position holds the address.
pub proof fn law_last_index(addresses: Seq<Address>, address: Address)
    ensures
        match last_index_of(addresses, address) {
            Some(i) => 0 <= i < addresses.len() && addresses[i] == address && forall|j: int|
                i < j < addresses.len() ==> addresses[j] != address,
            None => forall|j: int| 0 <= j < addresses.len() ==> addresses[j] != address,
        },
    decreases addresses.len(),
{
    if addresses.len() > 0 && addresses.last() != address {
        law_last_index(addresses.drop_last(), address);
        assert forall|j: int| 0 <= j < addresses.len() - 1 implies addresses.drop_last()[j] == addresses[j] by {}
    }
}

proof fn lemma_last_index_is(addresses: Seq<Address>, address: Address, i: int)
    requires
        0 <= i < addresses.len(),
        addresses[i] == address,
        forall|j: int| i < j < addresses.len() ==> addresses[j] != address,
    ensures
        last_index_of(addresses, address) == Some(i),
{
    law_last_index(addresses, address);
}

proof fn lemma_last_index_none(addresses: Seq<Address>, address: Address)
    requires
        forall|j: int| 0 <= j < addresses.len() ==> addresses[j] != address,
    ensures
        last_index_of(addresses, address) is None,
{
    law_last_index(addresses, address);
}

/// Whether `bucket` lists, in ascending order and with the upper word of
/// each, the positions of the addresses whose lower word is `lo`.
spec fn bucket_lists(bucket: Seq<(u32, usize)>, addresses: Seq<Address>, lo: u128) -> bool {
    &&& forall|e: int|
        0 <= e < bucket.len() ==> (#[trigger] bucket[e]).1 < addresses.len() && addresses[bucket[e].1 as int] == (
        Address { hi: bucket[e].0, lo })
    &&& forall|e: int, f: int| 0 <= e < f < bucket.len() ==> (#[trigger] bucket[e]).1 < (#[trigger] bucket[f]).1
    &&& forall|i: int|
        0 <= i < addresses.len() && (#[trigger] addresses[i]).lo == lo ==> exists|e: int|
            0 <= e < bucket.len() && (#[trigger] bucket[e]).1 == i
}

/// An index from address to position over a sequence of addresses. Lookup
/// takes one hash of the lower word of the address and a walk over the few
/// positions that share it.
pub struct AddressIndex {
    buckets: HashMap<u128, Vec<(u32, usize)>>,
    addresses: Ghost<Seq<Address>>,
}

impl AddressIndex {
    /// The addresses that the index covers, by position.
    pub closed spec fn addresses(&self) -> Seq<Address> {
        self.addresses@
    }

    /// The index agrees with the addresses that it covers.
    pub closed spec fn wf(&self) -> bool {
        &&& forall|lo: u128| #[trigger]
            self.buckets@.contains_key(lo) ==> bucket_lists(self.buckets@[lo]@, self.addresses@, lo)
        &&& forall|i: int|
            0 <= i < self.addresses@.len() ==> self.buckets@.contains_key((#[trigger] self.addresses@[i]).lo)
    }

    /// An index over no address.
    pub fn new() -> (index: AddressIndex)
        ensures
            index.wf(),
            index.addresses() == Seq::<Address>::empty(),
    {
        AddressIndex { buckets: HashMap::new(), addresses: Ghost(Seq::empty()) }
    }

    /// Adds the address that stands at `position`, right behind those
    /// covered so far.
    pub fn push(&mut self, address: Address, position: usize)
        requires
            old(self).wf(),
            position == old(self).addresses().len(),
        ensures
            final(self).wf(),
            final(self).addresses() == old(self).addresses().push(address),
    {
        broadcast use vstd::std_specs::hash::group_hash_axioms;

        let ghost before = self.addresses@;
        let ghost old_buckets = self.buckets@;
        let mut bucket: Vec<(u32, usize)> = match self.buckets.remove(&address.lo) {
            Some(bucket) => bucket,
            None => Vec::new(),
        };
        let ghost old_bucket = bucket@;
        bucket.push((address.hi, position));
        let ghost new_bucket = bucket@;
        self.buckets.insert(address.lo, bucket);
        self.addresses = Ghost(before.push(address));
        proof {
            let after = before.push(address);
            assert(self.buckets@ =~= old_buckets.insert(address.lo, self.buckets@[address.lo]));
            assert(old_buckets.contains_key(address.lo) ==> bucket_lists(old_bucket, before, address.lo));
            if !old_buckets.contains_key(address.lo) {
                assert forall|i: int| 0 <= i < before.len() implies (#[trigger] before[i]).lo != address.lo by {
                    assert(old_buckets.contains_key(before[i].lo));
                }
            }
            assert(bucket_lists(new_bucket, after, address.lo)) by {
                assert forall|e: int| 0 <= e < new_bucket.len() implies (#[trigger] new_bucket[e]).1 < after.len()
                    && after[new_bucket[e].1 as int] == (Address { hi: new_bucket[e].0, lo: address.lo }) by {
                    if e < old_bucket.len() {
                        assert(new_bucket[e] == old_bucket[e]);
                        assert(after[old_bucket[e].1 as int] == before[old_bucket[e].1 as int]);
                    }
                }
                assert forall|e: int, f: int| 0 <= e < f < new_bucket.len() implies (#[trigger] new_bucket[e]).1 < (
                #[trigger] new_bucket[f]).1 by {
                    assert(new_bucket[e] == old_bucket[e]);
                    if f < old_bucket.len() {
                        assert(new_bucket[f] == old_bucket[f]);
                    }
                }
                assert forall|i: int| 0 <= i < after.len() && (#[trigger] after[i]).lo == address.lo implies exists|
                    e: int,
                | 0 <= e < new_bucket.len() && (#[trigger] new_bucket[e]).1 == i by {
                    if i < before.len() {
                        assert(before[i].lo == address.lo);
                        let e = choose|e: int| 0 <= e < old_bucket.len() && (#[trigger] old_bucket[e]).1 == i;
                        assert(new_bucket[e].1 == i);
                    } else {
                        assert(new_bucket[old_bucket.len() as int].1 == i);
                    }
                }
            }
            assert forall|lo: u128| #[trigger] self.buckets@.contains_key(lo) implies bucket_lists(
                self.buckets@[lo]@,
                after,
                lo,
            ) by {
                if lo != address.lo {
                    let b = old_buckets[lo]@;
                    assert(old_buckets.contains_key(lo));
                    assert(bucket_lists(b, before, lo));
                    assert forall|e: int| 0 <= e < b.len() implies (#[trigger] b[e]).1 < after.len() && after[b[e].1 as int]
                        == (Address { hi: b[e].0, lo }) by {
                        assert(after[b[e].1 as int] == before[b[e].1 as int]);
                    }
                    assert forall|i: int| 0 <= i < after.len() && (#[trigger] after[i]).lo == lo implies exists|e: int|
                        0 <= e < b.len() && (#[trigger] b[e]).1 == i by {
                        assert(before[i].lo == lo);
                    }
                }
            }
            assert forall|i: int| 0 <= i < after.len() implies self.buckets@.contains_key((#[trigger] after[i]).lo) by {
                if i < before.len() {
                    assert(old_buckets.contains_key(before[i].lo));
                }
            }
        }
    }

    /// The last position that holds `address`, if any does.
    pub fn lookup(&self, address: Address) -> (found: Option<usize>)
        requires
            self.wf(),
        ensures
            match found {
                Some(i) => last_index_of(self.addresses(), address) == Some(i as int),
                None => last_index_of(self.addresses(), address) is None,
            },
    {
        broadcast use vstd::std_specs::hash::group_hash_axioms;

        let ghost addresses = self.addresses@;
        match self.buckets.get(&address.lo) {
            None => {
                proof {
                    assert forall|j: int| 0 <= j < addresses.len() implies addresses[j] != address by {
                        assert(self.buckets@.contains_key(addresses[j].lo));
                    }
                    lemma_last_index_none(addresses, address);
                }
                None
            },
            Some(bucket) => {
                assert(self.buckets@.contains_key(address.lo));
                assert(bucket_lists(bucket@, addresses, address.lo));
                let mut e: usize = bucket.len();
                while e > 0
                    invariant
                        e <= bucket.len(),
                        addresses == self.addresses(),
                        bucket_lists(bucket@, addresses, address.lo),
                        forall|f: int| e <= f < bucket.len() ==> (#[trigger] bucket[f]).0 != address.hi,
                    decreases e,
                {
                    e = e - 1;
                    if bucket[e].0 == address.hi {
                        let position = bucket[e].1;
                        proof {
                            assert forall|j: int| position < j < addresses.len() implies addresses[j] != address by {
                                if addresses[j] == address {
                                    let f = choose|f: int| 0 <= f < bucket.len() && (#[trigger] bucket[f]).1 == j;
                                    if f <= e {
                                        if f < e {
                                            assert(bucket[f].1 < bucket[e as int].1);
                                        }
                                    } else {
                                        assert(bucket[f].0 != address.hi);
                                    }
                                }
                            }
                            lemma_last_index_is(addresses, address, position as int);
                        }
                        return Some(position);
                    }
                }
                proof {
                    assert forall|j: int| 0 <= j < addresses.len() implies addresses[j] != address by {
                        if addresses[j] == address {
                            let f = choose|f: int| 0 <= f < bucket.len() && (#[trigger] bucket[f]).1 == j;
                            assert(bucket[f].0 != address.hi);
                        }
                    }
                    lemma_last_index_none(addresses, address);
                }
                None
            },
        }
    }
}

} // verus!
