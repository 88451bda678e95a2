//! The index: where the value of each key lies.

use crate::input_kv::{same_bytes, T4Key, ValueRef};
use std::collections::HashMap;
use vstd::prelude::*;

verus! {

const HASH_START: u64 = 0xcbf2_9ce4_8422_2325;

const HASH_FACTOR: u64 = 0x0000_0100_0000_01b3;

/// The bucket of a key.
pub open spec fn hash_of(key: Seq<u8>) -> u64
    decreases key.len(),
{
    if key.len() == 0 {
        0xcbf2_9ce4_8422_2325
    } else {
        (hash_of(key.drop_last()) ^ (key.last() as u64)).wrapping_mul(0x0000_0100_0000_01b3)
    }
}

/// The bucket of a key.
pub fn hash_key(key: &[u8]) -> (hash: u64)
    ensures
        hash == hash_of(key@),
{
    let mut hash: u64 = HASH_START;
    let mut i: usize = 0;
    assert(key@.take(0).len() == 0);
    while i < key.len()
        invariant
            i <= key@.len(),
            hash == hash_of(key@.take(i as int)),
        decreases key@.len() - i,
    {
        assert(key@.take(i + 1).drop_last() =~= key@.take(i as int));
        hash = (hash ^ (key[i] as u64)).wrapping_mul(HASH_FACTOR);
        i = i + 1;
    }
    assert(key@.take(i as int) =~= key@);
    hash
}

#[derive(Debug)]
pub struct Slot {
    pub key: T4Key,
    pub value: ValueRef,
}

/// The value of a key in a bucket.
pub open spec fn find(slots: Seq<Slot>, key: Seq<u8>) -> Option<ValueRef>
    decreases slots.len(),
{
    if slots.len() == 0 {
        None
    } else if slots.last().key@ == key {
        Some(slots.last().value)
    } else {
        find(slots.drop_last(), key)
    }
}

/// No key is twice in the bucket.
pub open spec fn distinct(slots: Seq<Slot>) -> bool {
    forall|i: int, j: int| 0 <= i < j < slots.len() ==> (#[trigger] slots[i]).key@ != (#[trigger] slots[j]).key@
}

proof fn lemma_find(slots: Seq<Slot>, key: Seq<u8>)
    ensures
        find(slots, key) is None <==> forall|i: int| 0 <= i < slots.len() ==> (#[trigger] slots[i]).key@ != key,
        distinct(slots) ==> forall|i: int|
            0 <= i < slots.len() && (#[trigger] slots[i]).key@ == key ==> find(slots, key) == Some(slots[i].value),
    decreases slots.len(),
{
    if slots.len() > 0 {
        let rest = slots.drop_last();
        lemma_find(rest, key);
        assert forall|i: int| 0 <= i < rest.len() implies #[trigger] slots[i] == rest[i] by {}
        if slots.last().key@ == key {
            assert(slots[slots.len() - 1].key@ == key);
        } else if find(rest, key) is None {
            assert forall|i: int| 0 <= i < slots.len() implies (#[trigger] slots[i]).key@ != key by {
                if i < rest.len() {
                    assert(rest[i].key@ != key);
                }
            }
        } else {
            let i = choose|i: int| 0 <= i < rest.len() && (#[trigger] rest[i]).key@ == key;
            assert(slots[i].key@ == key);
        }
        if distinct(slots) {
            assert forall|i: int, j: int| 0 <= i < j < rest.len() implies (#[trigger] rest[i]).key@ != (
            #[trigger] rest[j]).key@ by {
                assert(slots[i].key@ != slots[j].key@);
            }
            assert forall|i: int| 0 <= i < slots.len() && (#[trigger] slots[i]).key@ == key implies find(slots, key)
                == Some(slots[i].value) by {
                if i < rest.len() {
                    assert(rest[i].key@ == key);
                    assert(slots[i].key@ != slots[slots.len() - 1].key@);
                }
            }
        }
    }
}

/// The keys of the store, each with the place of its value.
#[derive(Debug)]
pub struct Index {
    buckets: HashMap<u64, Vec<Slot>>,
    count: usize,
}

/// The slots of a bucket.
spec fn slots_in(buckets: Map<u64, Vec<Slot>>, hash: u64) -> Seq<Slot> {
    if buckets.dom().contains(hash) {
        buckets[hash]@
    } else {
        Seq::empty()
    }
}

/// The map that buckets stand for.
spec fn as_map(buckets: Map<u64, Vec<Slot>>) -> Map<Seq<u8>, ValueRef> {
    Map::new(
        |key: Seq<u8>| find(slots_in(buckets, hash_of(key)), key) is Some,
        |key: Seq<u8>| find(slots_in(buckets, hash_of(key)), key)->0,
    )
}

impl View for Index {
    type V = Map<Seq<u8>, ValueRef>;

    closed spec fn view(&self) -> Map<Seq<u8>, ValueRef> {
        as_map(self.buckets@)
    }
}

impl Index {
    /// Each key is in its bucket, once.
    pub closed spec fn wf(self) -> bool {
        &&& forall|hash: u64| distinct(#[trigger] slots_in(self.buckets@, hash))
        &&& forall|hash: u64, i: int|
            0 <= i < slots_in(self.buckets@, hash).len() ==> hash_of((#[trigger] slots_in(self.buckets@, hash)[i]).key@)
                == hash
        &&& self@.dom().finite()
        &&& self.count == self@.dom().len()
    }

    pub proof fn lemma_finite(self)
        requires
            self.wf(),
        ensures
            self@.dom().finite(),
            self@.dom().len() <= usize::MAX,
    {
    }

    pub fn new() -> (index: Index)
        ensures
            index.wf(),
            index@ == Map::<Seq<u8>, ValueRef>::empty(),
    {
        let index = Index { buckets: HashMap::new(), count: 0 };
        assert(index@ =~= Map::<Seq<u8>, ValueRef>::empty());
        index
    }

    /// Where the value of a key lies.
    pub fn get(&self, key: &[u8]) -> (value: Option<ValueRef>)
        requires
            self.wf(),
        ensures
            value == (if self@.dom().contains(key@) {
                Some(self@[key@])
            } else {
                None
            }),
    {
        broadcast use vstd::std_specs::hash::group_hash_axioms;

        let hash: u64 = hash_key(key);
        match self.buckets.get(&hash) {
            None => None,
            Some(slots) => {
                let ghost all = slots@;
                assert(all == slots_in(self.buckets@, hash));
                let mut i: usize = 0;
                while i < slots.len()
                    invariant
                        i <= slots@.len(),
                        slots@ == all,
                        all == slots_in(self.buckets@, hash),
                        hash == hash_of(key@),
                        distinct(all),
                        forall|k: int| 0 <= k < i ==> (#[trigger] all[k]).key@ != key@,
                    ensures
                        i == all.len(),
                    decreases slots@.len() - i,
                {
                    if same_bytes(slots[i].key.as_bytes(), key) {
                        proof {
                            lemma_find(all, key@);
                            assert(all[i as int].key@ == key@);
                        }
                        return Some(slots[i].value);
                    }
                    i = i + 1;
                }
                proof {
                    lemma_find(all, key@);
                }
                None
            },
        }
    }

    pub fn len(&self) -> (len: usize)
        requires
            self.wf(),
        ensures
            len == self@.dom().len(),
            self@.dom().finite(),
    {
        self.count
    }

    pub fn is_empty(&self) -> (empty: bool)
        requires
            self.wf(),
        ensures
            empty == (self@ == Map::<Seq<u8>, ValueRef>::empty()),
    {
        proof {
            if self.count == 0 {
                assert(self@ =~= Map::<Seq<u8>, ValueRef>::empty()) by {
                    assert forall|k: Seq<u8>| !self@.dom().contains(k) by {
                        if self@.dom().contains(k) {
                            assert(self@.dom().remove(k).len() < self@.dom().len());
                        }
                    }
                }
            } else if self@ == Map::<Seq<u8>, ValueRef>::empty() {
                assert(self@.dom() =~= Set::empty());
            }
        }
        self.count == 0
    }

    /// Sets where the value of a key lies.
    #[verifier::rlimit(50)]
    pub fn insert(&mut self, key: T4Key, value: ValueRef)
        requires
            old(self).wf(),
            old(self)@.dom().len() < usize::MAX,
        ensures
            final(self).wf(),
            final(self)@ == old(self)@.insert(key@, value),
    {
        broadcast use vstd::std_specs::hash::group_hash_axioms;

        let ghost before = self.buckets@;
        let ghost k = key@;
        let hash: u64 = hash_key(key.as_bytes());
        let mut slots: Vec<Slot> = match self.buckets.remove(&hash) {
            Some(slots) => slots,
            None => Vec::new(),
        };
        let ghost all = slots@;
        proof {
            assert(all =~= slots_in(before, hash));
            assert(distinct(all));
            assert forall|m: int| 0 <= m < all.len() implies hash_of((#[trigger] all[m]).key@) == hash by {
                assert(hash_of(slots_in(before, hash)[m].key@) == hash);
            }
        }
        let mut i: usize = 0;
        while i < slots.len()
            invariant_except_break
                slots@ == all,
            invariant
                i <= all.len(),
                slots@.len() == all.len(),
                distinct(all),
                forall|m: int| 0 <= m < i ==> (#[trigger] all[m]).key@ != key@,
            ensures
                i < all.len() ==> slots@ == all && all[i as int].key@ == key@,
                i == all.len() ==> slots@ == all,
            decreases all.len() - i,
        {
            if same_bytes(slots[i].key.as_bytes(), key.as_bytes()) {
                break;
            }
            i = i + 1;
        }
        if i < slots.len() {
            slots[i].value = value;
        } else {
            slots.push(Slot { key, value });
            self.count = self.count + 1;
        }
        let ghost changed = slots@;
        self.buckets.insert(hash, slots);
        proof {
            let after = self.buckets@;
            assert forall|h: u64| #[trigger] slots_in(after, h) == (if h == hash {
                changed
            } else {
                slots_in(before, h)
            }) by {}
            lemma_find(all, k);
            assert(i < all.len() ==> forall|m: int|
                0 <= m < changed.len() ==> (#[trigger] changed[m]).key@ == all[m].key@);
            assert(distinct(changed)) by {
                assert forall|x: int, y: int| 0 <= x < y < changed.len() implies (#[trigger] changed[x]).key@ != (
                #[trigger] changed[y]).key@ by {
                    if y < all.len() {
                        assert(all[x].key@ != all[y].key@);
                    } else {
                        assert(all[x].key@ != k);
                    }
                }
            }
            assert forall|x: Seq<u8>| x != k && hash_of(x) == hash implies #[trigger] find(changed, x) == find(all, x) by {
                lemma_find_others(all, changed, i as int, k, x);
            }
            assert(find(changed, k) == Some(value)) by {
                lemma_find(changed, k);
                assert(changed[i as int].key@ == k);
            }
            assert(as_map(after) =~= as_map(before).insert(k, value));
            assert forall|h: u64, m: int| 0 <= m < slots_in(after, h).len() implies hash_of(
                (#[trigger] slots_in(after, h)[m]).key@,
            ) == h by {
                if h == hash {
                    if m < all.len() {
                        assert(changed[m].key@ == all[m].key@);
                    }
                } else {
                    assert(slots_in(after, h)[m] == slots_in(before, h)[m]);
                }
            }
        }
    }

    /// Forgets a key, and says whether it was there.
    #[verifier::rlimit(50)]
    pub fn remove(&mut self, key: &[u8]) -> (existed: bool)
        requires
            old(self).wf(),
        ensures
            final(self).wf(),
            final(self)@ == old(self)@.remove(key@),
            existed == old(self)@.dom().contains(key@),
    {
        broadcast use vstd::std_specs::hash::group_hash_axioms;

        let ghost before = self.buckets@;
        let ghost k = key@;
        let hash: u64 = hash_key(key);
        let mut slots: Vec<Slot> = match self.buckets.remove(&hash) {
            Some(slots) => slots,
            None => Vec::new(),
        };
        let ghost all = slots@;
        proof {
            assert(all =~= slots_in(before, hash));
            assert(distinct(all));
            assert forall|m: int| 0 <= m < all.len() implies hash_of((#[trigger] all[m]).key@) == hash by {
                assert(hash_of(slots_in(before, hash)[m].key@) == hash);
            }
        }
        let mut i: usize = 0;
        while i < slots.len()
            invariant
                i <= all.len(),
                slots@ == all,
                distinct(all),
                forall|m: int| 0 <= m < i ==> (#[trigger] all[m]).key@ != key@,
            ensures
                i < all.len() ==> all[i as int].key@ == key@,
            decreases all.len() - i,
        {
            if same_bytes(slots[i].key.as_bytes(), key) {
                break;
            }
            i = i + 1;
        }
        let existed: bool = i < slots.len();
        proof {
            lemma_find(all, k);
            assert(existed == as_map(before).dom().contains(k));
            if existed {
                assert(as_map(before).dom().remove(k).len() < as_map(before).dom().len());
            }
        }
        if existed {
            let _slot = slots.remove(i);
            self.count = self.count - 1;
        }
        let ghost changed = slots@;
        self.buckets.insert(hash, slots);
        proof {
            let after = self.buckets@;
            assert forall|h: u64| #[trigger] slots_in(after, h) == (if h == hash {
                changed
            } else {
                slots_in(before, h)
            }) by {}
            assert(changed =~= if existed { all.remove(i as int) } else { all });
            assert forall|m: int| 0 <= m < changed.len() implies #[trigger] changed[m] == all[if existed && m >= i {
                m + 1
            } else {
                m
            }] by {}
            assert(distinct(changed)) by {
                assert forall|x: int, y: int| 0 <= x < y < changed.len() implies (#[trigger] changed[x]).key@ != (
                #[trigger] changed[y]).key@ by {
                    let ox = if existed && x >= i { x + 1 } else { x };
                    let oy = if existed && y >= i { y + 1 } else { y };
                    assert(all[ox].key@ != all[oy].key@);
                }
            }
            assert(find(changed, k) is None) by {
                lemma_find(changed, k);
                assert forall|m: int| 0 <= m < changed.len() implies (#[trigger] changed[m]).key@ != k by {
                    let om = if existed && m >= i { m + 1 } else { m };
                    if existed {
                        if om < i {
                            assert(all[om].key@ != all[i as int].key@);
                        } else {
                            assert(all[i as int].key@ != all[om].key@);
                        }
                    }
                }
            }
            assert forall|x: Seq<u8>| x != k && hash_of(x) == hash implies #[trigger] find(changed, x) == find(all, x) by {
                lemma_find(all, x);
                lemma_find(changed, x);
                if find(all, x) is Some {
                    let m = choose|m: int| 0 <= m < all.len() && (#[trigger] all[m]).key@ == x;
                    let cm = if existed && m > i { m - 1 } else { m };
                    assert(changed[cm] == all[m]);
                } else {
                    assert forall|m: int| 0 <= m < changed.len() implies (#[trigger] changed[m]).key@ != x by {
                        let om = if existed && m >= i { m + 1 } else { m };
                        assert(all[om].key@ != x);
                    }
                }
            }
            assert(as_map(after) =~= as_map(before).remove(k));
            assert forall|h: u64, m: int| 0 <= m < slots_in(after, h).len() implies hash_of(
                (#[trigger] slots_in(after, h)[m]).key@,
            ) == h by {
                if h == hash {
                    let om = if existed && m >= i { m + 1 } else { m };
                    assert(hash_of(all[om].key@) == hash);
                } else {
                    assert(slots_in(after, h)[m] == slots_in(before, h)[m]);
                }
            }
        }
        existed
    }
}

/// Changing or adding the slot of one key leaves the others alone.
proof fn lemma_find_others(all: Seq<Slot>, changed: Seq<Slot>, i: int, k: Seq<u8>, x: Seq<u8>)
    requires
        distinct(all),
        distinct(changed),
        0 <= i <= all.len(),
        changed.len() == (if i < all.len() {
            all.len()
        } else {
            all.len() + 1
        }),
        forall|m: int| 0 <= m < all.len() && m != i ==> #[trigger] changed[m] == all[m],
        changed[i].key@ == k,
        i < all.len() ==> all[i].key@ == k,
        x != k,
    ensures
        find(changed, x) == find(all, x),
{
    lemma_find(all, x);
    lemma_find(changed, x);
    if find(all, x) is Some {
        let m = choose|m: int| 0 <= m < all.len() && (#[trigger] all[m]).key@ == x;
        assert(changed[m] == all[m]);
    } else {
        assert forall|m: int| 0 <= m < changed.len() implies (#[trigger] changed[m]).key@ != x by {
            if m < all.len() && m != i {
                assert(all[m].key@ != x);
            }
        }
    }
}

} // verus!
