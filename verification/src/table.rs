//! The table: a fixed row of bucket lists, a key's bucket chosen by its
//! hash, and a running count of the keys that are bound.

use crate::linked_list::{
    all_active, lemma_without, lemma_without_nothing, places, unique_active, without, LinkedList,
    Node,
};
use crate::row::{
    all_retired, bindings, bound, bounded, bucket_of, collect, compact, entries, hash_of,
    lemma_live_insert, lemma_live_remove, lemma_placed_binding, lemma_placed_released,
    lemma_released, lemma_retired_slots, lemma_with_binding, lemma_without_binding, live, named,
    placed, released, slots_in, with_binding, without_binding, Retired,
};
use std::collections::hash_map::DefaultHasher;
use std::hash::Hasher;
use vstd::bytes::{spec_u64_to_le_bytes, u64_to_le_bytes};
use vstd::prelude::*;

verus! {

/// Hashes a key.
fn hash_key(key: u64) -> (hash: u64)
    ensures
        hash == hash_of(key),
{
    let bytes = u64_to_le_bytes(key);
    let mut hasher = DefaultHasher::new();
    hasher.write(bytes.as_slice());
    proof {
        assert(hasher@ =~= seq![spec_u64_to_le_bytes(key)]);
    }
    hasher.finish()
}

/// The table of buckets. Its view is the map from keys to values that its
/// chains bind.
#[derive(Debug)]
pub struct Table {
    nbuckets: usize,
    map: Vec<LinkedList>,
    nitems: usize,
}

impl View for Table {
    type V = Map<u64, u64>;

    open spec fn view(&self) -> Map<u64, u64> {
        bindings(self.chains())
    }
}

impl Table {
    /// The chains of the buckets, in order.
    pub closed spec fn chains(&self) -> Seq<Seq<Node>> {
        Seq::new(self.map@.len(), |b: int| self.map@[b]@)
    }

    /// The bucket count is fixed and positive, no chain binds a key twice,
    /// every node stands in its key's bucket, and the item counter shows the
    /// number of bound keys.
    pub closed spec fn wf(&self) -> bool {
        &&& self.nbuckets == self.map@.len()
        &&& self.nbuckets >= 1
        &&& forall|b: int| 0 <= b < self.map@.len() ==> unique_active(#[trigger] self.map@[b]@)
        &&& placed(self.chains())
        &&& self@.dom().finite()
        &&& self.nitems == live(self@)
    }

    /// A well-formed table has at least one bucket and none with doubles, and
    /// keeps every node in its key's bucket.
    pub proof fn lemma_wf(&self)
        requires
            self.wf(),
        ensures
            self.chains().len() >= 1,
            forall|b: int| 0 <= b < self.chains().len() ==> unique_active(#[trigger] self.chains()[b]),
            placed(self.chains()),
            self@.dom().finite(),
    {
    }

    /// The row and its chains are no longer than the machine can count.
    pub proof fn lemma_bounded(&self)
        ensures
            bounded(self.chains()),
    {
        assert(self.map@.len() == self.map.len());
        assert forall|b: int| 0 <= b < self.chains().len() implies (#[trigger] self.chains()[b]).len()
            <= usize::MAX by {
            self.map@[b].lemma_len();
        }
    }

    /// A table of `num_of_buckets` empty buckets.
    pub fn new(num_of_buckets: usize) -> (table: Table)
        requires
            num_of_buckets >= 1,
        ensures
            table.wf(),
            table.chains() == Seq::new(num_of_buckets as nat, |b: int| Seq::<Node>::empty()),
            table@ == Map::<u64, u64>::empty(),
    {
        let mut t = Table {
            nbuckets: num_of_buckets,
            map: Vec::with_capacity(num_of_buckets),
            nitems: 0,
        };
        let mut made: usize = 0;
        while made < num_of_buckets
            invariant
                made <= num_of_buckets,
                t.nbuckets == num_of_buckets,
                t.nitems == 0,
                t.map@.len() == made,
                forall|b: int| 0 <= b < made ==> (#[trigger] t.map@[b])@ == Seq::<Node>::empty(),
            decreases num_of_buckets - made,
        {
            t.map.push(LinkedList::new());
            made = made + 1;
        }
        proof {
            assert(t.chains() =~= Seq::new(num_of_buckets as nat, |b: int| Seq::<Node>::empty()));
            assert(t@ =~= Map::<u64, u64>::empty());
            assert(t@.dom() =~= Set::<u64>::empty());
            assert(t@.dom().len() == 0);
            assert(0nat % (usize::MAX as nat + 1) == 0);
            assert(live(t@) == 0);
            assert forall|b: int| 0 <= b < t.map@.len() implies unique_active(
                #[trigger] t.map@[b]@,
            ) by {}
        }
        t
    }

    /// How many buckets the table has.
    pub fn nbuckets(&self) -> (n: usize)
        requires
            self.wf(),
        ensures
            n == self.chains().len(),
    {
        self.nbuckets
    }

    /// The item counter: how many keys are bound.
    pub fn nitems(&self) -> (n: usize)
        requires
            self.wf(),
        ensures
            n == live(self@),
    {
        self.nitems
    }

    /// The bucket of a key.
    fn index(&self, key: u64) -> (index: usize)
        requires
            self.wf(),
        ensures
            index == bucket_of(key, self.chains().len()),
            index < self.map@.len(),
    {
        let hash = hash_key(key);
        let width: u64 = self.nbuckets as u64;
        (hash % width) as usize
    }

    /// The value bound to `key`. Nothing is retired, so `acc` stays as it is.
    pub fn get(&self, key: u64, acc: &mut Vec<Retired>) -> (found: Option<u64>)
        requires
            self.wf(),
        ensures
            found == bound(self@, key),
            final(acc)@ == old(acc)@,
    {
        let index = self.index(key);
        let mut local: Vec<usize> = Vec::new();
        let found = self.map[index].get(key, &mut local);
        hand_over(index, &local, acc);
        proof {
            assert(acc@ =~= old(acc)@);
        }
        found
    }

    /// Binds `key` to `value` and returns the value that was bound before.
    /// The node of that earlier binding is retired and named in `acc`. A key
    /// that was unbound counts as one more item.
    pub fn insert(&mut self, key: u64, value: u64, acc: &mut Vec<Retired>) -> (prev: Option<u64>)
        requires
            old(self).wf(),
        ensures
            final(self).wf(),
            final(self).chains() == with_binding(old(self).chains(), key, value),
            final(acc)@ == collect(old(acc)@, old(self).chains(), key),
            prev == bound(old(self)@, key),
            final(self)@ == old(self)@.insert(key, value),
    {
        let index = self.index(key);
        let mut local: Vec<usize> = Vec::new();
        let prev = self.map[index].insert(key, value, &mut local);
        hand_over(index, &local, acc);
        if prev.is_none() {
            self.nitems = self.nitems.wrapping_add(1);
        }
        proof {
            let before = old(self).chains();
            assert(self.chains() =~= with_binding(before, key, value));
            lemma_with_binding(before, key, value);
            lemma_placed_binding(before, key, value);
            lemma_live_insert(old(self)@, key, value);
            assert(acc@ =~= collect(old(acc)@, before, key));
        }
        prev
    }

    /// Unbinds `key` and returns the value that was bound. The node stays
    /// linked, retired, and is named in `acc`. A key that was bound counts
    /// as one item fewer.
    pub fn delete(&mut self, key: u64, acc: &mut Vec<Retired>) -> (removed: Option<u64>)
        requires
            old(self).wf(),
        ensures
            final(self).wf(),
            final(self).chains() == without_binding(old(self).chains(), key),
            final(acc)@ == collect(old(acc)@, old(self).chains(), key),
            removed == bound(old(self)@, key),
            final(self)@ == old(self)@.remove(key),
    {
        let index = self.index(key);
        let mut local: Vec<usize> = Vec::new();
        let removed = self.map[index].delete(key, &mut local);
        hand_over(index, &local, acc);
        if removed.is_some() {
            self.nitems = self.nitems.wrapping_sub(1);
        }
        proof {
            let before = old(self).chains();
            assert(self.chains() =~= without_binding(before, key));
            lemma_without_binding(before, key);
            lemma_placed_binding(before, key, 0);
            lemma_live_remove(old(self)@, key);
            assert(acc@ =~= collect(old(acc)@, before, key));
        }
        removed
    }

    /// Physically frees the retired nodes that `acc` names. No binding
    /// changes, and the item counter stays as it is.
    pub fn free(&mut self, acc: &Vec<Retired>)
        requires
            old(self).wf(),
            all_retired(old(self).chains(), acc@),
        ensures
            final(self).wf(),
            final(self).chains() == released(old(self).chains(), acc@),
            final(self)@ == old(self)@,
    {
        let mut j: usize = 0;
        while j < acc.len()
            invariant
                j <= acc.len(),
                old(self).wf(),
                all_retired(old(self).chains(), acc@),
                self.nbuckets == old(self).nbuckets,
                self.nitems == old(self).nitems,
                self.map@.len() == old(self).map@.len(),
                forall|b: int|
                    0 <= b < self.map@.len() ==> (#[trigger] self.map@[b])@ == if named(
                        acc@.take(j as int),
                        b,
                    ) {
                        without(old(self).map@[b]@, slots_in(acc@, b))
                    } else {
                        old(self).map@[b]@
                    },
            decreases acc.len() - j,
        {
            let bucket = acc[j].bucket;
            let seen = names(acc, j, bucket);
            if !seen {
                let slots = slots_of(acc, bucket);
                proof {
                    assert(old(self).chains()[bucket as int] == old(self).map@[bucket as int]@);
                    assert forall|n: int| 0 <= n < slots@.len() implies (#[trigger] slots@[n])
                        < self.map@[bucket as int]@.len() && !self.map@[bucket as int]@[slots@[n] as int].active by {
                        assert(places(slots@).contains(slots@[n] as int));
                        let m = choose|m: int|
                            0 <= m < acc@.len() && (#[trigger] acc@[m]).bucket == bucket
                                && acc@[m].slot == slots@[n] as int;
                        assert(acc@[m].slot < old(self).chains()[acc@[m].bucket as int].len());
                    }
                }
                self.map[bucket].free(&slots);
            }
            proof {
                let before = acc@.take(j as int);
                let after = acc@.take(j + 1);
                assert(after[j as int].bucket == bucket);
                assert forall|b: int| 0 <= b < self.map@.len() implies (named(after, b) <==> named(
                    before,
                    b,
                ) || b == bucket) by {
                    if named(before, b) {
                        let m = choose|m: int| 0 <= m < before.len() && (#[trigger] before[m]).bucket == b;
                        assert(after[m].bucket == b);
                    }
                    if named(after, b) && b != bucket {
                        let m = choose|m: int| 0 <= m < after.len() && (#[trigger] after[m]).bucket == b;
                        assert(before[m].bucket == b);
                    }
                }
            }
            j = j + 1;
        }
        proof {
            let before = old(self).chains();
            assert(acc@.take(j as int) =~= acc@);
            assert forall|b: int| 0 <= b < self.map@.len() implies (#[trigger] self.map@[b])@ == without(
                before[b],
                slots_in(acc@, b),
            ) && unique_active(self.map@[b]@) by {
                assert(before[b] == old(self).map@[b]@);
                if !named(acc@, b) {
                    assert(slots_in(acc@, b) =~= Set::<int>::empty());
                    lemma_without_nothing(before[b]);
                }
                lemma_retired_slots(before, acc@, b);
                lemma_without(before[b], slots_in(acc@, b));
            }
            assert(self.chains() =~= released(before, acc@));
            lemma_released(before, acc@);
            lemma_placed_released(before, acc@);
        }
    }

    /// Whether no retired node is linked any more.
    pub fn is_compact(&self) -> (clean: bool)
        ensures
            clean == compact(self.chains()),
    {
        let mut b: usize = 0;
        while b < self.map.len()
            invariant
                b <= self.map@.len(),
                forall|c: int| 0 <= c < b ==> all_active(#[trigger] self.map@[c]@),
            decreases self.map@.len() - b,
        {
            if !self.map[b].is_compact() {
                assert(!all_active(self.chains()[b as int]));
                return false;
            }
            b = b + 1;
        }
        assert forall|c: int| 0 <= c < self.chains().len() implies all_active(
            #[trigger] self.chains()[c],
        ) by {
            assert(all_active(self.map@[c]@));
        }
        true
    }
}

/// Whether one of the first `upto` entries names a node of `bucket`.
fn names(acc: &Vec<Retired>, upto: usize, bucket: usize) -> (found: bool)
    requires
        upto <= acc@.len(),
    ensures
        found == named(acc@.take(upto as int), bucket as int),
{
    let mut m: usize = 0;
    while m < upto
        invariant
            m <= upto <= acc@.len(),
            forall|n: int| 0 <= n < m ==> (#[trigger] acc@[n]).bucket != bucket,
        decreases upto - m,
    {
        if acc[m].bucket == bucket {
            assert(acc@.take(upto as int)[m as int].bucket == bucket);
            return true;
        }
        m = m + 1;
    }
    proof {
        let head = acc@.take(upto as int);
        assert forall|n: int| 0 <= n < head.len() implies (#[trigger] head[n]).bucket != bucket by {
            assert(head[n] == acc@[n]);
        }
    }
    false
}

/// The places in `bucket` that the accumulator names.
fn slots_of(acc: &Vec<Retired>, bucket: usize) -> (slots: Vec<usize>)
    ensures
        places(slots@) == slots_in(acc@, bucket as int),
{
    let mut slots: Vec<usize> = Vec::new();
    let mut m: usize = 0;
    while m < acc.len()
        invariant
            m <= acc@.len(),
            places(slots@) == slots_in(acc@.take(m as int), bucket as int),
        decreases acc@.len() - m,
    {
        let entry = acc[m];
        proof {
            let before = acc@.take(m as int);
            let after = acc@.take(m + 1);
            let grown = if entry.bucket == bucket {
                slots@.push(entry.slot)
            } else {
                slots@
            };
            assert forall|i: int| places(grown).contains(i) <==> slots_in(
                after,
                bucket as int,
            ).contains(i) by {
                if places(grown).contains(i) {
                    let n = choose|n: int| 0 <= n < grown.len() && #[trigger] grown[n] == i;
                    if n < slots@.len() {
                        assert(slots@[n] == i);
                        assert(places(slots@).contains(i));
                        let k = choose|k: int|
                            0 <= k < before.len() && (#[trigger] before[k]).bucket == bucket
                                && before[k].slot == i;
                        assert(after[k].bucket == bucket && after[k].slot == i);
                    } else {
                        assert(after[m as int].bucket == bucket && after[m as int].slot == i);
                    }
                }
                if slots_in(after, bucket as int).contains(i) {
                    let k = choose|k: int|
                        0 <= k < after.len() && (#[trigger] after[k]).bucket == bucket
                            && after[k].slot == i;
                    if k < m {
                        assert(before[k].bucket == bucket && before[k].slot == i);
                        assert(slots_in(before, bucket as int).contains(i));
                        assert(places(slots@).contains(i));
                        let n = choose|n: int| 0 <= n < slots@.len() && #[trigger] slots@[n] == i;
                        assert(grown[n] == i);
                    } else {
                        assert(grown[grown.len() - 1] == i);
                    }
                }
            }
            assert(places(grown) =~= slots_in(after, bucket as int));
        }
        if entry.bucket == bucket {
            slots.push(entry.slot);
        }
        m = m + 1;
    }
    proof {
        assert(acc@.take(m as int) =~= acc@);
    }
    slots
}

/// Names the given places of one bucket in the accumulator.
fn hand_over(bucket: usize, slots: &Vec<usize>, acc: &mut Vec<Retired>)
    ensures
        final(acc)@ == old(acc)@ + entries(bucket, slots@),
{
    let mut j: usize = 0;
    while j < slots.len()
        invariant
            j <= slots.len(),
            acc@ == old(acc)@ + entries(bucket, slots@.take(j as int)),
        decreases slots.len() - j,
    {
        acc.push(Retired { bucket, slot: slots[j] });
        proof {
            assert(acc@ =~= old(acc)@ + entries(bucket, slots@.take(j + 1)));
        }
        j = j + 1;
    }
    proof {
        assert(slots@.take(j as int) =~= slots@);
    }
}

} // verus!
