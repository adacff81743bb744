//! The map and its handles. The map owns the table and the epoch registry. A
//! handle is the token by which one user of the map works on it: it names
//! that user's epoch counter, and every operation goes through one.
//!
//! The operations of the handles are taken one after another on the map, so a
//! handle finds all its peers quiescent. Each operation steps the handle's
//! counter on the way in and on the way out, and frees what it has retired
//! after the barrier over the registry has passed.

use crate::epoch::{
    after_ops, all_quiescent, bumped, lemma_after_one, lemma_quiescent_passes, Registry,
};
use crate::linked_list::{fresh, Node};
use crate::row::{
    all_retired, bindings, bound, bounded, bucket_of, collect, compact, lemma_bucket_of,
    lemma_collect, lemma_compact_covers, lemma_prepend, lemma_released_compact,
    lemma_released_nothing, live, released, with_binding, without_binding, Retired,
};
use crate::table::Table;
use vstd::prelude::*;

verus! {

/// The table together with the registry of its handles' epoch counters.
#[derive(Debug)]
pub struct Hashmap {
    table: Table,
    handles: Registry,
}

/// A registered user of a map.
#[derive(Debug)]
pub struct MapHandle {
    slot: usize,
}

impl View for Hashmap {
    type V = Map<u64, u64>;

    closed spec fn view(&self) -> Map<u64, u64> {
        self.table@
    }
}

impl Hashmap {
    /// The chains of the buckets, in order.
    pub closed spec fn chains(&self) -> Seq<Seq<Node>> {
        self.table.chains()
    }

    /// The epoch counters of the handles, in the order of their registration.
    pub closed spec fn epochs(&self) -> Seq<usize> {
        self.handles@
    }

    /// The table is well formed.
    pub closed spec fn table_wf(&self) -> bool {
        self.table.wf()
    }

    /// Between operations the table is well formed, every retired node has
    /// been freed, and every handle is quiescent.
    pub open spec fn wf(&self) -> bool {
        &&& self.table_wf()
        &&& compact(self.chains())
        &&& all_quiescent(self.epochs())
    }

    /// The handle is one of this map's.
    pub open spec fn registered(&self, handle: &MapHandle) -> bool {
        handle.slot() < self.epochs().len()
    }

    /// The epoch counter of a handle.
    pub open spec fn epoch_of(&self, handle: &MapHandle) -> usize {
        self.epochs()[handle.slot()]
    }

    /// A well-formed table has at least one bucket, and its view is what
    /// its chains bind.
    pub proof fn lemma_table_wf(&self)
        requires
            self.table_wf(),
        ensures
            self.chains().len() >= 1,
            bounded(self.chains()),
            self@ == bindings(self.chains()),
            self@.dom().finite(),
    {
        self.table.lemma_wf();
        self.table.lemma_bounded();
    }

    /// A map of `num_items` buckets, and its first handle.
    pub fn with_capacity(num_items: usize) -> (made: (Hashmap, MapHandle))
        requires
            num_items >= 1,
        ensures
            made.0.wf(),
            made.0@ == Map::<u64, u64>::empty(),
            made.0.chains() == Seq::new(num_items as nat, |b: int| Seq::<Node>::empty()),
            made.0.epochs() == seq![0usize],
            made.1.slot() == 0,
    {
        let mut new_hashmap = Hashmap { table: Table::new(num_items), handles: Registry::new() };
        let slot = new_hashmap.handles.register();
        let ret = MapHandle { slot };
        proof {
            assert(new_hashmap.epochs() =~= seq![0usize]);
        }
        (new_hashmap, ret)
    }

    /// The item counter: how many keys are bound.
    pub fn nitems(&self) -> (n: usize)
        requires
            self.wf(),
        ensures
            n == live(self@),
    {
        self.table.nitems()
    }

    /// Whether no retired node is linked any more.
    pub fn is_compact(&self) -> (clean: bool)
        ensures
            clean == compact(self.chains()),
    {
        self.table.is_compact()
    }

    fn insert(&mut self, key: u64, value: u64, remove_nodes: &mut Vec<Retired>) -> (prev: Option<
        u64,
    >)
        requires
            old(self).table_wf(),
        ensures
            final(self).table_wf(),
            final(self).chains() == with_binding(old(self).chains(), key, value),
            final(self).epochs() == old(self).epochs(),
            final(remove_nodes)@ == collect(old(remove_nodes)@, old(self).chains(), key),
            prev == bound(old(self)@, key),
            final(self)@ == old(self)@.insert(key, value),
    {
        self.table.insert(key, value, remove_nodes)
    }

    fn get(&self, key: u64, remove_nodes: &mut Vec<Retired>) -> (found: Option<u64>)
        requires
            self.table_wf(),
        ensures
            found == bound(self@, key),
            final(remove_nodes)@ == old(remove_nodes)@,
    {
        self.table.get(key, remove_nodes)
    }

    fn delete(&mut self, key: u64, remove_nodes: &mut Vec<Retired>) -> (removed: Option<u64>)
        requires
            old(self).table_wf(),
        ensures
            final(self).table_wf(),
            final(self).chains() == without_binding(old(self).chains(), key),
            final(self).epochs() == old(self).epochs(),
            final(remove_nodes)@ == collect(old(remove_nodes)@, old(self).chains(), key),
            removed == bound(old(self)@, key),
            final(self)@ == old(self)@.remove(key),
    {
        self.table.delete(key, remove_nodes)
    }
}

impl MapHandle {
    /// The place of this handle's counter in the registry.
    pub closed spec fn slot(&self) -> int {
        self.slot as int
    }

    /// The handle's epoch counter.
    pub fn epoch(&self, map: &Hashmap) -> (counter: usize)
        requires
            map.registered(self),
        ensures
            counter == map.epoch_of(self),
    {
        map.handles.load(self.slot)
    }

    /// Binds `key` to `value` and returns the value that was bound before.
    /// The node of an earlier binding is freed before the call returns, and
    /// the handle's counter has moved by one operation.
    pub fn insert(&self, map: &mut Hashmap, key: u64, value: u64) -> (prev: Option<u64>)
        requires
            old(map).wf(),
            old(map).registered(self),
        ensures
            final(map).wf(),
            prev == bound(old(map)@, key),
            final(map)@ == old(map)@.insert(key, value),
            final(map).chains() == released(
                with_binding(old(map).chains(), key, value),
                collect(Seq::empty(), old(map).chains(), key),
            ),
            final(map).epochs() == old(map).epochs().update(
                self.slot(),
                after_ops(old(map).epoch_of(self), 1),
            ),
    {
        let mut remove_nodes: Vec<Retired> = Vec::new();

        map.handles.bump(self.slot);
        let ret = map.insert(key, value, &mut remove_nodes);
        map.handles.bump(self.slot);
        proof {
            let before = old(map).chains();
            let retired = without_binding(before, key);
            let bucket = bucket_of(key, before.len());
            old(map).lemma_table_wf();
            lemma_left(old(map).epochs(), map.epochs(), self.slot());
            lemma_bucket_of(key, before.len());
            lemma_compact_covers(before);
            lemma_collect(before, Seq::empty(), key);
            lemma_prepend(retired, remove_nodes@, bucket, key, value);
            assert(map.chains() =~= retired.update(
                bucket,
                retired[bucket].push(fresh(key, value)),
            ));
            lemma_released_compact(map.chains(), remove_nodes@);
            lemma_released_nothing(map.chains());
        }
        if !remove_nodes.is_empty() {
            self.free_nodes(map, &remove_nodes);
        }
        ret
    }

    /// The value bound to `key`. The map's bindings stay as they are; the
    /// handle's counter has moved by one operation.
    pub fn get(&self, map: &mut Hashmap, key: u64) -> (found: Option<u64>)
        requires
            old(map).wf(),
            old(map).registered(self),
        ensures
            final(map).wf(),
            found == bound(old(map)@, key),
            final(map)@ == old(map)@,
            final(map).chains() == old(map).chains(),
            final(map).epochs() == old(map).epochs().update(
                self.slot(),
                after_ops(old(map).epoch_of(self), 1),
            ),
    {
        let mut remove_nodes: Vec<Retired> = Vec::new();

        map.handles.bump(self.slot);
        let ret = map.get(key, &mut remove_nodes);
        map.handles.bump(self.slot);
        proof {
            lemma_left(old(map).epochs(), map.epochs(), self.slot());
        }
        if !remove_nodes.is_empty() {
            self.free_nodes(map, &remove_nodes);
        }
        ret
    }

    /// Unbinds `key` and returns the value that was bound. The node of the
    /// binding is freed before the call returns, and the handle's counter has
    /// moved by one operation.
    pub fn delete(&self, map: &mut Hashmap, key: u64) -> (removed: Option<u64>)
        requires
            old(map).wf(),
            old(map).registered(self),
        ensures
            final(map).wf(),
            removed == bound(old(map)@, key),
            final(map)@ == old(map)@.remove(key),
            final(map).chains() == released(
                without_binding(old(map).chains(), key),
                collect(Seq::empty(), old(map).chains(), key),
            ),
            final(map).epochs() == old(map).epochs().update(
                self.slot(),
                after_ops(old(map).epoch_of(self), 1),
            ),
    {
        let mut remove_nodes: Vec<Retired> = Vec::new();

        map.handles.bump(self.slot);
        let ret = map.delete(key, &mut remove_nodes);
        map.handles.bump(self.slot);
        proof {
            let before = old(map).chains();
            old(map).lemma_table_wf();
            lemma_left(old(map).epochs(), map.epochs(), self.slot());
            lemma_compact_covers(before);
            lemma_collect(before, Seq::empty(), key);
            lemma_released_compact(map.chains(), remove_nodes@);
            lemma_released_nothing(map.chains());
        }
        if !remove_nodes.is_empty() {
            self.free_nodes(map, &remove_nodes);
        }
        ret
    }

    /// Runs the barrier over the registry and then frees the retired nodes.
    /// No peer can step while this call runs, so the barrier is read once:
    /// with every peer quiescent it has passed.
    fn free_nodes(&self, map: &mut Hashmap, remove_nodes: &Vec<Retired>)
        requires
            old(map).table_wf(),
            all_quiescent(old(map).epochs()),
            all_retired(old(map).chains(), remove_nodes@),
        ensures
            final(map).table_wf(),
            final(map).chains() == released(old(map).chains(), remove_nodes@),
            final(map)@ == old(map)@,
            final(map).epochs() == old(map).epochs(),
    {
        let started = map.handles.snapshot();
        let blocker = map.handles.first_blocker(&started);
        proof {
            lemma_quiescent_passes(started@, map.epochs());
        }
        if blocker.is_none() {
            map.table.free(remove_nodes);
        }
    }

    /// A new handle on the same map, with a counter of its own at zero.
    pub fn clone(&self, map: &mut Hashmap) -> (handle: MapHandle)
        requires
            old(map).wf(),
        ensures
            final(map).wf(),
            final(map)@ == old(map)@,
            final(map).chains() == old(map).chains(),
            final(map).epochs() == old(map).epochs().push(0),
            handle.slot() == old(map).epochs().len(),
    {
        let slot = map.handles.register();
        MapHandle { slot }
    }
}

/// A counter that was stepped twice has moved by one operation, and is
/// quiescent again if it was before.
proof fn lemma_left(before: Seq<usize>, after: Seq<usize>, slot: int)
    requires
        0 <= slot < before.len(),
        all_quiescent(before),
        after == before.update(slot, bumped(before[slot])).update(
            slot,
            bumped(bumped(before[slot])),
        ),
    ensures
        after == before.update(slot, after_ops(before[slot], 1)),
        all_quiescent(after),
{
    lemma_after_one(before[slot]);
    assert(after =~= before.update(slot, after_ops(before[slot], 1)));
}

} // verus!
