//! The row of chains that a table holds, as a mathematical value: which
//! bucket a key belongs to, what the row binds, what an accumulator of
//! retired nodes names in it, and how binding, unbinding and freeing change
//! it.

use crate::linked_list::{
    all_active, fresh, lemma_lookup_push, lemma_position, lemma_retire, lemma_without,
    lemma_without_all_active, lemma_without_nothing, lemma_without_subset, lookup, none_active,
    position, retire, unique_active, without, Node,
};
use std::collections::hash_map::DefaultHasher;
use vstd::bytes::spec_u64_to_le_bytes;
use vstd::prelude::*;
use vstd::std_specs::hash::DefaultHasherAdditionalSpecFns;

verus! {

/// Where a retired node stands: its bucket, and its place in that bucket's chain.
#[derive(Clone, Copy, Debug, PartialEq, Eq, Structural)]
pub struct Retired {
    pub bucket: usize,
    pub slot: usize,
}

/// The hash of a key: what the default hasher yields after one write of the
/// key's eight bytes, low byte first.
pub open spec fn hash_of(key: u64) -> u64 {
    DefaultHasher::spec_finish(seq![spec_u64_to_le_bytes(key)])
}

/// The bucket that a key belongs to in a table of `nbuckets` buckets.
pub open spec fn bucket_of(key: u64, nbuckets: nat) -> int
    recommends
        nbuckets > 0,
{
    hash_of(key) as int % nbuckets as int
}

/// The value that a row of chains binds to `key`.
pub open spec fn find(chains: Seq<Seq<Node>>, key: u64) -> Option<u64>
    recommends
        chains.len() > 0,
{
    lookup(chains[bucket_of(key, chains.len())], key)
}

/// The bindings of a row of chains as a map.
pub open spec fn bindings(chains: Seq<Seq<Node>>) -> Map<u64, u64> {
    Map::new(|k: u64| find(chains, k).is_some(), |k: u64| find(chains, k).unwrap())
}

/// The value that a map binds to `key`, if any.
pub open spec fn bound(m: Map<u64, u64>, key: u64) -> Option<u64> {
    if m.contains_key(key) {
        Some(m[key])
    } else {
        None
    }
}

/// What the item counter shows for a map: the number of its keys, in the
/// machine's word.
pub open spec fn live(m: Map<u64, u64>) -> usize {
    (m.dom().len() % (usize::MAX as nat + 1)) as usize
}

/// The accumulator after the binding of `key`, if there is one, has been retired.
pub open spec fn collect(acc: Seq<Retired>, chains: Seq<Seq<Node>>, key: u64) -> Seq<Retired>
    recommends
        chains.len() > 0,
{
    let bucket = bucket_of(key, chains.len());
    match position(chains[bucket], key) {
        Some(i) => acc.push(Retired { bucket: bucket as usize, slot: i as usize }),
        None => acc,
    }
}

/// The places in one bucket that the accumulator names.
pub open spec fn slots_in(acc: Seq<Retired>, bucket: int) -> Set<int> {
    Set::new(
        |slot: int|
            exists|j: int|
                0 <= j < acc.len() && (#[trigger] acc[j]).bucket == bucket && acc[j].slot == slot,
    )
}

/// Every entry of the accumulator names a retired node of the row.
pub open spec fn all_retired(chains: Seq<Seq<Node>>, acc: Seq<Retired>) -> bool {
    forall|j: int|
        0 <= j < acc.len() ==> (#[trigger] acc[j]).bucket < chains.len() && acc[j].slot
            < chains[acc[j].bucket as int].len() && !chains[acc[j].bucket as int][acc[j].slot as int].active
}

/// Whether the accumulator names a node of `bucket`.
pub open spec fn named(acc: Seq<Retired>, bucket: int) -> bool {
    exists|j: int| 0 <= j < acc.len() && (#[trigger] acc[j]).bucket == bucket
}

/// No retired node is linked in any chain of the row.
pub open spec fn compact(chains: Seq<Seq<Node>>) -> bool {
    forall|b: int| 0 <= b < chains.len() ==> all_active(#[trigger] chains[b])
}

/// Every retired node of the row is named in the accumulator.
pub open spec fn covers(chains: Seq<Seq<Node>>, acc: Seq<Retired>) -> bool {
    forall|b: int, i: int|
        0 <= b < chains.len() && 0 <= i < chains[b].len() && !(#[trigger] chains[b][i]).active
            ==> slots_in(acc, b).contains(i)
}

/// Every node stands in the bucket that its key belongs to.
pub open spec fn placed(chains: Seq<Seq<Node>>) -> bool {
    forall|b: int, i: int|
        0 <= b < chains.len() && 0 <= i < chains[b].len() ==> bucket_of(
            (#[trigger] chains[b][i]).key,
            chains.len(),
        ) == b
}

/// The row and its chains are no longer than the machine can count.
pub open spec fn bounded(chains: Seq<Seq<Node>>) -> bool {
    &&& chains.len() <= usize::MAX
    &&& forall|b: int| 0 <= b < chains.len() ==> (#[trigger] chains[b]).len() <= usize::MAX
}

/// The row after the nodes that the accumulator names have been freed.
pub open spec fn released(chains: Seq<Seq<Node>>, acc: Seq<Retired>) -> Seq<Seq<Node>> {
    Seq::new(chains.len(), |b: int| without(chains[b], slots_in(acc, b)))
}

/// The entries that name the given places of one bucket.
pub open spec fn entries(bucket: usize, slots: Seq<usize>) -> Seq<Retired> {
    Seq::new(slots.len(), |j: int| Retired { bucket, slot: slots[j] })
}

/// The row after `key` has been bound to `value` by a new node.
pub open spec fn with_binding(chains: Seq<Seq<Node>>, key: u64, value: u64) -> Seq<Seq<Node>>
    recommends
        chains.len() > 0,
{
    let bucket = bucket_of(key, chains.len());
    chains.update(bucket, retire(chains[bucket], key).push(fresh(key, value)))
}

/// The row after the binding of `key` has been retired.
pub open spec fn without_binding(chains: Seq<Seq<Node>>, key: u64) -> Seq<Seq<Node>>
    recommends
        chains.len() > 0,
{
    let bucket = bucket_of(key, chains.len());
    chains.update(bucket, retire(chains[bucket], key))
}

/// A key's bucket is one of the table's.
pub proof fn lemma_bucket_of(key: u64, nbuckets: nat)
    requires
        nbuckets > 0,
    ensures
        0 <= bucket_of(key, nbuckets) < nbuckets,
{
}

/// A new binding shows in the map as an insertion.
pub proof fn lemma_with_binding(chains: Seq<Seq<Node>>, key: u64, value: u64)
    requires
        chains.len() > 0,
        unique_active(chains[bucket_of(key, chains.len())]),
    ensures
        bindings(with_binding(chains, key, value)) == bindings(chains).insert(key, value),
{
    let bucket = bucket_of(key, chains.len());
    let after = with_binding(chains, key, value);
    lemma_retire(chains[bucket], key);
    assert forall|k: u64| #[trigger]
        find(after, k) == if k == key {
            Some(value)
        } else {
            find(chains, k)
        } by {
        lemma_bucket_of(k, chains.len());
        lemma_lookup_push(retire(chains[bucket], key), fresh(key, value), k);
    }
    assert(bindings(after) =~= bindings(chains).insert(key, value));
}

/// A retired binding shows in the map as a removal.
pub proof fn lemma_without_binding(chains: Seq<Seq<Node>>, key: u64)
    requires
        chains.len() > 0,
        unique_active(chains[bucket_of(key, chains.len())]),
    ensures
        bindings(without_binding(chains, key)) == bindings(chains).remove(key),
{
    let bucket = bucket_of(key, chains.len());
    let after = without_binding(chains, key);
    lemma_retire(chains[bucket], key);
    assert forall|k: u64| #[trigger]
        find(after, k) == if k == key {
            None
        } else {
            find(chains, k)
        } by {
        lemma_bucket_of(k, chains.len());
    }
    assert(bindings(after) =~= bindings(chains).remove(key));
}

/// Freeing retired nodes changes no binding.
pub proof fn lemma_released(chains: Seq<Seq<Node>>, acc: Seq<Retired>)
    requires
        chains.len() > 0,
        all_retired(chains, acc),
    ensures
        bindings(released(chains, acc)) == bindings(chains),
{
    let after = released(chains, acc);
    assert forall|k: u64| #[trigger] find(after, k) == find(chains, k) by {
        lemma_bucket_of(k, chains.len());
        let bucket = bucket_of(k, chains.len());
        lemma_retired_slots(chains, acc, bucket);
        lemma_without(chains[bucket], slots_in(acc, bucket));
    }
    assert(bindings(after) =~= bindings(chains));
}

/// The places that an accumulator of retired nodes names in one bucket hold
/// no active node.
pub proof fn lemma_retired_slots(chains: Seq<Seq<Node>>, acc: Seq<Retired>, bucket: int)
    requires
        0 <= bucket < chains.len(),
        all_retired(chains, acc),
    ensures
        none_active(chains[bucket], slots_in(acc, bucket)),
{
    let slots = slots_in(acc, bucket);
    assert forall|i: int| 0 <= i < chains[bucket].len() && slots.contains(i) implies !(
    #[trigger] chains[bucket][i]).active by {
        let j = choose|j: int|
            0 <= j < acc.len() && (#[trigger] acc[j]).bucket == bucket && acc[j].slot == i;
        assert(acc[j].bucket == bucket);
    }
}

/// An accumulator that named retired nodes, and all of them, still does so
/// after a binding has been retired into it.
pub proof fn lemma_collect(chains: Seq<Seq<Node>>, acc: Seq<Retired>, key: u64)
    requires
        chains.len() > 0,
        bounded(chains),
    ensures
        all_retired(chains, acc) ==> all_retired(
            without_binding(chains, key),
            collect(acc, chains, key),
        ),
        covers(chains, acc) ==> covers(without_binding(chains, key), collect(acc, chains, key)),
{
    let bucket = bucket_of(key, chains.len());
    let after = without_binding(chains, key);
    let grown = collect(acc, chains, key);
    lemma_bucket_of(key, chains.len());
    lemma_position(chains[bucket], key);
    if all_retired(chains, acc) {
        assert forall|j: int| 0 <= j < grown.len() implies (#[trigger] grown[j]).bucket < after.len()
            && grown[j].slot < after[grown[j].bucket as int].len()
            && !after[grown[j].bucket as int][grown[j].slot as int].active by {
            if j < acc.len() {
                assert(grown[j] == acc[j]);
            }
        }
    }
    if covers(chains, acc) {
        assert forall|b: int, i: int|
            0 <= b < after.len() && 0 <= i < after[b].len() && !(#[trigger] after[b][i]).active implies slots_in(
            grown,
            b,
        ).contains(i) by {
            if chains[b][i].active {
                assert(grown[grown.len() - 1].bucket == b && grown[grown.len() - 1].slot == i);
            } else {
                assert(slots_in(acc, b).contains(i));
                let j = choose|j: int|
                    0 <= j < acc.len() && (#[trigger] acc[j]).bucket == b && acc[j].slot == i;
                assert(grown[j] == acc[j]);
            }
        }
    }
}

/// A new node at the head of a chain is active, and moves no other node:
/// what the accumulator named, and covered, it still does.
pub proof fn lemma_prepend(
    chains: Seq<Seq<Node>>,
    acc: Seq<Retired>,
    bucket: int,
    key: u64,
    value: u64,
)
    requires
        0 <= bucket < chains.len(),
    ensures
        all_retired(chains, acc) ==> all_retired(
            chains.update(bucket, chains[bucket].push(fresh(key, value))),
            acc,
        ),
        covers(chains, acc) ==> covers(
            chains.update(bucket, chains[bucket].push(fresh(key, value))),
            acc,
        ),
{
    let after = chains.update(bucket, chains[bucket].push(fresh(key, value)));
    if all_retired(chains, acc) {
        assert forall|j: int| 0 <= j < acc.len() implies (#[trigger] acc[j]).bucket < after.len()
            && acc[j].slot < after[acc[j].bucket as int].len()
            && !after[acc[j].bucket as int][acc[j].slot as int].active by {}
    }
    if covers(chains, acc) {
        assert forall|b: int, i: int|
            0 <= b < after.len() && 0 <= i < after[b].len() && !(#[trigger] after[b][i]).active implies slots_in(
            acc,
            b,
        ).contains(i) by {
            assert(!chains[b][i].active);
        }
    }
}

/// Once every retired node is named and freed, the row is compact.
pub proof fn lemma_released_compact(chains: Seq<Seq<Node>>, acc: Seq<Retired>)
    requires
        covers(chains, acc),
    ensures
        compact(released(chains, acc)),
{
    let after = released(chains, acc);
    assert forall|b: int| 0 <= b < after.len() implies all_active(#[trigger] after[b]) by {
        lemma_without_all_active(chains[b], slots_in(acc, b));
    }
}

/// Binding and unbinding keep every node in its key's bucket.
pub proof fn lemma_placed_binding(chains: Seq<Seq<Node>>, key: u64, value: u64)
    requires
        chains.len() > 0,
        placed(chains),
    ensures
        placed(with_binding(chains, key, value)),
        placed(without_binding(chains, key)),
{
    let bucket = bucket_of(key, chains.len());
    lemma_bucket_of(key, chains.len());
    lemma_position(chains[bucket], key);
    let bound = with_binding(chains, key, value);
    let unbound = without_binding(chains, key);
    assert forall|b: int, i: int| 0 <= b < unbound.len() && 0 <= i < unbound[b].len() implies bucket_of(
        (#[trigger] unbound[b][i]).key,
        unbound.len(),
    ) == b by {
        assert(unbound[b][i].key == chains[b][i].key);
    }
    assert forall|b: int, i: int| 0 <= b < bound.len() && 0 <= i < bound[b].len() implies bucket_of(
        (#[trigger] bound[b][i]).key,
        bound.len(),
    ) == b by {
        if i < chains[b].len() {
            assert(bound[b][i].key == chains[b][i].key);
        }
    }
}

/// Freeing nodes keeps every other node in its key's bucket.
pub proof fn lemma_placed_released(chains: Seq<Seq<Node>>, acc: Seq<Retired>)
    requires
        placed(chains),
    ensures
        placed(released(chains, acc)),
{
    let after = released(chains, acc);
    assert forall|b: int, i: int| 0 <= b < after.len() && 0 <= i < after[b].len() implies bucket_of(
        (#[trigger] after[b][i]).key,
        after.len(),
    ) == b by {
        lemma_without_subset(chains[b], slots_in(acc, b));
        let node = after[b][i];
        assert(chains[b].contains(node));
        let j = choose|j: int| 0 <= j < chains[b].len() && chains[b][j] == node;
        assert(bucket_of(chains[b][j].key, chains.len()) == b);
    }
}

/// Freeing nothing leaves the row as it is.
pub proof fn lemma_released_nothing(chains: Seq<Seq<Node>>)
    ensures
        released(chains, Seq::empty()) == chains,
{
    let after = released(chains, Seq::empty());
    assert forall|b: int| 0 <= b < chains.len() implies #[trigger] after[b] == chains[b] by {
        assert(slots_in(Seq::empty(), b) =~= Set::<int>::empty());
        lemma_without_nothing(chains[b]);
    }
    assert(after =~= chains);
}

/// A row is compact exactly when the empty accumulator covers it.
pub proof fn lemma_compact_covers(chains: Seq<Seq<Node>>)
    ensures
        compact(chains) <==> covers(chains, Seq::empty()),
{
    if compact(chains) {
        assert forall|b: int, i: int|
            0 <= b < chains.len() && 0 <= i < chains[b].len() && !(#[trigger] chains[b][i]).active implies slots_in(
            Seq::empty(),
            b,
        ).contains(i) by {
            assert(all_active(chains[b]));
        }
    }
    if covers(chains, Seq::empty()) {
        assert forall|b: int| 0 <= b < chains.len() implies all_active(#[trigger] chains[b]) by {
            assert forall|i: int| 0 <= i < chains[b].len() implies (#[trigger] chains[b][i]).active by {
                if !chains[b][i].active {
                    assert(slots_in(Seq::empty(), b).contains(i));
                }
            }
        }
    }
}

/// Counting one more key.
pub proof fn lemma_live_insert(m: Map<u64, u64>, key: u64, value: u64)
    requires
        m.dom().finite(),
    ensures
        m.insert(key, value).dom().finite(),
        live(m.insert(key, value)) == if m.contains_key(key) {
            live(m)
        } else {
            vstd::wrapping::usize_specs::wrapping_add(live(m), 1)
        },
{
    if m.contains_key(key) {
        assert(m.insert(key, value).dom() =~= m.dom());
    } else {
        let width = usize::MAX as nat + 1;
        let n = m.dom().len();
        assert(m.insert(key, value).dom().len() == n + 1);
        lemma_step_mod(n, width);
    }
}

/// Counting one key fewer.
pub proof fn lemma_live_remove(m: Map<u64, u64>, key: u64)
    requires
        m.dom().finite(),
    ensures
        m.remove(key).dom().finite(),
        live(m.remove(key)) == if m.contains_key(key) {
            vstd::wrapping::usize_specs::wrapping_sub(live(m), 1)
        } else {
            live(m)
        },
{
    if !m.contains_key(key) {
        assert(m.remove(key).dom() =~= m.dom());
    } else {
        let width = usize::MAX as nat + 1;
        let n = m.remove(key).dom().len();
        assert(m.dom().len() == n + 1);
        lemma_step_mod(n, width);
    }
}

/// The last writer wins: after a key is bound it answers with the new value,
/// after it is unbound it answers with nothing, and every other key answers
/// as before.
pub proof fn lemma_last_writer_wins(m: Map<u64, u64>, key: u64, value: u64, other: u64)
    ensures
        bound(m.insert(key, value), other) == if other == key {
            Some(value)
        } else {
            bound(m, other)
        },
        bound(m.remove(key), other) == if other == key {
            None
        } else {
            bound(m, other)
        },
{
}

/// Binding a key a second time hands back the first value, leaves the
/// second in its place, and counts no new key.
pub proof fn lemma_replacement(m: Map<u64, u64>, key: u64, first: u64, second: u64)
    requires
        m.dom().finite(),
    ensures
        bound(m.insert(key, first), key) == Some(first),
        bound(m.insert(key, first).insert(key, second), key) == Some(second),
        m.insert(key, first).insert(key, second).dom().len() == m.insert(key, first).dom().len(),
        live(m.insert(key, first).insert(key, second)) == live(m.insert(key, first)),
{
    assert(m.insert(key, first).insert(key, second).dom() =~= m.insert(key, first).dom());
}

/// Unbinding a key that was just bound hands back its value, leaves the key
/// unbound, and counts exactly one key fewer.
pub proof fn lemma_delete_bound(m: Map<u64, u64>, key: u64, value: u64)
    requires
        m.dom().finite(),
    ensures
        bound(m.insert(key, value), key) == Some(value),
        bound(m.insert(key, value).remove(key), key).is_none(),
        m.insert(key, value).remove(key).dom().len() == m.insert(key, value).dom().len() - 1,
        live(m.insert(key, value).remove(key)) == vstd::wrapping::usize_specs::wrapping_sub(
            live(m.insert(key, value)),
            1,
        ),
{
    lemma_live_remove(m.insert(key, value), key);
}

/// Unbinding a key that is not bound hands back nothing and changes nothing,
/// so a second removal in a row does neither.
pub proof fn lemma_delete_unbound(m: Map<u64, u64>, key: u64)
    requires
        m.dom().finite(),
    ensures
        !m.contains_key(key) ==> bound(m, key).is_none() && m.remove(key) == m,
        bound(m.remove(key), key).is_none(),
        m.remove(key).remove(key) == m.remove(key),
        live(m.remove(key).remove(key)) == live(m.remove(key)),
{
    if !m.contains_key(key) {
        assert(m.remove(key) =~= m);
    }
    assert(m.remove(key).remove(key) =~= m.remove(key));
}

/// A remainder goes up by one, or falls back to zero.
proof fn lemma_step_mod(n: nat, width: nat)
    requires
        width > 1,
    ensures
        (n + 1) % width == if n % width == width - 1 {
            0
        } else {
            n % width + 1
        },
{
    vstd::arithmetic::div_mod::lemma_fundamental_div_mod(n as int, width as int);
    let q = n as int / width as int;
    let r = n as int % width as int;
    if r == width - 1 {
        assert(n + 1 == width * (q + 1) + 0) by (nonlinear_arith)
            requires
                n == width * q + r,
                r == width - 1,
        ;
        vstd::arithmetic::div_mod::lemma_fundamental_div_mod_converse(
            n as int + 1,
            width as int,
            q + 1,
            0,
        );
    } else {
        assert(n + 1 == q * width + (r + 1)) by (nonlinear_arith)
            requires
                n == width * q + r,
        ;
        vstd::arithmetic::div_mod::lemma_fundamental_div_mod_converse(
            n as int + 1,
            width as int,
            q,
            r + 1,
        );
    }
}

} // verus!
