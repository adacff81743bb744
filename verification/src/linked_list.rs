//! The bucket list: a chain of nodes to which new nodes are only ever
//! prepended. Replacing or deleting a binding retires its node in place (the
//! node stays linked, flagged inactive) and records where it stands, so that
//! the caller can free it once no reader can still be looking at it.

use vstd::prelude::*;

verus! {

/// One link of a bucket list.
#[derive(Clone, Copy, Debug, PartialEq, Eq, Structural)]
pub struct Node {
    pub key: u64,
    pub value: u64,
    /// `true` while the node takes part in lookups; cleared once, never set again.
    pub active: bool,
}

/// The value bound to `key`: that of the active node with this key that is
/// nearest to the head. Nodes are listed oldest first, so the head is the
/// last element.
pub open spec fn lookup(nodes: Seq<Node>, key: u64) -> Option<u64>
    decreases nodes.len(),
{
    if nodes.len() == 0 {
        None
    } else if nodes.last().active && nodes.last().key == key {
        Some(nodes.last().value)
    } else {
        lookup(nodes.drop_last(), key)
    }
}

/// Where the node that `lookup` answers from stands.
pub open spec fn position(nodes: Seq<Node>, key: u64) -> Option<int>
    decreases nodes.len(),
{
    if nodes.len() == 0 {
        None
    } else if nodes.last().active && nodes.last().key == key {
        Some(nodes.len() - 1)
    } else {
        position(nodes.drop_last(), key)
    }
}

/// No key has two active nodes.
pub open spec fn unique_active(nodes: Seq<Node>) -> bool {
    forall|i: int, j: int|
        0 <= i < nodes.len() && 0 <= j < nodes.len() && i != j && (#[trigger] nodes[i]).active
            && (#[trigger] nodes[j]).active ==> nodes[i].key != nodes[j].key
}

/// The node with its flag cleared.
pub open spec fn retired(node: Node) -> Node {
    Node { key: node.key, value: node.value, active: false }
}

/// The chain after the binding of `key`, if there is one, has been retired.
pub open spec fn retire(nodes: Seq<Node>, key: u64) -> Seq<Node> {
    match position(nodes, key) {
        Some(i) => nodes.update(i, retired(nodes[i])),
        None => nodes,
    }
}

/// The accumulator after the binding of `key`, if there is one, has been retired.
pub open spec fn collect(acc: Seq<usize>, nodes: Seq<Node>, key: u64) -> Seq<usize> {
    match position(nodes, key) {
        Some(i) => acc.push(i as usize),
        None => acc,
    }
}

/// The chain with the nodes at the given places taken out.
pub open spec fn without(nodes: Seq<Node>, slots: Set<int>) -> Seq<Node>
    decreases nodes.len(),
{
    if nodes.len() == 0 {
        Seq::empty()
    } else if slots.contains(nodes.len() - 1) {
        without(nodes.drop_last(), slots)
    } else {
        without(nodes.drop_last(), slots).push(nodes.last())
    }
}

/// Every place in `slots` holds a retired node of the chain.
pub open spec fn all_retired(nodes: Seq<Node>, slots: Seq<usize>) -> bool {
    forall|j: int|
        0 <= j < slots.len() ==> (#[trigger] slots[j]) < nodes.len() && !nodes[slots[j] as int].active
}

/// Every node of the chain is active.
pub open spec fn all_active(nodes: Seq<Node>) -> bool {
    forall|i: int| 0 <= i < nodes.len() ==> (#[trigger] nodes[i]).active
}

/// The bindings of a chain as a map.
pub open spec fn contents(nodes: Seq<Node>) -> Map<u64, u64> {
    Map::new(|k: u64| lookup(nodes, k).is_some(), |k: u64| lookup(nodes, k).unwrap())
}

/// What `lookup` and `position` say of each other.
pub proof fn lemma_position(nodes: Seq<Node>, key: u64)
    ensures
        match position(nodes, key) {
            Some(i) => 0 <= i < nodes.len() && nodes[i].active && nodes[i].key == key && lookup(
                nodes,
                key,
            ) == Some(nodes[i].value) && forall|j: int|
                i < j < nodes.len() ==> !((#[trigger] nodes[j]).active && nodes[j].key == key),
            None => lookup(nodes, key).is_none() && forall|j: int|
                0 <= j < nodes.len() ==> !((#[trigger] nodes[j]).active && nodes[j].key == key),
        },
    decreases nodes.len(),
{
    if nodes.len() > 0 && !(nodes.last().active && nodes.last().key == key) {
        lemma_position(nodes.drop_last(), key);
        let rest = nodes.drop_last();
        assert forall|j: int| 0 <= j < rest.len() implies rest[j] == nodes[j] by {}
    }
}

/// In a chain without doubles, an active node is the one its key is looked up from.
pub proof fn lemma_lookup_unique(nodes: Seq<Node>, i: int)
    requires
        unique_active(nodes),
        0 <= i < nodes.len(),
        nodes[i].active,
    ensures
        lookup(nodes, nodes[i].key) == Some(nodes[i].value),
        position(nodes, nodes[i].key) == Some(i),
{
    lemma_position(nodes, nodes[i].key);
}

/// Looking up in a chain that has grown by one node at the head.
pub proof fn lemma_lookup_push(nodes: Seq<Node>, node: Node, key: u64)
    ensures
        lookup(nodes.push(node), key) == if node.active && node.key == key {
            Some(node.value)
        } else {
            lookup(nodes, key)
        },
{
    assert(nodes.push(node).drop_last() =~= nodes);
}

/// A chain that grows at the head stays without doubles exactly when the new
/// node is inactive or its key was unbound.
pub proof fn lemma_unique_push(nodes: Seq<Node>, node: Node)
    ensures
        unique_active(nodes.push(node)) <==> unique_active(nodes) && (node.active ==> lookup(
            nodes,
            node.key,
        ).is_none()),
{
    let grown = nodes.push(node);
    let last = nodes.len() as int;
    lemma_position(nodes, node.key);
    if unique_active(grown) {
        assert forall|i: int, j: int|
            0 <= i < nodes.len() && 0 <= j < nodes.len() && i != j && (#[trigger] nodes[i]).active
                && (#[trigger] nodes[j]).active implies nodes[i].key != nodes[j].key by {
            assert(grown[i] == nodes[i] && grown[j] == nodes[j]);
        }
        if node.active && lookup(nodes, node.key).is_some() {
            let i = position(nodes, node.key).unwrap();
            assert(grown[i].active && grown[last].active);
        }
    }
    if unique_active(nodes) && (node.active ==> lookup(nodes, node.key).is_none()) {
        assert forall|i: int, j: int|
            0 <= i < grown.len() && 0 <= j < grown.len() && i != j && (#[trigger] grown[i]).active
                && (#[trigger] grown[j]).active implies grown[i].key != grown[j].key by {
            if i < last && j < last {
                assert(nodes[i].active && nodes[j].active);
            } else if i < last {
                assert(nodes[i].active);
            } else {
                assert(nodes[j].active);
            }
        }
    }
}

/// Retiring the binding of a key unbinds that key and no other, and keeps
/// the chain without doubles.
pub proof fn lemma_retire(nodes: Seq<Node>, key: u64)
    requires
        unique_active(nodes),
    ensures
        unique_active(retire(nodes, key)),
        retire(nodes, key).len() == nodes.len(),
        forall|k: u64|
            #[trigger] lookup(retire(nodes, key), k) == if k == key {
                None
            } else {
                lookup(nodes, k)
            },
{
    let after = retire(nodes, key);
    lemma_position(nodes, key);
    assert forall|i: int, j: int|
        0 <= i < after.len() && 0 <= j < after.len() && i != j && (#[trigger] after[i]).active
            && (#[trigger] after[j]).active implies after[i].key != after[j].key by {
        assert(nodes[i].active && nodes[j].active);
    }
    assert forall|k: u64|
        #[trigger] lookup(after, k) == if k == key {
            None
        } else {
            lookup(nodes, k)
        } by {
        lemma_position(after, k);
        lemma_position(nodes, k);
        if k == key {
            if position(after, k).is_some() {
                let j = position(after, k).unwrap();
                assert(nodes[j].active && nodes[j].key == key);
                let i = position(nodes, key).unwrap();
                assert(nodes[i].active);
            }
        } else if position(nodes, k).is_some() {
            let j = position(nodes, k).unwrap();
            assert(after[j] == nodes[j]);
            lemma_lookup_unique(after, j);
        } else if position(after, k).is_some() {
            let j = position(after, k).unwrap();
            assert(nodes[j].active && nodes[j].key == k);
        }
    }
}

/// No place in `slots` holds an active node of the chain.
pub open spec fn none_active(nodes: Seq<Node>, slots: Set<int>) -> bool {
    forall|i: int| 0 <= i < nodes.len() && slots.contains(i) ==> !(#[trigger] nodes[i]).active
}

/// The places that a list of slots names.
pub open spec fn places(slots: Seq<usize>) -> Set<int> {
    Set::new(|i: int| exists|j: int| 0 <= j < slots.len() && #[trigger] slots[j] == i)
}

/// Taking retired nodes out changes no binding and keeps the chain without
/// doubles.
pub proof fn lemma_without(nodes: Seq<Node>, slots: Set<int>)
    requires
        none_active(nodes, slots),
    ensures
        without(nodes, slots).len() <= nodes.len(),
        forall|k: u64| #[trigger] lookup(without(nodes, slots), k) == lookup(nodes, k),
        unique_active(nodes) ==> unique_active(without(nodes, slots)),
    decreases nodes.len(),
{
    if nodes.len() > 0 {
        let rest = nodes.drop_last();
        let last = nodes.last();
        assert forall|i: int| 0 <= i < rest.len() && slots.contains(i) implies !(
        #[trigger] rest[i]).active by {
            assert(rest[i] == nodes[i]);
        }
        lemma_without(rest, slots);
        assert(nodes =~= rest.push(last));
        lemma_unique_push(rest, last);
        let kept = without(rest, slots);
        if slots.contains(nodes.len() - 1) {
            assert(!nodes[nodes.len() - 1].active);
        } else {
            lemma_unique_push(kept, last);
            assert forall|k: u64| #[trigger]
                lookup(without(nodes, slots), k) == lookup(nodes, k) by {
                lemma_lookup_push(kept, last, k);
            }
        }
    }
}

/// What is left after taking nodes out was in the chain before.
pub proof fn lemma_without_subset(nodes: Seq<Node>, slots: Set<int>)
    ensures
        forall|i: int|
            0 <= i < without(nodes, slots).len() ==> nodes.contains(#[trigger] without(nodes, slots)[i]),
    decreases nodes.len(),
{
    if nodes.len() > 0 {
        let rest = nodes.drop_last();
        let kept = without(nodes, slots);
        lemma_without_subset(rest, slots);
        assert forall|i: int| 0 <= i < kept.len() implies nodes.contains(#[trigger] kept[i]) by {
            if i < without(rest, slots).len() {
                let node = without(rest, slots)[i];
                assert(rest.contains(node));
                let j = choose|j: int| 0 <= j < rest.len() && rest[j] == node;
                assert(nodes[j] == node);
            } else {
                assert(nodes[nodes.len() - 1] == kept[i]);
            }
        }
    }
}

/// Once every retired node has been taken out, all that is left is active.
pub proof fn lemma_without_all_active(nodes: Seq<Node>, slots: Set<int>)
    requires
        forall|i: int| 0 <= i < nodes.len() && !(#[trigger] nodes[i]).active ==> slots.contains(i),
    ensures
        all_active(without(nodes, slots)),
    decreases nodes.len(),
{
    if nodes.len() > 0 {
        let rest = nodes.drop_last();
        assert forall|i: int| 0 <= i < rest.len() && !(#[trigger] rest[i]).active implies slots.contains(
            i,
        ) by {
            assert(rest[i] == nodes[i]);
        }
        lemma_without_all_active(rest, slots);
    }
}

/// Taking nothing out leaves the chain as it is.
pub proof fn lemma_without_nothing(nodes: Seq<Node>)
    ensures
        without(nodes, Set::empty()) == nodes,
    decreases nodes.len(),
{
    if nodes.len() > 0 {
        lemma_without_nothing(nodes.drop_last());
        assert(nodes =~= nodes.drop_last().push(nodes.last()));
    } else {
        assert(nodes =~= Seq::empty());
    }
}

/// A new, active node.
pub open spec fn fresh(key: u64, value: u64) -> Node {
    Node { key, value, active: true }
}

/// A bucket list. Its view lists the nodes oldest first: the head of the
/// chain, where new nodes go, is the last element.
#[derive(Debug)]
pub struct LinkedList {
    nodes: Vec<Node>,
}

impl View for LinkedList {
    type V = Seq<Node>;

    closed spec fn view(&self) -> Seq<Node> {
        self.nodes@
    }
}

impl LinkedList {
    /// At most one active node per key.
    pub open spec fn wf(&self) -> bool {
        unique_active(self@)
    }

    /// The bindings that lookups see.
    pub open spec fn contents(&self) -> Map<u64, u64> {
        contents(self@)
    }

    /// A chain has no more nodes than the machine can count.
    pub proof fn lemma_len(&self)
        ensures
            self@.len() <= usize::MAX,
    {
        assert(self.nodes@.len() == self.nodes.len());
    }

    /// An empty chain.
    pub fn new() -> (list: LinkedList)
        ensures
            list@ == Seq::<Node>::empty(),
            list.wf(),
            list.contents() == Map::<u64, u64>::empty(),
    {
        let list = LinkedList { nodes: Vec::new() };
        assert(list.contents() =~= Map::<u64, u64>::empty());
        list
    }

    /// How many nodes are linked, retired ones included.
    pub fn len(&self) -> (n: usize)
        ensures
            n == self@.len(),
    {
        self.nodes.len()
    }

    /// Walks from the head to the first active node with this key.
    fn find(&self, key: u64) -> (at: Option<usize>)
        ensures
            match at {
                Some(i) => position(self@, key) == Some(i as int),
                None => position(self@, key).is_none(),
            },
    {
        let mut i: usize = self.nodes.len();
        assert(self@.take(i as int) =~= self@);
        while i > 0
            invariant
                i <= self.nodes.len(),
                position(self@, key) == position(self@.take(i as int), key),
            decreases i,
        {
            i = i - 1;
            let node = self.nodes[i];
            assert(self@.take(i + 1).last() == node);
            if node.active && node.key == key {
                return Some(i);
            }
            assert(self@.take(i + 1).drop_last() =~= self@.take(i as int));
        }
        None
    }

    /// Binds `key` to `value` with a new node at the head, and returns the
    /// value that was bound before. The node of that earlier binding is
    /// retired and its place pushed to `acc`.
    pub fn insert(&mut self, key: u64, value: u64, acc: &mut Vec<usize>) -> (prev: Option<u64>)
        requires
            old(self).wf(),
        ensures
            final(self).wf(),
            final(self)@ == retire(old(self)@, key).push(fresh(key, value)),
            final(acc)@ == collect(old(acc)@, old(self)@, key),
            prev == lookup(old(self)@, key),
            final(self).contents() == old(self).contents().insert(key, value),
    {
        let found = self.find(key);
        proof {
            lemma_position(self@, key);
        }
        self.nodes.push(Node { key, value, active: true });
        let prev = match found {
            Some(i) => {
                let node = self.nodes[i];
                self.nodes.set(i, Node { key: node.key, value: node.value, active: false });
                acc.push(i);
                Some(node.value)
            },
            None => None,
        };
        proof {
            let before = old(self)@;
            lemma_position(before, key);
            lemma_retire(before, key);
            lemma_unique_push(retire(before, key), fresh(key, value));
            assert(self@ =~= retire(before, key).push(fresh(key, value)));
            assert forall|k: u64| #[trigger]
                lookup(self@, k) == if k == key {
                    Some(value)
                } else {
                    lookup(before, k)
                } by {
                lemma_lookup_push(retire(before, key), fresh(key, value), k);
            }
            assert(self.contents() =~= old(self).contents().insert(key, value));
        }
        prev
    }

    /// The value bound to `key`. Nothing is retired, so `acc` stays as it is.
    pub fn get(&self, key: u64, acc: &mut Vec<usize>) -> (found: Option<u64>)
        ensures
            found == lookup(self@, key),
            final(acc)@ == old(acc)@,
    {
        proof {
            lemma_position(self@, key);
        }
        match self.find(key) {
            Some(i) => Some(self.nodes[i].value),
            None => None,
        }
    }

    /// Unbinds `key` and returns the value that was bound. The node stays
    /// linked, retired, and its place is pushed to `acc`.
    pub fn delete(&mut self, key: u64, acc: &mut Vec<usize>) -> (removed: Option<u64>)
        requires
            old(self).wf(),
        ensures
            final(self).wf(),
            final(self)@ == retire(old(self)@, key),
            final(acc)@ == collect(old(acc)@, old(self)@, key),
            removed == lookup(old(self)@, key),
            final(self).contents() == old(self).contents().remove(key),
    {
        proof {
            lemma_position(self@, key);
            lemma_retire(self@, key);
        }
        let removed = match self.find(key) {
            Some(i) => {
                let node = self.nodes[i];
                self.nodes.set(i, Node { key: node.key, value: node.value, active: false });
                acc.push(i);
                Some(node.value)
            },
            None => None,
        };
        proof {
            assert(self@ =~= retire(old(self)@, key));
            assert(self.contents() =~= old(self).contents().remove(key));
        }
        removed
    }

    /// Whether no retired node is linked any more.
    pub fn is_compact(&self) -> (clean: bool)
        ensures
            clean == all_active(self@),
    {
        let mut i: usize = 0;
        while i < self.nodes.len()
            invariant
                i <= self.nodes.len(),
                forall|n: int| 0 <= n < i ==> (#[trigger] self@[n]).active,
            decreases self.nodes.len() - i,
        {
            if !self.nodes[i].active {
                return false;
            }
            i = i + 1;
        }
        true
    }

    /// Physically frees the retired nodes at the given places, and returns
    /// how many nodes left the chain. No binding changes.
    pub fn free(&mut self, slots: &Vec<usize>) -> (freed: usize)
        requires
            old(self).wf(),
            all_retired(old(self)@, slots@),
        ensures
            final(self).wf(),
            final(self)@ == without(old(self)@, places(slots@)),
            final(self).contents() == old(self).contents(),
            freed == old(self)@.len() - final(self)@.len(),
    {
        let total: usize = self.nodes.len();
        let mut kept: Vec<Node> = Vec::new();
        let mut i: usize = 0;
        while i < total
            invariant
                i <= total,
                total == self.nodes.len(),
                self@ == old(self)@,
                kept@ == without(self@.take(i as int), places(slots@)),
                kept@.len() <= i,
            decreases total - i,
        {
            let held = holds(slots, i);
            proof {
                assert(self@.take(i + 1).drop_last() =~= self@.take(i as int));
                assert(self@.take(i + 1).last() == self@[i as int]);
            }
            if !held {
                kept.push(self.nodes[i]);
            }
            i = i + 1;
        }
        proof {
            assert(self@.take(total as int) =~= self@);
            lemma_without(self@, places(slots@));
            assert(contents(kept@) =~= contents(self@));
        }
        let freed: usize = total - kept.len();
        self.nodes = kept;
        freed
    }
}

/// Whether `slot` is among `slots`.
fn holds(slots: &Vec<usize>, slot: usize) -> (found: bool)
    ensures
        found == places(slots@).contains(slot as int),
{
    let mut j: usize = 0;
    while j < slots.len()
        invariant
            j <= slots.len(),
            forall|n: int| 0 <= n < j ==> slots@[n] != slot,
        decreases slots.len() - j,
    {
        if slots[j] == slot {
            return true;
        }
        j = j + 1;
    }
    false
}

} // verus!
