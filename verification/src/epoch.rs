//! The epoch registry. Every handle drives one counter: it steps the counter
//! when it enters an operation and again when it leaves, so an odd counter
//! says that its handle is inside a critical section and an even one that it
//! is quiescent. Before a handle frees what it has retired, it snapshots the
//! counters and lets every peer that was inside either leave or move on.

use vstd::prelude::*;
use vstd::wrapping::usize_specs::wrapping_add;

verus! {

/// The handle of this counter is outside every critical section.
pub open spec fn quiescent(counter: usize) -> bool {
    counter % 2 == 0
}

/// The counter after one step. It wraps at the end of the machine's word.
pub open spec fn bumped(counter: usize) -> usize {
    wrapping_add(counter, 1)
}

/// The counter after `ops` whole operations, each of which steps it twice.
pub open spec fn after_ops(counter: usize, ops: nat) -> usize {
    ((counter + 2 * ops) % (usize::MAX + 1)) as usize
}

/// The barrier's spin predicate: a peer read as `check`, whose counter stood
/// at `started` in the snapshot, must still be waited for. That is so while
/// it has not moved past the snapshot and sits inside a critical section.
pub open spec fn waits(started: usize, check: usize) -> bool {
    check <= started && check % 2 == 1
}

/// Every counter is even.
pub open spec fn all_quiescent(counters: Seq<usize>) -> bool {
    forall|i: int| 0 <= i < counters.len() ==> quiescent(#[trigger] counters[i])
}

/// The barrier over a snapshot has passed: no peer of the snapshot must
/// still be waited for.
pub open spec fn passed(started: Seq<usize>, current: Seq<usize>) -> bool {
    forall|i: int| 0 <= i < started.len() ==> !waits(#[trigger] started[i], current[i])
}

/// Whether a peer must still be waited for.
pub fn must_wait(started: usize, check: usize) -> (wait: bool)
    ensures
        wait == waits(started, check),
{
    check <= started && check % 2 == 1
}

/// A step turns an even counter odd and an odd one even, also where it wraps.
pub proof fn lemma_bumped_parity(counter: usize)
    ensures
        quiescent(bumped(counter)) == !quiescent(counter),
{
    assert(usize::MAX == 0xffff_ffff || usize::MAX == 0xffff_ffff_ffff_ffff);
}

/// One operation is two steps.
pub proof fn lemma_after_one(counter: usize)
    ensures
        after_ops(counter, 0) == counter,
        after_ops(counter, 1) == bumped(bumped(counter)),
        quiescent(after_ops(counter, 1)) == quiescent(counter),
{
    let width = usize::MAX + 1;
    assert(usize::MAX == 0xffff_ffff || usize::MAX == 0xffff_ffff_ffff_ffff);
    vstd::arithmetic::div_mod::lemma_small_mod(counter as nat, width as nat);
    if counter + 2 <= usize::MAX {
        vstd::arithmetic::div_mod::lemma_small_mod((counter + 2) as nat, width as nat);
    } else {
        vstd::arithmetic::div_mod::lemma_fundamental_div_mod_converse(
            counter + 2,
            width,
            1,
            counter + 2 - width,
        );
    }
}

/// Operations add up: `a` operations and then `b` more move the counter as
/// `a + b` operations do.
pub proof fn lemma_after_ops_add(counter: usize, a: nat, b: nat)
    ensures
        after_ops(after_ops(counter, a), b) == after_ops(counter, a + b),
{
    let width = usize::MAX + 1;
    let x = counter + 2 * a;
    vstd::arithmetic::div_mod::lemma_add_mod_noop(x, (2 * b) as int, width);
    vstd::arithmetic::div_mod::lemma_add_mod_noop(x % width, (2 * b) as int, width);
    vstd::arithmetic::div_mod::lemma_mod_twice(x, width);
}

/// A handle that starts at zero and completes `ops` operations shows twice
/// that number, as long as the word holds it.
pub proof fn lemma_epoch_parity(ops: nat)
    requires
        2 * ops <= usize::MAX,
    ensures
        after_ops(0, ops) == 2 * ops,
        quiescent(after_ops(0, ops)),
{
    vstd::arithmetic::div_mod::lemma_small_mod(2 * ops, usize::MAX as nat + 1);
}

/// The spin predicate lets go exactly when the peer has moved past the
/// snapshot or is quiescent. In particular a peer that is read as quiescent
/// is never waited for, whatever the snapshot held.
pub proof fn lemma_waits(started: usize, check: usize)
    ensures
        !waits(started, check) <==> check > started || quiescent(check),
        quiescent(check) ==> !waits(started, check),
{
}

/// A peer that was quiescent in the snapshot is not waited for while it
/// stays where it was, nor after it has entered its next operation.
pub proof fn lemma_quiescent_at_snapshot(started: usize)
    requires
        quiescent(started),
    ensures
        !waits(started, started),
        !waits(started, bumped(started)),
{
    assert(usize::MAX == 0xffff_ffff || usize::MAX == 0xffff_ffff_ffff_ffff);
}

/// A peer that was inside a critical section in the snapshot holds the
/// barrier until its next step, and that step releases it.
pub proof fn lemma_inside_at_snapshot(started: usize)
    requires
        !quiescent(started),
    ensures
        waits(started, started),
        !waits(started, bumped(started)),
{
    lemma_bumped_parity(started);
}

/// Once the barrier lets go of a peer that was inside a critical section in
/// the snapshot, that peer has stepped since: it has left the section that
/// the snapshot saw.
pub proof fn lemma_released_peer_has_left(started: usize, check: usize)
    requires
        !quiescent(started),
        check >= started,
        !waits(started, check),
    ensures
        check > started,
{
}

/// When every handle is quiescent, the barrier over any snapshot has passed.
pub proof fn lemma_quiescent_passes(started: Seq<usize>, current: Seq<usize>)
    requires
        started.len() <= current.len(),
        all_quiescent(current),
    ensures
        passed(started, current),
{
}

/// The registry of epoch counters, one for each handle, in the order in
/// which the handles were made.
#[derive(Debug)]
pub struct Registry {
    counters: Vec<usize>,
}

impl View for Registry {
    type V = Seq<usize>;

    closed spec fn view(&self) -> Seq<usize> {
        self.counters@
    }
}

impl Registry {
    /// A registry without handles.
    pub fn new() -> (registry: Registry)
        ensures
            registry@ == Seq::<usize>::empty(),
    {
        Registry { counters: Vec::new() }
    }

    /// How many handles are registered.
    pub fn len(&self) -> (n: usize)
        ensures
            n == self@.len(),
    {
        self.counters.len()
    }

    /// Registers a new handle, with its counter at zero, and returns its slot.
    pub fn register(&mut self) -> (slot: usize)
        ensures
            slot == old(self)@.len(),
            final(self)@ == old(self)@.push(0),
    {
        let slot = self.counters.len();
        self.counters.push(0);
        slot
    }

    /// The counter of a handle.
    pub fn load(&self, slot: usize) -> (counter: usize)
        requires
            slot < self@.len(),
        ensures
            counter == self@[slot as int],
    {
        self.counters[slot]
    }

    /// Steps the counter of a handle, and returns what it was before.
    pub fn bump(&mut self, slot: usize) -> (before: usize)
        requires
            slot < old(self)@.len(),
        ensures
            before == old(self)@[slot as int],
            final(self)@ == old(self)@.update(slot as int, bumped(before)),
    {
        let before = self.counters[slot];
        self.counters.set(slot, before.wrapping_add(1));
        before
    }

    /// The counters as they stand.
    pub fn snapshot(&self) -> (started: Vec<usize>)
        ensures
            started@ == self@,
    {
        let mut started: Vec<usize> = Vec::new();
        let mut i: usize = 0;
        while i < self.counters.len()
            invariant
                i <= self.counters.len(),
                started@ == self@.take(i as int),
            decreases self.counters.len() - i,
        {
            started.push(self.counters[i]);
            proof {
                assert(started@ =~= self@.take(i + 1));
            }
            i = i + 1;
        }
        proof {
            assert(self@.take(i as int) =~= self@);
        }
        started
    }

    /// The first peer of the snapshot that must still be waited for, or
    /// `None` once the barrier has passed. Handles registered after the
    /// snapshot was taken are not looked at.
    pub fn first_blocker(&self, started: &Vec<usize>) -> (blocker: Option<usize>)
        requires
            started@.len() <= self@.len(),
        ensures
            match blocker {
                Some(i) => i < started@.len() && waits(started@[i as int], self@[i as int])
                    && passed(started@.take(i as int), self@),
                None => passed(started@, self@),
            },
    {
        let mut i: usize = 0;
        while i < started.len()
            invariant
                i <= started@.len() <= self@.len(),
                passed(started@.take(i as int), self@),
            decreases started@.len() - i,
        {
            if must_wait(started[i], self.counters[i]) {
                return Some(i);
            }
            proof {
                let head = started@.take(i + 1);
                assert forall|n: int| 0 <= n < head.len() implies !waits(
                    #[trigger] head[n],
                    self@[n],
                ) by {
                    if n < i {
                        assert(started@.take(i as int)[n] == head[n]);
                    }
                }
            }
            i = i + 1;
        }
        proof {
            assert(started@.take(i as int) =~= started@);
        }
        None
    }
}

} // verus!
