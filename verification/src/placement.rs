//! Round-robin placement of chunks on datanodes.
//!
//! A placement counter hands out tickets 0, 1, 2, ...; the ticket, taken
//! modulo the number of candidates, picks the node. The counter is a value
//! that its owner holds and passes in, so a caller can seed it. There are
//! two of them: `PlacementCounter` has one owner at a time, and what it
//! selects is known exactly; `SharedPlacementCounter` may be used from any
//! number of threads at once without a lock, and which ticket a caller gets
//! then depends on the other callers.

use std::sync::atomic::AtomicUsize;
use std::sync::atomic::Ordering;
use vstd::arithmetic::div_mod::lemma_add_mod_noop;
use vstd::arithmetic::div_mod::lemma_mod_bound;
use vstd::arithmetic::div_mod::lemma_small_mod;
use vstd::arithmetic::div_mod::lemma_mod_multiples_vanish;
use vstd::prelude::*;

verus! {

/// A chunk-storage node, known by its base address.
pub struct DataNode {
    pub base_url: String,
}

/// The counter behind the round-robin policy: the ticket that the next
/// selection will use.
pub struct PlacementCounter {
    next: usize,
}

impl View for PlacementCounter {
    type V = nat;

    closed spec fn view(&self) -> nat {
        self.next as nat
    }
}

/// The position in `0..len` that a ticket selects.
pub open spec fn slot_of(ticket: nat, len: nat) -> nat
    recommends
        len > 0,
{
    ticket % len
}

/// The ticket that follows `ticket`: one more, starting again at 0 behind the
/// largest value the counter can hold.
pub open spec fn ticket_after(ticket: nat) -> nat {
    if ticket >= usize::MAX {
        0
    } else {
        ticket + 1
    }
}

/// Among the `calls` tickets `start`, `start + 1`, ..., the number of those
/// that select position `slot` out of `len`.
pub open spec fn times_selected(start: nat, calls: nat, len: nat, slot: nat) -> nat
    decreases calls,
{
    if calls == 0 {
        0
    } else {
        let before = times_selected(start, (calls - 1) as nat, len, slot);
        if slot_of((start + calls - 1) as nat, len) == slot {
            before + 1
        } else {
            before
        }
    }
}

impl PlacementCounter {
    /// A counter whose first ticket is 0.
    pub fn new() -> (counter: Self)
        ensures
            counter@ == 0,
    {
        PlacementCounter { next: 0 }
    }

    /// A counter whose first ticket is `first`.
    pub fn starting_at(first: usize) -> (counter: Self)
        ensures
            counter@ == first,
    {
        PlacementCounter { next: first }
    }

    /// Hands out the current ticket and moves on to the next one.
    pub fn fetch_add(&mut self) -> (ticket: usize)
        ensures
            ticket == old(self)@,
            final(self)@ == ticket_after(old(self)@),
    {
        let ticket: usize = self.next;
        if ticket == usize::MAX {
            self.next = 0;
        } else {
            self.next = ticket + 1;
        }
        ticket
    }
}

/// The node that a given ticket selects from a non-empty candidate list.
pub fn node_for_ticket(nodes: &[DataNode], ticket: usize) -> (node: &DataNode)
    requires
        nodes@.len() > 0,
    ensures
        *node == nodes@[slot_of(ticket as nat, nodes@.len()) as int],
{
    let idx: usize = ticket % nodes.len();
    &nodes[idx]
}

/// Selects the destination for the next chunk: the candidate at the position
/// that the counter's current ticket picks. The counter moves on by one.
/// The candidate list must not be empty.
pub fn select_node<'a>(counter: &mut PlacementCounter, nodes: &'a [DataNode]) -> (node:
    &'a DataNode)
    requires
        nodes@.len() > 0,
    ensures
        *node == nodes@[slot_of(old(counter)@, nodes@.len()) as int],
        final(counter)@ == ticket_after(old(counter)@),
{
    let ticket = counter.fetch_add();
    node_for_ticket(nodes, ticket)
}

/// A placement counter for many callers at once: taking a ticket is one
/// atomic step. The count lives in an atomic integer, which any holder of
/// the counter may change at any time; so no contract speaks of its value,
/// and what a ticket selects is stated where the ticket is used.
pub struct SharedPlacementCounter {
    next: AtomicUsize,
}

impl SharedPlacementCounter {
    /// A counter whose first ticket is `first`.
    pub fn starting_at(first: usize) -> (counter: Self) {
        SharedPlacementCounter { next: AtomicUsize::new(first) }
    }

    /// Hands out the current ticket and moves on to the next one, starting
    /// again at 0 behind the largest value. Which ticket this is depends on
    /// the tickets that others have taken from the same counter.
    pub fn fetch_add(&self) -> (ticket: usize) {
        self.next.fetch_add(1, Ordering::Relaxed)
    }
}

/// Selects the destination for the next chunk with a ticket from a shared
/// counter: the node is the one that the ticket picks. The candidate list
/// must not be empty.
pub fn select_node_shared<'a>(counter: &SharedPlacementCounter, nodes: &'a [DataNode]) -> (picked:
    (&'a DataNode, usize))
    requires
        nodes@.len() > 0,
    ensures
        *picked.0 == nodes@[slot_of(picked.1 as nat, nodes@.len()) as int],
{
    let ticket = counter.fetch_add();
    (node_for_ticket(nodes, ticket), ticket)
}

/// Within `len` tickets in a row, the one at offset `offset_of_slot` is the
/// only one that selects `slot`.
proof fn lemma_one_hit_per_round(start: nat, len: nat, slot: nat, i: nat)
    requires
        len > 0,
        slot < len,
        i < len,
    ensures
        slot_of(start + i, len) == slot <==> i == offset_of_slot(start, len, slot),
{
    let a = (start % len) as int;
    let l = len as int;
    lemma_mod_bound(start as int, l);
    lemma_add_mod_noop(start as int, i as int, l);
    lemma_small_mod(i, len);
    // (start + i) % len == (a + i) % len, and a + i lies in [0, 2 len)
    if a + i < l {
        lemma_small_mod((a + i) as nat, len);
    } else {
        lemma_mod_multiples_vanish(-1, a + i, l);
        lemma_small_mod((a + i - l) as nat, len);
    }
}

/// The offset, within any `len` tickets in a row from `start` on, of the
/// ticket that selects `slot`.
spec fn offset_of_slot(start: nat, len: nat, slot: nat) -> nat {
    let a = start % len;
    if slot >= a {
        (slot - a) as nat
    } else {
        (slot + len - a) as nat
    }
}

/// Of the first `calls <= len` tickets from `start` on, one selects `slot` if
/// its offset lies among them, and none otherwise.
proof fn lemma_partial_round(start: nat, calls: nat, len: nat, slot: nat)
    requires
        len > 0,
        slot < len,
        calls <= len,
    ensures
        times_selected(start, calls, len, slot) == if offset_of_slot(start, len, slot) < calls {
            1nat
        } else {
            0nat
        },
    decreases calls,
{
    if calls > 0 {
        lemma_partial_round(start, (calls - 1) as nat, len, slot);
        lemma_one_hit_per_round(start, len, slot, (calls - 1) as nat);
    }
}

/// Counting over `first + more` tickets is counting over the first `first`
/// and then over the `more` that follow.
proof fn lemma_times_selected_splits(start: nat, first: nat, more: nat, len: nat, slot: nat)
    ensures
        times_selected(start, first + more, len, slot) == times_selected(start, first, len, slot)
            + times_selected(start + first, more, len, slot),
    decreases more,
{
    if more > 0 {
        lemma_times_selected_splits(start, first, (more - 1) as nat, len, slot);
        assert(start + (first + more) - 1 == (start + first) + more - 1);
    }
}

/// Round-robin is fair: over `k * len` tickets in a row, from any starting
/// value, every one of the `len` positions is selected exactly `k` times.
/// Successive calls of `select_node` on one counter use tickets in a row for
/// as long as the counter does not start again at 0 (see `ticket_after`).
pub proof fn lemma_round_robin_is_fair(start: nat, len: nat, k: nat, slot: nat)
    requires
        len > 0,
        slot < len,
    ensures
        times_selected(start, k * len, len, slot) == k,
    decreases k,
{
    if k == 0 {
        assert(k * len == 0) by (nonlinear_arith)
            requires
                k == 0,
        ;
    } else {
        let done = ((k - 1) * len) as nat;
        assert(k * len == (k - 1) * len + len) by (nonlinear_arith);
        assert((k - 1) * len >= 0) by (nonlinear_arith)
            requires
                k >= 1,
                len > 0,
        ;
        lemma_round_robin_is_fair(start, len, (k - 1) as nat, slot);
        lemma_times_selected_splits(start, done, len, len, slot);
        lemma_partial_round(start + done, len, len, slot);
        lemma_mod_bound((start + done) as int, len as int);
    }
}

} // verus!
