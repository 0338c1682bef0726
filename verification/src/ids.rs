//! Identity allocation for links and groups.

use vstd::prelude::*;

verus! {

/// The identity that is handed out `count` allocations after `start`.
/// Identities run through the whole range of `usize` before any of them
/// comes again.
pub open spec fn id_after(start: usize, count: nat) -> usize {
    ((start + count) % (usize::MAX + 1)) as usize
}

/// Hands out the identities of links and groups, each one the successor of
/// the one before. A program makes one allocator when it starts and hands it
/// to whatever creates links or groups.
#[derive(Debug)]
pub struct IdAllocator {
    next: usize,
}

impl IdAllocator {
    /// The identity that the next allocation returns.
    pub closed spec fn next_id(&self) -> usize {
        self.next
    }

    /// An allocator whose first identity is 0.
    pub fn new() -> (ids: IdAllocator)
        ensures
            ids.next_id() == 0,
    {
        IdAllocator { next: 0 }
    }

    /// An allocator whose first identity is `first`.
    pub fn starting_at(first: usize) -> (ids: IdAllocator)
        ensures
            ids.next_id() == first,
    {
        IdAllocator { next: first }
    }

    /// Returns a new identity and advances to its successor.
    pub fn get_new_id(&mut self) -> (id: usize)
        ensures
            id == old(self).next_id(),
            final(self).next_id() == id_after(old(self).next_id(), 1),
    {
        let id: usize = self.next;
        proof {
            let range = (usize::MAX + 1) as nat;
            if id < usize::MAX {
                vstd::arithmetic::div_mod::lemma_small_mod((id + 1) as nat, range);
            } else {
                vstd::arithmetic::div_mod::lemma_mod_self_0(range as int);
            }
        }
        self.next = if id == usize::MAX { 0 } else { id + 1 };
        id
    }
}

/// Advancing by nothing leaves the identity as it is.
pub proof fn lemma_id_after_zero(start: usize)
    ensures
        id_after(start, 0) == start,
{
    vstd::arithmetic::div_mod::lemma_small_mod(start as nat, (usize::MAX + 1) as nat);
}

/// Advancing by `a` and then by `b` is advancing by `a + b`.
pub proof fn lemma_id_after_sum(start: usize, a: nat, b: nat)
    ensures
        id_after(id_after(start, a), b) == id_after(start, a + b),
{
    let m = usize::MAX + 1;
    assert(((start + a) % m + b) % m == (start + a + b) % m) by {
        vstd::arithmetic::div_mod::lemma_add_mod_noop((start + a) as int, b as int, m);
        vstd::arithmetic::div_mod::lemma_mod_twice((start + a) as int, m);
        vstd::arithmetic::div_mod::lemma_add_mod_noop(((start + a) % m) as int, b as int, m);
    }
}

/// Identities allocated fewer than a full range of `usize` apart differ.
pub proof fn lemma_ids_distinct(start: usize, i: nat, j: nat)
    requires
        i < j,
        j - i <= usize::MAX,
    ensures
        id_after(start, i) != id_after(start, j),
{
    let m = usize::MAX + 1;
    if (start + i) % m == (start + j) % m {
        vstd::arithmetic::div_mod::lemma_fundamental_div_mod((start + i) as int, m);
        vstd::arithmetic::div_mod::lemma_fundamental_div_mod((start + j) as int, m);
        let qi = (start + i) / m;
        let qj = (start + j) / m;
        assert(j - i == m * (qj - qi)) by (nonlinear_arith)
            requires
                start + i == m * qi + (start + i) % m,
                start + j == m * qj + (start + j) % m,
                (start + i) % m == (start + j) % m,
        ;
        assert(false) by (nonlinear_arith)
            requires
                j - i == m * (qj - qi),
                0 < j - i < m,
        ;
    }
}

/// An identity that was handed out is not handed out again before the
/// allocator has gone through the whole range of `usize`: if the allocator
/// came from `earlier` to `start` in `since` steps, more than none, the
/// identity that it hands out `count` steps after `start` is not `earlier`.
pub proof fn lemma_id_not_reused(earlier: usize, since: nat, start: usize, count: nat)
    requires
        0 < since,
        id_after(earlier, since) == start,
        since + count <= usize::MAX,
    ensures
        id_after(start, count) != earlier,
{
    lemma_id_after_sum(earlier, since, count);
    lemma_id_after_zero(earlier);
    lemma_ids_distinct(earlier, 0, since + count);
}

} // verus!
