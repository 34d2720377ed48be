//! What is free: the bytes that lie in a block on a free list.
//!
//! The allocator neither loses memory nor makes any up. A block that is given
//! to it adds its bytes to what is free, an allocation takes its bytes away
//! from what is free, and a release gives them back.

use crate::mem::block::{
    block_size, lemma_block_size, lemma_merge, BlockView, HIGHEST_ORDER, ORDER_COUNT,
};
use crate::mem::buddy::{
    lemma_first_stocked, lemma_join, lemma_pieces_partition, lemma_position, pieces, position,
    BuddyView,
};
use vstd::prelude::*;

verus! {

impl BuddyView {
    /// Whether the byte at `addr` is free: it lies in a block on a free list.
    pub open spec fn is_free(self, addr: int) -> bool {
        exists|k: int, i: int| self.listed(k, i) && (#[trigger] self.free[k][i]).holds(addr)
    }
}

/// A block that goes on its list adds its bytes to what is free.
proof fn lemma_push_frees(s: BuddyView, b: BlockView, addr: int)
    requires
        b.order < s.free.len(),
    ensures
        s.push(b).is_free(addr) <==> s.is_free(addr) || b.holds(addr),
{
    let t = s.push(b);
    let o = b.order as int;
    if s.is_free(addr) {
        let (k, i) = choose|k: int, i: int| s.listed(k, i) && (#[trigger] s.free[k][i]).holds(addr);
        assert(t.listed(k, i) && t.free[k][i].holds(addr));
    }
    if b.holds(addr) {
        let top = s.free[o].len() as int;
        assert(t.listed(o, top) && t.free[o][top].holds(addr));
    }
    if t.is_free(addr) {
        let (k, i) = choose|k: int, i: int| t.listed(k, i) && (#[trigger] t.free[k][i]).holds(addr);
        if k == o && i == s.free[o].len() {
            assert(t.free[k][i] == b);
        } else {
            assert(s.listed(k, i) && s.free[k][i].holds(addr));
        }
    }
}

/// A block that leaves its list takes its bytes away from what is free, if
/// no other free block holds them.
proof fn lemma_remove_frees(s: BuddyView, k: int, i: int, addr: int)
    requires
        s.listed(k, i),
    ensures
        s.is_free(addr) <==> s.remove(k, i).is_free(addr) || s.free[k][i].holds(addr),
{
    let t = s.remove(k, i);
    if s.is_free(addr) && !s.free[k][i].holds(addr) {
        let (l, j) = choose|l: int, j: int| s.listed(l, j) && (#[trigger] s.free[l][j]).holds(addr);
        let to = if l == k && j > i {
            j - 1
        } else {
            j
        };
        assert(t.listed(l, to) && t.free[l][to].holds(addr));
    }
    if t.is_free(addr) {
        let (l, j) = choose|l: int, j: int| t.listed(l, j) && (#[trigger] t.free[l][j]).holds(addr);
        let from = if l == k && j >= i {
            j + 1
        } else {
            j
        };
        assert(s.listed(l, from) && s.free[l][from].holds(addr));
    }
    if s.free[k][i].holds(addr) {
        assert(s.listed(k, i) && s.free[k][i].holds(addr));
    }
}

/// A block that is given to the allocator adds exactly its bytes to what is
/// free.
pub proof fn lemma_claim_frees(s: BuddyView, b: BlockView, addr: int)
    requires
        s.free.len() == ORDER_COUNT,
        b.wf(),
    ensures
        s.claimed(b).is_free(addr) <==> s.is_free(addr) || b.holds(addr),
{
    let t = s.claimed(b);
    if b.order <= HIGHEST_ORDER {
        assert(t.free =~~= s.push(b).free);
        assert(t == s.push(b));
        lemma_push_frees(s, b, addr);
    } else {
        let top = HIGHEST_ORDER as int;
        let old_len = s.free[top].len() as int;
        lemma_pieces_partition(b);
        if s.is_free(addr) {
            let (k, i) = choose|k: int, i: int|
                s.listed(k, i) && (#[trigger] s.free[k][i]).holds(addr);
            assert(t.listed(k, i) && t.free[k][i].holds(addr));
        }
        if b.holds(addr) {
            let j = choose|j: int| 0 <= j < pieces(b).len() && (#[trigger] pieces(b)[j]).holds(addr);
            assert(t.listed(top, old_len + j) && t.free[top][old_len + j].holds(addr));
        }
        if t.is_free(addr) {
            let (k, i) = choose|k: int, i: int|
                t.listed(k, i) && (#[trigger] t.free[k][i]).holds(addr);
            if k == top && i >= old_len {
                assert(t.free[k][i] == pieces(b)[i - old_len]);
                assert(b.contains(pieces(b)[i - old_len]));
            } else {
                assert(s.listed(k, i) && s.free[k][i].holds(addr));
            }
        }
    }
}

/// An offset between the sizes of two orders lies between the sizes of two
/// neighbouring orders.
proof fn lemma_between_sizes(offset: int, low: nat, high: nat)
    requires
        low <= high,
        block_size(low) <= offset < block_size(high),
    ensures
        exists|k: nat| low <= k < high && block_size(k) <= offset < #[trigger] block_size(k + 1),
    decreases high - low,
{
    if low == high {
    } else if offset < block_size(low + 1) {
        assert(low <= low < high && block_size(low) <= offset < block_size(low + 1));
    } else {
        lemma_between_sizes(offset, low + 1, high);
    }
}

/// An allocation takes exactly its bytes away from what is free, and all of
/// them were free.
pub proof fn lemma_allocation_frees(s: BuddyView, order: nat, addr: int)
    requires
        s.wf(),
        order <= HIGHEST_ORDER,
        s.allocation(order) is Some,
    ensures
        s.allocation(order)->0.holds(addr) ==> s.is_free(addr),
        s.allocated(order).is_free(addr) <==> s.is_free(addr) && !s.allocation(order)->0.holds(addr),
{
    let a = s.allocation(order)->0;
    let t = s.allocated(order);
    let from = s.first_stocked(order) as int;
    lemma_first_stocked(s, order);
    let top = s.free[from].len() - 1;
    let head = s.free[from][top];
    assert(s.listed(from, top));
    assert(head.wf() && head.order == from);
    crate::mem::block::lemma_block_size_increases(order, from as nat);
    lemma_block_size(order);
    // What lies in the head block lies in the allocation or in one of the
    // upper halves that were cut off.
    if head.holds(addr) && !a.holds(addr) {
        lemma_between_sizes(addr - head.start, order, from as nat);
        let k = choose|k: nat|
            order <= k < from && block_size(k) <= addr - head.start < #[trigger] block_size(k + 1);
        lemma_block_size(k);
        let cut = BlockView { start: (head.start + block_size(k)) as u64, order: k };
        crate::mem::block::lemma_block_size_increases(k + 1, from as nat);
        assert(t.free[k as int] == s.free[k as int].push(cut));
        let at = s.free[k as int].len() as int;
        assert(t.listed(k as int, at) && t.free[k as int][at].holds(addr));
    }
    if s.is_free(addr) && !head.holds(addr) {
        let (k, i) = choose|k: int, i: int| s.listed(k, i) && (#[trigger] s.free[k][i]).holds(addr);
        assert(t.listed(k, i) && t.free[k][i].holds(addr));
    }
    if t.is_free(addr) {
        let (k, i) = choose|k: int, i: int| t.listed(k, i) && (#[trigger] t.free[k][i]).holds(addr);
        if order <= k < from {
            assert(s.free[k].len() == 0);
            lemma_block_size(k as nat);
            crate::mem::block::lemma_block_size_increases((k + 1) as nat, from as nat);
            crate::mem::block::lemma_block_size_increases(order, k as nat);
            assert(head.holds(addr));
            assert(!a.holds(addr));
        } else {
            assert(s.listed(k, i) && s.free[k][i] == t.free[k][i]);
            assert(k != from || i != top);
            assert(!s.free[k][i].overlaps(head));
            assert(!a.holds(addr));
        }
    }
}

/// A block that is returned to the free lists adds exactly its bytes to what
/// is free, however far it is joined with its buddies.
proof fn lemma_coalesce_frees(s: BuddyView, b: BlockView, addr: int)
    requires
        s.wf(),
        s.apart_from(b),
        b.wf(),
    ensures
        s.coalesce(b).is_free(addr) <==> s.is_free(addr) || b.holds(addr),
    decreases ORDER_COUNT - b.order,
{
    if b.order > HIGHEST_ORDER {
        lemma_claim_frees(s, b, addr);
    } else {
        let k = b.order as int;
        let at = position(s.free[k], b.buddy_start());
        lemma_position(s.free[k], b.buddy_start());
        if at >= 0 {
            let buddy = s.free[k][at];
            assert(s.listed(k, at));
            assert(buddy.wf() && buddy.order == k);
            lemma_join(s, b, at);
            lemma_merge(b, buddy);
            lemma_block_size(b.order);
            lemma_remove_frees(s, k, at, addr);
            lemma_coalesce_frees(s.remove(k, at), b.parent(), addr);
            assert(b.parent().holds(addr) <==> b.holds(addr) || buddy.holds(addr));
        } else {
            lemma_push_frees(s, b, addr);
        }
    }
}

/// An allocation that is given back adds exactly its bytes to what is free.
pub proof fn lemma_release_frees(s: BuddyView, a: BlockView, addr: int)
    requires
        s.wf(),
        s.outstanding.contains(a),
    ensures
        s.released(a).is_free(addr) <==> s.is_free(addr) || a.holds(addr),
{
    crate::mem::buddy::lemma_forget(s, a);
    lemma_coalesce_frees(s.forget(a), a, addr);
    assert(s.forget(a).is_free(addr) <==> s.is_free(addr)) by {
        if s.is_free(addr) {
            let (k, i) = choose|k: int, i: int|
                s.listed(k, i) && (#[trigger] s.free[k][i]).holds(addr);
            assert(s.forget(a).listed(k, i) && s.forget(a).free[k][i].holds(addr));
        }
        if s.forget(a).is_free(addr) {
            let (k, i) = choose|k: int, i: int|
                s.forget(a).listed(k, i) && (#[trigger] s.forget(a).free[k][i]).holds(addr);
            assert(s.listed(k, i) && s.free[k][i].holds(addr));
        }
    }
}

/// No byte of an outstanding allocation is free.
pub proof fn lemma_outstanding_not_free(s: BuddyView, a: BlockView, addr: int)
    requires
        s.wf(),
        s.outstanding.contains(a),
        a.holds(addr),
    ensures
        !s.is_free(addr),
{
    if s.is_free(addr) {
        let (k, i) = choose|k: int, i: int| s.listed(k, i) && (#[trigger] s.free[k][i]).holds(addr);
        assert(!s.free[k][i].overlaps(a));
    }
}

} // verus!
