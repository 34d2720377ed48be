//! The buddy allocator for page frames.
//!
//! The allocator keeps one list of free blocks for each order up to
//! [`HIGHEST_ORDER`]. An allocation takes the head of the first stocked list at
//! or above the order asked for and hands the halves it does not need back to
//! the lower lists; a release joins a block with its buddy for as long as the
//! buddy is free.

use crate::mem::addr::VirtAddr;
use crate::mem::block::{
    block_size, lemma_block_size, lemma_block_size_values, lemma_buddy, lemma_merge, lemma_split,
    order_size, Block, BlockView, HIGHEST_ORDER, ORDER_COUNT,
};
use crate::mem::free_list::{lemma_views_push, lemma_views_remove, views, FreeList};
use vstd::arithmetic::power2::{lemma2_to64, lemma_pow2_adds, lemma_pow2_unfold, pow2};
use vstd::prelude::*;

verus! {

/// The allocator as its laws see it: the free blocks, list by list, and the
/// blocks that have been handed out and not yet returned.
pub struct BuddyView {
    /// The free lists by order. The head of each list is its last element.
    pub free: Seq<Seq<BlockView>>,
    /// The allocations that are outstanding.
    pub outstanding: Set<BlockView>,
}

impl BuddyView {
    /// The allocator that holds nothing.
    pub open spec fn empty() -> BuddyView {
        BuddyView {
            free: Seq::new(ORDER_COUNT as nat, |k: int| Seq::<BlockView>::empty()),
            outstanding: Set::empty(),
        }
    }

    /// Whether list `k` has an element at position `i`.
    pub open spec fn listed(self, k: int, i: int) -> bool {
        0 <= k < self.free.len() && 0 <= i < self.free[k].len()
    }

    /// The invariant of the allocator. There is one list for each order. Every
    /// block on list `k` can exist and has order `k`, and so has its start at a
    /// multiple of its size. No two blocks that the allocator knows of, free
    /// or outstanding, share a byte.
    pub open spec fn wf(self) -> bool {
        &&& self.free.len() == ORDER_COUNT
        &&& forall|k: int, i: int|
            self.listed(k, i) ==> (#[trigger] self.free[k][i]).wf() && self.free[k][i].order == k
        &&& forall|a: BlockView| #[trigger] self.outstanding.contains(a) ==> a.wf()
        &&& forall|k: int, i: int, l: int, j: int|
            #![trigger self.free[k][i], self.free[l][j]]
            self.listed(k, i) && self.listed(l, j) && (k != l || i != j)
                ==> !self.free[k][i].overlaps(self.free[l][j])
        &&& forall|k: int, i: int, a: BlockView|
            #![trigger self.free[k][i], self.outstanding.contains(a)]
            self.listed(k, i) && self.outstanding.contains(a) ==> !self.free[k][i].overlaps(a)
        &&& forall|a: BlockView, b: BlockView|
            #![trigger self.outstanding.contains(a), self.outstanding.contains(b)]
            self.outstanding.contains(a) && self.outstanding.contains(b) && a != b
                ==> !a.overlaps(b)
    }

    /// Whether `x` shares no byte with any block that the allocator knows of.
    pub open spec fn apart_from(self, x: BlockView) -> bool {
        &&& forall|k: int, i: int|
            self.listed(k, i) ==> !(#[trigger] self.free[k][i]).overlaps(x)
        &&& forall|a: BlockView| #[trigger] self.outstanding.contains(a) ==> !a.overlaps(x)
    }

    /// Whether no list below the highest order holds both a block and its
    /// buddy.
    pub open spec fn coalesced(self) -> bool {
        forall|k: int, i: int, j: int|
            #![trigger self.free[k][i], self.free[k][j]]
            self.listed(k, i) && self.listed(k, j) && k < HIGHEST_ORDER
                ==> self.free[k][i].buddy_start() != self.free[k][j].start
    }

    /// The allocator with `b` put at the head of the list of its order.
    pub open spec fn push(self, b: BlockView) -> BuddyView {
        BuddyView {
            free: self.free.update(b.order as int, self.free[b.order as int].push(b)),
            outstanding: self.outstanding,
        }
    }

    /// The allocator without the block at position `i` of list `k`.
    pub open spec fn remove(self, k: int, i: int) -> BuddyView {
        BuddyView {
            free: self.free.update(k, self.free[k].remove(i)),
            outstanding: self.outstanding,
        }
    }

    /// The allocator with `a` among the outstanding allocations.
    pub open spec fn issue(self, a: BlockView) -> BuddyView {
        BuddyView { free: self.free, outstanding: self.outstanding.insert(a) }
    }

    /// The allocator without `a` among the outstanding allocations.
    pub open spec fn forget(self, a: BlockView) -> BuddyView {
        BuddyView { free: self.free, outstanding: self.outstanding.remove(a) }
    }
}

/// A block that is apart from everything the allocator knows of can go on the
/// list of its order.
pub(crate) proof fn lemma_push(s: BuddyView, b: BlockView)
    requires
        s.wf(),
        b.wf(),
        b.order <= HIGHEST_ORDER,
        s.apart_from(b),
    ensures
        s.push(b).wf(),
        forall|x: BlockView| s.apart_from(x) && !x.overlaps(b) ==> #[trigger] s.push(b).apart_from(x),
{
    let t = s.push(b);
    let o = b.order as int;
    assert forall|k: int, i: int| t.listed(k, i) implies (k == o && i == s.free[o].len() && t.free[k][i] == b)
        || (s.listed(k, i) && t.free[k][i] == s.free[k][i]) by {}
    assert forall|k: int, i: int, l: int, j: int|
        #![trigger t.free[k][i], t.free[l][j]]
        t.listed(k, i) && t.listed(l, j) && (k != l || i != j) implies !t.free[k][i].overlaps(
        t.free[l][j],
    ) by {
        if s.listed(k, i) && s.listed(l, j) {
            assert(!s.free[k][i].overlaps(s.free[l][j]));
        } else if s.listed(k, i) {
            assert(!s.free[k][i].overlaps(b));
        } else {
            assert(!s.free[l][j].overlaps(b));
        }
    }
    assert forall|k: int, i: int, a: BlockView|
        #![trigger t.free[k][i], t.outstanding.contains(a)]
        t.listed(k, i) && t.outstanding.contains(a) implies !t.free[k][i].overlaps(a) by {
        if s.listed(k, i) {
            assert(!s.free[k][i].overlaps(a));
        }
    }
    assert forall|x: BlockView| s.apart_from(x) && !x.overlaps(b) implies #[trigger] t.apart_from(
        x,
    ) by {
        assert forall|k: int, i: int| t.listed(k, i) implies !(#[trigger] t.free[k][i]).overlaps(
            x,
        ) by {
            if s.listed(k, i) {
                assert(!s.free[k][i].overlaps(x));
            }
        }
    }
}

/// A block taken off its list leaves the invariant in force and is apart from
/// everything that stays.
pub(crate) proof fn lemma_remove(s: BuddyView, k: int, i: int)
    requires
        s.wf(),
        s.listed(k, i),
    ensures
        s.remove(k, i).wf(),
        s.remove(k, i).apart_from(s.free[k][i]),
        forall|x: BlockView| s.apart_from(x) ==> #[trigger] s.remove(k, i).apart_from(x),
        s.coalesced() ==> s.remove(k, i).coalesced(),
{
    let t = s.remove(k, i);
    let b = s.free[k][i];
    // Where each element of the new lists stood in the old ones.
    let from = |l: int, j: int| if l == k && j >= i { j + 1 } else { j };
    assert forall|l: int, j: int| t.listed(l, j) implies s.listed(l, from(l, j)) && #[trigger] t.free[l][j]
        == s.free[l][from(l, j)] by {}
    assert forall|l: int, j: int, m: int, n: int|
        #![trigger t.free[l][j], t.free[m][n]]
        t.listed(l, j) && t.listed(m, n) && (l != m || j != n) implies !t.free[l][j].overlaps(
        t.free[m][n],
    ) by {
        assert(!s.free[l][from(l, j)].overlaps(s.free[m][from(m, n)]));
    }
    assert forall|l: int, j: int, a: BlockView|
        #![trigger t.free[l][j], t.outstanding.contains(a)]
        t.listed(l, j) && t.outstanding.contains(a) implies !t.free[l][j].overlaps(a) by {
        assert(!s.free[l][from(l, j)].overlaps(a));
    }
    assert forall|l: int, j: int| t.listed(l, j) implies !(#[trigger] t.free[l][j]).overlaps(b) by {
        assert(!s.free[l][from(l, j)].overlaps(s.free[k][i]));
    }
    assert forall|a: BlockView| #[trigger] t.outstanding.contains(a) implies !a.overlaps(b) by {
        assert(!s.free[k][i].overlaps(a));
    }
    assert forall|x: BlockView| s.apart_from(x) implies #[trigger] t.apart_from(x) by {
        assert forall|l: int, j: int| t.listed(l, j) implies !(#[trigger] t.free[l][j]).overlaps(
            x,
        ) by {
            assert(!s.free[l][from(l, j)].overlaps(x));
        }
    }
    if s.coalesced() {
        assert forall|l: int, j: int, n: int|
            #![trigger t.free[l][j], t.free[l][n]]
            t.listed(l, j) && t.listed(l, n) && l < HIGHEST_ORDER implies t.free[l][j].buddy_start()
            != t.free[l][n].start by {
            assert(s.free[l][from(l, j)].buddy_start() != s.free[l][from(l, n)].start);
        }
    }
}

/// A block that is apart from everything the allocator knows of can be handed
/// out.
proof fn lemma_issue(s: BuddyView, a: BlockView)
    requires
        s.wf(),
        a.wf(),
        s.apart_from(a),
    ensures
        s.issue(a).wf(),
        s.coalesced() ==> s.issue(a).coalesced(),
{
    let t = s.issue(a);
    assert forall|k: int, i: int, x: BlockView|
        #![trigger t.free[k][i], t.outstanding.contains(x)]
        t.listed(k, i) && t.outstanding.contains(x) implies !t.free[k][i].overlaps(x) by {
        if x != a {
            assert(s.outstanding.contains(x));
        }
    }
    assert forall|x: BlockView, y: BlockView|
        #![trigger t.outstanding.contains(x), t.outstanding.contains(y)]
        t.outstanding.contains(x) && t.outstanding.contains(y) && x != y implies !x.overlaps(
        y,
    ) by {
        if x != a {
            assert(s.outstanding.contains(x));
        }
        if y != a {
            assert(s.outstanding.contains(y));
        }
    }
}

/// An outstanding allocation that is given back is apart from everything the
/// allocator still knows of.
pub(crate) proof fn lemma_forget(s: BuddyView, a: BlockView)
    requires
        s.wf(),
        s.outstanding.contains(a),
    ensures
        s.forget(a).wf(),
        s.forget(a).apart_from(a),
        s.coalesced() ==> s.forget(a).coalesced(),
{
    let t = s.forget(a);
    assert forall|k: int, i: int| t.listed(k, i) implies !(#[trigger] t.free[k][i]).overlaps(a) by {
        assert(!s.free[k][i].overlaps(a));
    }
}

/// What is apart from a block is apart from every block inside it.
proof fn lemma_apart_inside(s: BuddyView, outer: BlockView, inner: BlockView)
    requires
        s.apart_from(outer),
        outer.contains(inner),
    ensures
        s.apart_from(inner),
{
}

/// What is apart from two buddies is apart from the block they make up.
proof fn lemma_apart_parent(s: BuddyView, a: BlockView, b: BlockView)
    requires
        a.wf(),
        b.wf(),
        a.order == b.order,
        b.start == a.buddy_start(),
        s.apart_from(a),
        s.apart_from(b),
    ensures
        s.apart_from(a.parent()),
{
    lemma_merge(a, b);
    lemma_buddy(a);
    lemma_block_size(a.order);
    let p = a.parent();
    assert forall|k: int, i: int| s.listed(k, i) implies !(#[trigger] s.free[k][i]).overlaps(p) by {
        lemma_block_size(s.free[k][i].order);
    }
    assert forall|x: BlockView| #[trigger] s.outstanding.contains(x) implies !x.overlaps(p) by {
        lemma_block_size(x.order);
    }
}

/// The blocks of order [`HIGHEST_ORDER`] that make up `b`, from the highest
/// address down; `b` itself where its order is not above [`HIGHEST_ORDER`].
pub open spec fn pieces(b: BlockView) -> Seq<BlockView> {
    if b.order <= HIGHEST_ORDER {
        seq![b]
    } else {
        let count = pow2((b.order - HIGHEST_ORDER) as nat);
        Seq::new(
            count,
            |i: int|
                BlockView {
                    start: (b.start + (count - 1 - i) * block_size(HIGHEST_ORDER as nat)) as u64,
                    order: HIGHEST_ORDER as nat,
                },
        )
    }
}

/// The pieces of a block above the highest order are the pieces of its upper
/// half followed by those of its lower half.
proof fn lemma_pieces_halves(b: BlockView)
    requires
        b.wf(),
        b.order > HIGHEST_ORDER,
    ensures
        pieces(b) == pieces(b.right()) + pieces(b.left()),
{
    let top = block_size(HIGHEST_ORDER as nat);
    let count = pow2((b.order - HIGHEST_ORDER) as nat);
    let half = pow2((b.order - 1 - HIGHEST_ORDER) as nat);
    lemma_split(b);
    lemma_pow2_unfold((b.order - HIGHEST_ORDER) as nat);
    lemma_pow2_adds((b.order - 1 - HIGHEST_ORDER) as nat, HIGHEST_ORDER as nat);
    lemma2_to64();
    assert(half * top == block_size((b.order - 1) as nat)) by (nonlinear_arith)
        requires
            top == 4096 * pow2(12),
            block_size((b.order - 1) as nat) == 4096 * pow2((b.order - 1) as nat),
            pow2((b.order - 1) as nat) == half * pow2(12),
    ;
    let joined = pieces(b.right()) + pieces(b.left());
    assert(pieces(b.right()).len() == half);
    assert(pieces(b.left()).len() == half);
    assert forall|i: int| 0 <= i < count implies #[trigger] pieces(b)[i] == joined[i] by {
        if i < half {
            assert((count - 1 - i) * top == half * top + (half - 1 - i) * top) by (nonlinear_arith)
                requires
                    count == 2 * half,
            ;
        } else {
            assert(joined[i] == pieces(b.left())[i - half]);
            assert((count - 1 - i) * top == (half - 1 - (i - half)) * top) by (nonlinear_arith)
                requires
                    count == 2 * half,
            ;
        }
    }
    assert(pieces(b) =~= joined);
}

impl BuddyView {
    /// The allocator after `b` has been given to it: the pieces of `b` are put
    /// on the list of their order, one after the other.
    pub open spec fn claimed(self, b: BlockView) -> BuddyView {
        let k = if b.order <= HIGHEST_ORDER {
            b.order as int
        } else {
            HIGHEST_ORDER as int
        };
        BuddyView { free: self.free.update(k, self.free[k] + pieces(b)), outstanding: self.outstanding }
    }
}

impl BuddyView {
    /// The lowest order at or above `order` whose list holds a block, or
    /// [`ORDER_COUNT`] if there is none.
    pub open spec fn first_stocked(self, order: nat) -> nat
        decreases ORDER_COUNT - order,
    {
        if order >= ORDER_COUNT {
            ORDER_COUNT as nat
        } else if self.free[order as int].len() > 0 {
            order
        } else {
            self.first_stocked(order + 1)
        }
    }

    /// The block that a request for the given order is answered with: the
    /// lowest part of the head of the first stocked list at or above `order`.
    /// `None` if no list at or above `order` holds a block.
    pub open spec fn allocation(self, order: nat) -> Option<BlockView> {
        let from = self.first_stocked(order);
        if from >= ORDER_COUNT {
            None
        } else {
            Some(BlockView { start: self.free[from as int].last().start, order })
        }
    }

    /// The free lists after the head of list `from` has been taken and cut
    /// down to `order`: list `from` has lost its head, and each list from
    /// `order` up to `from` has the upper half that was cut off at its order
    /// as its new head.
    pub open spec fn carved(self, order: nat, from: nat) -> Seq<Seq<BlockView>> {
        let start = self.free[from as int].last().start;
        Seq::new(
            ORDER_COUNT as nat,
            |k: int|
                if k == from {
                    self.free[k].drop_last()
                } else if order <= k < from {
                    self.free[k].push(
                        BlockView { start: (start + block_size(k as nat)) as u64, order: k as nat },
                    )
                } else {
                    self.free[k]
                },
        )
    }

    /// The allocator after a request for the given order.
    pub open spec fn allocated(self, order: nat) -> BuddyView {
        match self.allocation(order) {
            None => self,
            Some(a) => BuddyView {
                free: self.carved(order, self.first_stocked(order)),
                outstanding: self.outstanding.insert(a),
            },
        }
    }
}

/// The first stocked list at or above `order` is the first stocked list at or
/// above any order that only empty lists separate from `order`.
proof fn lemma_first_stocked_skips(s: BuddyView, order: nat, above: nat)
    requires
        order <= above <= ORDER_COUNT,
        forall|k: int| order <= k < above ==> (#[trigger] s.free[k]).len() == 0,
    ensures
        s.first_stocked(order) == s.first_stocked(above),
    decreases above - order,
{
    if order < above {
        lemma_first_stocked_skips(s, order + 1, above);
    }
}

/// The first stocked list at or above `order`, if there is one, holds a block,
/// and every list between `order` and it is empty.
pub proof fn lemma_first_stocked(s: BuddyView, order: nat)
    requires
        s.free.len() == ORDER_COUNT,
    ensures
        order <= ORDER_COUNT ==> order <= s.first_stocked(order) <= ORDER_COUNT,
        s.first_stocked(order) < ORDER_COUNT ==> s.free[s.first_stocked(order) as int].len() > 0,
        forall|k: int| order <= k < s.first_stocked(order) ==> (#[trigger] s.free[k]).len() == 0,
    decreases ORDER_COUNT - order,
{
    if order < ORDER_COUNT && s.free[order as int].len() == 0 {
        lemma_first_stocked(s, order + 1);
    }
}

/// A block whose buddy is not on the list of its order can go on that list
/// without bringing two buddies together.
proof fn lemma_push_coalesced(s: BuddyView, b: BlockView)
    requires
        s.wf(),
        s.coalesced(),
        b.wf(),
        b.order <= HIGHEST_ORDER,
        forall|i: int|
            s.listed(b.order as int, i) ==> (#[trigger] s.free[b.order as int][i]).start
                != b.buddy_start(),
    ensures
        s.push(b).coalesced(),
{
    let t = s.push(b);
    let o = b.order as int;
    lemma_buddy(b);
    lemma_block_size(b.order);
    assert forall|k: int, i: int, j: int|
        #![trigger t.free[k][i], t.free[k][j]]
        t.listed(k, i) && t.listed(k, j) && k < HIGHEST_ORDER implies t.free[k][i].buddy_start()
        != t.free[k][j].start by {
        if s.listed(k, i) && s.listed(k, j) {
            assert(s.free[k][i].buddy_start() != s.free[k][j].start);
        } else if s.listed(k, i) {
            let x = s.free[k][i];
            assert(x.wf());
            lemma_buddy(x);
            assert(x.size() == b.size());
        } else if s.listed(k, j) {
            assert(s.free[k][j].start != b.buddy_start());
        }
    }
}

/// The position nearest the head at which a block that starts at `start`
/// stands in `list`, or -1 if there is none.
pub open spec fn position(list: Seq<BlockView>, start: u64) -> int
    decreases list.len(),
{
    if list.len() == 0 {
        -1
    } else if list.last().start == start {
        list.len() - 1
    } else {
        position(list.drop_last(), start)
    }
}

/// The position is that of a block that starts at `start`, and no block
/// nearer the head starts there.
pub proof fn lemma_position(list: Seq<BlockView>, start: u64)
    ensures
        -1 <= position(list, start) < list.len(),
        position(list, start) >= 0 ==> list[position(list, start)].start == start,
        forall|j: int| position(list, start) < j < list.len() ==> (#[trigger] list[j]).start != start,
    decreases list.len(),
{
    if list.len() > 0 && list.last().start != start {
        let rest = list.drop_last();
        lemma_position(rest, start);
        assert forall|j: int| position(list, start) < j < list.len() implies (#[trigger] list[j]).start
            != start by {
            if j < rest.len() {
                assert(list[j] == rest[j]);
            }
        }
    }
}

impl BuddyView {
    /// The allocator after the block `b`, which it did not know of, has been
    /// returned to the free lists. As long as the buddy of the block stands on
    /// the list of the block's order, the buddy is taken off and the two go on
    /// as the block they make up. The block that is left goes to the head of
    /// the list of its order; one that has outgrown the lists is given as
    /// [`BuddyView::claimed`] says.
    pub open spec fn coalesce(self, b: BlockView) -> BuddyView
        decreases ORDER_COUNT - b.order,
    {
        if b.order > HIGHEST_ORDER {
            self.claimed(b)
        } else {
            let at = position(self.free[b.order as int], b.buddy_start());
            if at >= 0 {
                self.remove(b.order as int, at).coalesce(b.parent())
            } else {
                self.push(b)
            }
        }
    }

    /// The allocator after the outstanding allocation `a` has been given back.
    pub open spec fn released(self, a: BlockView) -> BuddyView {
        self.forget(a).coalesce(a)
    }
}

/// The position of a block that starts at `start` and has no block nearer
/// the head that starts there.
pub(crate) proof fn lemma_position_found(list: Seq<BlockView>, start: u64, at: int)
    requires
        0 <= at < list.len(),
        list[at].start == start,
        forall|j: int| at < j < list.len() ==> (#[trigger] list[j]).start != start,
    ensures
        position(list, start) == at,
{
    lemma_position(list, start);
    let p = position(list, start);
    if p < at {
        assert(list[at].start != start);
    }
}

/// No position where no block starts at `start`.
pub(crate) proof fn lemma_position_none(list: Seq<BlockView>, start: u64)
    requires
        forall|j: int| 0 <= j < list.len() ==> (#[trigger] list[j]).start != start,
    ensures
        position(list, start) == -1,
{
    lemma_position(list, start);
}

/// One step of a release in which the buddy is free: the buddy leaves its
/// list, and the release goes on with the block that the two make up.
pub(crate) proof fn lemma_join(s: BuddyView, b: BlockView, at: int)
    requires
        s.wf(),
        s.apart_from(b),
        b.wf(),
        b.order <= HIGHEST_ORDER,
        s.listed(b.order as int, at),
        s.free[b.order as int][at].start == b.buddy_start(),
        forall|j: int|
            at < j < s.free[b.order as int].len() ==> (#[trigger] s.free[b.order as int][j]).start
                != b.buddy_start(),
    ensures
        s.remove(b.order as int, at).wf(),
        s.remove(b.order as int, at).apart_from(b.parent()),
        b.parent().wf(),
        b.parent() == b.parent(),
        s.coalesce(b) == s.remove(b.order as int, at).coalesce(b.parent()),
        s.coalesced() ==> s.remove(b.order as int, at).coalesced(),
{
    let k = b.order as int;
    let buddy = s.free[k][at];
    let t = s.remove(k, at);
    assert(buddy.wf() && buddy.order == k);
    lemma_position_found(s.free[k], b.buddy_start(), at);
    lemma_remove(s, k, at);
    lemma_merge(b, buddy);
    lemma_apart_parent(t, b, buddy);
}

/// The last step of a release in which the buddy is not free: the block goes
/// to the head of the list of its order.
pub(crate) proof fn lemma_settle(s: BuddyView, b: BlockView)
    requires
        s.wf(),
        s.apart_from(b),
        b.wf(),
        b.order <= HIGHEST_ORDER,
        forall|j: int|
            s.listed(b.order as int, j) ==> (#[trigger] s.free[b.order as int][j]).start
                != b.buddy_start(),
    ensures
        s.push(b).wf(),
        s.coalesce(b) == s.push(b),
        s.coalesced() ==> s.push(b).coalesced(),
{
    lemma_position_none(s.free[b.order as int], b.buddy_start());
    lemma_push(s, b);
    if s.coalesced() {
        lemma_push_coalesced(s, b);
    }
}

/// The buddy allocator: one free list for each order from 0 to
/// [`HIGHEST_ORDER`].
pub struct BiBuddy {
    free_lists: Vec<FreeList>,
    outstanding: Ghost<Set<BlockView>>,
}

/// A block that the allocator has handed out. It is given back with
/// [`BiBuddy::free`].
#[derive(Debug)]
pub struct Allocation(Block);

impl BiBuddy {
    /// The free lists and the outstanding allocations.
    pub closed spec fn view(&self) -> BuddyView {
        BuddyView {
            free: Seq::new(self.free_lists@.len(), |k: int| views(self.free_lists@[k]@)),
            outstanding: self.outstanding@,
        }
    }

    /// The allocator that holds nothing.
    pub fn new() -> (r: Self)
        ensures
            r@ == BuddyView::empty(),
            r@.wf(),
            r@.coalesced(),
    {
        let mut free_lists: Vec<FreeList> = Vec::new();
        while free_lists.len() < ORDER_COUNT
            invariant
                free_lists.len() <= ORDER_COUNT,
                forall|k: int| 0 <= k < free_lists.len() ==> (#[trigger] free_lists@[k])@.len() == 0,
            decreases ORDER_COUNT - free_lists.len(),
        {
            free_lists.push(FreeList::new());
        }
        let r = Self { free_lists, outstanding: Ghost(Set::empty()) };
        assert(r@.free =~~= BuddyView::empty().free);
        r
    }

    /// The free list of the given order.
    pub fn free_list(&self, order: usize) -> (r: &FreeList)
        requires
            self@.wf(),
            order <= HIGHEST_ORDER,
        ensures
            views(r@) == self@.free[order as int],
    {
        &self.free_lists[order]
    }

    /// Gives `block` to the allocator. A block above the highest order is
    /// halved, and each half is given in turn, the upper one first.
    ///
    /// The block must share no byte with a block that the allocator already
    /// knows of, free or outstanding.
    pub fn claim(&mut self, block: Block)
        requires
            old(self)@.wf(),
            old(self)@.apart_from(block@),
        ensures
            final(self)@ == old(self)@.claimed(block@),
            final(self)@.wf(),
            forall|x: BlockView|
                old(self)@.apart_from(x) && !x.overlaps(block@) ==> #[trigger] final(self)@.apart_from(x),
            old(self)@.coalesced() && (block@.order >= HIGHEST_ORDER || forall|i: int|
                old(self)@.listed(block@.order as int, i) ==> (#[trigger] old(
                    self,
                )@.free[block@.order as int][i]).start != block@.buddy_start())
                ==> final(self)@.coalesced(),
        decreases block@.order,
    {
        let mut block = block;
        let ghost whole = block@;
        if block.order() > HIGHEST_ORDER {
            let right = block.split();
            proof {
                lemma_split(whole);
                lemma_pieces_halves(whole);
                lemma_apart_inside(self@, whole, right@);
                lemma_apart_inside(self@, whole, block@);
            }
            self.claim(right);
            self.claim(block);
            proof {
                assert(self@.free =~~= old(self)@.claimed(whole).free);
            }
        } else {
            let k = block.order();
            proof {
                lemma_push(self@, whole);
                if self@.coalesced() && k < HIGHEST_ORDER && forall|i: int|
                    self@.listed(k as int, i) ==> (#[trigger] self@.free[k as int][i]).start
                        != whole.buddy_start() {
                    lemma_push_coalesced(self@, whole);
                }
            }
            self.free_lists[k].push(block);
            proof {
                assert(self@.free =~~= old(self)@.push(whole).free);
                assert(old(self)@.push(whole).free =~~= old(self)@.claimed(whole).free);
            }
        }
    }

    /// Hands out a block of exactly the given order, or `None` if no list at
    /// or above that order holds a block. The block is cut from the head of
    /// the first stocked list; the upper halves that are cut off go to the
    /// lists of their orders.
    ///
    /// The order must not be above [`HIGHEST_ORDER`].
    pub fn allocate(&mut self, order: usize) -> (r: Option<Allocation>)
        requires
            old(self)@.wf(),
            order <= HIGHEST_ORDER,
        ensures
            final(self)@ == old(self)@.allocated(order as nat),
            r is Some <==> old(self)@.allocation(order as nat) is Some,
            r is Some ==> Some(r->0@) == old(self)@.allocation(order as nat),
            r is None <==> forall|k: int|
                order <= k < ORDER_COUNT ==> (#[trigger] old(self)@.free[k]).len() == 0,
            r is Some ==> !old(self)@.outstanding.contains(r->0@),
            final(self)@.wf(),
            old(self)@.coalesced() ==> final(self)@.coalesced(),
    {
        let ghost before = self@;
        let mut next_order = order;
        loop
            invariant_except_break
                order <= next_order <= ORDER_COUNT,
            invariant
                *self == *old(self),
                before == self@,
                before.wf(),
                order <= HIGHEST_ORDER,
                forall|k: int| order <= k < next_order ==> (#[trigger] before.free[k]).len() == 0,
            ensures
                order <= next_order <= HIGHEST_ORDER,
                before.free[next_order as int].len() > 0,
            decreases ORDER_COUNT - next_order,
        {
            if next_order > HIGHEST_ORDER {
                proof {
                    lemma_first_stocked_skips(before, order as nat, ORDER_COUNT as nat);
                }
                return None;
            }
            if self.free_lists[next_order].peek().is_some() {
                break ;
            }
            next_order += 1;
        }
        let ghost from = next_order;
        let ghost top = before.free[from as int].len() - 1;
        let ghost head = before.free[from as int][top];
        proof {
            lemma_first_stocked_skips(before, order as nat, from as nat);
            lemma_remove(before, from as int, top);
        }
        let mut block = self.free_lists[next_order].pop().unwrap();
        proof {
            assert(self@.free =~~= before.remove(from as int, top).free);
            assert(self@.free =~~= before.carved(from as nat, from as nat));
            lemma_block_size(from as nat);
        }
        while next_order > order
            invariant
                order <= next_order <= from <= HIGHEST_ORDER,
                before.wf(),
                before.free[from as int].len() > 0,
                head == before.free[from as int].last(),
                forall|k: int| order <= k < from ==> (#[trigger] before.free[k]).len() == 0,
                self@.wf(),
                self@.apart_from(block@),
                block@.wf(),
                block@ == (BlockView { start: head.start, order: next_order as nat }),
                self@.free == before.carved(next_order as nat, from as nat),
                self@.outstanding == before.outstanding,
                before.coalesced() ==> self@.coalesced(),
            decreases next_order,
        {
            let ghost whole = block@;
            let ghost state = self@;
            next_order -= 1;
            let right_half = block.split();
            proof {
                lemma_split(whole);
                lemma_apart_inside(state, whole, right_half@);
                lemma_apart_inside(state, whole, block@);
                lemma_push(state, right_half@);
                if state.coalesced() {
                    lemma_push_coalesced(state, right_half@);
                }
            }
            self.free_lists[next_order].push(right_half);
            proof {
                assert(self@.free =~~= state.push(right_half@).free);
                assert(self@.free =~~= before.carved(next_order as nat, from as nat));
            }
        }
        proof {
            lemma_issue(self@, block@);
            assert(!before.outstanding.contains(block@)) by {
                if before.outstanding.contains(block@) {
                    lemma_block_size(block@.order);
                    assert(!before.free[from as int][top].overlaps(block@));
                }
            }
        }
        self.outstanding = Ghost(self.outstanding@.insert(block@));
        Some(Allocation(block))
    }
}

impl BiBuddy {
    /// Gives the allocation back. It is joined with its buddy for as long as
    /// the buddy is free; what results goes to the head of the list of its
    /// order.
    ///
    /// The allocation must be one that this allocator handed out and has not
    /// got back.
    pub fn free(&mut self, allocation: Allocation)
        requires
            old(self)@.wf(),
            old(self)@.outstanding.contains(allocation@),
        ensures
            final(self)@ == old(self)@.released(allocation@),
            final(self)@.wf(),
            old(self)@.coalesced() ==> final(self)@.coalesced(),
    {
        proof {
            lemma_forget(self@, allocation@);
        }
        self.outstanding = Ghost(self.outstanding@.remove(allocation@));
        self.free_inner(allocation.0);
    }

    /// Returns `block` to the free lists, joining it with its buddy for as
    /// long as the buddy is free.
    fn free_inner(&mut self, block: Block)
        requires
            old(self)@.wf(),
            old(self)@.apart_from(block@),
            block@.wf(),
        ensures
            final(self)@ == old(self)@.coalesce(block@),
            final(self)@.wf(),
            old(self)@.coalesced() ==> final(self)@.coalesced(),
    {
        let mut current = block;
        let ghost returned = block@;
        loop
            invariant
                self@.wf(),
                self@.apart_from(current@),
                current@.wf(),
                returned == block@,
                self@.coalesce(current@) == old(self)@.coalesce(returned),
                old(self)@.coalesced() ==> self@.coalesced(),
            decreases ORDER_COUNT + 1 - current@.order,
        {
            let ghost state = self@;
            let ghost joining = current@;
            let order = current.order();
            if order > HIGHEST_ORDER {
                self.claim(current);
                proof {
                    assert(self@ == state.coalesce(joining));
                }
                return ;
            }
            let buddy_addr = current.buddy_addr();
            let ghost listed = self.free_lists@[order as int]@;
            let is_buddy = |other: &Block| -> (r: bool)
                ensures
                    r == (other@.start == buddy_addr),
                {
                    let addr = other.addr();
                    addr == buddy_addr
                };
            let found = self.free_lists[order].remove_if(is_buddy);
            match found {
                Some(buddy) => {
                    proof {
                        let at = choose|i: int|
                            {
                                &&& 0 <= i < listed.len()
                                &&& buddy == #[trigger] listed[i]
                                &&& self.free_lists@[order as int]@ == listed.remove(i)
                                &&& is_buddy.ensures((&buddy,), true)
                                &&& forall|j: int|
                                    i < j < listed.len() ==> is_buddy.ensures(
                                        (&#[trigger] listed[j],),
                                        false,
                                    )
                            };
                        lemma_views_remove(listed, at);
                        assert(self@.free =~~= state.remove(order as int, at).free);
                        assert forall|j: int| at < j < state.free[order as int].len() implies (
                        #[trigger] state.free[order as int][j]).start != buddy_addr by {
                            assert(is_buddy.ensures((&listed[j],), false));
                        }
                        assert(buddy@ == state.free[order as int][at]);
                        lemma_join(state, joining, at);
                        assert(self@ == state.remove(order as int, at));
                    }
                    current = Block::merge(current, buddy);
                },
                None => {
                    proof {
                        assert(self@.free =~~= state.free);
                        assert forall|j: int| state.listed(order as int, j) implies (
                        #[trigger] state.free[order as int][j]).start != buddy_addr by {
                            assert(is_buddy.ensures((&listed[j],), false));
                        }
                        lemma_settle(state, joining);
                        lemma_views_push(listed, current);
                    }
                    self.free_lists[order].push(current);
                    proof {
                        assert(self@.free =~~= state.push(joining).free);
                        assert(self@ == state.push(joining));
                    }
                    return ;
                },
            }
        }
    }
}

impl Allocation {
    /// Where the allocation starts and how large it is.
    pub closed spec fn view(&self) -> BlockView {
        self.0@
    }

    /// The address of the first byte.
    pub fn start(&self) -> (r: VirtAddr)
        ensures
            r@ == self@.start,
            self@.wf(),
    {
        let addr = self.0.addr();
        proof {
            lemma_block_size(self@.order);
        }
        VirtAddr::new(addr)
    }

    /// The order of the allocation.
    pub fn order(&self) -> (r: usize)
        ensures
            r == self@.order,
    {
        self.0.order()
    }

    /// The size in bytes.
    pub fn size(&self) -> (r: u64)
        ensures
            r == self@.size(),
    {
        order_size(self.0.order())
    }

    /// The address one past the last byte. There is none for the allocation
    /// that ends where an address space ends.
    pub fn end(&self) -> (r: VirtAddr)
        requires
            self@.end() != 0x40_0000_0000,
            self@.end() != 0x1_0000_0000_0000_0000,
        ensures
            r@ == self@.end(),
    {
        let addr = self.0.addr();
        VirtAddr::new(addr + self.size())
    }
}

/// Every block on a free list starts at a multiple of its size.
pub proof fn lemma_free_blocks_aligned(s: BuddyView, k: int, i: int)
    requires
        s.wf(),
        s.listed(k, i),
    ensures
        s.free[k][i].order == k,
        s.free[k][i].start as nat % block_size(k as nat) == 0,
{
}

/// Two different outstanding allocations share no byte: one ends at or
/// before the start of the other.
pub proof fn lemma_allocations_disjoint(s: BuddyView, a: BlockView, b: BlockView)
    requires
        s.wf(),
        s.outstanding.contains(a),
        s.outstanding.contains(b),
        a != b,
    ensures
        a.end() <= b.start || b.end() <= a.start,
{
    assert(!a.overlaps(b));
}

/// A block that is given to the allocator is what the next request for its
/// order is answered with, and that request leaves the free lists as they
/// were before the block was given.
pub proof fn lemma_claim_then_allocate(s: BuddyView, b: BlockView)
    requires
        s.free.len() == ORDER_COUNT,
        b.order <= HIGHEST_ORDER,
    ensures
        s.claimed(b).allocation(b.order) == Some(b),
        s.claimed(b).allocated(b.order).free == s.free,
        s.claimed(b).allocated(b.order).outstanding == s.outstanding.insert(b),
{
    let t = s.claimed(b);
    let k = b.order as int;
    assert(t.free[k] =~= s.free[k].push(b));
    assert(t.first_stocked(b.order) == b.order);
    assert(t.free[k].drop_last() =~= s.free[k]);
    assert(t.allocated(b.order).free =~~= s.free);
}

/// Giving back two outstanding allocations that are buddies, one after the
/// other, comes to the same as giving back the block that they make up: no
/// trace of the two halves stays on the list of their order.
pub proof fn lemma_release_buddies(s: BuddyView, a: BlockView, b: BlockView)
    requires
        s.wf(),
        s.outstanding.contains(a),
        s.outstanding.contains(b),
        a.order == b.order,
        a.order <= HIGHEST_ORDER,
        b.start == a.buddy_start(),
    ensures
        s.released(a).released(b) == s.forget(a).forget(b).coalesce(a.parent()),
        s.released(a).released(b).outstanding == s.outstanding.remove(a).remove(b),
{
    let k = a.order as int;
    let s1 = s.forget(a);
    lemma_forget(s, a);
    lemma_merge(a, b);
    lemma_block_size(a.order);
    // The buddy is outstanding, so it is not on the list.
    assert forall|j: int| 0 <= j < s1.free[k].len() implies (#[trigger] s1.free[k][j]).start
        != a.buddy_start() by {
        assert(s.listed(k, j));
        assert(!s.free[k][j].overlaps(b));
    }
    lemma_position_none(s1.free[k], a.buddy_start());
    let s2 = s1.push(a);
    assert(s.released(a) == s2);
    let s3 = s2.forget(b);
    let top = s1.free[k].len() as int;
    assert(s3.free[k] =~= s1.free[k].push(a));
    lemma_buddy(a);
    assert(b == BlockView { start: a.buddy_start(), order: a.order });
    lemma_position_found(s3.free[k], b.buddy_start(), top);
    assert(s3.free[k].remove(top) =~= s1.free[k]);
    assert(s3.remove(k, top).free =~~= s1.forget(b).free);
    assert(s3.remove(k, top) == s1.forget(b));
    assert(s3.coalesce(b) == s3.remove(k, top).coalesce(b.parent()));
    lemma_coalesce_outstanding(s1.forget(b), a.parent());
}

/// A release changes the free lists only.
proof fn lemma_coalesce_outstanding(s: BuddyView, b: BlockView)
    ensures
        s.coalesce(b).outstanding == s.outstanding,
    decreases ORDER_COUNT - b.order,
{
    if b.order <= HIGHEST_ORDER {
        let at = position(s.free[b.order as int], b.buddy_start());
        if at >= 0 {
            lemma_coalesce_outstanding(s.remove(b.order as int, at), b.parent());
        }
    }
}

/// The pieces of a block above the highest order divide it exactly: there
/// are `2^(order - HIGHEST_ORDER)` of them, each is a block of the highest
/// order inside the block, no two share a byte, and every byte of the block
/// lies in one of them.
pub proof fn lemma_pieces_partition(b: BlockView)
    requires
        b.wf(),
        b.order > HIGHEST_ORDER,
    ensures
        pieces(b).len() == pow2((b.order - HIGHEST_ORDER) as nat),
        pieces(b).len() * block_size(HIGHEST_ORDER as nat) == b.size(),
        forall|i: int|
            0 <= i < pieces(b).len() ==> {
                &&& (#[trigger] pieces(b)[i]).order == HIGHEST_ORDER
                &&& pieces(b)[i].wf()
                &&& b.contains(pieces(b)[i])
                &&& pieces(b)[i].start == b.start + (pieces(b).len() - 1 - i) * block_size(
                    HIGHEST_ORDER as nat,
                )
            },
        forall|i: int, j: int|
            #![trigger pieces(b)[i], pieces(b)[j]]
            0 <= i < pieces(b).len() && 0 <= j < pieces(b).len() && i != j ==> !pieces(
                b,
            )[i].overlaps(pieces(b)[j]),
        forall|addr: int| #[trigger]
            b.holds(addr) ==> exists|i: int|
                0 <= i < pieces(b).len() && (#[trigger] pieces(b)[i]).holds(addr),
{
    let top = block_size(HIGHEST_ORDER as nat);
    let count = pow2((b.order - HIGHEST_ORDER) as nat);
    lemma_block_size_values();
    lemma2_to64();
    lemma_pow2_adds((b.order - HIGHEST_ORDER) as nat, HIGHEST_ORDER as nat);
    assert(count * top == b.size()) by (nonlinear_arith)
        requires
            top == 4096 * pow2(12),
            b.size() == 4096 * pow2(b.order),
            pow2(b.order) == count * pow2(12),
    ;
    let q = b.start as nat / b.size();
    assert(b.start as nat == b.size() * q) by {
        vstd::arithmetic::div_mod::lemma_fundamental_div_mod(b.start as int, b.size() as int);
    }
    assert forall|i: int| 0 <= i < count implies {
        &&& (#[trigger] pieces(b)[i]).order == HIGHEST_ORDER
        &&& pieces(b)[i].wf()
        &&& b.contains(pieces(b)[i])
        &&& pieces(b)[i].start == b.start + (count - 1 - i) * top
    } by {
        let offset = (count - 1 - i) * top;
        assert(0 <= offset && offset + top <= count * top) by (nonlinear_arith)
            requires
                0 <= i < count,
                offset == (count - 1 - i) * top,
                top > 0,
        ;
        assert(b.start + offset == (q * count + (count - 1 - i)) * top) by (nonlinear_arith)
            requires
                b.start as nat == b.size() * q,
                count * top == b.size(),
                offset == (count - 1 - i) * top,
        ;
        vstd::arithmetic::div_mod::lemma_mod_multiples_basic(
            q * count + (count - 1 - i),
            top as int,
        );
    }
    assert forall|i: int, j: int|
        #![trigger pieces(b)[i], pieces(b)[j]]
        0 <= i < count && 0 <= j < count && i != j implies !pieces(b)[i].overlaps(pieces(b)[j]) by {
        if i < j {
            assert((count - 1 - j) * top + top <= (count - 1 - i) * top) by (nonlinear_arith)
                requires
                    i < j,
                    top > 0,
            ;
        } else {
            assert((count - 1 - i) * top + top <= (count - 1 - j) * top) by (nonlinear_arith)
                requires
                    j < i,
                    top > 0,
            ;
        }
    }
    assert forall|addr: int| #[trigger] b.holds(addr) implies exists|i: int|
        0 <= i < pieces(b).len() && (#[trigger] pieces(b)[i]).holds(addr) by {
        let d = (addr - b.start) / top as int;
        vstd::arithmetic::div_mod::lemma_fundamental_div_mod(addr - b.start, top as int);
        vstd::arithmetic::div_mod::lemma_mod_bound(addr - b.start, top as int);
        assert(0 <= d < count) by (nonlinear_arith)
            requires
                0 <= addr - b.start < count * top,
                addr - b.start == top * d + (addr - b.start) % (top as int),
                0 <= (addr - b.start) % (top as int) < top,
                top > 0,
        ;
        let i = count - 1 - d;
        assert(pieces(b)[i].start == b.start + (count - 1 - i) * top);
        assert((count - 1 - i) * top == top * d) by (nonlinear_arith)
            requires
                i == count - 1 - d,
        ;
        assert(pieces(b)[i].holds(addr));
    }
}

} // verus!
