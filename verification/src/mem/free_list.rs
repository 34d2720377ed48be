//! Lists of free blocks.

use crate::mem::block::{Block, BlockView};
use vstd::prelude::*;

verus! {

/// A list of free blocks. Blocks enter and leave at the head.
pub struct FreeList {
    blocks: Vec<Block>,
}

/// The blocks of a list as the allocator's laws see them.
pub open spec fn views(list: Seq<Block>) -> Seq<BlockView> {
    list.map_values(|b: Block| b@)
}

impl FreeList {
    /// The blocks of the list, from the tail to the head: the head is the
    /// last element.
    pub closed spec fn view(&self) -> Seq<Block> {
        self.blocks@
    }

    /// The empty list.
    pub fn new() -> (r: Self)
        ensures
            r@ == Seq::<Block>::empty(),
    {
        Self { blocks: Vec::new() }
    }

    /// The number of blocks on the list.
    pub fn len(&self) -> (r: usize)
        ensures
            r == self@.len(),
    {
        self.blocks.len()
    }

    /// Puts `block` at the head.
    pub fn push(&mut self, block: Block)
        ensures
            final(self)@ == old(self)@.push(block),
    {
        self.blocks.push(block);
    }

    /// Takes the head off the list, if there is one.
    pub fn pop(&mut self) -> (r: Option<Block>)
        ensures
            old(self)@.len() == 0 ==> r is None && final(self)@ == old(self)@,
            old(self)@.len() > 0 ==> r == Some(old(self)@.last()) && final(self)@ == old(
                self,
            )@.drop_last(),
    {
        self.blocks.pop()
    }

    /// The head, if there is one.
    pub fn peek(&self) -> (r: Option<&Block>)
        ensures
            self@.len() == 0 ==> r is None,
            self@.len() > 0 ==> r == Some(&self@.last()),
    {
        let len = self.blocks.len();
        if len == 0 {
            None
        } else {
            Some(&self.blocks[len - 1])
        }
    }

    /// The head, if there is one, to be changed in place.
    pub fn peek_mut(&mut self) -> (r: Option<&mut Block>)
        ensures
            old(self)@.len() == 0 ==> r is None && final(self)@ == old(self)@,
            old(self)@.len() > 0 ==> r is Some && *r->0 == old(self)@.last() && final(self)@ == old(
                self,
            )@.update(old(self)@.len() - 1, *final(r->0)),
    {
        let len = self.blocks.len();
        if len == 0 {
            None
        } else {
            Some(&mut self.blocks[len - 1])
        }
    }

    /// Takes the block nearest the head for which `predicate` holds off the
    /// list, if there is one. The blocks that stay keep their order.
    pub fn remove_if<F: Fn(&Block) -> bool>(&mut self, predicate: F) -> (r: Option<Block>)
        requires
            forall|b: Block| #[trigger] predicate.requires((&b,)),
        ensures
            r is None ==> final(self)@ == old(self)@ && forall|j: int|
                0 <= j < old(self)@.len() ==> predicate.ensures((&#[trigger] old(self)@[j],), false),
            r is Some ==> exists|i: int|
                {
                    &&& 0 <= i < old(self)@.len()
                    &&& r->0 == #[trigger] old(self)@[i]
                    &&& final(self)@ == old(self)@.remove(i)
                    &&& predicate.ensures((&r->0,), true)
                    &&& forall|j: int|
                        i < j < old(self)@.len() ==> predicate.ensures(
                            (&#[trigger] old(self)@[j],),
                            false,
                        )
                },
    {
        let mut i: usize = self.blocks.len();
        while i > 0
            invariant
                i <= self.blocks.len(),
                self.blocks@ == old(self).blocks@,
                forall|b: Block| #[trigger] predicate.requires((&b,)),
                forall|j: int|
                    i <= j < self.blocks@.len() ==> predicate.ensures(
                        (&#[trigger] self.blocks@[j],),
                        false,
                    ),
            decreases i,
        {
            i -= 1;
            if predicate(&self.blocks[i]) {
                let found = self.blocks.remove(i);
                assert(found == old(self)@[i as int]);
                return Some(found);
            }
        }
        None
    }
}

/// The views of a list without one of its blocks.
pub(crate) proof fn lemma_views_remove(list: Seq<Block>, at: int)
    requires
        0 <= at < list.len(),
    ensures
        views(list.remove(at)) == views(list).remove(at),
{
    assert(views(list.remove(at)) =~= views(list).remove(at));
}

/// The views of a list with one more block at its head.
pub(crate) proof fn lemma_views_push(list: Seq<Block>, b: Block)
    ensures
        views(list.push(b)) == views(list).push(b@),
{
    assert(views(list.push(b)) =~= views(list).push(b@));
}

} // verus!
