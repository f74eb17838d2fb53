//! The small stacks of the traversals and of the verifier.
//!
//! They are `SmallVec`s of the `smallvec` crate, which keep a few items
//! inline and spill to the heap beyond that. Each is held in a struct of its
//! own whose items are named by a specification function; `push` and `pop`
//! are the trusted calls into the crate.
use vstd::prelude::*;
use range_collections::RangeSetRef;
use smallvec::SmallVec;
use crate::iter::ResponseChunk;
use crate::ranges::range_boundaries;
use crate::tree::TreeNode;

verus! {

/// The stack of hashes of the verifier and of the outboard builder, the last
/// item on top: a `SmallVec` with room for 10 hashes inline.
#[verifier::external_body]
pub struct HashStack {
    inner: SmallVec<[crate::hash::Hash; 10]>,
}

/// The hashes on a stack of hashes, from the bottom to the top.
pub uninterp spec fn hash_stack_items(s: HashStack) -> Seq<Seq<u8>>;

impl View for HashStack {
    type V = Seq<Seq<u8>>;

    open spec fn view(&self) -> Seq<Seq<u8>> {
        hash_stack_items(*self)
    }
}

impl HashStack {
    /// Calls `SmallVec::new`: a stack without items.
    #[verifier::external_body]
    pub(crate) fn new() -> (s: Self)
        ensures
            hash_stack_items(s) == Seq::<Seq<u8>>::empty(),
    {
        HashStack { inner: SmallVec::new() }
    }

    /// Calls `SmallVec::push`, which appends the item.
    #[verifier::external_body]
    pub(crate) fn push(&mut self, h: crate::hash::Hash)
        ensures
            hash_stack_items(*final(self)) == hash_stack_items(*old(self)).push(h@),
    {
        self.inner.push(h)
    }

    /// Calls `SmallVec::pop`, which removes the last item and returns it, and
    /// returns nothing for a stack without items.
    #[verifier::external_body]
    pub(crate) fn pop(&mut self) -> (r: Option<crate::hash::Hash>)
        ensures
            match r {
                Some(h) => {
                    &&& hash_stack_items(*old(self)).len() > 0
                    &&& h@ == hash_stack_items(*old(self)).last()
                    &&& hash_stack_items(*final(self)) == hash_stack_items(*old(self)).drop_last()
                },
                None => {
                    &&& hash_stack_items(*old(self)).len() == 0
                    &&& hash_stack_items(*final(self)) == hash_stack_items(*old(self))
                },
            },
    {
        self.inner.pop()
    }
}

/// The stack of the nodes that a traversal by ranges has still to visit, each
/// with the ranges that reach it, the last item on top: a `SmallVec` with
/// room for 8 items inline.
#[verifier::external_body]
pub struct NodeStack<'a> {
    inner: SmallVec<[(TreeNode, &'a RangeSetRef<u64>); 8]>,
}

/// The nodes on a stack of nodes, each with the boundaries of its ranges,
/// from the bottom to the top.
pub uninterp spec fn node_stack_items(s: NodeStack) -> Seq<(TreeNode, Seq<u64>)>;

impl<'a> View for NodeStack<'a> {
    type V = Seq<(TreeNode, Seq<u64>)>;

    open spec fn view(&self) -> Seq<(TreeNode, Seq<u64>)> {
        node_stack_items(*self)
    }
}

impl<'a> NodeStack<'a> {
    /// Calls `SmallVec::new`: a stack without items.
    #[verifier::external_body]
    pub(crate) fn new() -> (s: Self)
        ensures
            node_stack_items(s) == Seq::<(TreeNode, Seq<u64>)>::empty(),
    {
        NodeStack { inner: SmallVec::new() }
    }

    /// Calls `SmallVec::push`, which appends the item.
    #[verifier::external_body]
    pub(crate) fn push(&mut self, node: TreeNode, ranges: &'a RangeSetRef<u64>)
        ensures
            node_stack_items(*final(self)) == node_stack_items(*old(self)).push(
                (node, range_boundaries(ranges)),
            ),
    {
        self.inner.push((node, ranges))
    }

    /// Calls `SmallVec::pop`, which removes the last item and returns it, and
    /// returns nothing for a stack without items.
    #[verifier::external_body]
    pub(crate) fn pop(&mut self) -> (r: Option<(TreeNode, &'a RangeSetRef<u64>)>)
        ensures
            match r {
                Some((node, ranges)) => {
                    &&& node_stack_items(*old(self)).len() > 0
                    &&& (node, range_boundaries(ranges)) == node_stack_items(*old(self)).last()
                    &&& node_stack_items(*final(self)) == node_stack_items(*old(self)).drop_last()
                },
                None => {
                    &&& node_stack_items(*old(self)).len() == 0
                    &&& node_stack_items(*final(self)) == node_stack_items(*old(self))
                },
            },
    {
        self.inner.pop()
    }
}

/// The buffer of the directives that a drill into a block has produced, the
/// last item the next to hand out: a `SmallVec` with room for 10 items
/// inline.
#[verifier::external_body]
pub struct ChunkBuffer {
    inner: SmallVec<[ResponseChunk; 10]>,
}

/// The directives in a buffer, from the first to the last.
pub uninterp spec fn chunk_buffer_items(s: ChunkBuffer) -> Seq<ResponseChunk>;

impl View for ChunkBuffer {
    type V = Seq<ResponseChunk>;

    open spec fn view(&self) -> Seq<ResponseChunk> {
        chunk_buffer_items(*self)
    }
}

impl ChunkBuffer {
    /// Calls `SmallVec::new`: a buffer without items.
    #[verifier::external_body]
    pub(crate) fn new() -> (s: Self)
        ensures
            chunk_buffer_items(s) == Seq::<ResponseChunk>::empty(),
    {
        ChunkBuffer { inner: SmallVec::new() }
    }

    /// Calls `SmallVec::push`, which appends the item.
    #[verifier::external_body]
    pub(crate) fn push(&mut self, item: ResponseChunk)
        ensures
            chunk_buffer_items(*final(self)) == chunk_buffer_items(*old(self)).push(item),
    {
        self.inner.push(item)
    }

    /// Calls `SmallVec::pop`, which removes the last item and returns it, and
    /// returns nothing for a buffer without items.
    #[verifier::external_body]
    pub(crate) fn pop(&mut self) -> (r: Option<ResponseChunk>)
        ensures
            match r {
                Some(item) => {
                    &&& chunk_buffer_items(*old(self)).len() > 0
                    &&& item == chunk_buffer_items(*old(self)).last()
                    &&& chunk_buffer_items(*final(self)) == chunk_buffer_items(
                        *old(self),
                    ).drop_last()
                },
                None => {
                    &&& chunk_buffer_items(*old(self)).len() == 0
                    &&& chunk_buffer_items(*final(self)) == chunk_buffer_items(*old(self))
                },
            },
    {
        self.inner.pop()
    }

    /// Calls `reverse` on the slice of the `SmallVec`, which turns the order
    /// of the items round.
    #[verifier::external_body]
    pub(crate) fn reverse(&mut self)
        ensures
            chunk_buffer_items(*final(self)) == chunk_buffer_items(*old(self)).reverse(),
    {
        self.inner.reverse()
    }
}

} // verus!
