//! Blocks: the movable units of a document.

use vstd::prelude::*;
use crate::error::Error;
use crate::syntax::SyntaxNode;

verus! {

/// A non-empty sequence of nodes that moves as one unit: header nodes
/// (comments, attributes) followed by the primary node.
#[derive(Debug, PartialEq, Eq, Hash)]
pub struct Block {
    nodes: Vec<SyntaxNode>,
}

impl View for Block {
    type V = Seq<SyntaxNode>;

    closed spec fn view(&self) -> Seq<SyntaxNode> {
        self.nodes@
    }
}

impl Clone for Block {
    fn clone(&self) -> (copy: Self)
        ensures
            copy@ == self@,
    {
        proof {
            use_type_invariant(self);
        }
        let nodes = self.nodes.clone();
        assert(nodes@ =~= self.nodes@);
        Block { nodes }
    }
}

impl Block {
    #[verifier::type_invariant]
    spec fn inhabited(&self) -> bool {
        self.nodes@.len() > 0
    }

    /// The first node.
    pub open spec fn spec_head(&self) -> SyntaxNode {
        self@.first()
    }

    /// The last node.
    pub open spec fn spec_tail(&self) -> SyntaxNode {
        self@.last()
    }

    /// A block of the given nodes; an empty sequence is refused.
    pub fn new(nodes: Vec<SyntaxNode>) -> (r: Result<Block, Error>)
        ensures
            nodes@.len() == 0 <==> r == Err::<Block, Error>(Error::EmptyBlock),
            nodes@.len() > 0 <==> r is Ok,
            r matches Ok(b) ==> b@ == nodes@,
    {
        if nodes.len() == 0 {
            Err(Error::EmptyBlock)
        } else {
            Ok(Block { nodes })
        }
    }

    /// The first node of the block.
    pub fn head(&self) -> (n: &SyntaxNode)
        ensures
            self@.len() > 0,
            *n == self.spec_head(),
    {
        proof {
            use_type_invariant(self);
        }
        &self.nodes[0]
    }

    /// The last node of the block, its primary node.
    pub fn tail(&self) -> (n: &SyntaxNode)
        ensures
            self@.len() > 0,
            *n == self.spec_tail(),
    {
        proof {
            use_type_invariant(self);
        }
        &self.nodes[self.nodes.len() - 1]
    }

    /// The first and the last node.
    pub fn head_tail(&self) -> (r: (&SyntaxNode, &SyntaxNode))
        ensures
            self@.len() > 0,
            *r.0 == self.spec_head(),
            *r.1 == self.spec_tail(),
    {
        (self.head(), self.tail())
    }

    /// The bytes that the block spans, from the start of the head to the end of the tail.
    pub fn byte_range(&self) -> (r: std::ops::Range<usize>)
        ensures
            self@.len() > 0,
            r.start == self.spec_head().start_byte,
            r.end == self.spec_tail().end_byte,
    {
        self.head().start_byte..self.tail().end_byte
    }
}

} // verus!

verus! {

/// A block with the blocks nested directly inside it.
#[derive(Debug, PartialEq, Eq, Hash)]
pub struct BlockTree {
    pub block: Block,
    pub children: Vec<BlockTree>,
}

/// The model of a [`BlockTree`]: the nodes of its block and the models of its children.
pub struct BlockTreeView {
    pub block: Seq<SyntaxNode>,
    pub children: Seq<BlockTreeView>,
}

/// The model of a tree: its block and, in order, the models of its children.
pub open spec fn tree_view(tree: BlockTree) -> BlockTreeView
    decreases tree,
{
    BlockTreeView {
        block: tree.block@,
        children: Seq::new(
            tree.children@.len(),
            |i: int|
                if 0 <= i < tree.children@.len() {
                    tree_view(tree.children@[i])
                } else {
                    arbitrary()
                },
        ),
    }
}

impl View for BlockTree {
    type V = BlockTreeView;

    open spec fn view(&self) -> BlockTreeView {
        tree_view(*self)
    }
}

/// The models of a sequence of blocks.
pub open spec fn block_views(blocks: Seq<Block>) -> Seq<Seq<SyntaxNode>> {
    Seq::new(blocks.len(), |i: int| blocks[i]@)
}

/// The models of a forest.
pub open spec fn forest_views(trees: Seq<BlockTree>) -> Seq<BlockTreeView> {
    Seq::new(trees.len(), |i: int| trees[i]@)
}

/// The blocks of a tree in document order: its own block, then those of its children.
pub open spec fn blocks_in(tree: BlockTreeView) -> Seq<Seq<SyntaxNode>>
    decreases tree, 0int,
{
    seq![tree.block] + blocks_from(tree.children, 0)
}

/// The blocks of the trees at and after place `from`, in document order.
pub open spec fn blocks_from(trees: Seq<BlockTreeView>, from: int) -> Seq<Seq<SyntaxNode>>
    decreases trees, trees.len() - from,
{
    if from < 0 || from >= trees.len() {
        Seq::empty()
    } else {
        blocks_in(trees[from]) + blocks_from(trees, from + 1)
    }
}

proof fn lemma_blocks_from_shift(front: Seq<BlockTreeView>, back: Seq<BlockTreeView>, from: int)
    requires
        0 <= from <= back.len(),
    ensures
        blocks_from(front + back, front.len() + from) == blocks_from(back, from),
    decreases back.len() - from,
{
    if from < back.len() {
        assert((front + back)[front.len() + from] == back[from]);
        lemma_blocks_from_shift(front, back, from + 1);
    }
}

proof fn lemma_blocks_from_split(front: Seq<BlockTreeView>, back: Seq<BlockTreeView>, from: int)
    requires
        0 <= from <= front.len(),
    ensures
        blocks_from(front + back, from) == blocks_from(front, from) + blocks_from(back, 0),
    decreases front.len() - from,
{
    if from < front.len() {
        assert((front + back)[from] == front[from]);
        lemma_blocks_from_split(front, back, from + 1);
        assert(blocks_from(front + back, from) =~= blocks_from(front, from) + blocks_from(back, 0));
    } else {
        lemma_blocks_from_shift(front, back, 0);
        assert(blocks_from(front + back, from) =~= blocks_from(front, from) + blocks_from(back, 0));
    }
}

/// The blocks of two forests side by side are the blocks of the first
/// followed by the blocks of the second.
pub proof fn lemma_blocks_of_concat(front: Seq<BlockTreeView>, back: Seq<BlockTreeView>)
    ensures
        blocks_from(front + back, 0) == blocks_from(front, 0) + blocks_from(back, 0),
{
    lemma_blocks_from_split(front, back, 0);
}

/// The blocks of a forest of one tree are the block of the tree followed
/// by the blocks of its children.
pub proof fn lemma_blocks_of_one(tree: BlockTreeView)
    ensures
        blocks_from(seq![tree], 0) == seq![tree.block] + blocks_from(tree.children, 0),
{
    let one = seq![tree];
    assert(blocks_from(one, 1) =~= Seq::<Seq<SyntaxNode>>::empty());
    assert(blocks_from(one, 0) == blocks_in(one[0]) + blocks_from(one, 1));
    assert(blocks_in(tree) == seq![tree.block] + blocks_from(tree.children, 0));
    assert(blocks_from(one, 0) =~= seq![tree.block] + blocks_from(tree.children, 0));
}

impl Clone for BlockTree {
    fn clone(&self) -> (copy: Self)
        ensures
            copy@ == self@,
        decreases self,
    {
        let mut children: Vec<BlockTree> = Vec::new();
        let mut i: usize = 0;
        while i < self.children.len()
            invariant
                i <= self.children@.len(),
                children@.len() == i,
                forall|j: int| 0 <= j < i ==> children@[j]@ == self.children@[j]@,
            decreases self.children@.len() - i,
        {
            let child = self.children[i].clone();
            children.push(child);
            i += 1;
        }
        let copy = BlockTree { block: self.block.clone(), children };
        assert(copy@.children =~= self@.children);
        copy
    }
}

} // verus!
