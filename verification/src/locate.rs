//! The block locator: finds the block of a forest that a coordinate names.

use vstd::prelude::*;
use vstd::std_specs::convert::FromSpecImpl;
use crate::block::{
    blocks_from, blocks_in, forest_views, tree_view, Block, BlockTree, BlockTreeView,
};
use crate::syntax::SyntaxNode;

verus! {

/// The coordinate of a block: where its head starts and where its tail
/// ends, in bytes and in rows and columns, all counted from zero.
#[derive(Clone, Copy, Debug, PartialEq, Eq, PartialOrd, Ord, Hash, Structural)]
pub struct BlockLocation {
    pub start_byte: usize,
    pub end_byte: usize,
    pub start_row: usize,
    pub start_col: usize,
    pub end_row: usize,
    pub end_col: usize,
}

impl Default for BlockLocation {
    fn default() -> (location: BlockLocation)
        ensures
            location == (BlockLocation {
                start_byte: 0,
                end_byte: 0,
                start_row: 0,
                start_col: 0,
                end_row: 0,
                end_col: 0,
            }),
    {
        BlockLocation { start_byte: 0, end_byte: 0, start_row: 0, start_col: 0, end_row: 0, end_col: 0 }
    }
}

/// The coordinate of a block of the given nodes.
pub open spec fn location_of(block: Seq<SyntaxNode>) -> BlockLocation {
    BlockLocation {
        start_byte: block.first().start_byte,
        end_byte: block.last().end_byte,
        start_row: block.first().start_position.row,
        start_col: block.first().start_position.column,
        end_row: block.last().end_position.row,
        end_col: block.last().end_position.column,
    }
}

impl FromSpecImpl<&Block> for BlockLocation {
    open spec fn obeys_from_spec() -> bool {
        true
    }

    open spec fn from_spec(value: &Block) -> BlockLocation {
        location_of(value@)
    }
}

impl From<&Block> for BlockLocation {
    fn from(value: &Block) -> (location: BlockLocation) {
        let (head, tail) = value.head_tail();
        BlockLocation {
            start_byte: head.start_byte,
            end_byte: tail.end_byte,
            start_row: head.start_position.row,
            start_col: head.start_position.column,
            end_row: tail.end_position.row,
            end_col: tail.end_position.column,
        }
    }
}

impl FromSpecImpl<Block> for BlockLocation {
    open spec fn obeys_from_spec() -> bool {
        true
    }

    open spec fn from_spec(value: Block) -> BlockLocation {
        location_of(value@)
    }
}

impl From<Block> for BlockLocation {
    fn from(value: Block) -> (location: BlockLocation) {
        BlockLocation::from(&value)
    }
}

/// The coordinate of a block with the coordinates of the blocks nested in it.
#[derive(Debug, Default, PartialEq, Eq, PartialOrd, Ord, Hash)]
pub struct BlockLocationTree {
    pub block: BlockLocation,
    pub children: Vec<BlockLocationTree>,
}

/// The model of a [`BlockLocationTree`].
pub struct LocationTreeView {
    pub block: BlockLocation,
    pub children: Seq<LocationTreeView>,
}

/// The model of a tree of coordinates.
pub open spec fn location_tree_view(tree: BlockLocationTree) -> LocationTreeView
    decreases tree,
{
    LocationTreeView {
        block: tree.block,
        children: Seq::new(
            tree.children@.len(),
            |i: int|
                if 0 <= i < tree.children@.len() {
                    location_tree_view(tree.children@[i])
                } else {
                    arbitrary()
                },
        ),
    }
}

impl View for BlockLocationTree {
    type V = LocationTreeView;

    open spec fn view(&self) -> LocationTreeView {
        location_tree_view(*self)
    }
}

impl Clone for BlockLocationTree {
    fn clone(&self) -> (copy: Self)
        ensures
            copy@ == self@,
        decreases self,
    {
        let mut children: Vec<BlockLocationTree> = Vec::new();
        let mut i: usize = 0;
        while i < self.children.len()
            invariant
                i <= self.children@.len(),
                children@.len() == i,
                forall|j: int| 0 <= j < i ==> children@[j]@ == self.children@[j]@,
            decreases self.children@.len() - i,
        {
            let child = self.children[i].clone();
            children.push(child);
            i += 1;
        }
        let copy = BlockLocationTree { block: self.block, children };
        assert(copy@.children =~= self@.children);
        copy
    }
}

/// The coordinates of a tree of blocks: of its block and, in order, of its children.
pub open spec fn locations_of(tree: BlockTreeView) -> LocationTreeView
    decreases tree,
{
    LocationTreeView {
        block: location_of(tree.block),
        children: Seq::new(
            tree.children.len(),
            |i: int|
                if 0 <= i < tree.children.len() {
                    locations_of(tree.children[i])
                } else {
                    arbitrary()
                },
        ),
    }
}

impl FromSpecImpl<&BlockTree> for BlockLocationTree {
    open spec fn obeys_from_spec() -> bool {
        false
    }

    open spec fn from_spec(value: &BlockTree) -> BlockLocationTree {
        arbitrary()
    }
}

impl From<&BlockTree> for BlockLocationTree {
    fn from(value: &BlockTree) -> (located: BlockLocationTree)
        ensures
            located@ == locations_of(value@),
        decreases value,
    {
        let mut children: Vec<BlockLocationTree> = Vec::new();
        let mut i: usize = 0;
        while i < value.children.len()
            invariant
                i <= value.children@.len(),
                children@.len() == i,
                forall|j: int| 0 <= j < i ==> children@[j]@ == locations_of(value.children@[j]@),
            decreases value.children@.len() - i,
        {
            children.push(BlockLocationTree::from(&value.children[i]));
            i += 1;
        }
        let located = BlockLocationTree { block: BlockLocation::from(&value.block), children };
        assert(located@.children =~= locations_of(value@).children);
        located
    }
}

impl FromSpecImpl<BlockTree> for BlockLocationTree {
    open spec fn obeys_from_spec() -> bool {
        false
    }

    open spec fn from_spec(value: BlockTree) -> BlockLocationTree {
        arbitrary()
    }
}

impl From<BlockTree> for BlockLocationTree {
    fn from(value: BlockTree) -> (located: BlockLocationTree)
        ensures
            located@ == locations_of(value@),
    {
        BlockLocationTree::from(&value)
    }
}

/// The first of the blocks at or after place `from` whose coordinate is `location`.
pub open spec fn first_located(
    blocks: Seq<Seq<SyntaxNode>>,
    location: BlockLocation,
    from: int,
) -> Option<Seq<SyntaxNode>>
    decreases blocks.len() - from,
{
    if from < 0 || from >= blocks.len() {
        None
    } else if location_of(blocks[from]) == location {
        Some(blocks[from])
    } else {
        first_located(blocks, location, from + 1)
    }
}

/// The block that `location` names in a forest: the first one in document
/// order whose coordinate equals it in all six fields.
pub open spec fn located(trees: Seq<BlockTreeView>, location: BlockLocation) -> Option<
    Seq<SyntaxNode>,
> {
    first_located(blocks_from(trees, 0), location, 0)
}

proof fn lemma_first_located_shift(
    front: Seq<Seq<SyntaxNode>>,
    back: Seq<Seq<SyntaxNode>>,
    location: BlockLocation,
    from: int,
)
    requires
        0 <= from <= back.len(),
    ensures
        first_located(front + back, location, front.len() + from) == first_located(
            back,
            location,
            from,
        ),
    decreases back.len() - from,
{
    if from < back.len() {
        assert((front + back)[front.len() + from] == back[from]);
        lemma_first_located_shift(front, back, location, from + 1);
    }
}

/// In a concatenation the first block with a coordinate is the first such
/// block of the front part, or else the first of the back part.
pub proof fn lemma_first_located_concat(
    front: Seq<Seq<SyntaxNode>>,
    back: Seq<Seq<SyntaxNode>>,
    location: BlockLocation,
    from: int,
)
    requires
        0 <= from <= front.len(),
    ensures
        first_located(front + back, location, from) == match first_located(front, location, from) {
            Some(found) => Some(found),
            None => first_located(back, location, 0),
        },
    decreases front.len() - from,
{
    if from < front.len() {
        assert((front + back)[from] == front[from]);
        lemma_first_located_concat(front, back, location, from + 1);
    } else {
        lemma_first_located_shift(front, back, location, 0);
    }
}

/// Place `at` holds the first block at or after `from` with the coordinate.
pub open spec fn is_first_located(
    blocks: Seq<Seq<SyntaxNode>>,
    location: BlockLocation,
    from: int,
    at: int,
) -> bool {
    &&& from <= at < blocks.len()
    &&& location_of(blocks[at]) == location
    &&& forall|j: int| from <= j < at ==> location_of(#[trigger] blocks[j]) != location
}

proof fn lemma_first_located(blocks: Seq<Seq<SyntaxNode>>, location: BlockLocation, from: int)
    requires
        0 <= from,
    ensures
        match first_located(blocks, location, from) {
            Some(found) => exists|at: int|
                #[trigger] is_first_located(blocks, location, from, at) && blocks[at] == found,
            None => forall|j: int|
                from <= j < blocks.len() ==> location_of(#[trigger] blocks[j]) != location,
        },
    decreases blocks.len() - from,
{
    if from < blocks.len() {
        if location_of(blocks[from]) == location {
            assert(is_first_located(blocks, location, from, from));
        } else {
            lemma_first_located(blocks, location, from + 1);
            if first_located(blocks, location, from) is Some {
                let at = choose|at: int|
                    #[trigger] is_first_located(blocks, location, from + 1, at) && blocks[at]
                        == first_located(blocks, location, from + 1)->0;
                assert(is_first_located(blocks, location, from, at));
            }
        }
    }
}

/// The block that a coordinate names has exactly that coordinate, and is
/// the first block of the forest in document order that has it: no other
/// block is ever given in its place. No block is named only where no block
/// of the forest has the coordinate.
pub proof fn lemma_located_is_exact(trees: Seq<BlockTreeView>, location: BlockLocation)
    ensures
        match located(trees, location) {
            Some(found) => location_of(found) == location && exists|at: int|
                #[trigger] is_first_located(blocks_from(trees, 0), location, 0, at) && blocks_from(
                    trees,
                    0,
                )[at] == found,
            None => forall|j: int|
                0 <= j < blocks_from(trees, 0).len() ==> location_of(
                    #[trigger] blocks_from(trees, 0)[j],
                ) != location,
        },
{
    lemma_first_located(blocks_from(trees, 0), location, 0);
}

/// A coordinate that ends behind every block of the forest names no block
/// of it. So it is with a coordinate outside a document for the blocks of
/// the document.
pub proof fn lemma_outside_is_not_found(
    trees: Seq<BlockTreeView>,
    location: BlockLocation,
    end: usize,
)
    requires
        forall|i: int|
            0 <= i < blocks_from(trees, 0).len() ==> (#[trigger] blocks_from(
                trees,
                0,
            )[i]).last().end_byte <= end,
        location.end_byte > end,
    ensures
        located(trees, location) is None,
{
    lemma_located_is_exact(trees, location);
    if located(trees, location) is Some {
        let at = choose|at: int|
            #[trigger] is_first_located(blocks_from(trees, 0), location, 0, at) && blocks_from(
                trees,
                0,
            )[at] == located(trees, location)->0;
        assert(blocks_from(trees, 0)[at].last().end_byte <= end);
    }
}

/// The coordinates of the trees of a forest, tree by tree.
pub open spec fn forest_locations(trees: Seq<BlockTreeView>) -> Seq<LocationTreeView> {
    Seq::new(trees.len(), |i: int| locations_of(trees[i]))
}

/// The models of a sequence of trees of coordinates.
pub open spec fn location_views(trees: Seq<BlockLocationTree>) -> Seq<LocationTreeView> {
    Seq::new(trees.len(), |i: int| trees[i]@)
}

/// A copy of the block that `location` names in the forest: the first block
/// in document order whose coordinate equals `location` exactly.
pub fn copy_item_at(location: &BlockLocation, trees: &Vec<BlockTree>) -> (found: Option<Block>)
    ensures
        match found {
            Some(block) => located(forest_views(trees@), *location) == Some(block@),
            None => located(forest_views(trees@), *location) is None,
        },
    decreases trees,
{
    let ghost forest = forest_views(trees@);
    let mut i: usize = 0;
    while i < trees.len()
        invariant
            i <= trees@.len(),
            forest == forest_views(trees@),
            located(forest, *location) == first_located(blocks_from(forest, i as int), *location, 0),
        decreases trees@.len() - i,
    {
        let tree = &trees[i];
        let ghost below = blocks_from(tree_view(*tree).children, 0);
        let ghost after = blocks_from(forest, i + 1);
        proof {
            assert(forest[i as int] == tree_view(*tree));
            assert(blocks_from(forest, i as int) == blocks_in(forest[i as int]) + after);
            assert(blocks_in(forest[i as int]) == seq![tree.block@] + below);
            assert(blocks_from(forest, i as int) =~= seq![tree.block@] + (below + after));
            lemma_first_located_concat(seq![tree.block@], below + after, *location, 0);
            lemma_first_located_concat(below, after, *location, 0);
            assert(tree_view(*tree).children =~= forest_views(tree.children@));
        }
        if BlockLocation::from(&tree.block) == *location {
            return Some(tree.block.clone());
        }
        proof {
            assert(first_located(seq![tree.block@], *location, 1) is None);
            assert(first_located(seq![tree.block@], *location, 0) is None);
        }
        match copy_item_at(location, &tree.children) {
            Some(block) => {
                return Some(block);
            },
            None => {},
        }
        i += 1;
    }
    None
}

} // verus!
