//! The forest builder: nests the matched blocks as the syntax tree nests
//! their primary nodes.

use vstd::prelude::*;
use vstd::string::*;
use vstd::multiset::Multiset;
use vstd::seq_lib::lemma_multiset_commutative;
use crate::block::{
    block_views, blocks_from, forest_views, lemma_blocks_of_concat, lemma_blocks_of_one, tree_view,
    Block, BlockTree, BlockTreeView,
};
use crate::matcher::{blocks_of_streams, get_blocks, streams_of};
use crate::reader::{is_reading_of, read_tree};
use crate::syntax::{
    all_referred, has_referrer, linked_forward, refers_to, SyntaxNode, SyntaxTree, TreeNode,
};

verus! {

/// The block ends in the node with identity `id`.
pub open spec fn claims(block: Seq<SyntaxNode>, id: usize) -> bool {
    block.len() > 0 && block.last().id == id
}

/// The place of the first block at or after `from` that ends in the node `id`.
pub open spec fn first_claim(pending: Seq<Seq<SyntaxNode>>, id: usize, from: int) -> Option<int>
    decreases pending.len() - from,
{
    if from < 0 || from >= pending.len() {
        None
    } else if claims(pending[from], id) {
        Some(from)
    } else {
        first_claim(pending, id, from + 1)
    }
}

/// What the walk of a part of the syntax tree yields: the trees that are not
/// yet nested in a block, and the blocks that no node has claimed so far.
pub struct Growth {
    pub trees: Seq<BlockTreeView>,
    pub pending: Seq<Seq<SyntaxNode>>,
}

/// The walk below a node: of its first child and all that follows it, or
/// nothing where it has no child.
pub open spec fn grow_link(
    tree: Seq<TreeNode>,
    from: int,
    link: Option<usize>,
    pending: Seq<Seq<SyntaxNode>>,
) -> Growth
    decreases tree.len() - from, 0int,
{
    match link {
        Some(to) => if from < to < tree.len() {
            grow(tree, to as int, pending)
        } else {
            Growth { trees: Seq::empty(), pending }
        },
        None => Growth { trees: Seq::empty(), pending },
    }
}

/// The walk at a node: the first pending block that ends in the node takes
/// all trees that grew below the node as its children; without such a block
/// those trees pass through.
pub open spec fn claim_at(id: usize, below: Growth) -> Growth {
    match first_claim(below.pending, id, 0) {
        Some(k) => Growth {
            trees: seq![BlockTreeView { block: below.pending[k], children: below.trees }],
            pending: below.pending.remove(k),
        },
        None => below,
    }
}

/// The walk of the node at `at` and of the siblings that follow it: first
/// below the node, then at the node, then on to its next sibling.
pub open spec fn grow(tree: Seq<TreeNode>, at: int, pending: Seq<Seq<SyntaxNode>>) -> Growth
    decreases tree.len() - at, 1int,
{
    if at < 0 || at >= tree.len() {
        Growth { trees: Seq::empty(), pending }
    } else {
        let below = grow_link(tree, at, tree[at].first_child, pending);
        let here = claim_at(tree[at].id, below);
        let after = grow_link(tree, at, tree[at].next_sibling, here.pending);
        Growth { trees: here.trees + after.trees, pending: after.pending }
    }
}

/// The place of the first block that ends in the node `id`.
fn find_claim(blocks: &Vec<Block>, id: usize) -> (found: Option<usize>)
    ensures
        match found {
            Some(k) => k < blocks@.len() && first_claim(block_views(blocks@), id, 0) == Some(
                k as int,
            ),
            None => first_claim(block_views(blocks@), id, 0) is None,
        },
{
    let mut i: usize = 0;
    while i < blocks.len()
        invariant
            i <= blocks@.len(),
            first_claim(block_views(blocks@), id, 0) == first_claim(
                block_views(blocks@),
                id,
                i as int,
            ),
        decreases blocks@.len() - i,
    {
        if blocks[i].tail().id == id {
            return Some(i);
        }
        i += 1;
    }
    None
}

/// The walk that is still to be made: of the node at `place` and the
/// siblings that follow it, or none where the last sibling is done.
pub open spec fn grow_rest(
    tree: Seq<TreeNode>,
    place: Option<usize>,
    pending: Seq<Seq<SyntaxNode>>,
) -> Growth {
    match place {
        Some(at) => grow(tree, at as int, pending),
        None => Growth { trees: Seq::empty(), pending },
    }
}

/// Builds the forest of the node at `at` and of the siblings that follow it
/// from the blocks that are still pending, and takes the blocks it nests out
/// of `blocks`.
pub fn build_block_tree(blocks: &mut Vec<Block>, tree: &SyntaxTree, at: usize) -> (trees: Vec<
    BlockTree,
>)
    requires
        at < tree@.len(),
    ensures
        forest_views(trees@) == grow(tree@, at as int, block_views(old(blocks)@)).trees,
        block_views(final(blocks)@) == grow(tree@, at as int, block_views(old(blocks)@)).pending,
    decreases tree@.len() - at,
{
    let ghost whole = grow(tree@, at as int, block_views(blocks@));
    let mut trees: Vec<BlockTree> = Vec::new();
    let mut place = Some(at);
    assert(forest_views(trees@) + whole.trees =~= whole.trees);
    loop
        invariant
            place matches Some(p) ==> at <= p < tree@.len(),
            whole.trees == forest_views(trees@) + grow_rest(tree@, place, block_views(blocks@)).trees,
            whole.pending == grow_rest(tree@, place, block_views(blocks@)).pending,
        ensures
            whole.trees == forest_views(trees@),
            whole.pending == block_views(blocks@),
        decreases
            match place {
                Some(p) => tree@.len() - p,
                None => 0,
            },
    {
        let p = match place {
            Some(p) => p,
            None => {
                assert(forest_views(trees@) + Seq::<BlockTreeView>::empty() =~= forest_views(
                    trees@,
                ));
                break ;
            },
        };
        let node = tree.node(p);
        let ghost before = block_views(blocks@);
        let ghost done = forest_views(trees@);
        let mut children: Vec<BlockTree> = match node.first_child {
            Some(child) => build_block_tree(blocks, tree, child),
            None => Vec::new(),
        };
        let ghost below = grow_link(tree@, p as int, node.first_child, before);
        assert(forest_views(children@) =~= below.trees);
        assert(block_views(blocks@) == below.pending);
        let ghost here = claim_at(node.id, below);
        match find_claim(blocks, node.id) {
            Some(k) => {
                let ghost pending = blocks@;
                let block = blocks.remove(k);
                assert(block_views(blocks@) =~= block_views(pending).remove(k as int));
                let nested = BlockTree { block, children };
                assert(tree_view(nested).children =~= below.trees);
                trees.push(nested);
                assert(forest_views(trees@) =~= done + here.trees);
            },
            None => {
                let ghost loose = children@;
                trees.append(&mut children);
                assert(forest_views(trees@) =~= done + forest_views(loose));
            },
        }
        assert(block_views(blocks@) == here.pending);
        place = node.next_sibling;
        proof {
            let after = grow_link(tree@, p as int, node.next_sibling, here.pending);
            assert(after == grow_rest(tree@, place, here.pending));
            assert(grow(tree@, p as int, before).trees == here.trees + after.trees);
            assert(done + (here.trees + after.trees) =~= (done + here.trees) + after.trees);
        }
    }
    trees
}

/// The forest is that of the blocks that the queries match in the tree:
/// the one that the walk builds from the first place of what is read of
/// the tree, and from the blocks of the streams of captures that the
/// queries give on the tree and the text.
pub open spec fn is_forest_of(
    forest: Seq<BlockTreeView>,
    queries: Seq<tree_sitter::Query>,
    tree: tree_sitter::Tree,
    text: Seq<u8>,
) -> bool {
    exists|syntax: Seq<TreeNode>|
        #[trigger] is_reading_of(syntax, tree) && linked_forward(syntax) && all_referred(syntax)
            && forest == grow(syntax, 0, blocks_of_streams(streams_of(queries, tree, text))).trees
}

/// The forest of the blocks that the queries match in `tree`.
pub fn get_query_subtrees<'tree>(
    queries: &[tree_sitter::Query],
    tree: &'tree tree_sitter::Tree,
    text: &str,
) -> (trees: Vec<BlockTree>)
    ensures
        is_forest_of(forest_views(trees@), queries@, *tree, text.spec_bytes()),
{
    let mut blocks = get_blocks(queries, tree, text);
    let syntax = read_tree(tree);
    let trees = build_block_tree(&mut blocks, &syntax, 0);
    assert(is_reading_of(syntax@, *tree));
    trees
}

/// The first claim is a place of the sequence whose block ends in the
/// node, and no block before it does.
pub proof fn lemma_first_claim(pending: Seq<Seq<SyntaxNode>>, id: usize, from: int)
    requires
        0 <= from,
    ensures
        first_claim(pending, id, from) matches Some(k) ==> from <= k < pending.len() && claims(
            pending[k],
            id,
        ) && forall|j: int| from <= j < k ==> !claims(#[trigger] pending[j], id),
        first_claim(pending, id, from) is None ==> forall|j: int|
            from <= j < pending.len() ==> !claims(#[trigger] pending[j], id),
    decreases pending.len() - from,
{
    if from < pending.len() && !claims(pending[from], id) {
        lemma_first_claim(pending, id, from + 1);
    }
}

/// All blocks of a walk: those nested in its trees and those still pending.
pub open spec fn blocks_after(growth: Growth) -> Multiset<Seq<SyntaxNode>> {
    blocks_from(growth.trees, 0).to_multiset().add(growth.pending.to_multiset())
}

proof fn lemma_no_blocks()
    ensures
        blocks_from(Seq::<BlockTreeView>::empty(), 0).to_multiset() == Multiset::<
            Seq<SyntaxNode>,
        >::empty(),
{
    broadcast use vstd::multiset::group_multiset_axioms;

    let none = blocks_from(Seq::<BlockTreeView>::empty(), 0);
    assert(none =~= Seq::<Seq<SyntaxNode>>::empty());
    none.to_multiset_ensures();
    assert(none.to_multiset().len() == 0);
    assert(none.to_multiset() =~= Multiset::<Seq<SyntaxNode>>::empty());
}

proof fn lemma_claim_keeps_blocks(id: usize, below: Growth)
    ensures
        blocks_after(claim_at(id, below)) == blocks_after(below),
{
    broadcast use vstd::multiset::group_multiset_axioms;

    match first_claim(below.pending, id, 0) {
        Some(k) => {
            lemma_first_claim(below.pending, id, 0);
            let block = below.pending[k];
            let nested = BlockTreeView { block, children: below.trees };
            lemma_blocks_of_one(nested);
            lemma_multiset_commutative(seq![block], blocks_from(below.trees, 0));
            vstd::seq_lib::to_multiset_remove(below.pending, k);
            below.pending.to_multiset_ensures();
            assert(below.pending.contains(block));
            assert(seq![block].to_multiset() =~= Multiset::<Seq<SyntaxNode>>::empty().insert(block))
                by {
                Seq::<Seq<SyntaxNode>>::empty().to_multiset_ensures();
                assert(seq![block] =~= Seq::<Seq<SyntaxNode>>::empty().push(block));
            }
            assert(blocks_after(claim_at(id, below)) =~= blocks_after(below));
        },
        None => {},
    }
}

proof fn lemma_link_keeps_blocks(
    tree: Seq<TreeNode>,
    from: int,
    link: Option<usize>,
    pending: Seq<Seq<SyntaxNode>>,
)
    ensures
        blocks_after(grow_link(tree, from, link, pending)) == pending.to_multiset(),
    decreases tree.len() - from, 0int,
{
    broadcast use vstd::multiset::group_multiset_axioms;

    match link {
        Some(to) => {
            if from < to < tree.len() {
                lemma_walk_keeps_blocks(tree, to as int, pending);
            } else {
                lemma_no_blocks();
                assert(blocks_after(grow_link(tree, from, link, pending)) =~= pending.to_multiset());
            }
        },
        None => {
            lemma_no_blocks();
            assert(blocks_after(grow_link(tree, from, link, pending)) =~= pending.to_multiset());
        },
    }
}

/// The walk neither makes nor loses a block: the blocks nested in the
/// forest together with the blocks left pending are, one for one, the
/// blocks that were pending before. So each block is nested at most once.
pub proof fn lemma_walk_keeps_blocks(tree: Seq<TreeNode>, at: int, pending: Seq<Seq<SyntaxNode>>)
    ensures
        blocks_after(grow(tree, at, pending)) == pending.to_multiset(),
    decreases tree.len() - at, 1int,
{
    broadcast use vstd::multiset::group_multiset_axioms;

    if at < 0 || at >= tree.len() {
        lemma_no_blocks();
        assert(blocks_after(grow(tree, at, pending)) =~= pending.to_multiset());
    } else {
        let below = grow_link(tree, at, tree[at].first_child, pending);
        let here = claim_at(tree[at].id, below);
        let after = grow_link(tree, at, tree[at].next_sibling, here.pending);
        lemma_link_keeps_blocks(tree, at, tree[at].first_child, pending);
        lemma_claim_keeps_blocks(tree[at].id, below);
        lemma_link_keeps_blocks(tree, at, tree[at].next_sibling, here.pending);
        lemma_blocks_of_concat(here.trees, after.trees);
        lemma_multiset_commutative(blocks_from(here.trees, 0), blocks_from(after.trees, 0));
        assert(blocks_after(grow(tree, at, pending)) =~= pending.to_multiset());
    }
}

/// The places that the walk visits through a link.
pub open spec fn walked_link(tree: Seq<TreeNode>, from: int, link: Option<usize>) -> Set<int>
    decreases tree.len() - from, 0int,
{
    match link {
        Some(to) => if from < to < tree.len() {
            walked(tree, to as int)
        } else {
            Set::empty()
        },
        None => Set::empty(),
    }
}

/// The places that the walk of the node at `at` visits: the node, all
/// that lies below it, and the siblings that follow it with all that lies
/// below them.
pub open spec fn walked(tree: Seq<TreeNode>, at: int) -> Set<int>
    decreases tree.len() - at, 1int,
{
    if at < 0 || at >= tree.len() {
        Set::empty()
    } else {
        walked_link(tree, at, tree[at].first_child).union(
            walked_link(tree, at, tree[at].next_sibling),
        ).insert(at)
    }
}

/// The tree of blocks is rooted at one of the places: its block ends in
/// the node there, and each of its children is rooted at a place below
/// that node.
pub open spec fn rooted_in(tree: Seq<TreeNode>, nested: BlockTreeView, places: Set<int>) -> bool
    decreases nested,
{
    exists|at: int|
        #![trigger places.contains(at)]
        places.contains(at) && 0 <= at < tree.len() && claims(nested.block, tree[at].id)
            && forall|i: int|
            0 <= i < nested.children.len() ==> rooted_in(
                tree,
                #[trigger] nested.children[i],
                walked_link(tree, at, tree[at].first_child),
            )
}

/// Each tree of the forest is rooted at one of the places.
pub open spec fn all_rooted_in(tree: Seq<TreeNode>, trees: Seq<BlockTreeView>, places: Set<int>) -> bool {
    forall|i: int| 0 <= i < trees.len() ==> rooted_in(tree, #[trigger] trees[i], places)
}

proof fn lemma_rooted_in_more(
    tree: Seq<TreeNode>,
    nested: BlockTreeView,
    places: Set<int>,
    more: Set<int>,
)
    requires
        rooted_in(tree, nested, places),
        places.subset_of(more),
    ensures
        rooted_in(tree, nested, more),
{
    let at = choose|at: int|
        #![trigger places.contains(at)]
        places.contains(at) && 0 <= at < tree.len() && claims(nested.block, tree[at].id)
            && forall|i: int|
            0 <= i < nested.children.len() ==> rooted_in(
                tree,
                #[trigger] nested.children[i],
                walked_link(tree, at, tree[at].first_child),
            );
    assert(more.contains(at));
}

proof fn lemma_link_nests(
    tree: Seq<TreeNode>,
    from: int,
    link: Option<usize>,
    pending: Seq<Seq<SyntaxNode>>,
)
    ensures
        all_rooted_in(
            tree,
            grow_link(tree, from, link, pending).trees,
            walked_link(tree, from, link),
        ),
    decreases tree.len() - from, 0int,
{
    match link {
        Some(to) => {
            if from < to < tree.len() {
                lemma_walk_nests(tree, to as int, pending);
            }
        },
        None => {},
    }
}

/// The forest nests the blocks as the syntax tree nests their nodes: each
/// tree of the forest is rooted at a node that the walk visits, its block
/// ends in that node, and its children are rooted below that node, and so
/// on down the forest.
pub proof fn lemma_walk_nests(tree: Seq<TreeNode>, at: int, pending: Seq<Seq<SyntaxNode>>)
    ensures
        all_rooted_in(tree, grow(tree, at, pending).trees, walked(tree, at)),
    decreases tree.len() - at, 1int,
{
    if 0 <= at < tree.len() {
        let down = walked_link(tree, at, tree[at].first_child);
        let along = walked_link(tree, at, tree[at].next_sibling);
        let all = walked(tree, at);
        let below = grow_link(tree, at, tree[at].first_child, pending);
        let here = claim_at(tree[at].id, below);
        let after = grow_link(tree, at, tree[at].next_sibling, here.pending);
        lemma_link_nests(tree, at, tree[at].first_child, pending);
        lemma_link_nests(tree, at, tree[at].next_sibling, here.pending);
        assert(all_rooted_in(tree, here.trees, all)) by {
            match first_claim(below.pending, tree[at].id, 0) {
                Some(k) => {
                    lemma_first_claim(below.pending, tree[at].id, 0);
                    let nested = BlockTreeView { block: below.pending[k], children: below.trees };
                    assert(all.contains(at));
                    assert(rooted_in(tree, nested, all));
                    assert(here.trees[0] == nested);
                },
                None => {
                    assert forall|i: int| 0 <= i < here.trees.len() implies rooted_in(
                        tree,
                        #[trigger] here.trees[i],
                        all,
                    ) by {
                        lemma_rooted_in_more(tree, below.trees[i], down, all);
                    }
                },
            }
        }
        let grown = grow(tree, at, pending).trees;
        assert forall|i: int| 0 <= i < grown.len() implies rooted_in(tree, #[trigger] grown[i], all) by {
            if i < here.trees.len() {
                assert(grown[i] == here.trees[i]);
            } else {
                assert(grown[i] == after.trees[i - here.trees.len()]);
                lemma_rooted_in_more(tree, after.trees[i - here.trees.len()], along, all);
            }
        }
    }
}

/// What the walk of a visited place visits, the walk that visits the place
/// visits as well.
pub proof fn lemma_walked_is_transitive(tree: Seq<TreeNode>, at: int, place: int)
    requires
        walked(tree, at).contains(place),
    ensures
        walked(tree, place).subset_of(walked(tree, at)),
    decreases tree.len() - at,
{
    if 0 <= at < tree.len() && place != at {
        if walked_link(tree, at, tree[at].first_child).contains(place) {
            lemma_walked_is_transitive(tree, tree[at].first_child->0 as int, place);
        } else {
            lemma_walked_is_transitive(tree, tree[at].next_sibling->0 as int, place);
        }
    }
}

/// The walk from the first place visits every place of a tree whose nodes
/// are all linked to from an earlier node.
pub proof fn lemma_walk_visits_all(tree: Seq<TreeNode>, place: int)
    requires
        linked_forward(tree),
        all_referred(tree),
        0 <= place < tree.len(),
    ensures
        walked(tree, 0).contains(place),
    decreases place,
{
    if place > 0 {
        assert(has_referrer(tree, place));
        let from = choose|from: int| 0 <= from < place && #[trigger] refers_to(tree[from], place);
        lemma_walk_visits_all(tree, from);
        lemma_walked_is_transitive(tree, 0, from);
        assert(walked(tree, place).contains(place));
        assert(walked(tree, from).contains(place));
    }
}

/// How many of the pending blocks at or after place `from` end in the node `id`.
pub open spec fn claimants(pending: Seq<Seq<SyntaxNode>>, id: usize, from: int) -> nat
    decreases pending.len() - from,
{
    if from < 0 || from >= pending.len() {
        0
    } else if claims(pending[from], id) {
        1 + claimants(pending, id, from + 1)
    } else {
        claimants(pending, id, from + 1)
    }
}

/// How often the walk through a link comes to a node with identity `id`.
pub open spec fn visits_link(tree: Seq<TreeNode>, from: int, link: Option<usize>, id: usize) -> nat
    decreases tree.len() - from, 0int,
{
    match link {
        Some(to) => if from < to < tree.len() {
            visits(tree, to as int, id)
        } else {
            0
        },
        None => 0,
    }
}

/// How often the walk of the node at `at` comes to a node with identity `id`.
pub open spec fn visits(tree: Seq<TreeNode>, at: int, id: usize) -> nat
    decreases tree.len() - at, 1int,
{
    if at < 0 || at >= tree.len() {
        0
    } else {
        visits_link(tree, at, tree[at].first_child, id) + (if tree[at].id == id {
            1nat
        } else {
            0nat
        }) + visits_link(tree, at, tree[at].next_sibling, id)
    }
}

/// What is left of `count` after `taken` were taken, as far as there were any.
pub open spec fn left_of(count: nat, taken: nat) -> nat {
    if taken >= count {
        0
    } else {
        (count - taken) as nat
    }
}

proof fn lemma_claimants_after_remove(pending: Seq<Seq<SyntaxNode>>, id: usize, from: int, k: int)
    requires
        0 <= from <= k < pending.len(),
    ensures
        claimants(pending.remove(k), id, from) + (if claims(pending[k], id) {
            1nat
        } else {
            0nat
        }) == claimants(pending, id, from),
    decreases k - from,
{
    let rest = pending.remove(k);
    if from < k {
        assert(rest[from] == pending[from]);
        lemma_claimants_after_remove(pending, id, from + 1, k);
    } else {
        lemma_claimants_shift(pending, id, k);
    }
}

proof fn lemma_claimants_shift(pending: Seq<Seq<SyntaxNode>>, id: usize, k: int)
    requires
        0 <= k < pending.len(),
    ensures
        forall|from: int|
            k <= from <= pending.len() - 1 ==> #[trigger] claimants(pending.remove(k), id, from)
                == claimants(pending, id, from + 1),
{
    assert forall|from: int| k <= from <= pending.len() - 1 implies #[trigger] claimants(
        pending.remove(k),
        id,
        from,
    ) == claimants(pending, id, from + 1) by {
        lemma_claimants_shift_at(pending, id, k, from);
    }
}

proof fn lemma_claimants_shift_at(pending: Seq<Seq<SyntaxNode>>, id: usize, k: int, from: int)
    requires
        0 <= k <= from <= pending.len() - 1,
    ensures
        claimants(pending.remove(k), id, from) == claimants(pending, id, from + 1),
    decreases pending.len() - from,
{
    let rest = pending.remove(k);
    if from < rest.len() {
        assert(rest[from] == pending[from + 1]);
        lemma_claimants_shift_at(pending, id, k, from + 1);
    }
}

proof fn lemma_claimants_of_first_claim(pending: Seq<Seq<SyntaxNode>>, id: usize, from: int)
    requires
        0 <= from,
    ensures
        first_claim(pending, id, from) is None <==> claimants(pending, id, from) == 0,
    decreases pending.len() - from,
{
    if from < pending.len() && !claims(pending[from], id) {
        lemma_claimants_of_first_claim(pending, id, from + 1);
    }
}

proof fn lemma_claim_takes_one(at_id: usize, below: Growth, id: usize)
    ensures
        claimants(claim_at(at_id, below).pending, id, 0) == left_of(
            claimants(below.pending, id, 0),
            if at_id == id {
                1nat
            } else {
                0nat
            },
        ),
{
    lemma_claimants_of_first_claim(below.pending, at_id, 0);
    match first_claim(below.pending, at_id, 0) {
        Some(k) => {
            lemma_first_claim(below.pending, at_id, 0);
            lemma_claimants_after_remove(below.pending, id, 0, k);
        },
        None => {},
    }
}

proof fn lemma_link_takes_blocks(
    tree: Seq<TreeNode>,
    from: int,
    link: Option<usize>,
    pending: Seq<Seq<SyntaxNode>>,
    id: usize,
)
    ensures
        claimants(grow_link(tree, from, link, pending).pending, id, 0) == left_of(
            claimants(pending, id, 0),
            visits_link(tree, from, link, id),
        ),
    decreases tree.len() - from, 0int,
{
    match link {
        Some(to) => {
            if from < to < tree.len() {
                lemma_walk_takes_blocks(tree, to as int, pending, id);
            }
        },
        None => {},
    }
}

/// Each time the walk comes to a node it takes one pending block that ends
/// in the node, where there is one: of the pending blocks that end in a
/// node, as many are left as the walk did not come to the node for.
pub proof fn lemma_walk_takes_blocks(
    tree: Seq<TreeNode>,
    at: int,
    pending: Seq<Seq<SyntaxNode>>,
    id: usize,
)
    ensures
        claimants(grow(tree, at, pending).pending, id, 0) == left_of(
            claimants(pending, id, 0),
            visits(tree, at, id),
        ),
    decreases tree.len() - at, 1int,
{
    if 0 <= at < tree.len() {
        let below = grow_link(tree, at, tree[at].first_child, pending);
        let here = claim_at(tree[at].id, below);
        lemma_link_takes_blocks(tree, at, tree[at].first_child, pending, id);
        lemma_claim_takes_one(tree[at].id, below, id);
        lemma_link_takes_blocks(tree, at, tree[at].next_sibling, here.pending, id);
    }
}

proof fn lemma_visited_place_counts(tree: Seq<TreeNode>, at: int, place: int)
    requires
        walked(tree, at).contains(place),
    ensures
        visits(tree, at, tree[place].id) >= 1,
    decreases tree.len() - at,
{
    if 0 <= at < tree.len() && place != at {
        if walked_link(tree, at, tree[at].first_child).contains(place) {
            lemma_visited_place_counts(tree, tree[at].first_child->0 as int, place);
        } else {
            lemma_visited_place_counts(tree, tree[at].next_sibling->0 as int, place);
        }
    }
}

/// No two of the pending blocks end in the same node.
pub open spec fn distinct_tails(pending: Seq<Seq<SyntaxNode>>) -> bool {
    forall|i: int, j: int|
        0 <= i < j < pending.len() && (#[trigger] pending[i]).len() > 0 && (
        #[trigger] pending[j]).len() > 0 ==> pending[i].last().id != pending[j].last().id
}

proof fn lemma_distinct_tails_claim_once(pending: Seq<Seq<SyntaxNode>>, id: usize, from: int)
    requires
        distinct_tails(pending),
        0 <= from,
    ensures
        claimants(pending, id, from) <= 1,
        claimants(pending, id, from) == 1 ==> exists|k: int|
            from <= k < pending.len() && claims(#[trigger] pending[k], id),
    decreases pending.len() - from,
{
    if from < pending.len() {
        lemma_distinct_tails_claim_once(pending, id, from + 1);
        if claims(pending[from], id) {
            if claimants(pending, id, from + 1) == 1 {
                let k = choose|k: int|
                    from + 1 <= k < pending.len() && claims(#[trigger] pending[k], id);
                assert(pending[from].last().id != pending[k].last().id);
            }
            lemma_claimants_of_first_claim(pending, id, from + 1);
        }
    }
}

/// Each block is nested exactly once: where no two pending blocks end in
/// the same node and each of them ends in a node that the walk visits, the
/// walk leaves no block pending.
pub proof fn lemma_walk_leaves_nothing(tree: Seq<TreeNode>, at: int, pending: Seq<Seq<SyntaxNode>>)
    requires
        distinct_tails(pending),
        forall|i: int|
            0 <= i < pending.len() ==> exists|place: int|
                walked(tree, at).contains(place) && claims(
                    #[trigger] pending[i],
                    (#[trigger] tree[place]).id,
                ),
    ensures
        grow(tree, at, pending).pending.len() == 0,
{
    broadcast use vstd::multiset::group_multiset_axioms;

    let left = grow(tree, at, pending).pending;
    if left.len() > 0 {
        let block = left[0];
        lemma_walk_keeps_blocks(tree, at, pending);
        left.to_multiset_ensures();
        pending.to_multiset_ensures();
        assert(left.contains(block));
        assert(left.to_multiset().count(block) > 0);
        assert(pending.to_multiset().count(block) > 0);
        assert(pending.contains(block));
        let i = choose|i: int| 0 <= i < pending.len() && pending[i] == block;
        let place = choose|place: int|
            walked(tree, at).contains(place) && claims(
                #[trigger] pending[i],
                (#[trigger] tree[place]).id,
            );
        let id = tree[place].id;
        lemma_visited_place_counts(tree, at, place);
        lemma_walk_takes_blocks(tree, at, pending, id);
        lemma_distinct_tails_claim_once(pending, id, 0);
        assert(claimants(left, id, 0) == 0);
        lemma_claimants_of_first_claim(left, id, 0);
        lemma_first_claim(left, id, 0);
        assert(claims(left[0], id));
    }
}

} // verus!
