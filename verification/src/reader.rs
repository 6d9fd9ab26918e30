//! Reading what the syntax provider offers into the plain values of the engine.

use vstd::prelude::*;
use crate::grammar::{
    cursor_node, cursor_path, first_child_of, goto_first_child, goto_next_sibling, goto_parent,
    next_sibling_of, node_end_byte, node_end_position, node_facts, node_id,
    node_next_named_sibling, node_next_sibling, node_parent, node_prev_named_sibling,
    node_prev_sibling, node_start_byte, node_start_position, root_of, walk,
};
use crate::syntax::{
    all_referred, has_referrer, leads_forward, linked_forward, refers_to, SyntaxNode, SyntaxTree,
    TreeNode,
};

verus! {

/// What the engine reads of `node`: its span, its parent and the offsets at
/// which its neighbours end and start.
pub fn describe<'tree>(node: &tree_sitter::Node<'tree>) -> (described: SyntaxNode)
    ensures
        described == node_facts(*node),
{
    let parent = match node_parent(node) {
        Some(p) => Some(node_id(&p)),
        None => None,
    };
    let prev_sibling_end = match node_prev_sibling(node) {
        Some(s) => Some(node_end_byte(&s)),
        None => None,
    };
    let next_sibling_start = match node_next_sibling(node) {
        Some(s) => Some(node_start_byte(&s)),
        None => None,
    };
    let prev_named_sibling_end = match node_prev_named_sibling(node) {
        Some(s) => Some(node_end_byte(&s)),
        None => None,
    };
    let next_named_sibling_start = match node_next_named_sibling(node) {
        Some(s) => Some(node_start_byte(&s)),
        None => None,
    };
    SyntaxNode {
        id: node_id(node),
        start_byte: node_start_byte(node),
        end_byte: node_end_byte(node),
        start_position: node_start_position(node),
        end_position: node_end_position(node),
        parent,
        prev_sibling_end,
        next_sibling_start,
        prev_named_sibling_end,
        next_named_sibling_start,
    }
}

fn fresh(id: usize) -> (node: TreeNode)
    ensures
        node == (TreeNode { id, first_child: None, next_sibling: None }),
{
    TreeNode { id, first_child: None, next_sibling: None }
}

/// The link of a place shows what the provider names: the place of the
/// node that it names.
pub open spec fn shows_link<'tree>(
    link: Option<usize>,
    named: Option<tree_sitter::Node<'tree>>,
    seen: Seq<tree_sitter::Node<'tree>>,
) -> bool {
    link matches Some(to) ==> to < seen.len() && named == Some(seen[to as int])
}

/// The sequence follows the tree: place by place it holds the identity of
/// a node of the tree, the root first, and each link leads to the place of
/// the first child or of the next sibling of the node.
pub open spec fn follows<'tree>(
    nodes: Seq<TreeNode>,
    seen: Seq<tree_sitter::Node<'tree>>,
    root: tree_sitter::Node<'tree>,
) -> bool {
    &&& seen.len() == nodes.len()
    &&& nodes.len() > 0
    &&& seen[0] == root
    &&& forall|p: int|
        0 <= p < nodes.len() ==> (#[trigger] nodes[p]).id == node_facts(seen[p]).id && shows_link(
            nodes[p].first_child,
            first_child_of(seen[p]),
            seen,
        ) && shows_link(nodes[p].next_sibling, next_sibling_of(seen[p]), seen)
}

/// The sequence leaves nothing out: a node without a link has no first
/// child, or no next sibling. The root is the node that the walk starts
/// on; the walk does not look beside it.
pub open spec fn leaves_out_nothing<'tree>(
    nodes: Seq<TreeNode>,
    seen: Seq<tree_sitter::Node<'tree>>,
) -> bool {
    forall|p: int|
        0 <= p < nodes.len() ==> ((#[trigger] nodes[p]).first_child is None ==> first_child_of(
            seen[p],
        ) is None) && (p > 0 && nodes[p].next_sibling is None ==> next_sibling_of(seen[p])
            is None)
}

/// The sequence is what a walk of the tree reads: it follows the tree from
/// its root and, unless it is cut off at `usize::MAX` nodes, leaves nothing out.
pub open spec fn is_reading_of(nodes: Seq<TreeNode>, tree: tree_sitter::Tree) -> bool {
    exists|seen: Seq<tree_sitter::Node<'static>>|
        #[trigger] follows(nodes, seen, root_of(tree)) && (nodes.len() < usize::MAX
            ==> leaves_out_nothing(nodes, seen))
}

/// The nodes of `tree` in the order of a walk that goes to the first child
/// before the next sibling, each linked to the places of the two.
///
/// The walk ends on its return to the root, or before it once the sequence
/// holds `usize::MAX` nodes. Every node that it has read can be reached
/// from the root by the links.
pub fn read_tree(tree: &tree_sitter::Tree) -> (read: SyntaxTree)
    ensures
        read@.len() > 0,
        linked_forward(read@),
        all_referred(read@),
        is_reading_of(read@, *tree),
{
    let mut cursor = walk(tree);
    let mut nodes: Vec<TreeNode> = Vec::new();
    nodes.push(fresh(node_id(&cursor_node(&cursor))));
    let ghost mut seen: Seq<tree_sitter::Node<'static>> = seq![root_of(*tree)];
    let mut path: Vec<usize> = Vec::new();
    let mut at: usize = 0;
    let mut descend = true;
    let mut whole = false;
    loop
        invariant_except_break
            !whole,
        invariant
            at < nodes@.len(),
            linked_forward(nodes@),
            all_referred(nodes@),
            nodes@[at as int].next_sibling is None,
            descend ==> nodes@[at as int].first_child is None,
            forall|k: int| 0 <= k < path@.len() ==> path@[k] < at,
            forall|k: int, l: int| 0 <= k < l < path@.len() ==> path@[k] < path@[l],
            forall|k: int|
                0 <= k < path@.len() ==> (#[trigger] nodes@[path@[k] as int]).next_sibling is None,
            follows(nodes@, seen, root_of(*tree)),
            cursor_path(cursor).len() == path@.len() + 1,
            cursor_path(cursor).last() == seen[at as int],
            forall|k: int|
                0 <= k < path@.len() ==> cursor_path(cursor)[k] == seen[(#[trigger] path@[k]) as int],
            forall|p: int|
                0 <= p < nodes@.len() && (#[trigger] nodes@[p]).first_child is None
                    && first_child_of(seen[p]) is Some ==> p == at && descend,
            forall|p: int|
                0 < p < nodes@.len() && (#[trigger] nodes@[p]).next_sibling is None
                    && next_sibling_of(seen[p]) is Some ==> p == at || path@.contains(p as usize),
            path@.len() == 0 ==> at == 0,
            path@.len() > 0 ==> path@[0] == 0,
        ensures
            linked_forward(nodes@),
            all_referred(nodes@),
            follows(nodes@, seen, root_of(*tree)),
            whole ==> leaves_out_nothing(nodes@, seen),
            !whole ==> nodes@.len() == usize::MAX,
        decreases usize::MAX - nodes@.len(), path@.len(),
    {
        if nodes.len() == usize::MAX {
            break ;
        }
        let ghost was = cursor_path(cursor);
        let went_down = if descend {
            goto_first_child(&mut cursor)
        } else {
            false
        };
        let ghost before = nodes@;
        if went_down {
            let child = nodes.len();
            nodes.push(fresh(node_id(&cursor_node(&cursor))));
            let mut parent = nodes[at];
            parent.first_child = Some(child);
            nodes.set(at, parent);
            proof {
                lemma_link_added(before, nodes@, at as int);
                seen = seen.push(first_child_of(was.last())->0);
                assert forall|k: int| 0 <= k < path@.push(at).len() implies cursor_path(cursor)[k]
                    == seen[(#[trigger] path@.push(at)[k]) as int] by {
                    if k < path@.len() {
                        assert(path@.push(at)[k] == path@[k]);
                        assert(cursor_path(cursor)[k] == was[k]);
                    }
                }
                assert forall|p: int|
                    0 < p < nodes@.len() && (#[trigger] nodes@[p]).next_sibling is None
                        && next_sibling_of(seen[p]) is Some implies p == child || path@.push(
                    at,
                ).contains(p as usize) by {
                    if p != child {
                        if p == at {
                            assert(path@.push(at)[path@.len() as int] == at);
                        } else {
                            assert(before[p] == nodes@[p]);
                            assert(path@.contains(p as usize));
                            let k = choose|k: int| 0 <= k < path@.len() && path@[k] == p as usize;
                            assert(path@.push(at)[k] == p as usize);
                        }
                    }
                }
            }
            path.push(at);
            at = child;
        } else if goto_next_sibling(&mut cursor) {
            let sibling = nodes.len();
            nodes.push(fresh(node_id(&cursor_node(&cursor))));
            let mut elder = nodes[at];
            elder.next_sibling = Some(sibling);
            nodes.set(at, elder);
            proof {
                lemma_link_added(before, nodes@, at as int);
                seen = seen.push(next_sibling_of(was.last())->0);
                assert forall|k: int| 0 <= k < path@.len() implies cursor_path(cursor)[k] == seen[(
                #[trigger] path@[k]) as int] by {
                    assert(cursor_path(cursor)[k] == was[k]);
                }
                assert forall|p: int|
                    0 < p < nodes@.len() && (#[trigger] nodes@[p]).next_sibling is None
                        && next_sibling_of(seen[p]) is Some implies p == sibling || path@.contains(
                    p as usize,
                ) by {
                    if p != sibling && p != at {
                        assert(before[p] == nodes@[p]);
                    }
                }
            }
            at = sibling;
            descend = true;
        } else {
            let ghost above = path@;
            match path.pop() {
                None => {
                    proof {
                        assert forall|p: int| 0 <= p < nodes@.len() implies ((
                        #[trigger] nodes@[p]).first_child is None ==> first_child_of(seen[p])
                            is None) && (p > 0 && nodes@[p].next_sibling is None
                            ==> next_sibling_of(seen[p]) is None) by {
                            if p > 0 && nodes@[p].next_sibling is None && next_sibling_of(seen[p])
                                is Some {
                                assert(p == at || above.contains(p as usize));
                            }
                        }
                    }
                    whole = true;
                    break ;
                },
                Some(up) => {
                    let moved = goto_parent(&mut cursor);
                    assert(moved);
                    proof {
                        assert(path@ =~= above.drop_last());
                        assert forall|k: int| 0 <= k < path@.len() implies cursor_path(cursor)[k]
                            == seen[(#[trigger] path@[k]) as int] by {
                            assert(path@[k] == above[k]);
                            assert(cursor_path(cursor)[k] == was[k]);
                        }
                        assert(cursor_path(cursor).last() == was[above.len() - 1]);
                        assert forall|p: int|
                            0 < p < nodes@.len() && (#[trigger] nodes@[p]).next_sibling is None
                                && next_sibling_of(seen[p]) is Some implies p == up
                            || path@.contains(p as usize) by {
                            assert(p == at || above.contains(p as usize));
                            if p != up {
                                let k = choose|k: int| 0 <= k < above.len() && above[k] == p as usize;
                                assert(k < above.len() - 1);
                                assert(path@[k] == p as usize);
                            }
                        }
                    }
                    at = up;
                    descend = false;
                },
            }
        }
    }
    assert(follows(nodes@, seen, root_of(*tree)) && (nodes@.len() < usize::MAX
        ==> leaves_out_nothing(nodes@, seen)));
    SyntaxTree::linked(nodes)
}

/// A sequence of nodes stays linked forward and referred when a node is
/// added at its end and a link that was free is set to the new place.
proof fn lemma_link_added(before: Seq<TreeNode>, after: Seq<TreeNode>, at: int)
    requires
        0 <= at < before.len(),
        linked_forward(before),
        all_referred(before),
        after.len() == before.len() + 1,
        after[before.len() as int].first_child is None,
        after[before.len() as int].next_sibling is None,
        forall|i: int| 0 <= i < before.len() && i != at ==> after[i] == before[i],
        after[at].id == before[at].id,
        refers_to(after[at], before.len() as int),
        after[at].first_child == before[at].first_child || (before[at].first_child is None
            && after[at].first_child == Some(before.len() as usize)),
        after[at].next_sibling == before[at].next_sibling || (before[at].next_sibling is None
            && after[at].next_sibling == Some(before.len() as usize)),
    ensures
        linked_forward(after),
        all_referred(after),
{
    assert forall|to: int| 0 < to < after.len() implies #[trigger] has_referrer(after, to) by {
        if to == before.len() {
            assert(refers_to(after[at], to));
        } else {
            assert(has_referrer(before, to));
            let from = choose|from: int| 0 <= from < to && #[trigger] refers_to(before[from], to);
            assert(refers_to(after[from], to));
        }
    }
    assert forall|i: int| 0 <= i < after.len() implies leads_forward(
        (#[trigger] after[i]).first_child,
        i,
        after.len() as int,
    ) && leads_forward(after[i].next_sibling, i, after.len() as int) by {
        if i < before.len() {
            assert(leads_forward(before[i].first_child, i, before.len() as int));
            assert(leads_forward(before[i].next_sibling, i, before.len() as int));
        }
    }
}

} // verus!
