//! The plain-value model of syntax: positions, nodes, and trees of nodes.

use vstd::prelude::*;

verus! {

/// A position in a document, as a zero-based row and column.
#[derive(Clone, Copy, Debug, PartialEq, Eq, Hash, Structural)]
pub struct Point {
    pub row: usize,
    pub column: usize,
}

impl Point {
    /// The point at `row` and `column`.
    pub fn new(row: usize, column: usize) -> (p: Point)
        ensures
            p == (Point { row, column }),
    {
        Point { row, column }
    }
}

/// A range of bytes of a document, from `start` up to `end`.
#[derive(Clone, Copy, Debug, PartialEq, Eq, Hash, Structural)]
pub struct Span {
    pub start: usize,
    pub end: usize,
}

impl Span {
    /// The number of bytes in the span; negative where the span is reversed.
    pub open spec fn size(self) -> int {
        self.end - self.start
    }
}

/// What the engine reads of one node of a syntax tree.
///
/// The neighbours are recorded by the offsets that matter for an edit: where
/// the sibling before the node ends and where the sibling after it starts,
/// once counting every sibling and once counting named siblings only.
#[derive(Clone, Copy, Debug, PartialEq, Eq, Hash)]
pub struct SyntaxNode {
    /// Identity of the node within its tree.
    pub id: usize,
    pub start_byte: usize,
    pub end_byte: usize,
    pub start_position: Point,
    pub end_position: Point,
    /// Identity of the parent node, if the node has one.
    pub parent: Option<usize>,
    /// End offset of the previous sibling.
    pub prev_sibling_end: Option<usize>,
    /// Start offset of the next sibling.
    pub next_sibling_start: Option<usize>,
    /// End offset of the previous named sibling.
    pub prev_named_sibling_end: Option<usize>,
    /// Start offset of the next named sibling.
    pub next_named_sibling_start: Option<usize>,
}

impl SyntaxNode {
    /// A node without parent or siblings that spans `start_byte..end_byte`.
    pub fn new(
        id: usize,
        start_byte: usize,
        end_byte: usize,
        start_position: Point,
        end_position: Point,
    ) -> (n: SyntaxNode)
        ensures
            n == (SyntaxNode {
                id,
                start_byte,
                end_byte,
                start_position,
                end_position,
                parent: None,
                prev_sibling_end: None,
                next_sibling_start: None,
                prev_named_sibling_end: None,
                next_named_sibling_start: None,
            }),
    {
        SyntaxNode {
            id,
            start_byte,
            end_byte,
            start_position,
            end_position,
            parent: None,
            prev_sibling_end: None,
            next_sibling_start: None,
            prev_named_sibling_end: None,
            next_named_sibling_start: None,
        }
    }
}

/// One node of a syntax tree as the forest builder walks it: its identity
/// and the places of its first child and of its next sibling in the tree.
#[derive(Clone, Copy, Debug, PartialEq, Eq, Hash)]
pub struct TreeNode {
    pub id: usize,
    pub first_child: Option<usize>,
    pub next_sibling: Option<usize>,
}

/// A link from place `from` leads to a later place of the sequence.
pub open spec fn leads_forward(link: Option<usize>, from: int, len: int) -> bool {
    link matches Some(to) ==> from < to < len
}

/// Every link of every node leads to a later place of the sequence.
pub open spec fn linked_forward(nodes: Seq<TreeNode>) -> bool {
    forall|i: int|
        0 <= i < nodes.len() ==> leads_forward((#[trigger] nodes[i]).first_child, i, nodes.len() as int)
            && leads_forward(nodes[i].next_sibling, i, nodes.len() as int)
}

/// The node links to place `to` as its first child or as its next sibling.
pub open spec fn refers_to(node: TreeNode, to: int) -> bool {
    ||| node.first_child matches Some(child) && child == to
    ||| node.next_sibling matches Some(sibling) && sibling == to
}

/// An earlier node links to place `to`.
pub open spec fn has_referrer(nodes: Seq<TreeNode>, to: int) -> bool {
    exists|from: int| 0 <= from < to && #[trigger] refers_to(nodes[from], to)
}

/// Every place but the first is linked to by an earlier node, so that all
/// places can be reached from the first.
pub open spec fn all_referred(nodes: Seq<TreeNode>) -> bool {
    forall|to: int| 0 < to < nodes.len() ==> #[trigger] has_referrer(nodes, to)
}

/// The nodes of a syntax tree in document order, the root first. Each node
/// comes before its children and before the siblings that follow it.
#[derive(Debug, PartialEq, Eq, Hash)]
pub struct SyntaxTree {
    nodes: Vec<TreeNode>,
}

impl View for SyntaxTree {
    type V = Seq<TreeNode>;

    closed spec fn view(&self) -> Seq<TreeNode> {
        self.nodes@
    }
}

fn is_forward(link: Option<usize>, from: usize, len: usize) -> (b: bool)
    ensures
        b == leads_forward(link, from as int, len as int),
{
    match link {
        Some(to) => from < to && to < len,
        None => true,
    }
}

impl SyntaxTree {
    #[verifier::type_invariant]
    spec fn well_linked(&self) -> bool {
        linked_forward(self.nodes@)
    }

    /// A tree of the given nodes, where every link leads forward.
    pub fn new(nodes: Vec<TreeNode>) -> (r: Option<SyntaxTree>)
        ensures
            r is Some <==> linked_forward(nodes@),
            r matches Some(tree) ==> tree@ == nodes@,
    {
        let mut i: usize = 0;
        while i < nodes.len()
            invariant
                i <= nodes@.len(),
                forall|j: int|
                    0 <= j < i ==> leads_forward(
                        (#[trigger] nodes@[j]).first_child,
                        j,
                        nodes@.len() as int,
                    ) && leads_forward(nodes@[j].next_sibling, j, nodes@.len() as int),
            decreases nodes@.len() - i,
        {
            let node = nodes[i];
            if !is_forward(node.first_child, i, nodes.len()) || !is_forward(
                node.next_sibling,
                i,
                nodes.len(),
            ) {
                return None;
            }
            i += 1;
        }
        Some(SyntaxTree { nodes })
    }

    /// A tree of nodes whose links are known to lead forward.
    pub(crate) fn linked(nodes: Vec<TreeNode>) -> (tree: SyntaxTree)
        requires
            linked_forward(nodes@),
        ensures
            tree@ == nodes@,
    {
        SyntaxTree { nodes }
    }

    /// The number of nodes.
    pub fn len(&self) -> (n: usize)
        ensures
            n == self@.len(),
    {
        self.nodes.len()
    }

    /// The node at place `at`.
    pub fn node(&self, at: usize) -> (node: TreeNode)
        requires
            at < self@.len(),
        ensures
            node == self@[at as int],
            linked_forward(self@),
    {
        proof {
            use_type_invariant(self);
        }
        self.nodes[at]
    }
}

} // verus!
