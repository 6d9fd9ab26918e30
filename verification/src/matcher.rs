//! The pattern matcher: from the captures of structural queries to blocks.

use vstd::prelude::*;
use vstd::string::*;
use crate::block::{block_views, Block};
use crate::grammar::{
    capture_stream, captures, new_query_cursor, node_end_byte, node_facts, raw_matches, root_node,
    root_of, RawMatch,
};
use crate::reader::describe;
use crate::syntax::SyntaxNode;

verus! {

/// A node that a query captured, with the index of the capture in the
/// query's declaration order.
#[derive(Clone, Copy, Debug, PartialEq, Eq, Hash)]
pub struct Capture {
    pub index: u32,
    pub node: SyntaxNode,
}

/// One item of the stream of captures that a query gives: a match with all
/// of its captures, and the place within the match of the capture that the
/// stream has reached.
#[derive(Debug, PartialEq, Eq, Hash)]
pub struct Match {
    pub reached: usize,
    pub captures: Vec<Capture>,
}

/// The model of a [`Match`].
pub struct MatchView {
    pub reached: usize,
    pub captures: Seq<Capture>,
}

impl View for Match {
    type V = MatchView;

    open spec fn view(&self) -> MatchView {
        MatchView { reached: self.reached, captures: self.captures@ }
    }
}

/// The models of a stream of captures.
pub open spec fn match_views(matches: Seq<Match>) -> Seq<MatchView> {
    Seq::new(matches.len(), |i: int| matches[i]@)
}

/// The captures with the given index, in the order in which the match holds them.
pub open spec fn with_index(captures: Seq<Capture>, index: int) -> Seq<Capture>
    decreases captures.len(),
{
    if captures.len() == 0 {
        Seq::empty()
    } else {
        let before = with_index(captures.drop_last(), index);
        if captures.last().index == index {
            before.push(captures.last())
        } else {
            before
        }
    }
}

/// The captures with an index below `bound`: those of index 0 first, then
/// those of index 1, and so on.
pub open spec fn captures_below(captures: Seq<Capture>, bound: int) -> Seq<Capture>
    decreases bound,
{
    if bound <= 0 {
        Seq::empty()
    } else {
        captures_below(captures, bound - 1) + with_index(captures, bound - 1)
    }
}

/// The captures of a match in the declaration order of the query; captures
/// of one index keep the order in which the match holds them.
pub open spec fn ordered_captures(captures: Seq<Capture>) -> Seq<Capture> {
    captures_below(captures, u32::MAX + 1)
}

/// The nodes of a sequence of captures.
pub open spec fn nodes_of(captures: Seq<Capture>) -> Seq<SyntaxNode> {
    Seq::new(captures.len(), |i: int| captures[i].node)
}

/// The nodes of a match in the declaration order of their captures.
pub open spec fn ordered_nodes(captures: Seq<Capture>) -> Seq<SyntaxNode> {
    nodes_of(ordered_captures(captures))
}

/// The stream has reached the first capture of a match that holds a node.
pub open spec fn starts_block(m: MatchView) -> bool {
    m.reached == 0 && m.captures.len() > 0
}

/// The blocks of a stream of captures: one for each match, made when the
/// stream reaches the first capture of the match.
pub open spec fn blocks_of(matches: Seq<MatchView>) -> Seq<Seq<SyntaxNode>>
    decreases matches.len(),
{
    if matches.len() == 0 {
        Seq::empty()
    } else {
        let before = blocks_of(matches.drop_last());
        if starts_block(matches.last()) {
            before.push(ordered_nodes(matches.last().captures))
        } else {
            before
        }
    }
}

/// No capture has an index from `low` up to, but not counting, `high`.
pub open spec fn no_index_within(captures: Seq<Capture>, low: int, high: int) -> bool {
    forall|i: int| 0 <= i < captures.len() ==> !(low <= (#[trigger] captures[i]).index < high)
}

proof fn lemma_no_such_index(captures: Seq<Capture>, index: int)
    requires
        no_index_within(captures, index, index + 1),
    ensures
        with_index(captures, index) == Seq::<Capture>::empty(),
    decreases captures.len(),
{
    if captures.len() > 0 {
        assert(captures.last() == captures[captures.len() - 1]);
        assert forall|i: int| 0 <= i < captures.drop_last().len() implies !(index <= (
        #[trigger] captures.drop_last()[i]).index < index + 1) by {
            assert(captures.drop_last()[i] == captures[i]);
        }
        lemma_no_such_index(captures.drop_last(), index);
    }
}

proof fn lemma_captures_below_skips(captures: Seq<Capture>, low: int, high: int)
    requires
        0 <= low <= high,
        no_index_within(captures, low, high),
    ensures
        captures_below(captures, high) == captures_below(captures, low),
    decreases high - low,
{
    if low < high {
        lemma_captures_below_skips(captures, low, high - 1);
        lemma_no_such_index(captures, high - 1);
        assert(captures_below(captures, high) =~= captures_below(captures, high - 1));
    }
}

proof fn lemma_with_index_holds(captures: Seq<Capture>, index: int)
    ensures
        forall|i: int|
            0 <= i < with_index(captures, index).len() ==> (#[trigger] with_index(
                captures,
                index,
            )[i]).index == index,
    decreases captures.len(),
{
    if captures.len() > 0 {
        lemma_with_index_holds(captures.drop_last(), index);
    }
}

proof fn lemma_with_index_counts(captures: Seq<Capture>, index: int, c: Capture)
    ensures
        with_index(captures, index).to_multiset().count(c) == if c.index == index {
            captures.to_multiset().count(c)
        } else {
            0
        },
    decreases captures.len(),
{
    broadcast use vstd::multiset::group_multiset_axioms;

    if captures.len() == 0 {
        captures.to_multiset_ensures();
        with_index(captures, index).to_multiset_ensures();
        assert(captures.to_multiset().len() == 0);
        assert(with_index(captures, index).to_multiset().len() == 0);
    } else {
        let front = captures.drop_last();
        lemma_with_index_counts(front, index, c);
        lemma_with_index_holds(front, index);
        assert(captures =~= front.push(captures.last()));
        vstd::seq_lib::to_multiset_build(front, captures.last());
        if captures.last().index == index {
            vstd::seq_lib::to_multiset_build(with_index(front, index), captures.last());
        }
    }
}

proof fn lemma_captures_below_sorted(captures: Seq<Capture>, bound: int)
    requires
        0 <= bound,
    ensures
        forall|i: int|
            0 <= i < captures_below(captures, bound).len() ==> (#[trigger] captures_below(
                captures,
                bound,
            )[i]).index < bound,
        forall|i: int, j: int|
            0 <= i < j < captures_below(captures, bound).len() ==> (#[trigger] captures_below(
                captures,
                bound,
            )[i]).index <= (#[trigger] captures_below(captures, bound)[j]).index,
    decreases bound,
{
    if bound > 0 {
        lemma_captures_below_sorted(captures, bound - 1);
        lemma_with_index_holds(captures, bound - 1);
    }
}

proof fn lemma_captures_below_counts(captures: Seq<Capture>, bound: int, c: Capture)
    requires
        0 <= bound,
    ensures
        captures_below(captures, bound).to_multiset().count(c) == if c.index < bound {
            captures.to_multiset().count(c)
        } else {
            0
        },
    decreases bound,
{
    broadcast use vstd::multiset::group_multiset_axioms;

    if bound == 0 {
        captures_below(captures, bound).to_multiset_ensures();
        assert(captures_below(captures, bound).to_multiset().len() == 0);
    } else {
        lemma_captures_below_counts(captures, bound - 1, c);
        lemma_with_index_counts(captures, bound - 1, c);
        vstd::seq_lib::lemma_multiset_commutative(
            captures_below(captures, bound - 1),
            with_index(captures, bound - 1),
        );
    }
}

/// Ordering the captures of a match rearranges them and no more: the
/// result holds the same captures, each as often as the match does, with
/// indices that never fall from one capture to the next.
pub proof fn lemma_ordered_captures(captures: Seq<Capture>)
    ensures
        ordered_captures(captures).to_multiset() == captures.to_multiset(),
        ordered_captures(captures).len() == captures.len(),
        forall|i: int, j: int|
            0 <= i < j < ordered_captures(captures).len() ==> (#[trigger] ordered_captures(
                captures,
            )[i]).index <= (#[trigger] ordered_captures(captures)[j]).index,
{
    broadcast use vstd::multiset::group_multiset_axioms;

    let ordered = ordered_captures(captures);
    assert forall|c: Capture| ordered.to_multiset().count(c) == captures.to_multiset().count(
        c,
    ) by {
        lemma_captures_below_counts(captures, u32::MAX + 1, c);
    }
    assert(ordered.to_multiset() =~= captures.to_multiset());
    ordered.to_multiset_ensures();
    captures.to_multiset_ensures();
    lemma_captures_below_sorted(captures, u32::MAX + 1);
}

/// Some capture has the index.
pub open spec fn has_index(captures: Seq<Capture>, index: int) -> bool {
    exists|i: int| 0 <= i < captures.len() && (#[trigger] captures[i]).index == index
}

/// The smallest capture index that is not below `low`: an index that a
/// capture has, with no capture index between `low` and it; none where
/// every capture index is below `low`.
fn smallest_index_from(captures: &Vec<Capture>, low: u32) -> (found: Option<u32>)
    ensures
        match found {
            Some(index) => low <= index && has_index(captures@, index as int) && no_index_within(
                captures@,
                low as int,
                index as int,
            ),
            None => no_index_within(captures@, low as int, u32::MAX + 1),
        },
{
    let mut found: Option<u32> = None;
    let mut i: usize = 0;
    while i < captures.len()
        invariant
            i <= captures@.len(),
            match found {
                Some(index) => low <= index && (exists|j: int|
                    0 <= j < i && (#[trigger] captures@[j]).index == index) && forall|j: int|
                    0 <= j < i ==> !(low <= (#[trigger] captures@[j]).index < index),
                None => forall|j: int| 0 <= j < i ==> (#[trigger] captures@[j]).index < low,
            },
        decreases captures@.len() - i,
    {
        let index = captures[i].index;
        if index >= low {
            found = match found {
                Some(least) => if index < least {
                    Some(index)
                } else {
                    Some(least)
                },
                None => Some(index),
            };
        }
        i += 1;
    }
    found
}

/// The captures of a match in the declaration order of the query.
pub fn order_captures(captures: &Vec<Capture>) -> (ordered: Vec<Capture>)
    ensures
        ordered@ == ordered_captures(captures@),
        ordered@.len() == captures@.len(),
{
    let mut ordered: Vec<Capture> = Vec::new();
    let mut next = smallest_index_from(captures, 0);
    proof {
        match next {
            Some(index) => lemma_captures_below_skips(captures@, 0, index as int),
            None => lemma_captures_below_skips(captures@, 0, u32::MAX + 1),
        }
    }
    loop
        invariant
            ordered@ == match next {
                Some(index) => captures_below(captures@, index as int),
                None => ordered_captures(captures@),
            },
        ensures
            ordered@ == ordered_captures(captures@),
        decreases
            match next {
                Some(index) => u32::MAX + 1 - index,
                None => 0,
            },
    {
        let index = match next {
            Some(index) => index,
            None => {
                break ;
            },
        };
        let mut i: usize = 0;
        while i < captures.len()
            invariant
                i <= captures@.len(),
                ordered@ == captures_below(captures@, index as int) + with_index(
                    captures@.take(i as int),
                    index as int,
                ),
            decreases captures@.len() - i,
        {
            assert(captures@.take(i + 1).drop_last() =~= captures@.take(i as int));
            if captures[i].index == index {
                ordered.push(captures[i]);
            }
            i += 1;
        }
        assert(captures@.take(i as int) =~= captures@);
        assert(ordered@ == captures_below(captures@, index + 1));
        if index == u32::MAX {
            next = None;
        } else {
            next = smallest_index_from(captures, index + 1);
            proof {
                match next {
                    Some(later) => lemma_captures_below_skips(
                        captures@,
                        index + 1,
                        later as int,
                    ),
                    None => lemma_captures_below_skips(captures@, index + 1, u32::MAX + 1),
                }
            }
        }
    }
    proof {
        lemma_ordered_captures(captures@);
    }
    ordered
}

/// The block of a match: its nodes in the declaration order of their
/// captures. A match without a capture has no block.
pub fn block_of_match(captures: &Vec<Capture>) -> (block: Option<Block>)
    ensures
        block is Some <==> captures@.len() > 0,
        block matches Some(b) ==> b@ == ordered_nodes(captures@),
{
    let ordered = order_captures(captures);
    let mut nodes: Vec<SyntaxNode> = Vec::new();
    let mut i: usize = 0;
    while i < ordered.len()
        invariant
            i <= ordered@.len(),
            nodes@ == nodes_of(ordered@.take(i as int)),
        decreases ordered@.len() - i,
    {
        nodes.push(ordered[i].node);
        assert(nodes@ =~= nodes_of(ordered@.take(i + 1)));
        i += 1;
    }
    assert(ordered@.take(i as int) =~= ordered@);
    match Block::new(nodes) {
        Ok(block) => Some(block),
        Err(_) => None,
    }
}

/// The blocks of a stream of captures.
pub fn blocks_of_matches(matches: &Vec<Match>) -> (blocks: Vec<Block>)
    ensures
        block_views(blocks@) == blocks_of(match_views(matches@)),
{
    let mut blocks: Vec<Block> = Vec::new();
    let mut i: usize = 0;
    let ghost stream = match_views(matches@);
    assert(block_views(blocks@) =~= blocks_of(stream.take(0)));
    while i < matches.len()
        invariant
            i <= matches@.len(),
            stream == match_views(matches@),
            block_views(blocks@) == blocks_of(stream.take(i as int)),
        decreases matches@.len() - i,
    {
        assert(stream.take(i + 1).drop_last() =~= stream.take(i as int));
        assert(stream.take(i + 1).last() == matches@[i as int]@);
        if matches[i].reached == 0 {
            match block_of_match(&matches[i].captures) {
                Some(block) => {
                    let ghost before = blocks@;
                    blocks.push(block);
                    assert(block_views(blocks@) =~= block_views(before).push(block@));
                },
                None => {},
            }
        }
        i += 1;
    }
    assert(stream.take(i as int) =~= stream);
    blocks
}

/// An item of the provider's stream with each node as what the engine
/// reads of it.
pub open spec fn described<'tree>(raw: RawMatch<'tree>) -> MatchView {
    MatchView {
        reached: raw.reached,
        captures: Seq::new(
            raw.captures.len(),
            |j: int| Capture { index: raw.captures[j].0, node: node_facts(raw.captures[j].1) },
        ),
    }
}

/// The provider's stream with each node as what the engine reads of it.
pub open spec fn described_stream<'tree>(raw: Seq<RawMatch<'tree>>) -> Seq<MatchView> {
    Seq::new(raw.len(), |i: int| described(raw[i]))
}

/// The text reaches to the end of the tree.
pub open spec fn covers(tree: tree_sitter::Tree, text: Seq<u8>) -> bool {
    node_facts(root_of(tree)).end_byte <= text.len()
}

/// The stream of captures that a query gives on a tree and its text:
/// what the provider yields from the root of the tree, item by item. A
/// text that ends before the tree does gives no stream.
pub open spec fn stream_of(query: tree_sitter::Query, tree: tree_sitter::Tree, text: Seq<u8>) -> Seq<
    MatchView,
> {
    if covers(tree, text) {
        described_stream(capture_stream(query, root_of(tree), text))
    } else {
        Seq::empty()
    }
}

fn describe_captures<'tree>(found: &Vec<(u32, tree_sitter::Node<'tree>)>) -> (described: Vec<
    Capture,
>)
    ensures
        described@ == Seq::new(
            found@.len(),
            |j: int| Capture { index: found@[j].0, node: node_facts(found@[j].1) },
        ),
{
    let mut described: Vec<Capture> = Vec::new();
    let mut j: usize = 0;
    while j < found.len()
        invariant
            j <= found@.len(),
            described@.len() == j,
            forall|k: int|
                0 <= k < j ==> described@[k] == (Capture {
                    index: found@[k].0,
                    node: node_facts(found@[k].1),
                }),
        decreases found@.len() - j,
    {
        described.push(Capture { index: found[j].0, node: describe(&found[j].1) });
        j += 1;
    }
    assert(described@ =~= Seq::new(
        found@.len(),
        |j: int| Capture { index: found@[j].0, node: node_facts(found@[j].1) },
    ));
    described
}

/// Reads the stream of captures that `query` gives on `tree`.
pub fn read_matches<'tree>(
    query: &tree_sitter::Query,
    tree: &'tree tree_sitter::Tree,
    text: &str,
) -> (matches: Vec<Match>)
    ensures
        match_views(matches@) == stream_of(*query, *tree, text.spec_bytes()),
{
    let root = root_node(tree);
    if node_end_byte(&root) > text.as_bytes().len() {
        let none: Vec<Match> = Vec::new();
        assert(match_views(none@) =~= Seq::<MatchView>::empty());
        return none;
    }
    let mut cursor = new_query_cursor();
    let found = captures(&mut cursor, query, root, text);
    let ghost raw = raw_matches(found@);
    let mut matches: Vec<Match> = Vec::new();
    let mut i: usize = 0;
    while i < found.len()
        invariant
            i <= found@.len(),
            raw == raw_matches(found@),
            matches@.len() == i,
            forall|k: int| 0 <= k < i ==> (#[trigger] matches@[k])@ == described(raw[k]),
        decreases found@.len() - i,
    {
        let read = describe_captures(&found[i].1);
        let item = Match { reached: found[i].0, captures: read };
        assert(item@ == described(raw[i as int])) by {
            assert(item@.captures =~= described(raw[i as int]).captures);
        }
        matches.push(item);
        i += 1;
    }
    assert(match_views(matches@) =~= described_stream(raw));
    matches
}

/// The blocks of several streams of captures, stream after stream.
pub open spec fn blocks_of_streams(streams: Seq<Seq<MatchView>>) -> Seq<Seq<SyntaxNode>>
    decreases streams.len(),
{
    if streams.len() == 0 {
        Seq::empty()
    } else {
        blocks_of_streams(streams.drop_last()) + blocks_of(streams.last())
    }
}

/// The streams of captures that the queries give on a tree and its text.
pub open spec fn streams_of(
    queries: Seq<tree_sitter::Query>,
    tree: tree_sitter::Tree,
    text: Seq<u8>,
) -> Seq<Seq<MatchView>> {
    Seq::new(queries.len(), |i: int| stream_of(queries[i], tree, text))
}

/// The blocks that the queries match in `tree`, in the order of the queries
/// and, for one query, of its stream of captures.
pub fn get_blocks<'tree>(
    queries: &[tree_sitter::Query],
    tree: &'tree tree_sitter::Tree,
    text: &str,
) -> (blocks: Vec<Block>)
    ensures
        block_views(blocks@) == blocks_of_streams(
            streams_of(queries@, *tree, text.spec_bytes()),
        ),
{
    let mut blocks: Vec<Block> = Vec::new();
    let ghost streams = streams_of(queries@, *tree, text.spec_bytes());
    let mut i: usize = 0;
    assert(block_views(blocks@) =~= blocks_of_streams(streams.take(0)));
    while i < queries.len()
        invariant
            i <= queries@.len(),
            streams == streams_of(queries@, *tree, text.spec_bytes()),
            block_views(blocks@) == blocks_of_streams(streams.take(i as int)),
        decreases queries@.len() - i,
    {
        let matches = read_matches(&queries[i], tree, text);
        let mut found = blocks_of_matches(&matches);
        proof {
            assert(streams.take(i + 1).drop_last() =~= streams.take(i as int));
            assert(streams.take(i + 1).last() == match_views(matches@));
            assert(block_views(blocks@ + found@) =~= block_views(blocks@) + block_views(found@));
        }
        blocks.append(&mut found);
        i += 1;
    }
    assert(streams.take(i as int) =~= streams);
    blocks
}

} // verus!
