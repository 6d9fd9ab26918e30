//! The syntax provider: the types and calls of the `tree_sitter` crate that
//! the engine uses. Nothing in this file is proved. The types are opaque;
//! what a call returns is given a name, and the contracts of the calls say
//! how those names hang together.

use vstd::prelude::*;
use vstd::string::*;
use crate::error::QuerySyntaxKind;
use crate::syntax::{Point, SyntaxNode};

verus! {

/// A grammar, as the syntax provider hands it out.
#[verifier::external_type_specification]
#[verifier::external_body]
pub struct ExLanguage(tree_sitter::Language);

/// The refusal of a grammar of an incompatible version.
#[verifier::external_type_specification]
#[verifier::external_body]
pub struct ExLanguageError(tree_sitter::LanguageError);

/// A parser of the syntax provider.
#[verifier::external_type_specification]
#[verifier::external_body]
pub struct ExParser(tree_sitter::Parser);

/// A syntax tree of the syntax provider.
#[verifier::external_type_specification]
#[verifier::external_body]
pub struct ExTree(tree_sitter::Tree);

/// A node of such a tree.
#[verifier::external_type_specification]
#[verifier::external_body]
pub struct ExNode<'a>(tree_sitter::Node<'a>);

/// A cursor that walks such a tree.
#[verifier::external_type_specification]
#[verifier::external_body]
pub struct ExTreeCursor<'a>(tree_sitter::TreeCursor<'a>);

/// A compiled structural pattern.
#[verifier::external_type_specification]
#[verifier::external_body]
pub struct ExQuery(tree_sitter::Query);

/// The error of a pattern that does not compile.
#[verifier::external_type_specification]
#[verifier::external_body]
pub struct ExQueryError(tree_sitter::QueryError);

/// The state of a query that is being run.
#[verifier::external_type_specification]
#[verifier::external_body]
pub struct ExQueryCursor(tree_sitter::QueryCursor);

/// What the provider reports of a pattern that does not compile: the
/// position counted from zero, the excerpt or name, and the kind.
pub struct QueryFailure {
    pub at: Point,
    pub message: Seq<char>,
    pub kind: QuerySyntaxKind,
}

/// One item of the stream of captures as the provider gives it: the place
/// that the stream has reached within a match, and the captures of the match.
pub struct RawMatch<'tree> {
    pub reached: usize,
    pub captures: Seq<(u32, tree_sitter::Node<'tree>)>,
}

/// The parser is as `Parser::new` makes it.
pub uninterp spec fn parser_is_new(parser: tree_sitter::Parser) -> bool;

/// The parser is as `Parser::new` makes it, but for the grammar that
/// `Parser::set_language` gave it.
pub uninterp spec fn parser_reads(parser: tree_sitter::Parser, language: tree_sitter::Language) -> bool;

/// `Parser::set_language` accepts the grammar.
pub uninterp spec fn language_accepted(language: tree_sitter::Language) -> bool;

/// The grammar that a tree was parsed with.
pub uninterp spec fn tree_language(tree: tree_sitter::Tree) -> tree_sitter::Language;

/// The text that a tree was parsed from.
pub uninterp spec fn tree_text(tree: tree_sitter::Tree) -> Seq<u8>;

/// What `Query::new` reports of a pattern of characters below 128 that it
/// does not compile.
pub uninterp spec fn compile_failure(language: tree_sitter::Language, source: Seq<char>) -> Option<
    QueryFailure,
>;

/// What a `QueryError` holds.
pub uninterp spec fn query_failure(error: tree_sitter::QueryError) -> QueryFailure;

/// The grammar that a query was compiled for.
pub uninterp spec fn query_language(query: tree_sitter::Query) -> tree_sitter::Language;

/// The pattern that a query was compiled from.
pub uninterp spec fn query_pattern(query: tree_sitter::Query) -> Seq<char>;

/// `Tree::root_node`.
pub uninterp spec fn root_of(tree: tree_sitter::Tree) -> tree_sitter::Node<'static>;

/// What a `TreeCursor` holds: the nodes from the one it started on down to
/// the one it is on.
pub uninterp spec fn cursor_path(cursor: tree_sitter::TreeCursor<'_>) -> Seq<tree_sitter::Node<'_>>;

/// The node that `TreeCursor::goto_first_child` goes to from a node.
pub uninterp spec fn first_child_of(node: tree_sitter::Node<'_>) -> Option<tree_sitter::Node<'_>>;

/// The node that `TreeCursor::goto_next_sibling` goes to from a node that
/// the cursor did not start on.
pub uninterp spec fn next_sibling_of(node: tree_sitter::Node<'_>) -> Option<tree_sitter::Node<'_>>;

/// What a `Node` holds of what the engine reads: each field is what the
/// method of `Node` for it returns.
pub uninterp spec fn node_facts(node: tree_sitter::Node<'_>) -> SyntaxNode;

/// The query cursor is as `QueryCursor::new` makes it.
pub uninterp spec fn cursor_is_new(cursor: tree_sitter::QueryCursor) -> bool;

/// The items that `QueryCursor::captures` yields, in order.
pub uninterp spec fn capture_stream(
    query: tree_sitter::Query,
    node: tree_sitter::Node<'_>,
    text: Seq<u8>,
) -> Seq<RawMatch<'_>>;

/// A byte that a name in a pattern can hold.
pub open spec fn is_name_byte(byte: u8) -> bool {
    ||| 0x30 <= byte <= 0x39
    ||| 0x41 <= byte <= 0x5a
    ||| 0x61 <= byte <= 0x7a
    ||| byte == 0x5f
    ||| byte == 0x2d
    ||| byte >= 0x80
}

/// Every byte of the pattern is a character below 128.
pub open spec fn is_plain(source: Seq<u8>) -> bool {
    forall|i: int| 0 <= i < source.len() ==> #[trigger] source[i] < 0x80
}

/// The pattern is empty or ends in a character that ends every name.
pub open spec fn ends_in_delimiter(source: Seq<u8>) -> bool {
    source.len() == 0 || !is_name_byte(source.last())
}

/// The items that the call handed out, with the captures of each as a sequence.
pub open spec fn raw_matches<'tree>(
    found: Seq<(usize, Vec<(u32, tree_sitter::Node<'tree>)>)>,
) -> Seq<RawMatch<'tree>> {
    Seq::new(found.len(), |i: int| RawMatch { reached: found[i].0, captures: found[i].1@ })
}

/// `tree_sitter::Parser::new`: a parser with no language set.
#[verifier::external_body]
pub(crate) fn new_parser() -> (parser: tree_sitter::Parser)
    ensures
        parser_is_new(parser),
{
    tree_sitter::Parser::new()
}

/// `tree_sitter::Parser::set_language`: hands the grammar to the parser, or
/// refuses a grammar of an incompatible version. Which of the two depends
/// on the grammar alone.
#[verifier::external_body]
pub(crate) fn set_language(
    parser: &mut tree_sitter::Parser,
    language: tree_sitter::Language,
) -> (r: Result<(), tree_sitter::LanguageError>)
    ensures
        r is Ok <==> language_accepted(language),
        r is Ok && parser_is_new(*old(parser)) ==> parser_reads(*final(parser), language),
{
    parser.set_language(language)
}

/// `tree_sitter::Parser::parse`, without an earlier tree: the syntax tree of
/// `text`, or nothing. A parser that was only made and given a grammar
/// gives a tree: it has a language, no timeout and no flag that cancels it.
/// The tree is one of that grammar and that text.
#[verifier::external_body]
pub(crate) fn parse(parser: &mut tree_sitter::Parser, text: &str) -> (tree: Option<
    tree_sitter::Tree,
>)
    ensures
        forall|language: tree_sitter::Language| #[trigger]
            parser_reads(*old(parser), language) ==> tree is Some && tree_language(tree->0)
                == language,
        tree matches Some(t) ==> tree_text(t) == text.spec_bytes(),
{
    parser.parse(text, None)
}

/// `tree_sitter::Query::new`, for a pattern of characters below 128: the
/// compiled pattern, or the error that the crate reports for it; which of
/// the two, and the error, depend on the grammar and the pattern alone. A
/// pattern that ends inside a name is left out: for such a pattern the
/// crate cuts the name out of the pattern beyond its end.
#[verifier::external_body]
pub(crate) fn new_query(language: tree_sitter::Language, source: &str) -> (r: Result<
    tree_sitter::Query,
    tree_sitter::QueryError,
>)
    requires
        ends_in_delimiter(source.spec_bytes()),
        is_plain(source.spec_bytes()),
    ensures
        r is Err <==> compile_failure(language, source@) is Some,
        r matches Err(error) ==> compile_failure(language, source@) == Some(query_failure(error)),
        r matches Ok(query) ==> query_language(query) == language && query_pattern(query)
            == source@,
{
    tree_sitter::Query::new(language, source)
}

/// `tree_sitter::Query::new`, for any pattern: the compiled pattern, or an
/// error. What is white space and what is a name in a pattern with other
/// characters than those below 128 is for the character classes of the
/// process to say, so nothing is claimed of which of the two comes, nor of
/// the error. A pattern that ends inside a name is left out here too.
#[verifier::external_body]
pub(crate) fn new_wide_query(language: tree_sitter::Language, source: &str) -> (r: Result<
    tree_sitter::Query,
    tree_sitter::QueryError,
>)
    requires
        ends_in_delimiter(source.spec_bytes()),
    ensures
        r matches Ok(query) ==> query_language(query) == language && query_pattern(query)
            == source@,
{
    tree_sitter::Query::new(language, source)
}

/// The fields `row` and `column` of a `tree_sitter::QueryError`, both
/// counted from zero.
#[verifier::external_body]
pub(crate) fn query_error_position(error: &tree_sitter::QueryError) -> (at: Point)
    ensures
        at == query_failure(*error).at,
{
    Point { row: error.row, column: error.column }
}

/// The field `message` of a `tree_sitter::QueryError`.
#[verifier::external_body]
pub(crate) fn query_error_message(error: tree_sitter::QueryError) -> (message: String)
    ensures
        message@ == query_failure(error).message,
{
    error.message
}

/// The field `kind` of a `tree_sitter::QueryError`, variant for variant.
#[verifier::external_body]
pub(crate) fn query_error_kind(error: &tree_sitter::QueryError) -> (kind: QuerySyntaxKind)
    ensures
        kind == query_failure(*error).kind,
{
    match error.kind {
        tree_sitter::QueryErrorKind::Syntax => QuerySyntaxKind::Syntax,
        tree_sitter::QueryErrorKind::NodeType => QuerySyntaxKind::NodeType,
        tree_sitter::QueryErrorKind::Field => QuerySyntaxKind::Field,
        tree_sitter::QueryErrorKind::Capture => QuerySyntaxKind::Capture,
        tree_sitter::QueryErrorKind::Predicate => QuerySyntaxKind::Predicate,
        tree_sitter::QueryErrorKind::Structure => QuerySyntaxKind::Structure,
        tree_sitter::QueryErrorKind::Language => QuerySyntaxKind::Language,
    }
}

/// `tree_sitter::Tree::root_node`.
#[verifier::external_body]
pub(crate) fn root_node<'tree>(tree: &'tree tree_sitter::Tree) -> (node: tree_sitter::Node<
    'tree,
>)
    ensures
        node == root_of(*tree),
{
    tree.root_node()
}

/// `tree_sitter::Tree::walk`: a cursor on the root of the tree.
#[verifier::external_body]
pub(crate) fn walk<'tree>(tree: &'tree tree_sitter::Tree) -> (cursor: tree_sitter::TreeCursor<
    'tree,
>)
    ensures
        cursor_path(cursor) == seq![root_of(*tree)],
{
    tree.walk()
}

/// `tree_sitter::TreeCursor::node`: the node that the cursor is on.
#[verifier::external_body]
pub(crate) fn cursor_node<'tree>(cursor: &tree_sitter::TreeCursor<'tree>) -> (node:
    tree_sitter::Node<'tree>)
    ensures
        node == cursor_path(*cursor).last(),
{
    cursor.node()
}

/// `tree_sitter::TreeCursor::goto_first_child`: whether the cursor moved;
/// it moves one node down, to the first child.
#[verifier::external_body]
pub(crate) fn goto_first_child<'tree>(cursor: &mut tree_sitter::TreeCursor<'tree>) -> (moved:
    bool)
    ensures
        moved <==> first_child_of(cursor_path(*old(cursor)).last()) is Some,
        moved ==> cursor_path(*final(cursor)) == cursor_path(*old(cursor)).push(
            first_child_of(cursor_path(*old(cursor)).last())->0,
        ),
        !moved ==> cursor_path(*final(cursor)) == cursor_path(*old(cursor)),
{
    cursor.goto_first_child()
}

/// `tree_sitter::TreeCursor::goto_next_sibling`: whether the cursor moved;
/// it moves sideways, to the next sibling, and never off the node that it
/// started on.
#[verifier::external_body]
pub(crate) fn goto_next_sibling<'tree>(cursor: &mut tree_sitter::TreeCursor<'tree>) -> (moved:
    bool)
    ensures
        cursor_path(*old(cursor)).len() > 1 ==> (moved <==> next_sibling_of(
            cursor_path(*old(cursor)).last(),
        ) is Some),
        cursor_path(*old(cursor)).len() <= 1 ==> !moved,
        moved ==> cursor_path(*final(cursor)) == cursor_path(*old(cursor)).drop_last().push(
            next_sibling_of(cursor_path(*old(cursor)).last())->0,
        ),
        !moved ==> cursor_path(*final(cursor)) == cursor_path(*old(cursor)),
{
    cursor.goto_next_sibling()
}

/// `tree_sitter::TreeCursor::goto_parent`: whether the cursor moved; it
/// moves one node up, unless it is on the node that it started on.
#[verifier::external_body]
pub(crate) fn goto_parent<'tree>(cursor: &mut tree_sitter::TreeCursor<'tree>) -> (moved: bool)
    ensures
        moved <==> cursor_path(*old(cursor)).len() > 1,
        moved ==> cursor_path(*final(cursor)) == cursor_path(*old(cursor)).drop_last(),
        !moved ==> cursor_path(*final(cursor)) == cursor_path(*old(cursor)),
{
    cursor.goto_parent()
}

/// `tree_sitter::Node::id`.
#[verifier::external_body]
pub(crate) fn node_id<'tree>(node: &tree_sitter::Node<'tree>) -> (id: usize)
    ensures
        id == node_facts(*node).id,
{
    node.id()
}

/// `tree_sitter::Node::start_byte`.
#[verifier::external_body]
pub(crate) fn node_start_byte<'tree>(node: &tree_sitter::Node<'tree>) -> (offset: usize)
    ensures
        offset == node_facts(*node).start_byte,
{
    node.start_byte()
}

/// `tree_sitter::Node::end_byte`.
#[verifier::external_body]
pub(crate) fn node_end_byte<'tree>(node: &tree_sitter::Node<'tree>) -> (offset: usize)
    ensures
        offset == node_facts(*node).end_byte,
{
    node.end_byte()
}

/// `tree_sitter::Node::start_position`, as a point of this library.
#[verifier::external_body]
pub(crate) fn node_start_position<'tree>(node: &tree_sitter::Node<'tree>) -> (at: Point)
    ensures
        at == node_facts(*node).start_position,
{
    let at = node.start_position();
    Point { row: at.row, column: at.column }
}

/// `tree_sitter::Node::end_position`, as a point of this library.
#[verifier::external_body]
pub(crate) fn node_end_position<'tree>(node: &tree_sitter::Node<'tree>) -> (at: Point)
    ensures
        at == node_facts(*node).end_position,
{
    let at = node.end_position();
    Point { row: at.row, column: at.column }
}

/// `tree_sitter::Node::parent`: the node holds the identity of its parent.
#[verifier::external_body]
pub(crate) fn node_parent<'tree>(node: &tree_sitter::Node<'tree>) -> (parent: Option<
    tree_sitter::Node<'tree>,
>)
    ensures
        match parent {
            Some(p) => node_facts(*node).parent == Some(node_facts(p).id),
            None => node_facts(*node).parent is None,
        },
{
    node.parent()
}

/// `tree_sitter::Node::prev_sibling`: the node holds where that sibling ends.
#[verifier::external_body]
pub(crate) fn node_prev_sibling<'tree>(node: &tree_sitter::Node<'tree>) -> (sibling: Option<
    tree_sitter::Node<'tree>,
>)
    ensures
        match sibling {
            Some(s) => node_facts(*node).prev_sibling_end == Some(node_facts(s).end_byte),
            None => node_facts(*node).prev_sibling_end is None,
        },
{
    node.prev_sibling()
}

/// `tree_sitter::Node::next_sibling`: the node holds where that sibling starts.
#[verifier::external_body]
pub(crate) fn node_next_sibling<'tree>(node: &tree_sitter::Node<'tree>) -> (sibling: Option<
    tree_sitter::Node<'tree>,
>)
    ensures
        match sibling {
            Some(s) => node_facts(*node).next_sibling_start == Some(node_facts(s).start_byte),
            None => node_facts(*node).next_sibling_start is None,
        },
{
    node.next_sibling()
}

/// `tree_sitter::Node::prev_named_sibling`: the node holds where that
/// sibling ends.
#[verifier::external_body]
pub(crate) fn node_prev_named_sibling<'tree>(node: &tree_sitter::Node<'tree>) -> (sibling:
    Option<tree_sitter::Node<'tree>>)
    ensures
        match sibling {
            Some(s) => node_facts(*node).prev_named_sibling_end == Some(node_facts(s).end_byte),
            None => node_facts(*node).prev_named_sibling_end is None,
        },
{
    node.prev_named_sibling()
}

/// `tree_sitter::Node::next_named_sibling`: the node holds where that
/// sibling starts.
#[verifier::external_body]
pub(crate) fn node_next_named_sibling<'tree>(node: &tree_sitter::Node<'tree>) -> (sibling:
    Option<tree_sitter::Node<'tree>>)
    ensures
        match sibling {
            Some(s) => node_facts(*node).next_named_sibling_start == Some(
                node_facts(s).start_byte,
            ),
            None => node_facts(*node).next_named_sibling_start is None,
        },
{
    node.next_named_sibling()
}

/// `tree_sitter::QueryCursor::new`.
#[verifier::external_body]
pub(crate) fn new_query_cursor() -> (cursor: tree_sitter::QueryCursor)
    ensures
        cursor_is_new(cursor),
{
    tree_sitter::QueryCursor::new()
}

/// `tree_sitter::QueryCursor::captures` on `node`, run to its end. Each item
/// that the iterator yields is handed out in order: the position of the
/// capture that was reached within its match, and all captures of that match
/// as pairs of capture index and node. On a cursor that was only made, the
/// items depend on the query, the node and the text alone. A text that ends
/// before the node does is left out: the crate cuts the text of captured
/// nodes out of it.
#[verifier::external_body]
pub(crate) fn captures<'tree>(
    cursor: &mut tree_sitter::QueryCursor,
    query: &tree_sitter::Query,
    node: tree_sitter::Node<'tree>,
    text: &str,
) -> (found: Vec<(usize, Vec<(u32, tree_sitter::Node<'tree>)>)>)
    requires
        node_facts(node).end_byte <= text.spec_bytes().len(),
    ensures
        cursor_is_new(*old(cursor)) ==> raw_matches(found@) == capture_stream(
            *query,
            node,
            text.spec_bytes(),
        ),
{
    cursor
        .captures(query, node, text.as_bytes())
        .map(|(m, at)| (at, m.captures.iter().map(|c| (c.index, c.node)).collect()))
        .collect()
}

} // verus!
