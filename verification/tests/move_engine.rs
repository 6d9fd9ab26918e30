use code_blocks::block::Block;
use code_blocks::error::{
    decimal, Error, InstallStage, InstallationError, QuerySyntaxError, QuerySyntaxKind, Side,
};
use code_blocks::mover::move_block;
use code_blocks::syntax::{Point, SyntaxNode};

fn node(id: usize, start: usize, end: usize, row: usize) -> SyntaxNode {
    SyntaxNode::new(id, start, end, Point::new(row, 0), Point::new(row, end - start))
}

fn between(mut node: SyntaxNode, before: Option<usize>, after: Option<usize>) -> SyntaxNode {
    node.prev_sibling_end = before;
    node.prev_named_sibling_end = before;
    node.next_sibling_start = after;
    node.next_named_sibling_start = after;
    node
}

fn block(nodes: Vec<SyntaxNode>) -> Block {
    Block::new(nodes).unwrap()
}

fn allow(_src: &Block, _dst: &Block) -> Result<(), String> {
    Ok(())
}

fn refuse(_src: &Block, _dst: &Block) -> Result<(), String> {
    Err("not today".to_string())
}

fn never(_src: &Block, _dst: &Block) -> Result<(), String> {
    panic!("the legality predicate was called");
}

fn moved(text: &str, src_start: usize, dst_start: usize) -> Result<(String, usize, usize), Error> {
    Ok((text.to_string(), src_start, dst_start))
}

/// Three items on three lines: `aa` at 0..2, `bbb` at 3..6, `c` at 8..9.
const ITEMS: &str = "aa\nbbb\n\nc";

fn first() -> Block {
    block(vec![between(node(1, 0, 2, 0), None, Some(3))])
}

fn second() -> Block {
    block(vec![between(node(2, 3, 6, 1), Some(2), Some(8))])
}

fn third() -> Block {
    block(vec![between(node(3, 8, 9, 3), Some(6), None)])
}

#[test]
fn moves_first_function_below_second() {
    let text = "fn main() {}\nfn foo() {}";
    let src = block(vec![between(node(1, 0, 12, 0), None, Some(13))]);
    let dst = block(vec![between(node(2, 13, 24, 1), Some(12), None)]);
    assert_eq!(
        move_block(src, dst, text, Some(allow), false),
        moved("fn foo() {}\nfn main() {}", 12, 0)
    );
}

#[test]
fn empty_block_is_refused() {
    assert_eq!(Block::new(vec![]), Err(Error::EmptyBlock));
}

#[test]
fn block_keeps_its_nodes_in_order() {
    let header = node(7, 0, 4, 0);
    let item = node(8, 5, 9, 1);
    let both = block(vec![header, item]);
    assert_eq!(both.head(), &header);
    assert_eq!(both.tail(), &item);
    assert_eq!(both.head_tail(), (&header, &item));
    assert_eq!(both.byte_range(), 0..9);
    assert_eq!(both.clone(), both);
}

#[test]
fn move_to_own_place_changes_nothing() {
    assert_eq!(
        move_block(second(), second(), ITEMS, Some(allow), false),
        moved(ITEMS, 3, 3)
    );
}

#[test]
fn same_start_position_is_the_same_place_whatever_the_offsets() {
    // Offsets far outside the text are not even looked at.
    let src = block(vec![node(1, 500, 900, 2)]);
    let dst = block(vec![node(2, 700, 701, 2)]);
    assert_eq!(
        move_block(src, dst, ITEMS, Some(allow), false),
        moved(ITEMS, 500, 500)
    );
}

#[test]
fn refusal_ends_the_move_with_its_reason() {
    assert_eq!(
        move_block(first(), third(), ITEMS, Some(refuse), false),
        Err(Error::IllegalMove("not today".to_string()))
    );
    // A refused move to the block's own place is refused as well.
    assert_eq!(
        move_block(first(), first(), ITEMS, Some(refuse), false),
        Err(Error::IllegalMove("not today".to_string()))
    );
}

#[test]
fn force_skips_the_predicate() {
    assert_eq!(
        move_block(first(), third(), ITEMS, Some(never), true),
        moved("bbb\n\nc\n\naa", 8, 5)
    );
    assert_eq!(
        move_block(first(), third(), ITEMS, Some(refuse), true),
        move_block(first(), third(), ITEMS, Some(allow), false)
    );
}

#[test]
fn move_without_predicate_is_allowed() {
    let none: Option<fn(&Block, &Block) -> Result<(), String>> = None;
    assert_eq!(
        move_block(first(), third(), ITEMS, none, false),
        moved("bbb\n\nc\n\naa", 8, 5)
    );
}

#[test]
fn move_down_shifts_both_offsets() {
    // Deleted: `aa\n` (3 bytes). Separator: the gap before `bbb` and the
    // gap after it, the longer one, `\n\n`.
    assert_eq!(
        move_block(first(), second(), ITEMS, Some(allow), false),
        moved("bbb\n\naa\n\nc", 5, 0)
    );
}

#[test]
fn move_up_keeps_the_destination_offset() {
    // Deleted: `\n\nc` (gap before `c`). Separator after `aa`: `\n`.
    assert_eq!(
        move_block(third(), first(), ITEMS, Some(allow), false),
        moved("aa\nc\nbbb", 3, 0)
    );
}

#[test]
fn deletion_takes_the_longer_gap() {
    // `bbb` has one byte before it and two after it: the gap after goes.
    assert_eq!(
        move_block(second(), first(), ITEMS, Some(allow), false),
        moved("aa\nbbb\nc", 3, 0)
    );
    // With equal gaps the one before goes.
    let text = "aa\nbbb\nc";
    let src = block(vec![between(node(2, 3, 6, 1), Some(2), Some(7))]);
    let dst = block(vec![between(node(3, 7, 8, 2), Some(6), None)]);
    assert_eq!(
        move_block(src, dst, text, Some(allow), false),
        moved("aa\nc\nbbb", 5, 3)
    );
}

#[test]
fn separator_is_the_longest_gap_and_the_last_of_equals() {
    // dst is a header and an item; the four gaps are `-`, `++`, `++`, `**`.
    let text = "s-hh++ii**x";
    let src = block(vec![between(node(1, 0, 1, 0), None, Some(2))]);
    let mut header = node(2, 2, 4, 1);
    header.prev_named_sibling_end = Some(1);
    header.next_named_sibling_start = Some(6);
    let mut item = node(3, 6, 8, 2);
    item.prev_named_sibling_end = Some(4);
    item.next_named_sibling_start = Some(10);
    let dst = block(vec![header, item]);
    assert_eq!(
        move_block(src, dst, text, Some(allow), false),
        moved("hh++ii**s**x", 8, 0)
    );
}

#[test]
fn destination_without_named_sibling_gets_no_separator() {
    let text = "ab";
    let src = block(vec![node(1, 0, 1, 0)]);
    let dst = block(vec![node(2, 1, 2, 1)]);
    assert_eq!(
        move_block(src, dst, text, Some(allow), false),
        moved("ba", 1, 0)
    );
}

#[test]
fn empty_gap_makes_an_empty_separator() {
    let text = "fn a() {}fn b() {}";
    let src = block(vec![between(node(1, 0, 9, 0), None, Some(9))]);
    let dst = block(vec![between(node(2, 9, 18, 1), Some(9), None)]);
    assert_eq!(
        move_block(src, dst, text, Some(allow), false),
        moved("fn b() {}fn a() {}", 9, 0)
    );
}

#[test]
fn block_inside_its_destination_leaves_the_destination_offset() {
    // `(a b)`: `a` is moved after the group that holds it.
    let text = "(a b) z";
    let a = block(vec![between(node(2, 1, 2, 1), Some(1), Some(3))]);
    let group = block(vec![between(node(1, 0, 5, 0), None, Some(6))]);
    assert_eq!(
        move_block(a, group, text, Some(allow), false),
        moved("(b) a z", 4, 0)
    );
}

#[test]
fn equal_start_bytes_take_the_unshifted_formula() {
    // Both blocks start at byte 0, on different rows: the move goes down
    // and the destination keeps its offset.
    let text = "ab\ncd";
    let src = block(vec![between(node(1, 0, 2, 0), None, Some(3))]);
    let dst = block(vec![between(node(2, 0, 5, 1), None, None)]);
    assert_eq!(
        move_block(src, dst, text, Some(allow), false),
        moved("cdab", 2, 0)
    );
    // One byte earlier the destination is shifted by what was deleted.
    let text = "ab\ncd";
    let src = block(vec![between(node(1, 0, 2, 0), None, Some(3))]);
    let dst = block(vec![between(node(2, 3, 5, 1), Some(2), None)]);
    assert_eq!(
        move_block(src, dst, text, Some(allow), false),
        moved("cd\nab", 3, 0)
    );
}

#[test]
fn header_nodes_move_with_their_item() {
    let text = "#[a]\nfn f() {}\n\nfn g() {}\n";
    let mut attribute = node(1, 0, 4, 0);
    attribute.next_sibling_start = Some(5);
    let mut item = node(2, 5, 14, 1);
    item.prev_sibling_end = Some(4);
    item.next_sibling_start = Some(16);
    let src = block(vec![attribute, item]);
    let dst = block(vec![between(node(3, 16, 25, 3), Some(14), None)]);
    assert_eq!(
        move_block(src, dst, text, Some(allow), false),
        moved("fn g() {}\n\n#[a]\nfn f() {}\n", 11, 0)
    );
}

#[test]
fn offsets_count_bytes_of_utf8() {
    let text = "é\nß";
    let src = block(vec![between(node(1, 0, 2, 0), None, Some(3))]);
    let dst = block(vec![between(node(2, 3, 5, 1), Some(2), None)]);
    assert_eq!(
        move_block(src, dst, text, Some(allow), false),
        moved("ß\né", 3, 0)
    );
}

#[test]
fn offset_outside_the_text_is_an_invalid_span() {
    let src = block(vec![between(node(1, 0, 2, 0), None, Some(3))]);
    let dst = block(vec![between(node(2, 3, 10, 1), Some(2), None)]);
    assert_eq!(
        move_block(src, dst, ITEMS, Some(allow), false),
        Err(Error::InvalidSpan)
    );
    let reversed = block(vec![node(1, 2, 0, 0)]);
    assert_eq!(
        move_block(reversed, third(), ITEMS, Some(allow), false),
        Err(Error::InvalidSpan)
    );
    let sibling_behind = block(vec![between(node(1, 0, 2, 0), Some(1), None)]);
    assert_eq!(
        move_block(sibling_behind, third(), ITEMS, Some(allow), false),
        Err(Error::InvalidSpan)
    );
}

#[test]
fn offset_inside_a_character_is_an_invalid_span() {
    let text = "é\nß";
    let src = block(vec![between(node(1, 1, 2, 0), None, Some(3))]);
    let dst = block(vec![between(node(2, 3, 5, 1), Some(2), None)]);
    assert_eq!(
        move_block(src, dst, text, Some(allow), false),
        Err(Error::InvalidSpan)
    );
}

#[test]
fn interfering_edits_are_refused() {
    // Going up with the insertion point inside what is deleted.
    let text = "// h\n(a b)";
    let header = between(node(1, 0, 4, 0), None, Some(5));
    let group = between(node(2, 5, 10, 1), Some(4), None);
    let a = block(vec![between(node(3, 6, 7, 1), Some(6), Some(8))]);
    assert_eq!(
        move_block(a, block(vec![header, group]), text, Some(allow), false),
        Err(Error::OverlappingSpans)
    );
    // Going down into a block that lies inside the moved one.
    let text = "(a b) z";
    let outer = block(vec![between(node(1, 0, 5, 0), None, Some(6))]);
    let inner = block(vec![between(node(3, 3, 4, 1), Some(2), Some(4))]);
    assert_eq!(
        move_block(outer, inner, text, Some(allow), false),
        Err(Error::OverlappingSpans)
    );
    // Force does not make such a move possible.
    let outer = block(vec![between(node(1, 0, 5, 0), None, Some(6))]);
    let inner = block(vec![between(node(3, 3, 4, 1), Some(2), Some(4))]);
    assert_eq!(
        move_block(outer, inner, text, Some(never), true),
        Err(Error::OverlappingSpans)
    );
}

#[test]
fn numbers_are_written_in_decimal() {
    assert_eq!(decimal(0), "0");
    assert_eq!(decimal(7), "7");
    assert_eq!(decimal(9), "9");
    assert_eq!(decimal(10), "10");
    assert_eq!(decimal(109), "109");
    assert_eq!(decimal(1234567890), "1234567890");
    assert_eq!(decimal(usize::MAX), usize::MAX.to_string());
}

fn syntax_error(kind: QuerySyntaxKind) -> Error {
    Error::QuerySyntaxError(QuerySyntaxError {
        line: 3,
        column: 14,
        message: "what".to_string(),
        kind,
    })
}

#[test]
fn each_error_has_its_words() {
    assert_eq!(
        Error::EmptyBlock.describe(),
        "Can't create block empty nodes vec"
    );
    assert_eq!(Error::ParseFailure.describe(), "Failed to parse text");
    assert_eq!(
        Error::BlockNotFound(Side::Source).describe(),
        "Failed to find src item"
    );
    assert_eq!(
        Error::BlockNotFound(Side::Destination).describe(),
        "Failed to find dst item"
    );
    assert_eq!(
        Error::IllegalMove("Blocks have different parents".to_string()).describe(),
        "Illegal move operation: Blocks have different parents"
    );
    assert_eq!(
        Error::InvalidSpan.describe(),
        "Block does not lie in the text"
    );
    assert_eq!(
        Error::OverlappingSpans.describe(),
        "Can't move a block into or across itself"
    );
    assert_eq!(
        Error::InstallationError(InstallationError {
            stage: InstallStage::Compile,
            output: "error: linking failed".to_string(),
        })
        .describe(),
        "failed to compile parser: error: linking failed"
    );
    assert_eq!(
        Error::InstallationError(InstallationError {
            stage: InstallStage::Download,
            output: String::new(),
        })
        .describe(),
        "failed to download parser: "
    );
    assert_eq!(InstallStage::Patch.failure(), "failed to disable language fn mangle");
    assert_eq!(InstallStage::Load.failure(), "failed to load parser");

    assert_eq!(
        syntax_error(QuerySyntaxKind::Syntax).describe(),
        "Query error at 3:14. Invalid syntax:\nwhat"
    );
    assert_eq!(
        syntax_error(QuerySyntaxKind::Structure).describe(),
        "Query error at 3:14. Impossible pattern:\nwhat"
    );
    assert_eq!(
        syntax_error(QuerySyntaxKind::NodeType).describe(),
        "Query error at 3:14. Invalid node type what"
    );
    assert_eq!(
        syntax_error(QuerySyntaxKind::Field).describe(),
        "Query error at 3:14. Invalid field name what"
    );
    assert_eq!(
        syntax_error(QuerySyntaxKind::Capture).describe(),
        "Query error at 3:14. Invalid capture name what"
    );
    assert_eq!(
        syntax_error(QuerySyntaxKind::Predicate).describe(),
        "Query error at 3:14. Invalid predicate: what"
    );
    assert_eq!(syntax_error(QuerySyntaxKind::Language).describe(), "what");
}
