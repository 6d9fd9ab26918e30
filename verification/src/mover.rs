//! The move engine: relocates one block to sit right after another.

use vstd::prelude::*;
use vstd::string::*;
use vstd::utf8::*;
use crate::block::Block;
use crate::error::Error;
use crate::syntax::{Span, SyntaxNode};
use crate::text::{byte_len, in_text, is_in_text, push_text, slice};

verus! {

/// The edited text of a move with the new offsets of the two blocks.
pub struct Moved {
    pub text: Seq<u8>,
    pub src_start: int,
    pub dst_start: int,
}

/// The gap between the end of a sibling before a node and the node's start.
pub open spec fn gap_before(sibling_end: Option<usize>, start: usize) -> Option<Span> {
    match sibling_end {
        Some(end) => Some(Span { start: end, end: start }),
        None => None,
    }
}

/// The gap between a node's end and the start of a sibling after it.
pub open spec fn gap_after(end: usize, sibling_start: Option<usize>) -> Option<Span> {
    match sibling_start {
        Some(start) => Some(Span { start: end, end: start }),
        None => None,
    }
}

/// Of two gaps the longer one, the later one where they are equally long.
pub open spec fn longer_gap(best: Option<Span>, next: Option<Span>) -> Option<Span> {
    match (best, next) {
        (_, None) => best,
        (None, Some(_)) => next,
        (Some(b), Some(n)) => if n.size() >= b.size() {
            next
        } else {
            best
        },
    }
}

/// The four gaps next to `dst`, in the order in which they are compared:
/// before and after its head, before and after its tail, each up to the
/// nearest named sibling.
pub open spec fn separator_candidates(dst: Seq<SyntaxNode>) -> Seq<Option<Span>> {
    let head = dst.first();
    let tail = dst.last();
    seq![
        gap_before(head.prev_named_sibling_end, head.start_byte),
        gap_after(head.end_byte, head.next_named_sibling_start),
        gap_before(tail.prev_named_sibling_end, tail.start_byte),
        gap_after(tail.end_byte, tail.next_named_sibling_start),
    ]
}

/// The gap whose text separates the moved block from `dst`: the longest of
/// the candidates, none where `dst` has no named sibling.
pub open spec fn separator_span(dst: Seq<SyntaxNode>) -> Option<Span> {
    let c = separator_candidates(dst);
    longer_gap(longer_gap(longer_gap(c[0], c[1]), c[2]), c[3])
}

/// The text that is inserted between `dst` and the moved block.
pub open spec fn separator(dst: Seq<SyntaxNode>, text: Seq<u8>) -> Seq<u8> {
    match separator_span(dst) {
        Some(gap) => text.subrange(gap.start as int, gap.end as int),
        None => Seq::empty(),
    }
}

/// The bytes that leave the text with `src`: the block and one gap next to
/// it, the longer of the gaps to its two siblings, the one before it where
/// they are equally long.
pub open spec fn deletion_span(src: Seq<SyntaxNode>) -> Span {
    let head = src.first();
    let tail = src.last();
    match (head.prev_sibling_end, tail.next_sibling_start) {
        (Some(p), Some(n)) => if head.start_byte - p >= n - tail.end_byte {
            Span { start: p, end: tail.end_byte }
        } else {
            Span { start: head.start_byte, end: n }
        },
        (None, Some(n)) => Span { start: head.start_byte, end: n },
        (Some(p), None) => Span { start: p, end: tail.end_byte },
        (None, None) => Span { start: head.start_byte, end: tail.end_byte },
    }
}

/// A gap that is present lies in the text.
pub open spec fn gap_in_text(gap: Option<Span>, text: Seq<u8>) -> bool {
    gap matches Some(g) ==> in_text(text, g.start as int, g.end as int)
}

/// Every offset that a move of `src` after `dst` reads lies in `text`,
/// between characters and in document order.
pub open spec fn spans_in_text(src: Seq<SyntaxNode>, dst: Seq<SyntaxNode>, text: Seq<u8>) -> bool {
    let head = src.first();
    let tail = src.last();
    let c = separator_candidates(dst);
    &&& in_text(text, head.start_byte as int, tail.end_byte as int)
    &&& gap_in_text(gap_before(head.prev_sibling_end, head.start_byte), text)
    &&& gap_in_text(gap_after(tail.end_byte, tail.next_sibling_start), text)
    &&& gap_in_text(c[0], text)
    &&& gap_in_text(c[1], text)
    &&& gap_in_text(c[2], text)
    &&& gap_in_text(c[3], text)
    &&& in_text(text, dst.last().end_byte as int, dst.last().end_byte as int)
}

/// The move goes down the text: `src` does not end after the head of `dst`.
pub open spec fn moves_down(src: Seq<SyntaxNode>, dst: Seq<SyntaxNode>) -> bool {
    src.first().end_byte <= dst.first().end_byte
}

/// The deletion and the insertion keep apart. Going down, what is deleted
/// ends at or before the insertion point, and before `dst` starts where
/// `src` starts before it; going up, it starts at or after the insertion
/// point.
pub open spec fn edits_apart(src: Seq<SyntaxNode>, dst: Seq<SyntaxNode>) -> bool {
    let cut = deletion_span(src);
    let at = dst.last().end_byte;
    if moves_down(src, dst) {
        &&& cut.end <= at
        &&& src.first().start_byte < dst.first().start_byte ==> cut.end <= dst.first().start_byte
    } else {
        at <= cut.start
    }
}

/// The text after the move: without the deleted bytes, and with the
/// separator and then the text of `src` right after the tail of `dst`.
pub open spec fn moved_text(src: Seq<SyntaxNode>, dst: Seq<SyntaxNode>, text: Seq<u8>) -> Seq<u8> {
    let cut = deletion_span(src);
    let at = dst.last().end_byte as int;
    let body = text.subrange(src.first().start_byte as int, src.last().end_byte as int);
    let sep = separator(dst, text);
    if moves_down(src, dst) {
        text.subrange(0, cut.start as int) + text.subrange(cut.end as int, at) + sep + body
            + text.subrange(at, text.len() as int)
    } else {
        text.subrange(0, at) + sep + body + text.subrange(at, cut.start as int) + text.subrange(
            cut.end as int,
            text.len() as int,
        )
    }
}

/// Where `src` starts after the move.
pub open spec fn new_src_start(src: Seq<SyntaxNode>, dst: Seq<SyntaxNode>, text: Seq<u8>) -> int {
    let at = dst.last().end_byte;
    if moves_down(src, dst) {
        at + separator(dst, text).len() - deletion_span(src).size()
    } else {
        at + separator(dst, text).len()
    }
}

/// Where `dst` starts after the move.
pub open spec fn new_dst_start(src: Seq<SyntaxNode>, dst: Seq<SyntaxNode>) -> int {
    if moves_down(src, dst) && src.first().start_byte < dst.first().start_byte {
        dst.first().start_byte - deletion_span(src).size()
    } else {
        dst.first().start_byte as int
    }
}

/// What a move of `src` to the place after `dst` gives, once it is allowed.
///
/// Two blocks that start at the same position are one place: the text stays
/// as it is and both offsets are the start of `src`.
pub open spec fn move_result(src: Seq<SyntaxNode>, dst: Seq<SyntaxNode>, text: Seq<u8>) -> Result<Moved, Error> {
    if src.first().start_position == dst.first().start_position {
        Ok(
            Moved {
                text,
                src_start: src.first().start_byte as int,
                dst_start: src.first().start_byte as int,
            },
        )
    } else if !spans_in_text(src, dst, text) {
        Err(Error::InvalidSpan)
    } else if !edits_apart(src, dst) {
        Err(Error::OverlappingSpans)
    } else {
        Ok(
            Moved {
                text: moved_text(src, dst, text),
                src_start: new_src_start(src, dst, text),
                dst_start: new_dst_start(src, dst),
            },
        )
    }
}

/// What a move gives for a verdict of the legality predicate.
pub open spec fn judged_result(
    verdict: Result<(), String>,
    src: Seq<SyntaxNode>,
    dst: Seq<SyntaxNode>,
    text: Seq<u8>,
) -> Result<Moved, Error> {
    match verdict {
        Ok(_) => move_result(src, dst, text),
        Err(reason) => Err(Error::IllegalMove(reason)),
    }
}

/// The model of what `move_block` returns.
pub open spec fn moved_view(r: Result<(String, usize, usize), Error>) -> Result<Moved, Error> {
    match r {
        Ok((text, src_start, dst_start)) => Ok(
            Moved {
                text: encode_utf8(text@),
                src_start: src_start as int,
                dst_start: dst_start as int,
            },
        ),
        Err(e) => Err(e),
    }
}

fn exec_gap_before(sibling_end: Option<usize>, start: usize) -> (gap: Option<Span>)
    ensures
        gap == gap_before(sibling_end, start),
{
    match sibling_end {
        Some(end) => Some(Span { start: end, end: start }),
        None => None,
    }
}

fn exec_gap_after(end: usize, sibling_start: Option<usize>) -> (gap: Option<Span>)
    ensures
        gap == gap_after(end, sibling_start),
{
    match sibling_start {
        Some(start) => Some(Span { start: end, end: start }),
        None => None,
    }
}

fn is_gap_in_text(gap: Option<Span>, text: &str) -> (b: bool)
    ensures
        b == gap_in_text(gap, text.spec_bytes()),
{
    match gap {
        Some(g) => is_in_text(text, g.start, g.end),
        None => true,
    }
}

fn pick_longer(best: Option<Span>, next: Option<Span>) -> (gap: Option<Span>)
    requires
        best matches Some(b) ==> b.start <= b.end,
        next matches Some(n) ==> n.start <= n.end,
    ensures
        gap == longer_gap(best, next),
        gap matches Some(g) ==> g.start <= g.end,
{
    match (best, next) {
        (_, None) => best,
        (None, Some(_)) => next,
        (Some(b), Some(n)) => if n.end - n.start >= b.end - b.start {
            next
        } else {
            best
        },
    }
}

/// Whether every offset that the move reads lies in the text.
fn check_spans(src: &Block, dst: &Block, text: &str) -> (b: bool)
    ensures
        b == spans_in_text(src@, dst@, text.spec_bytes()),
{
    let (head, tail) = src.head_tail();
    let (dst_head, dst_tail) = dst.head_tail();
    is_in_text(text, head.start_byte, tail.end_byte)
        && is_gap_in_text(exec_gap_before(head.prev_sibling_end, head.start_byte), text)
        && is_gap_in_text(exec_gap_after(tail.end_byte, tail.next_sibling_start), text)
        && is_gap_in_text(exec_gap_before(dst_head.prev_named_sibling_end, dst_head.start_byte), text)
        && is_gap_in_text(exec_gap_after(dst_head.end_byte, dst_head.next_named_sibling_start), text)
        && is_gap_in_text(exec_gap_before(dst_tail.prev_named_sibling_end, dst_tail.start_byte), text)
        && is_gap_in_text(exec_gap_after(dst_tail.end_byte, dst_tail.next_named_sibling_start), text)
        && is_in_text(text, dst_tail.end_byte, dst_tail.end_byte)
}

/// The gap whose text goes between `dst` and the moved block.
fn find_separator(dst: &Block, text: &str) -> (gap: Option<Span>)
    requires
        gap_in_text(separator_candidates(dst@)[0], text.spec_bytes()),
        gap_in_text(separator_candidates(dst@)[1], text.spec_bytes()),
        gap_in_text(separator_candidates(dst@)[2], text.spec_bytes()),
        gap_in_text(separator_candidates(dst@)[3], text.spec_bytes()),
    ensures
        gap == separator_span(dst@),
        gap_in_text(gap, text.spec_bytes()),
{
    let (head, tail) = dst.head_tail();
    let c0 = exec_gap_before(head.prev_named_sibling_end, head.start_byte);
    let c1 = exec_gap_after(head.end_byte, head.next_named_sibling_start);
    let c2 = exec_gap_before(tail.prev_named_sibling_end, tail.start_byte);
    let c3 = exec_gap_after(tail.end_byte, tail.next_named_sibling_start);
    pick_longer(pick_longer(pick_longer(c0, c1), c2), c3)
}

/// The bytes that leave the text with `src`.
fn find_deletion(src: &Block) -> (cut: Span)
    requires
        src@.first().prev_sibling_end matches Some(p) ==> p <= src@.first().start_byte,
        src@.last().next_sibling_start matches Some(n) ==> src@.last().end_byte <= n,
    ensures
        cut == deletion_span(src@),
{
    let (head, tail) = src.head_tail();
    match (head.prev_sibling_end, tail.next_sibling_start) {
        (Some(p), Some(n)) => if head.start_byte - p >= n - tail.end_byte {
            Span { start: p, end: tail.end_byte }
        } else {
            Span { start: head.start_byte, end: n }
        },
        (None, Some(n)) => Span { start: head.start_byte, end: n },
        (Some(p), None) => Span { start: p, end: tail.end_byte },
        (None, None) => Span { start: head.start_byte, end: tail.end_byte },
    }
}

/// Moves `src_block` to the place right after `dst_block` in `text`.
///
/// Unless `force` is set, the legality predicate is asked first, and its
/// refusal ends the move with [`Error::IllegalMove`]. With `force` the
/// predicate is not called. The result holds the edited text and the offsets
/// at which the two blocks start in it.
pub fn move_block<F: Fn(&Block, &Block) -> Result<(), String>>(
    src_block: Block,
    dst_block: Block,
    text: &str,
    assert_move_legal_fn: Option<F>,
    force: bool,
) -> (r: Result<(String, usize, usize), Error>)
    requires
        !force ==> (assert_move_legal_fn matches Some(legal) ==> legal.requires(
            (&src_block, &dst_block),
        )),
    ensures
        force || assert_move_legal_fn is None ==> moved_view(r) == move_result(
            src_block@,
            dst_block@,
            text.spec_bytes(),
        ),
        !force ==> (assert_move_legal_fn matches Some(legal) ==> exists|
            verdict: Result<(), String>,
        |
            #[trigger] legal.ensures((&src_block, &dst_block), verdict) && moved_view(r)
                == judged_result(verdict, src_block@, dst_block@, text.spec_bytes())),
{
    if !force {
        match &assert_move_legal_fn {
            Some(legal) => {
                let verdict = legal(&src_block, &dst_block);
                assert(legal.ensures((&src_block, &dst_block), verdict));
                match verdict {
                    Ok(_) => {},
                    Err(reason) => {
                        return Err(Error::IllegalMove(reason));
                    },
                }
            },
            None => {},
        }
    }
    relocate(&src_block, &dst_block, text)
}

/// The move itself, once it is allowed.
fn relocate(src: &Block, dst: &Block, text: &str) -> (r: Result<(String, usize, usize), Error>)
    ensures
        moved_view(r) == move_result(src@, dst@, text.spec_bytes()),
{
    let (head, tail) = src.head_tail();
    let (dst_head, dst_tail) = dst.head_tail();
    if head.start_position == dst_head.start_position {
        let same = text.to_owned();
        return Ok((same, head.start_byte, head.start_byte));
    }
    if !check_spans(src, dst, text) {
        return Err(Error::InvalidSpan);
    }
    let cut = find_deletion(src);
    let at = dst_tail.end_byte;
    let down = head.end_byte <= dst_head.end_byte;
    let apart = if down {
        cut.end <= at && (head.start_byte >= dst_head.start_byte || cut.end
            <= dst_head.start_byte)
    } else {
        at <= cut.start
    };
    if !apart {
        return Err(Error::OverlappingSpans);
    }
    let gap = find_separator(dst, text);
    let sep = match gap {
        Some(g) => slice(text, g.start, g.end),
        None => "",
    };
    proof {
        reveal_strlit("");
        assert(""@ =~= Seq::<char>::empty());
        assert(sep.spec_bytes() =~= separator(dst@, text.spec_bytes()));
        encode_utf8_valid_utf8(text@);
        is_char_boundary_start_end_of_seq(text.spec_bytes());
    }
    let body = slice(text, head.start_byte, tail.end_byte);
    let len = byte_len(text);
    let mut out = String::new();
    if down {
        push_text(&mut out, slice(text, 0, cut.start));
        push_text(&mut out, slice(text, cut.end, at));
        push_text(&mut out, sep);
        push_text(&mut out, body);
        push_text(&mut out, slice(text, at, len));
    } else {
        push_text(&mut out, slice(text, 0, at));
        push_text(&mut out, sep);
        push_text(&mut out, body);
        push_text(&mut out, slice(text, at, cut.start));
        push_text(&mut out, slice(text, cut.end, len));
    }
    assert(encode_utf8(out@) =~= moved_text(src@, dst@, text.spec_bytes()));
    // The source starts as far before the end of the new text as its own
    // length and the length of what follows it.
    let follows = if down {
        len - at
    } else {
        (cut.start - at) + (len - cut.end)
    };
    let src_start = byte_len(out.as_str()) - follows - (tail.end_byte - head.start_byte);
    let dst_start = if down && head.start_byte < dst_head.start_byte {
        dst_head.start_byte - (cut.end - cut.start)
    } else {
        dst_head.start_byte
    };
    Ok((out, src_start, dst_start))
}

/// A block moved to the place at which it starts leaves the text as it
/// is, and both offsets are the start of the block.
pub proof fn lemma_move_in_place(src: Seq<SyntaxNode>, dst: Seq<SyntaxNode>, text: Seq<u8>)
    requires
        src.first().start_position == dst.first().start_position,
    ensures
        move_result(src, dst, text) == Ok::<Moved, Error>(
            Moved {
                text,
                src_start: src.first().start_byte as int,
                dst_start: src.first().start_byte as int,
            },
        ),
{
}

/// A move that the legality predicate refuses gives no text at all: it
/// ends with the reason of the refusal, whatever the blocks and the text.
pub proof fn lemma_refusal_gives_no_text(
    reason: String,
    src: Seq<SyntaxNode>,
    dst: Seq<SyntaxNode>,
    text: Seq<u8>,
)
    ensures
        judged_result(Err(reason), src, dst, text) == Err::<Moved, Error>(
            Error::IllegalMove(reason),
        ),
{
}

/// The separator is the longest of the gaps next to `dst`: it is one of
/// them, no other is longer, and there is none only where `dst` has no
/// named sibling.
pub proof fn lemma_separator_is_longest(dst: Seq<SyntaxNode>)
    ensures
        forall|i: int|
            0 <= i < 4 ==> (#[trigger] separator_candidates(dst)[i] matches Some(gap)
                ==> separator_span(dst) is Some && gap.size() <= separator_span(dst)->0.size()),
        separator_span(dst) is Some ==> exists|i: int|
            0 <= i < 4 && #[trigger] separator_candidates(dst)[i] == separator_span(dst),
{
    let c = separator_candidates(dst);
    let best = separator_span(dst);
    if best is Some {
        if best == c[3] {
        } else if best == c[2] {
        } else if best == c[1] {
        } else {
            assert(best == c[0]);
        }
    }
}

/// What is deleted with `src` holds the whole block, where the siblings of
/// the block lie around it.
pub proof fn lemma_deletion_holds_block(src: Seq<SyntaxNode>)
    requires
        src.first().prev_sibling_end matches Some(p) ==> p <= src.first().start_byte,
        src.last().next_sibling_start matches Some(n) ==> src.last().end_byte <= n,
    ensures
        deletion_span(src).start <= src.first().start_byte,
        src.last().end_byte <= deletion_span(src).end,
        deletion_span(src).start == src.first().start_byte || deletion_span(src).end
            == src.last().end_byte,
{
}

/// After a move that succeeds, the text holds the separator and right
/// after it the text of `src`, unchanged, at the offset that the move
/// reports for `src`; and the text has changed in length by what was
/// deleted and inserted.
pub proof fn lemma_moved_block_is_placed(src: Seq<SyntaxNode>, dst: Seq<SyntaxNode>, text: Seq<u8>)
    requires
        move_result(src, dst, text) is Ok,
        src.first().start_position != dst.first().start_position,
    ensures
        ({
            let moved = move_result(src, dst, text)->Ok_0;
            let body = text.subrange(src.first().start_byte as int, src.last().end_byte as int);
            let sep = separator(dst, text);
            &&& 0 <= moved.src_start - sep.len()
            &&& moved.src_start + body.len() <= moved.text.len()
            &&& moved.text.subrange(moved.src_start - sep.len(), moved.src_start) == sep
            &&& moved.text.subrange(moved.src_start, moved.src_start + body.len()) == body
            &&& moved.text.len() == text.len() - deletion_span(src).size() + sep.len()
                + body.len()
        }),
{
    let moved = move_result(src, dst, text)->Ok_0;
    let body = text.subrange(src.first().start_byte as int, src.last().end_byte as int);
    let sep = separator(dst, text);
    let cut = deletion_span(src);
    let at = dst.last().end_byte as int;
    lemma_separator_is_longest(dst);
    assert(moved.text == moved_text(src, dst, text));
    if moves_down(src, dst) {
        let front = text.subrange(0, cut.start as int) + text.subrange(cut.end as int, at);
        assert(moved.text =~= front + sep + body + text.subrange(at, text.len() as int));
        assert(moved.src_start == front.len() + sep.len());
        assert(moved.text.subrange(moved.src_start - sep.len(), moved.src_start) =~= sep);
        assert(moved.text.subrange(moved.src_start, moved.src_start + body.len()) =~= body);
    } else {
        let front = text.subrange(0, at);
        assert(moved.src_start == front.len() + sep.len());
        assert(moved.text.subrange(moved.src_start - sep.len(), moved.src_start) =~= sep);
        assert(moved.text.subrange(moved.src_start, moved.src_start + body.len()) =~= body);
    }
}

/// After a move that succeeds between two blocks of which neither holds
/// the other, the text of `dst` stands unchanged at the offset that the
/// move reports for `dst`, and the separator follows it at once: `dst`,
/// the separator and `src` lie side by side.
pub proof fn lemma_destination_is_kept(src: Seq<SyntaxNode>, dst: Seq<SyntaxNode>, text: Seq<u8>)
    requires
        move_result(src, dst, text) is Ok,
        src.first().start_position != dst.first().start_position,
        dst.first().start_byte <= dst.last().end_byte,
        moves_down(src, dst) ==> src.first().start_byte < dst.first().start_byte,
    ensures
        ({
            let moved = move_result(src, dst, text)->Ok_0;
            let kept = text.subrange(dst.first().start_byte as int, dst.last().end_byte as int);
            let sep = separator(dst, text);
            &&& 0 <= moved.dst_start
            &&& moved.dst_start + kept.len() + sep.len() == moved.src_start
            &&& moved.text.subrange(moved.dst_start, moved.dst_start + kept.len()) == kept
        }),
{
    let moved = move_result(src, dst, text)->Ok_0;
    let kept = text.subrange(dst.first().start_byte as int, dst.last().end_byte as int);
    let sep = separator(dst, text);
    let cut = deletion_span(src);
    let at = dst.last().end_byte as int;
    lemma_separator_is_longest(dst);
    lemma_moved_block_is_placed(src, dst, text);
    assert(moved.text == moved_text(src, dst, text));
    assert(moved.text.subrange(moved.dst_start, moved.dst_start + kept.len()) =~= kept);
}

/// `src` lies before `dst`: it starts and ends its head before `dst` does,
/// and what is deleted with it ends where `dst` starts or before.
pub open spec fn lies_before(src: Seq<SyntaxNode>, dst: Seq<SyntaxNode>) -> bool {
    &&& moves_down(src, dst)
    &&& src.first().start_byte < dst.first().start_byte
    &&& deletion_span(src).end <= dst.first().start_byte
    &&& dst.first().start_byte <= dst.last().end_byte
}

/// `src` lies after `dst`: its head ends after the head of `dst`, and what
/// is deleted with it starts where `dst` ends or after.
pub open spec fn lies_after(src: Seq<SyntaxNode>, dst: Seq<SyntaxNode>) -> bool {
    &&& !moves_down(src, dst)
    &&& dst.last().end_byte <= deletion_span(src).start
    &&& dst.first().start_byte <= dst.last().end_byte
}

/// A move between two blocks that lie apart, with all offsets in the text,
/// succeeds. `dst`, the separator and `src` then stand side by side,
/// each with its text unchanged: `dst` at its old offset less what was
/// deleted before it, `src` after the end of `dst` and the separator.
pub proof fn lemma_move_of_blocks_apart(src: Seq<SyntaxNode>, dst: Seq<SyntaxNode>, text: Seq<u8>)
    requires
        src.first().start_position != dst.first().start_position,
        spans_in_text(src, dst, text),
        lies_before(src, dst) || lies_after(src, dst),
    ensures
        move_result(src, dst, text) is Ok,
        ({
            let moved = move_result(src, dst, text)->Ok_0;
            let body = text.subrange(src.first().start_byte as int, src.last().end_byte as int);
            let kept = text.subrange(dst.first().start_byte as int, dst.last().end_byte as int);
            let sep = separator(dst, text);
            let gone = if lies_before(src, dst) {
                deletion_span(src).size()
            } else {
                0
            };
            &&& moved.dst_start == dst.first().start_byte - gone
            &&& moved.src_start == dst.last().end_byte + sep.len() - gone
            &&& moved.src_start == moved.dst_start + kept.len() + sep.len()
            &&& moved.text.subrange(moved.dst_start, moved.dst_start + kept.len()) == kept
            &&& moved.text.subrange(moved.dst_start + kept.len(), moved.src_start) == sep
            &&& moved.text.subrange(moved.src_start, moved.src_start + body.len()) == body
        }),
{
    lemma_separator_is_longest(dst);
    lemma_moved_block_is_placed(src, dst, text);
    lemma_destination_is_kept(src, dst, text);
}

} // verus!
