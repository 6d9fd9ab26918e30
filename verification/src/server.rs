//! The two requests of the engine, from text and patterns to an answer:
//! the forest of a document, and the move of one block after another.

use vstd::prelude::*;
use vstd::string::*;
use vstd::utf8::*;
use crate::block::{forest_views, Block, BlockTree, BlockTreeView};
use crate::error::{Error, QuerySyntaxError, QuerySyntaxKind, Side};
use crate::forest::{get_query_subtrees, is_forest_of};
use crate::grammar::{
    compile_failure, ends_in_delimiter, is_name_byte, is_plain, language_accepted, new_parser,
    new_query, new_wide_query, parse, query_error_kind, query_error_message,
    query_error_position, query_failure, query_language, query_pattern, set_language,
    tree_language, tree_text, QueryFailure,
};
use crate::locate::{
    copy_item_at, forest_locations, lemma_located_is_exact, located, location_of, location_views,
    locations_of, BlockLocation, BlockLocationTree,
};
use crate::mover::{judged_result, move_block as move_blocks, move_result, Moved};
use crate::syntax::{Point, SyntaxNode};
use crate::text::{
    byte_len, lemma_encode_concat, lemma_single_byte_boundaries, lemma_single_byte_encoding,
    push_text, slice,
};

verus! {

/// The request for the forest of a document.
#[derive(Debug)]
pub struct GetSubtreesArgs {
    pub queries: Vec<String>,
    pub text: String,
    pub language: tree_sitter::Language,
}

/// The request to move the block at `src_block` after the block at `dst_block`.
#[derive(Debug)]
pub struct MoveBlockArgs<C> {
    pub queries: Vec<String>,
    pub text: String,
    pub language: tree_sitter::Language,
    pub src_block: BlockLocation,
    pub dst_block: BlockLocation,
    pub assert_move_legal_fn: Option<C>,
    pub force: bool,
}

/// The answer to a move: the edited text and where the two blocks start in it.
#[derive(Clone, Debug, PartialEq, Eq)]
pub struct MoveBlockResponse {
    pub text: String,
    pub new_src_start: usize,
    pub new_dst_start: usize,
}

/// A position counted from zero as one counted from one, as far as `usize` reaches.
pub open spec fn one_based(at: usize) -> usize {
    if at < usize::MAX {
        (at + 1) as usize
    } else {
        usize::MAX
    }
}

/// The error for a pattern that fails at the zero-based position `at`: it
/// names the line and the column counted from one.
pub fn syntax_error(at: Point, message: String, kind: QuerySyntaxKind) -> (error:
    QuerySyntaxError)
    ensures
        error == (QuerySyntaxError {
            line: one_based(at.row),
            column: one_based(at.column),
            message,
            kind,
        }),
{
    QuerySyntaxError {
        line: at.row.saturating_add(1),
        column: at.column.saturating_add(1),
        message,
        kind,
    }
}

/// The syntax tree of `text` in the grammar `language`; there is none
/// where the grammar is not accepted.
pub fn parse_text(language: tree_sitter::Language, text: &str) -> (r: Result<
    tree_sitter::Tree,
    Error,
>)
    ensures
        r is Ok <==> language_accepted(language),
        r matches Err(e) ==> e == Error::ParseFailure,
        r matches Ok(tree) ==> tree_language(tree) == language && tree_text(tree)
            == text.spec_bytes(),
{
    let mut parser = new_parser();
    match set_language(&mut parser, language) {
        Ok(_) => {},
        Err(_) => {
            return Err(Error::ParseFailure);
        },
    }
    match parse(&mut parser, text) {
        Some(tree) => Ok(tree),
        None => Err(Error::ParseFailure),
    }
}

/// The pattern as it is handed to the provider: as it is where it is empty
/// or ends in a character that ends every name, else with a line feed
/// after it.
pub open spec fn padded(source: Seq<char>) -> Seq<char> {
    if ends_in_delimiter(encode_utf8(source)) {
        source
    } else {
        source + seq!['\n']
    }
}

/// The pattern as it is handed to the provider.
pub fn pad_pattern(source: &str) -> (ready: String)
    ensures
        ready@ == padded(source@),
        ends_in_delimiter(encode_utf8(ready@)),
{
    let bytes = source.as_bytes();
    let mut ready = source.to_owned();
    if bytes.len() > 0 {
        let last = bytes[bytes.len() - 1];
        let in_name = (0x30 <= last && last <= 0x39) || (0x41 <= last && last <= 0x5a) || (0x61
            <= last && last <= 0x7a) || last == 0x5f || last == 0x2d || last >= 0x80;
        if in_name {
            ready.append("\n");
            proof {
                reveal_strlit("\n");
                assert("\n"@ =~= seq!['\n']);
                lemma_encode_concat(source@, seq!['\n']);
                lemma_single_byte_encoding('\n');
                assert(encode_utf8(ready@).last() == 0x0au8);
            }
        }
    }
    ready
}

/// The patterns of a request.
pub open spec fn patterns(sources: Seq<String>) -> Seq<Seq<char>> {
    Seq::new(sources.len(), |i: int| sources[i]@)
}

/// The number of line feeds in a text.
pub open spec fn line_feeds(source: Seq<u8>) -> nat
    decreases source.len(),
{
    if source.len() == 0 {
        0
    } else {
        line_feeds(source.drop_last()) + if source.last() == 0x0a {
            1nat
        } else {
            0nat
        }
    }
}

/// Where the last line of a text starts.
pub open spec fn last_line_start(source: Seq<u8>) -> int
    decreases source.len(),
{
    if source.len() == 0 {
        0
    } else if source.last() == 0x0a {
        source.len() as int
    } else {
        last_line_start(source.drop_last())
    }
}

/// The failure lies on the line that only the line feed after the pattern
/// makes: the provider came to the end of a pattern that ends too early.
pub open spec fn is_at_end(failure: QueryFailure, source: Seq<u8>) -> bool {
    !ends_in_delimiter(source) && failure.at.row == line_feeds(source) + 1
}

/// The excerpt for the end of a pattern: its last line, and a caret under
/// the place after it.
pub open spec fn end_excerpt(source: Seq<u8>) -> Seq<u8> {
    source.subrange(last_line_start(source), source.len() as int) + seq![0x0au8] + Seq::new(
        (source.len() - last_line_start(source)) as nat,
        |i: int| 0x20u8,
    ) + seq![0x5eu8]
}

/// The error names what the provider reports of the pattern, with line and
/// column counted from one. What it reports of the line after the pattern
/// is named at the end of the pattern's last line.
pub open spec fn reports(error: QuerySyntaxError, failure: QueryFailure, source: Seq<u8>) -> bool {
    if is_at_end(failure, source) {
        &&& error.line == line_feeds(source) + 1
        &&& error.column == one_based((source.len() - last_line_start(source)) as usize)
        &&& encode_utf8(error.message@) == end_excerpt(source)
        &&& error.kind == failure.kind
    } else {
        &&& error.line == one_based(failure.at.row)
        &&& error.column == one_based(failure.at.column)
        &&& error.message@ == failure.message
        &&& error.kind == failure.kind
    }
}

proof fn lemma_last_line(source: Seq<u8>)
    ensures
        0 <= last_line_start(source) <= source.len(),
        line_feeds(source) <= source.len(),
        last_line_start(source) > 0 ==> source[last_line_start(source) - 1] == 0x0a,
        source.len() > 0 && source.last() != 0x0a ==> line_feeds(source) < source.len(),
    decreases source.len(),
{
    if source.len() > 0 {
        lemma_last_line(source.drop_last());
    }
}

/// The error for what the provider reports of a pattern.
pub fn report_failure(source: &str, at: Point, message: String, kind: QuerySyntaxKind) -> (error:
    QuerySyntaxError)
    ensures
        reports(error, QueryFailure { at, message: message@, kind }, source.spec_bytes()),
{
    let bytes = source.as_bytes();
    let len = bytes.len();
    let mut feeds: usize = 0;
    let mut start: usize = 0;
    let mut i: usize = 0;
    while i < len
        invariant
            i <= len,
            len == bytes@.len(),
            feeds == line_feeds(bytes@.take(i as int)),
            start == last_line_start(bytes@.take(i as int)),
            feeds <= i,
            start <= i,
        decreases len - i,
    {
        assert(bytes@.take(i + 1).drop_last() =~= bytes@.take(i as int));
        if bytes[i] == 0x0a {
            feeds += 1;
            start = i + 1;
        }
        i += 1;
    }
    assert(bytes@.take(len as int) =~= bytes@);
    let padded = len > 0 && {
        let last = bytes[len - 1];
        (0x30 <= last && last <= 0x39) || (0x41 <= last && last <= 0x5a) || (0x61 <= last && last
            <= 0x7a) || last == 0x5f || last == 0x2d || last >= 0x80
    };
    proof {
        lemma_last_line(bytes@);
    }
    if padded && at.row == feeds + 1 {
        proof {
            encode_utf8_valid_utf8(source@);
            is_char_boundary_start_end_of_seq(bytes@);
            if start > 0 {
                lemma_single_byte_boundaries(bytes@, start - 1);
            }
            reveal_strlit("\n");
            reveal_strlit(" ");
            reveal_strlit("^");
            assert("\n"@ =~= seq!['\n']);
            assert(" "@ =~= seq![' ']);
            assert("^"@ =~= seq!['^']);
            lemma_single_byte_encoding('\n');
            lemma_single_byte_encoding(' ');
            lemma_single_byte_encoding('^');
        }
        let mut excerpt = String::new();
        assert(encode_utf8(excerpt@) =~= Seq::<u8>::empty());
        push_text(&mut excerpt, slice(source, start, len));
        push_text(&mut excerpt, "\n");
        let ghost head = encode_utf8(excerpt@);
        assert(head =~= bytes@.subrange(start as int, len as int) + seq![0x0au8]);
        let mut k: usize = 0;
        while k < len - start
            invariant
                start <= len,
                k <= len - start,
                " "@ == seq![' '],
                encode_utf8(seq![' ']) == seq![0x20u8],
                encode_utf8(excerpt@) == head + Seq::new(k as nat, |i: int| 0x20u8),
            decreases len - start - k,
        {
            push_text(&mut excerpt, " ");
            assert(encode_utf8(excerpt@) =~= head + Seq::new((k + 1) as nat, |i: int| 0x20u8));
            k += 1;
        }
        push_text(&mut excerpt, "^");
        assert(encode_utf8(excerpt@) =~= end_excerpt(bytes@));
        QuerySyntaxError {
            line: feeds + 1,
            column: (len - start).saturating_add(1),
            message: excerpt,
            kind,
        }
    } else {
        syntax_error(at, message, kind)
    }
}

/// The queries are those of the patterns, one for one, in the grammar.
pub open spec fn compiled_from(
    queries: Seq<tree_sitter::Query>,
    language: tree_sitter::Language,
    sources: Seq<Seq<char>>,
) -> bool {
    &&& queries.len() == sources.len()
    &&& forall|i: int|
        0 <= i < queries.len() ==> query_language(#[trigger] queries[i]) == language
            && query_pattern(queries[i]) == padded(sources[i])
}

/// The pattern, as it is handed to the provider, holds only characters
/// below 128. What the provider makes of such a pattern depends on the
/// grammar and the pattern alone; of another pattern it depends on the
/// character classes of the process as well.
pub open spec fn is_plain_pattern(source: Seq<char>) -> bool {
    is_plain(encode_utf8(padded(source)))
}

/// The pattern is not one that the provider is known to refuse: it is
/// plain and compiles, or it is not plain.
pub open spec fn passes(language: tree_sitter::Language, source: Seq<char>) -> bool {
    is_plain_pattern(source) ==> compile_failure(language, padded(source)) is None
}

/// The error is that of the pattern: for a plain pattern it names what
/// the provider reports of it; for another pattern it names what the
/// provider reported, whatever that was.
pub open spec fn fails_with(
    error: QuerySyntaxError,
    language: tree_sitter::Language,
    source: Seq<char>,
) -> bool {
    if is_plain_pattern(source) {
        compile_failure(language, padded(source)) matches Some(failure) && reports(
            error,
            failure,
            encode_utf8(source),
        )
    } else {
        exists|failure: QueryFailure| #[trigger] reports(error, failure, encode_utf8(source))
    }
}

/// The error is that of the first pattern that does not compile: every
/// pattern before it passes.
pub open spec fn is_pattern_error(
    e: Error,
    language: tree_sitter::Language,
    sources: Seq<Seq<char>>,
) -> bool {
    e matches Error::QuerySyntaxError(error) && exists|place: int|
        0 <= place < sources.len() && #[trigger] fails_with(error, language, sources[place])
            && forall|j: int| 0 <= j < place ==> passes(language, #[trigger] sources[j])
}

/// The answer is the error of the first pattern that does not compile.
pub open spec fn is_refusal<T>(
    r: Result<T, Error>,
    language: tree_sitter::Language,
    sources: Seq<Seq<char>>,
) -> bool {
    r matches Err(e) && is_pattern_error(e, language, sources)
}

/// Every pattern passes.
pub open spec fn all_pass(language: tree_sitter::Language, sources: Seq<Seq<char>>) -> bool {
    forall|i: int| 0 <= i < sources.len() ==> passes(language, #[trigger] sources[i])
}

/// Every pattern is plain.
pub open spec fn all_plain(sources: Seq<Seq<char>>) -> bool {
    forall|i: int| 0 <= i < sources.len() ==> is_plain_pattern(#[trigger] sources[i])
}

/// What compiling the patterns gives: the queries of all of them, or the
/// error of the first pattern that does not compile. Plain patterns that
/// all compile give their queries; a plain pattern that does not compile
/// gives an error.
pub open spec fn compiles_to(
    r: Result<Vec<tree_sitter::Query>, Error>,
    language: tree_sitter::Language,
    sources: Seq<Seq<char>>,
) -> bool {
    &&& match r {
        Ok(queries) => compiled_from(queries@, language, sources) && all_pass(language, sources),
        Err(e) => is_pattern_error(e, language, sources),
    }
    &&& all_plain(sources) && all_pass(language, sources) ==> r is Ok
}

/// Whether every byte of the text is a character below 128.
fn is_plain_text(text: &str) -> (b: bool)
    ensures
        b == is_plain(text.spec_bytes()),
{
    let bytes = text.as_bytes();
    let mut i: usize = 0;
    while i < bytes.len()
        invariant
            bytes@ == text.spec_bytes(),
            i <= bytes@.len(),
            forall|k: int| 0 <= k < i ==> #[trigger] bytes@[k] < 0x80,
        decreases bytes@.len() - i,
    {
        if bytes[i] >= 0x80 {
            assert(text.spec_bytes()[i as int] >= 0x80);
            return false;
        }
        i += 1;
    }
    true
}

/// The compiled patterns, or the error of the first pattern that does not
/// compile. No pattern after that one is looked at.
pub fn compile_queries(language: tree_sitter::Language, sources: &Vec<String>) -> (r: Result<
    Vec<tree_sitter::Query>,
    Error,
>)
    ensures
        compiles_to(r, language, patterns(sources@)),
{
    let mut queries: Vec<tree_sitter::Query> = Vec::new();
    let mut i: usize = 0;
    let ghost all = patterns(sources@);
    while i < sources.len()
        invariant
            i <= sources@.len(),
            all == patterns(sources@),
            queries@.len() == i,
            forall|k: int| 0 <= k < i ==> passes(language, #[trigger] all[k]),
            forall|k: int|
                0 <= k < i ==> query_language(#[trigger] queries@[k]) == language && query_pattern(
                    queries@[k],
                ) == padded(all[k]),
        decreases sources@.len() - i,
    {
        let ready = pad_pattern(sources[i].as_str());
        let compiled = if is_plain_text(ready.as_str()) {
            new_query(language, ready.as_str())
        } else {
            new_wide_query(language, ready.as_str())
        };
        match compiled {
            Ok(query) => {
                queries.push(query);
            },
            Err(error) => {
                let ghost named = query_failure(error);
                let at = query_error_position(&error);
                let kind = query_error_kind(&error);
                let message = query_error_message(error);
                let ghost said = message@;
                let reported = report_failure(sources[i].as_str(), at, message, kind);
                proof {
                    let failure = QueryFailure { at, message: said, kind };
                    assert(reports(reported, failure, encode_utf8(all[i as int])));
                    assert(failure == named);
                    assert(fails_with(reported, language, all[i as int]));
                    assert(!passes(language, all[i as int]) || !is_plain_pattern(all[i as int]));
                }
                return Err(Error::QuerySyntaxError(reported));
            },
        }
        i += 1;
    }
    Ok(queries)
}

/// The coordinates of a forest, tree by tree.
pub fn locate_forest(trees: &Vec<BlockTree>) -> (located: Vec<BlockLocationTree>)
    ensures
        location_views(located@) == forest_locations(forest_views(trees@)),
{
    let mut located: Vec<BlockLocationTree> = Vec::new();
    let mut i: usize = 0;
    while i < trees.len()
        invariant
            i <= trees@.len(),
            located@.len() == i,
            forall|j: int| 0 <= j < i ==> (#[trigger] located@[j])@ == locations_of(trees@[j]@),
        decreases trees@.len() - i,
    {
        located.push(BlockLocationTree::from(&trees[i]));
        i += 1;
    }
    assert(location_views(located@) =~= forest_locations(forest_views(trees@)));
    located
}

/// The forest is that of a request: of the blocks that the patterns,
/// compiled in the grammar, match in a tree that the grammar gives for the
/// text.
pub open spec fn is_request_forest(
    forest: Seq<BlockTreeView>,
    language: tree_sitter::Language,
    sources: Seq<Seq<char>>,
    text: Seq<u8>,
) -> bool {
    exists|tree: tree_sitter::Tree, queries: Seq<tree_sitter::Query>|
        tree_language(tree) == language && tree_text(tree) == text && compiled_from(
            queries,
            language,
            sources,
        ) && #[trigger] is_forest_of(forest, queries, tree, text)
}

/// The answer is the forest of the request as coordinates, or the failure
/// to parse where the grammar is not accepted.
pub open spec fn is_forest_answer(
    r: Result<Vec<BlockLocationTree>, Error>,
    language: tree_sitter::Language,
    sources: Seq<Seq<char>>,
    text: Seq<u8>,
) -> bool {
    if language_accepted(language) {
        r matches Ok(located) && exists|forest: Seq<BlockTreeView>|
            #[trigger] is_request_forest(forest, language, sources, text) && location_views(
                located@,
            ) == forest_locations(forest)
    } else {
        r == Err::<Vec<BlockLocationTree>, Error>(Error::ParseFailure)
    }
}

/// The forest of the blocks that the patterns match in the text, as coordinates.
///
/// Fails with [`Error::QuerySyntaxError`] for the first pattern that does
/// not compile, whatever the text is and before anything is parsed or
/// matched, and with [`Error::ParseFailure`] where the grammar is not
/// accepted.
pub fn get_subtrees(args: GetSubtreesArgs) -> (r: Result<Vec<BlockLocationTree>, Error>)
    ensures
        !all_pass(args.language, patterns(args.queries@)) ==> is_refusal(
            r,
            args.language,
            patterns(args.queries@),
        ),
        all_pass(args.language, patterns(args.queries@)) ==> is_refusal(
            r,
            args.language,
            patterns(args.queries@),
        ) || is_forest_answer(
            r,
            args.language,
            patterns(args.queries@),
            encode_utf8(args.text@),
        ),
        all_pass(args.language, patterns(args.queries@)) && all_plain(patterns(args.queries@))
            ==> is_forest_answer(
            r,
            args.language,
            patterns(args.queries@),
            encode_utf8(args.text@),
        ),
{
    let queries = match compile_queries(args.language, &args.queries) {
        Ok(queries) => queries,
        Err(e) => {
            return Err(e);
        },
    };
    let tree = match parse_text(args.language, args.text.as_str()) {
        Ok(tree) => tree,
        Err(e) => {
            return Err(e);
        },
    };
    let trees = get_query_subtrees(queries.as_slice(), &tree, args.text.as_str());
    assert(is_request_forest(
        forest_views(trees@),
        args.language,
        patterns(args.queries@),
        encode_utf8(args.text@),
    )) by {
        assert(is_forest_of(forest_views(trees@), queries@, tree, encode_utf8(args.text@)));
    }
    Ok(locate_forest(&trees))
}

/// The model of the answer to a move.
pub open spec fn response_view(r: Result<MoveBlockResponse, Error>) -> Result<Moved, Error> {
    match r {
        Ok(response) => Ok(
            Moved {
                text: encode_utf8(response.text@),
                src_start: response.new_src_start as int,
                dst_start: response.new_dst_start as int,
            },
        ),
        Err(e) => Err(e),
    }
}

/// The answer is the one that a move in the forest gives: the source is
/// looked up first, then the destination, and a coordinate that names no
/// block ends the move with [`Error::BlockNotFound`]; for two blocks that
/// are found the answer is that of the move engine.
pub open spec fn answers_move<C: Fn(&Block, &Block) -> Result<(), String>>(
    r: Result<MoveBlockResponse, Error>,
    forest: Seq<BlockTreeView>,
    text: Seq<u8>,
    src: BlockLocation,
    dst: BlockLocation,
    assert_move_legal_fn: Option<C>,
    force: bool,
) -> bool {
    match (located(forest, src), located(forest, dst)) {
        (None, _) => r == Err::<MoveBlockResponse, Error>(Error::BlockNotFound(Side::Source)),
        (Some(_), None) => r == Err::<MoveBlockResponse, Error>(
            Error::BlockNotFound(Side::Destination),
        ),
        (Some(s), Some(d)) => {
            &&& force || assert_move_legal_fn is None ==> response_view(r) == move_result(s, d, text)
            &&& !force ==> (assert_move_legal_fn matches Some(legal) ==> exists|
                src_block: Block,
                dst_block: Block,
                verdict: Result<(), String>,
            |
                src_block@ == s && dst_block@ == d && #[trigger] legal.ensures(
                    (&src_block, &dst_block),
                    verdict,
                ) && response_view(r) == judged_result(verdict, s, d, text))
        },
    }
}

/// Moves the block of the forest at `src` after the block at `dst`.
pub fn move_located<C: Fn(&Block, &Block) -> Result<(), String>>(
    trees: &Vec<BlockTree>,
    text: &str,
    src: &BlockLocation,
    dst: &BlockLocation,
    assert_move_legal_fn: Option<C>,
    force: bool,
) -> (r: Result<MoveBlockResponse, Error>)
    requires
        !force ==> (assert_move_legal_fn matches Some(legal) ==> forall|s: &Block, d: &Block|
            legal.requires((s, d))),
    ensures
        answers_move(
            r,
            forest_views(trees@),
            text.spec_bytes(),
            *src,
            *dst,
            assert_move_legal_fn,
            force,
        ),
{
    let src_block = match copy_item_at(src, trees) {
        Some(block) => block,
        None => {
            return Err(Error::BlockNotFound(Side::Source));
        },
    };
    let dst_block = match copy_item_at(dst, trees) {
        Some(block) => block,
        None => {
            return Err(Error::BlockNotFound(Side::Destination));
        },
    };
    let ghost s = src_block;
    let ghost d = dst_block;
    let ghost gate = assert_move_legal_fn;
    let moved = move_blocks(src_block, dst_block, text, assert_move_legal_fn, force);
    let r = match moved {
        Ok((text, new_src_start, new_dst_start)) => Ok(
            MoveBlockResponse { text, new_src_start, new_dst_start },
        ),
        Err(e) => Err(e),
    };
    proof {
        if !force {
            if let Some(legal) = gate {
                let verdict = choose|verdict: Result<(), String>|
                    #[trigger] legal.ensures((&s, &d), verdict) && crate::mover::moved_view(moved)
                        == judged_result(verdict, s@, d@, text.spec_bytes());
                assert(legal.ensures((&s, &d), verdict) && response_view(r) == judged_result(
                    verdict,
                    s@,
                    d@,
                    text.spec_bytes(),
                ));
            }
        }
    }
    r
}

/// The answer is that of a move in the forest of the request, or the
/// failure to parse where the grammar is not accepted.
pub open spec fn is_move_answer<C: Fn(&Block, &Block) -> Result<(), String>>(
    r: Result<MoveBlockResponse, Error>,
    args: MoveBlockArgs<C>,
) -> bool {
    if language_accepted(args.language) {
        exists|forest: Seq<BlockTreeView>|
            #[trigger] is_request_forest(
                forest,
                args.language,
                patterns(args.queries@),
                encode_utf8(args.text@),
            ) && answers_move(
                r,
                forest,
                encode_utf8(args.text@),
                args.src_block,
                args.dst_block,
                args.assert_move_legal_fn,
                args.force,
            )
    } else {
        r == Err::<MoveBlockResponse, Error>(Error::ParseFailure)
    }
}

/// Moves the block at `args.src_block` after the block at `args.dst_block`
/// in `args.text`, where both are blocks that the patterns match.
///
/// Fails with [`Error::QuerySyntaxError`] for the first pattern that does
/// not compile, whatever the text is and before anything is parsed or
/// matched, and with [`Error::ParseFailure`] where the grammar is not
/// accepted. Otherwise the answer is that of a move in the
/// forest of the blocks that the patterns match.
pub fn move_block<C: Fn(&Block, &Block) -> Result<(), String>>(args: MoveBlockArgs<C>) -> (r:
    Result<MoveBlockResponse, Error>)
    requires
        !args.force ==> (args.assert_move_legal_fn matches Some(legal) ==> forall|
            s: &Block,
            d: &Block,
        |
            legal.requires((s, d))),
    ensures
        !all_pass(args.language, patterns(args.queries@)) ==> is_refusal(
            r,
            args.language,
            patterns(args.queries@),
        ),
        all_pass(args.language, patterns(args.queries@)) ==> is_refusal(
            r,
            args.language,
            patterns(args.queries@),
        ) || is_move_answer(r, args),
        all_pass(args.language, patterns(args.queries@)) && all_plain(patterns(args.queries@))
            ==> is_move_answer(r, args),
        r matches Ok(response) ==> exists|s: Seq<SyntaxNode>, d: Seq<SyntaxNode>|
            location_of(s) == args.src_block && location_of(d) == args.dst_block
                && #[trigger] move_result(s, d, encode_utf8(args.text@)) == response_view(r),
        r matches Err(Error::IllegalMove(_)) ==> !args.force && args.assert_move_legal_fn is Some,
{
    let queries = match compile_queries(args.language, &args.queries) {
        Ok(queries) => queries,
        Err(e) => {
            return Err(e);
        },
    };
    let tree = match parse_text(args.language, args.text.as_str()) {
        Ok(tree) => tree,
        Err(e) => {
            return Err(e);
        },
    };
    let trees = get_query_subtrees(queries.as_slice(), &tree, args.text.as_str());
    let ghost gate = args.assert_move_legal_fn;
    let r = move_located(
        &trees,
        args.text.as_str(),
        &args.src_block,
        &args.dst_block,
        args.assert_move_legal_fn,
        args.force,
    );
    proof {
        let forest = forest_views(trees@);
        assert(is_request_forest(
            forest,
            args.language,
            patterns(args.queries@),
            encode_utf8(args.text@),
        )) by {
            assert(is_forest_of(forest, queries@, tree, encode_utf8(args.text@)));
        }
        assert(answers_move(
            r,
            forest,
            encode_utf8(args.text@),
            args.src_block,
            args.dst_block,
            gate,
            args.force,
        ));
        lemma_located_is_exact(forest, args.src_block);
        lemma_located_is_exact(forest, args.dst_block);
        if r is Ok {
            let s = located(forest, args.src_block)->0;
            let d = located(forest, args.dst_block)->0;
            assert(move_result(s, d, encode_utf8(args.text@)) == response_view(r));
        }
    }
    r
}

} // verus!
