use code_blocks::block::{Block, BlockTree};
use code_blocks::error::{Error, QuerySyntaxError, QuerySyntaxKind, Side};
use code_blocks::forest::get_query_subtrees;
use code_blocks::legality::assert_move_legal_fn;
use code_blocks::locate::{copy_item_at, BlockLocation, BlockLocationTree};
use code_blocks::matcher::{get_blocks, read_matches};
use code_blocks::reader::{describe, read_tree};
use code_blocks::server::{
    get_subtrees, move_block, GetSubtreesArgs, MoveBlockArgs, MoveBlockResponse,
};
use code_blocks::syntax::{Point, SyntaxNode, TreeNode};
use tree_sitter::{Language, Parser, Query};

fn tree(
    start_byte: usize,
    end_byte: usize,
    start: (usize, usize),
    end: (usize, usize),
    children: Vec<BlockLocationTree>,
) -> BlockLocationTree {
    BlockLocationTree {
        block: BlockLocation {
            start_byte,
            end_byte,
            start_row: start.0,
            start_col: start.1,
            end_row: end.0,
            end_col: end.1,
        },
        children,
    }
}

fn location(
    start_byte: usize,
    end_byte: usize,
    start: (usize, usize),
    end: (usize, usize),
) -> BlockLocation {
    tree(start_byte, end_byte, start, end, vec![]).block
}

fn function_query() -> Vec<String> {
    vec!["(function_item) @ident".to_string()]
}

const TWO_FUNCTIONS: &str = "fn main() {}\nfn foo() {}";

fn main_location() -> BlockLocation {
    location(0, 12, (0, 0), (0, 12))
}

fn foo_location() -> BlockLocation {
    location(13, 24, (1, 0), (1, 11))
}

fn move_functions(
    queries: Vec<String>,
    text: &str,
    src_block: BlockLocation,
    dst_block: BlockLocation,
) -> Result<MoveBlockResponse, Error> {
    move_block(MoveBlockArgs {
        queries,
        text: text.to_string(),
        language: tree_sitter_rust::language(),
        src_block,
        dst_block,
        assert_move_legal_fn: Some(assert_move_legal_fn),
        force: false,
    })
}

#[test]
fn code_blocks_cli_show_get_subtrees_response() {
    let forest = get_subtrees(GetSubtreesArgs {
        queries: function_query(),
        text: TWO_FUNCTIONS.to_string(),
        language: tree_sitter_rust::language(),
    })
    .unwrap();

    assert_eq!(
        forest,
        vec![
            tree(0, 12, (0, 0), (0, 12), vec![]),
            tree(13, 24, (1, 0), (1, 11), vec![]),
        ]
    );
}

#[test]
fn code_blocks_rest_show_get_subtrees_response() {
    assert_eq!(
        get_subtrees(GetSubtreesArgs {
            queries: function_query(),
            text: TWO_FUNCTIONS.to_string(),
            language: tree_sitter_rust::language(),
        }),
        Ok(vec![
            tree(0, 12, (0, 0), (0, 12), vec![]),
            tree(13, 24, (1, 0), (1, 11), vec![]),
        ])
    );

    assert_eq!(
        get_subtrees(GetSubtreesArgs {
            queries: vec!["bad query".to_string()],
            text: TWO_FUNCTIONS.to_string(),
            language: tree_sitter_rust::language(),
        }),
        Err(Error::QuerySyntaxError(QuerySyntaxError {
            line: 1,
            column: 1,
            message: "bad query\n^".to_string(),
            kind: QuerySyntaxKind::Syntax,
        }))
    );

    assert_eq!(
        get_subtrees(GetSubtreesArgs {
            queries: function_query(),
            text: "bad text".to_string(),
            language: tree_sitter_rust::language(),
        }),
        Ok(vec![])
    );
}

#[test]
fn code_blocks_cli_show_move_block_response() {
    let response =
        move_functions(function_query(), TWO_FUNCTIONS, main_location(), foo_location()).unwrap();

    assert_eq!(response.text, "fn foo() {}\nfn main() {}");
    assert_eq!(response.new_src_start, 12);
    assert_eq!(response.new_dst_start, 0);
}

#[test]
fn code_blocks_rest_show_move_block_response() {
    assert_eq!(
        move_functions(function_query(), TWO_FUNCTIONS, main_location(), foo_location())
            .map(|response| response.text),
        Ok("fn foo() {}\nfn main() {}".to_string())
    );

    assert_eq!(
        move_functions(
            vec!["bad query".to_string()],
            TWO_FUNCTIONS,
            main_location(),
            foo_location()
        ),
        Err(Error::QuerySyntaxError(QuerySyntaxError {
            line: 1,
            column: 1,
            message: "bad query\n^".to_string(),
            kind: QuerySyntaxKind::Syntax,
        }))
    );

    assert_eq!(
        move_functions(function_query(), "bad text", main_location(), foo_location()),
        Err(Error::BlockNotFound(Side::Source))
    );

    let mut far_src = main_location();
    far_src.start_byte = 99999999;
    assert_eq!(
        move_functions(function_query(), "bad text", far_src, foo_location()),
        Err(Error::BlockNotFound(Side::Source))
    );

    let mut far_dst = foo_location();
    far_dst.start_byte = 99999999;
    assert_eq!(
        move_functions(function_query(), TWO_FUNCTIONS, main_location(), far_dst),
        Err(Error::BlockNotFound(Side::Destination))
    );
}

#[test]
fn errors_are_described_in_words() {
    let bad_query = get_subtrees(GetSubtreesArgs {
        queries: vec!["bad query".to_string()],
        text: TWO_FUNCTIONS.to_string(),
        language: tree_sitter_rust::language(),
    })
    .unwrap_err();
    assert_eq!(
        bad_query.describe(),
        "Query error at 1:1. Invalid syntax:\nbad query\n^"
    );

    let unknown_node = get_subtrees(GetSubtreesArgs {
        queries: vec!["(function_item) @item\n\n\n\n\n\n\n\n\n(function_item\n   body: (nothing))".to_string()],
        text: TWO_FUNCTIONS.to_string(),
        language: tree_sitter_rust::language(),
    })
    .unwrap_err();
    assert_eq!(
        unknown_node.describe(),
        "Query error at 11:11. Invalid node type nothing"
    );

    let mut far_src = main_location();
    far_src.start_byte = 99999999;
    assert_eq!(
        move_functions(function_query(), "bad text", far_src, foo_location())
            .unwrap_err()
            .describe(),
        "Failed to find src item"
    );
    let mut far_dst = foo_location();
    far_dst.start_byte = 99999999;
    assert_eq!(
        move_functions(function_query(), TWO_FUNCTIONS, main_location(), far_dst)
            .unwrap_err()
            .describe(),
        "Failed to find dst item"
    );
}

#[test]
fn malformed_query_fails_before_any_block_is_looked_up() {
    // Both coordinates name no block, yet the pattern is what is reported.
    let nowhere = location(999999, 999999, (999999, 0), (999999, 0));
    let failed = move_functions(
        vec!["(function_item) @ident".to_string(), "bad query".to_string()],
        TWO_FUNCTIONS,
        nowhere,
        nowhere,
    );
    match failed {
        Err(Error::QuerySyntaxError(error)) => {
            assert_eq!((error.line, error.column), (1, 1));
        }
        other => panic!("unexpected answer: {:?}", other),
    }
}

#[test]
fn query_error_names_line_and_column_from_one() {
    let failed = get_subtrees(GetSubtreesArgs {
        queries: vec!["(function_item) @item\n  (no_such_node) @item".to_string()],
        text: TWO_FUNCTIONS.to_string(),
        language: tree_sitter_rust::language(),
    });
    assert_eq!(
        failed,
        Err(Error::QuerySyntaxError(QuerySyntaxError {
            line: 2,
            column: 4,
            message: "no_such_node".to_string(),
            kind: QuerySyntaxKind::NodeType,
        }))
    );
}

#[test]
fn coordinate_outside_document_is_never_matched() {
    let far = location(999999, 999999, (0, 0), (0, 12));
    assert_eq!(
        move_functions(function_query(), TWO_FUNCTIONS, far, foo_location()),
        Err(Error::BlockNotFound(Side::Source))
    );
    assert_eq!(
        move_functions(function_query(), TWO_FUNCTIONS, main_location(), far),
        Err(Error::BlockNotFound(Side::Destination))
    );

    // One field off is no match either: there is no nearest block.
    let mut near = main_location();
    near.end_col = 11;
    assert_eq!(
        move_functions(function_query(), TWO_FUNCTIONS, near, foo_location()),
        Err(Error::BlockNotFound(Side::Source))
    );
}

#[test]
fn last_item_without_gap_gets_no_separator() {
    let text = "fn a() {}fn b() {}";
    let moved = move_functions(
        function_query(),
        text,
        location(0, 9, (0, 0), (0, 9)),
        location(9, 18, (0, 9), (0, 18)),
    );
    assert_eq!(
        moved,
        Ok(MoveBlockResponse {
            text: "fn b() {}fn a() {}".to_string(),
            new_src_start: 9,
            new_dst_start: 0,
        })
    );
}

#[test]
fn move_into_other_scope_is_illegal_and_leaves_text() {
    let text = "mod m {\n    fn foo() {}\n}\n\nfn baz() {}\n";
    let queries = vec![
        "(function_item) @item".to_string(),
        "(mod_item) @item".to_string(),
    ];
    let args = MoveBlockArgs {
        queries,
        text: text.to_string(),
        language: tree_sitter_rust::language(),
        src_block: location(12, 23, (1, 4), (1, 15)),
        dst_block: location(27, 38, (4, 0), (4, 11)),
        assert_move_legal_fn: Some(assert_move_legal_fn),
        force: false,
    };
    assert_eq!(
        move_block(args),
        Err(Error::IllegalMove(
            "Can't move block to different scope".to_string()
        ))
    );
    assert_eq!(text, "mod m {\n    fn foo() {}\n}\n\nfn baz() {}\n");
}

fn refuse(_src: &Block, _dst: &Block) -> Result<(), String> {
    panic!("the legality predicate was called");
}

#[test]
fn forced_move_does_not_ask_the_predicate() {
    let text = "mod m {\n    fn foo() {}\n}\n\nfn baz() {}\n";
    let moved = move_block(MoveBlockArgs {
        queries: vec![
            "(function_item) @item".to_string(),
            "(mod_item) @item".to_string(),
        ],
        text: text.to_string(),
        language: tree_sitter_rust::language(),
        src_block: location(12, 23, (1, 4), (1, 15)),
        dst_block: location(27, 38, (4, 0), (4, 11)),
        assert_move_legal_fn: Some(refuse),
        force: true,
    });
    assert_eq!(
        moved,
        Ok(MoveBlockResponse {
            text: "mod m {\n}\n\nfn baz() {}\n\nfn foo() {}\n".to_string(),
            new_src_start: 24,
            new_dst_start: 11,
        })
    );
}

fn parse(text: &str, language: Language) -> tree_sitter::Tree {
    let mut parser = Parser::new();
    parser.set_language(language).unwrap();
    parser.parse(text, None).unwrap()
}

fn extract(text: &str, language: Language, sources: &[&str]) -> Vec<BlockTree> {
    let tree = parse(text, language);
    let queries: Vec<Query> = sources
        .iter()
        .map(|source| Query::new(language, source).unwrap())
        .collect();
    get_query_subtrees(&queries, &tree, text)
}

fn block_starting_at(start_byte: usize, trees: &Vec<BlockTree>) -> Option<Block> {
    for tree in trees {
        if tree.block.head().start_byte == start_byte {
            return Some(tree.block.clone());
        }
        if let Some(block) = block_starting_at(start_byte, &tree.children) {
            return Some(block);
        }
    }
    None
}

#[test]
fn moved_block_is_found_again_next_to_its_destination() {
    let text = "fn one() {}\n\nfn two() {}\n\nfn three() {}\n";
    let language = tree_sitter_rust::language();
    let before = extract(text, language, &["(function_item) @item"]);
    let src = before[0].block.clone();
    let dst = before[2].block.clone();
    let src_text = text[src.byte_range()].to_string();
    let dst_text = text[dst.byte_range()].to_string();

    let response = move_block(MoveBlockArgs {
        queries: vec!["(function_item) @item".to_string()],
        text: text.to_string(),
        language,
        src_block: BlockLocation::from(&src),
        dst_block: BlockLocation::from(&dst),
        assert_move_legal_fn: Some(assert_move_legal_fn),
        force: false,
    })
    .unwrap();
    assert_eq!(response.text, "fn two() {}\n\nfn three() {}\n\nfn one() {}\n");

    let after = extract(&response.text, language, &["(function_item) @item"]);
    let moved = block_starting_at(response.new_src_start, &after).unwrap();
    let kept = block_starting_at(response.new_dst_start, &after).unwrap();
    assert_eq!(&response.text[moved.byte_range()], src_text);
    assert_eq!(&response.text[kept.byte_range()], dst_text);
    assert_eq!(
        &response.text[kept.byte_range().end..moved.byte_range().start],
        "\n\n"
    );
    assert_eq!(
        copy_item_at(&BlockLocation::from(&moved), &after),
        Some(moved)
    );
}

fn rust_queries() -> Vec<String> {
    [
        "function_item",
        "mod_item",
        "struct_item",
        "impl_item",
    ]
    .iter()
    .map(|kind| {
        format!(
            "(([(attribute_item) (line_comment)] @header . [(attribute_item) (line_comment)]* @header)? . ({}) @item)",
            kind
        )
    })
    .collect()
}

#[test]
fn test_get_subtrees() {
    assert_eq!(
        get_subtrees(GetSubtreesArgs {
            queries: rust_queries(),
            language: tree_sitter_rust::language(),
            text: r#"
mod m {
    fn foo() {}
    fn baz() {}
}

#[cfg(test)]
mod m {
    /// comment 1
    #[test]
    fn foo() {}

    #[test]
    #[ignore]
    /// comment 2
    fn baz() {}
}
            "#
            .to_string()
        }),
        Ok(vec![
            tree(
                1,
                42,
                (1, 0),
                (4, 1),
                vec![
                    tree(13, 24, (2, 4), (2, 15), vec![]),
                    tree(29, 40, (3, 4), (3, 15), vec![]),
                ]
            ),
            tree(
                44,
                173,
                (6, 0),
                (16, 1),
                vec![
                    tree(69, 110, (8, 4), (10, 15), vec![]),
                    tree(116, 171, (12, 4), (15, 15), vec![]),
                ]
            ),
        ])
    );

    assert_eq!(
        get_subtrees(GetSubtreesArgs {
            queries: vec![
                "( (comment)* @header . (class_declaration) @item)".to_string(),
                "( (comment)* @header . (method_definition) @item)".to_string(),
                "( (comment)* @header . (function_declaration) @item)".to_string(),
                "( (comment)* @header . (export_statement) @item)".to_string(),
            ],
            language: tree_sitter_typescript::language_typescript(),
            text: r#"
class TsClass {
    constructor() {}

    foo() {}

    /**
    * bar docs
    */
    bar() {}
}

export function baz() {}

export default function baz2() {}
            "#
            .to_string()
        }),
        Ok(vec![
            tree(
                1,
                97,
                (1, 0),
                (10, 1),
                vec![
                    tree(21, 37, (2, 4), (2, 20), vec![]),
                    tree(43, 51, (4, 4), (4, 12), vec![]),
                    tree(57, 95, (6, 4), (9, 12), vec![]),
                ]
            ),
            tree(
                99,
                123,
                (12, 0),
                (12, 24),
                vec![tree(106, 123, (12, 7), (12, 24), vec![])]
            ),
            tree(
                125,
                158,
                (14, 0),
                (14, 33),
                vec![tree(140, 158, (14, 15), (14, 33), vec![])]
            ),
        ])
    );

    assert_eq!(
        get_subtrees(GetSubtreesArgs {
            queries: vec![
                "(class_definition) @item".to_string(),
                "(function_definition) @item".to_string(),
                "(decorated_definition) @item".to_string(),
            ],
            language: tree_sitter_python::language(),
            text: r#"
        @decor1
        @decor2
        class A:
            ...
           
        class C:
            """class docstring"""
        
            def __init__(self):
                pass
        
            #Vsrc
            @staticmethod()
            def foo():
                """method docstring"""
                
            #Vdst
            def bar():
                ...
                
        def func():
            ...
            "#
            .to_string()
        }),
        Ok(vec![
            tree(
                9,
                65,
                (1, 8),
                (4, 15),
                vec![tree(41, 65, (3, 8), (4, 15), vec![])]
            ),
            tree(
                86,
                385,
                (6, 8),
                (19, 19),
                vec![
                    tree(150, 190, (9, 12), (10, 20), vec![]),
                    tree(
                        230,
                        307,
                        (13, 12),
                        (15, 38),
                        vec![tree(258, 307, (14, 12), (15, 38), vec![])]
                    ),
                    tree(355, 385, (18, 12), (19, 19), vec![]),
                ]
            ),
            tree(411, 438, (21, 8), (22, 15), vec![]),
        ])
    );
}

fn block_texts(subtree: &BlockTree, blocks: &mut Vec<String>, text: &str) {
    blocks.push(text[subtree.block.byte_range()].to_string());
    for child in &subtree.children {
        block_texts(child, blocks, text);
    }
}

fn all_block_texts(text: &str, language: Language, sources: &[&str]) -> Vec<String> {
    let mut blocks = vec![];
    for t in &extract(text, language, sources) {
        block_texts(t, &mut blocks, text);
    }
    blocks
}

#[test]
fn main_test_get_query_subtrees() {
    let text = r#"
    @decor1
    @decor2
    class A:
        ...
       
    class C:
        """class docstring"""
    
        def __init__(self):
            pass
    
        @staticmethod()
        def foo():
            """method docstring"""
            
        def bar():
            ...
            
    def func():
        ...
        
    a = lambda: 5
    
"#;
    assert_eq!(
        all_block_texts(
            text,
            tree_sitter_python::language(),
            &[
                "(class_definition) @item",
                "(function_definition) @item",
                "(decorated_definition) @item",
            ]
        ),
        vec![
            "@decor1\n    @decor2\n    class A:\n        ...",
            "class A:\n        ...",
            "class C:\n        \"\"\"class docstring\"\"\"\n    \n        def __init__(self):\n            pass\n    \n        @staticmethod()\n        def foo():\n            \"\"\"method docstring\"\"\"\n            \n        def bar():\n            ...",
            "def __init__(self):\n            pass",
            "@staticmethod()\n        def foo():\n            \"\"\"method docstring\"\"\"",
            "def foo():\n            \"\"\"method docstring\"\"\"",
            "def bar():\n            ...",
            "def func():\n        ...",
        ]
    );
}

#[test]
fn tsx_test_get_query_subtrees() {
    let text = r#"
    export default function App() {
      return (
          <div>
            <button className="card" onClick={readFile}>
              Choose file
            </button>
            <button className="card" onClick={() => writeFile(filePath, content)}>
              Write file
            </button>
          </div>
      );
    }
"#;
    let first = "<button className=\"card\" onClick={readFile}>\n              Choose file\n            </button>";
    let second = "<button className=\"card\" onClick={() => writeFile(filePath, content)}>\n              Write file\n            </button>";
    let div = format!(
        "<div>\n            {}\n            {}\n          </div>",
        first, second
    );
    let function = format!(
        "function App() {{\n      return (\n          {}\n      );\n    }}",
        div
    );
    assert_eq!(
        all_block_texts(
            text,
            tree_sitter_typescript::language_tsx(),
            &[
                "( (comment)* @header . (class_declaration) @item)",
                "( (comment)* @header . (method_definition) @item)",
                "( (comment)* @header . (function_declaration) @item)",
                "( (comment)* @header . (export_statement) @item)",
                "(jsx_element) @item",
                "(jsx_self_closing_element) @item",
            ]
        ),
        vec![
            format!("export default {}", function),
            function,
            div,
            first.to_string(),
            second.to_string(),
        ]
    );
}

#[test]
fn rust_test_get_query_subtrees() {
    let text = r#"
mod stuff {
    #[derive(Debug)]
    /// struct doc
    struct A {

    }

    /// docs
    pub fn foo() { }
}

#[cfg(test)]
mod tests {
    use super::*;

    /// test foo
    #[test]
    /// very long test
    #[ignore]
    fn test_foo() {
        stuff::foo();
    }
}
"#;
    let sources = rust_queries();
    let sources: Vec<&str> = sources.iter().map(|source| source.as_str()).collect();
    assert_eq!(
        all_block_texts(text, tree_sitter_rust::language(), &sources),
        vec![
            "mod stuff {\n    #[derive(Debug)]\n    /// struct doc\n    struct A {\n\n    }\n\n    /// docs\n    pub fn foo() { }\n}",
            "#[derive(Debug)]\n    /// struct doc\n    struct A {\n\n    }",
            "/// docs\n    pub fn foo() { }",
            "#[cfg(test)]\nmod tests {\n    use super::*;\n\n    /// test foo\n    #[test]\n    /// very long test\n    #[ignore]\n    fn test_foo() {\n        stuff::foo();\n    }\n}",
            "/// test foo\n    #[test]\n    /// very long test\n    #[ignore]\n    fn test_foo() {\n        stuff::foo();\n    }",
        ]
    );
}

#[test]
fn tree_is_read_in_document_order() {
    let tree = parse("fn a() {}\nfn b() {}", tree_sitter_rust::language());
    let read = read_tree(&tree);
    // The file, and for each function: the item, `fn`, the name, the
    // parameters with two parentheses, the body with two braces.
    assert_eq!(read.len(), 19);

    let root = tree.root_node();
    let first = root.child(0).unwrap();
    let second = root.child(1).unwrap();
    assert_eq!(
        read.node(0),
        TreeNode { id: root.id(), first_child: Some(1), next_sibling: None }
    );
    assert_eq!(
        read.node(1),
        TreeNode { id: first.id(), first_child: Some(2), next_sibling: Some(10) }
    );
    assert_eq!(
        read.node(10),
        TreeNode { id: second.id(), first_child: Some(11), next_sibling: None }
    );
    assert_eq!(
        read.node(2),
        TreeNode { id: first.child(0).unwrap().id(), first_child: None, next_sibling: Some(3) }
    );
    assert_eq!(read.node(18).first_child, None);
    assert_eq!(read.node(18).next_sibling, None);
}

#[test]
fn node_is_described_with_its_neighbours() {
    let tree = parse("fn a() {} // c\nfn b() {}", tree_sitter_rust::language());
    let root = tree.root_node();
    assert_eq!(
        describe(&root),
        SyntaxNode::new(root.id(), 0, 24, Point::new(0, 0), Point::new(1, 9))
    );
    let first = root.child(0).unwrap();
    let comment = root.child(1).unwrap();
    let second = root.child(2).unwrap();
    assert_eq!(
        describe(&comment),
        SyntaxNode {
            id: comment.id(),
            start_byte: 10,
            end_byte: 14,
            start_position: Point::new(0, 10),
            end_position: Point::new(0, 14),
            parent: Some(root.id()),
            prev_sibling_end: Some(9),
            next_sibling_start: Some(15),
            prev_named_sibling_end: Some(9),
            next_named_sibling_start: Some(15),
        }
    );
    let name = second.child(1).unwrap();
    assert_eq!(
        describe(&name),
        SyntaxNode {
            id: name.id(),
            start_byte: 18,
            end_byte: 19,
            start_position: Point::new(1, 3),
            end_position: Point::new(1, 4),
            parent: Some(second.id()),
            prev_sibling_end: Some(17),
            next_sibling_start: Some(19),
            prev_named_sibling_end: None,
            next_named_sibling_start: Some(19),
        }
    );
    assert_eq!(describe(&first).next_sibling_start, Some(10));
}

#[test]
fn captures_are_read_match_by_match() {
    let text = "/// a\nfn a() {}\nfn b() {}";
    let language = tree_sitter_rust::language();
    let tree = parse(text, language);
    let query = Query::new(language, "((line_comment)? @header . (function_item) @item)").unwrap();
    let stream = read_matches(&query, &tree, text);
    let starts: Vec<Vec<(u32, usize)>> = stream
        .iter()
        .filter(|item| item.reached == 0)
        .map(|item| {
            item.captures
                .iter()
                .map(|capture| (capture.index, capture.node.start_byte))
                .collect()
        })
        .collect();
    assert_eq!(starts, vec![vec![(0, 0), (1, 6)], vec![(1, 16)]]);

    let blocks = get_blocks(std::slice::from_ref(&query), &tree, text);
    let spans: Vec<_> = blocks.iter().map(|block| block.byte_range()).collect();
    assert_eq!(spans, vec![0..15, 16..25]);
    assert_eq!(get_blocks(&[], &tree, text), vec![]);
}

#[test]
fn node_without_children_can_be_a_block() {
    let text = "// one\nfn a() {}\n// two\n";
    assert_eq!(
        all_block_texts(
            text,
            tree_sitter_rust::language(),
            &["(line_comment) @item", "(function_item) @item", "(identifier) @item"]
        ),
        vec!["// one", "fn a() {}", "a", "// two"]
    );
}

fn query_failure(pattern: &str) -> QuerySyntaxError {
    match get_subtrees(GetSubtreesArgs {
        queries: vec![pattern.to_string()],
        text: TWO_FUNCTIONS.to_string(),
        language: tree_sitter_rust::language(),
    }) {
        Err(Error::QuerySyntaxError(error)) => error,
        other => panic!("unexpected answer: {:?}", other),
    }
}

#[test]
fn pattern_that_ends_inside_a_name_is_reported() {
    assert_eq!(
        query_failure("(foo"),
        QuerySyntaxError {
            line: 1,
            column: 2,
            message: "foo".to_string(),
            kind: QuerySyntaxKind::NodeType,
        }
    );
    assert_eq!(
        query_failure("(function_item\n  nme: (identifier) @a (#eq? @b"),
        QuerySyntaxError {
            line: 2,
            column: 3,
            message: "nme".to_string(),
            kind: QuerySyntaxKind::Field,
        }
    );
    assert_eq!(
        query_failure("((function_item) @a (#eq? @b"),
        QuerySyntaxError {
            line: 1,
            column: 28,
            message: "b".to_string(),
            kind: QuerySyntaxKind::Capture,
        }
    );
}

fn provider_failure(pattern: &str) -> QuerySyntaxError {
    let error = Query::new(tree_sitter_rust::language(), pattern).unwrap_err();
    QuerySyntaxError {
        line: error.row + 1,
        column: error.column + 1,
        message: error.message,
        kind: QuerySyntaxKind::Syntax,
    }
}

#[test]
fn pattern_that_ends_early_is_reported() {
    assert_eq!(
        query_failure("(function_item"),
        QuerySyntaxError {
            line: 1,
            column: 15,
            message: "(function_item\n              ^".to_string(),
            kind: QuerySyntaxKind::Syntax,
        }
    );
    // The report is the one that the provider gives for the pattern as it is.
    for pattern in [
        "(function_item",
        "(function_item\n  (identifier) @name",
        "(function_item) @a\n(mod_item",
        "(function_item) @a\n\n  [(mod_item) (struct_item",
        "(function_item name: (identifier",
        "(function_item) @é\n(mod_item  ; é",
        "bad query",
        "(function_item) @a (",
        "(function_item) @a )",
    ] {
        assert_eq!(query_failure(pattern), provider_failure(pattern));
    }
}

#[test]
fn text_that_ends_before_the_tree_gives_no_block() {
    let text = "fn a() {}\nfn b() {}";
    let language = tree_sitter_rust::language();
    let tree = parse(text, language);
    let query = Query::new(
        language,
        "((function_item name: (identifier) @name) @item (#eq? @name \"a\"))",
    )
    .unwrap();
    assert_eq!(read_matches(&query, &tree, text).len(), 2);
    assert_eq!(read_matches(&query, &tree, "fn a() {}").len(), 0);
    assert_eq!(get_blocks(std::slice::from_ref(&query), &tree, "fn a()"), vec![]);
    assert_eq!(
        get_query_subtrees(std::slice::from_ref(&query), &tree, ""),
        vec![]
    );
    assert_eq!(
        get_query_subtrees(std::slice::from_ref(&query), &tree, text).len(),
        1
    );
}

#[test]
fn pattern_with_other_characters_is_compiled_or_refused() {
    // What such a pattern is taken for is for the provider to say; either
    // way the answer is an error of the pattern, on its line.
    let refused = query_failure("(\u{e9})");
    assert_eq!(refused.line, 1);
    // A comment may hold any character.
    assert_eq!(
        get_subtrees(GetSubtreesArgs {
            queries: vec!["(function_item) @item ; \u{e9}t\u{e9}".to_string()],
            text: TWO_FUNCTIONS.to_string(),
            language: tree_sitter_rust::language(),
        })
        .map(|forest| forest.len()),
        Ok(2)
    );
}
