//! Properties of the library checked on concrete inputs.

use rnix::{parse, NodeType, ParseError, Token, Types, AST};
use rowan::{GreenNodeData, NodeOrToken};

fn tokens(list: &[(Token, &str)]) -> Vec<(Token, String)> {
    list.iter().map(|(t, s)| (*t, s.to_string())).collect()
}

/// The leaves of a tree, left to right, as (raw kind, text).
fn leaves(node: &GreenNodeData, out: &mut Vec<(u16, String)>) {
    for child in node.children() {
        match child {
            NodeOrToken::Node(n) => leaves(n, out),
            NodeOrToken::Token(t) => out.push((t.kind().0, t.text().to_string())),
        }
    }
}

fn expected_leaves(list: &[(Token, &str)]) -> Vec<(u16, String)> {
    list.iter().map(|(t, s)| (Types::kind_to_raw(NodeType::Token(*t)), s.to_string())).collect()
}

fn kind_of(raw: u16) -> NodeType {
    Types::kind_from_raw(raw).expect("a known kind")
}

/// The kinds of the children of the root.
fn root_child_kinds(ast: &AST) -> Vec<NodeType> {
    ast.node().children().map(|c| kind_of(c.kind().0)).collect()
}

const INPUTS: &[&[(Token, &str)]] = &[
    &[],
    &[(Token::Whitespace, "  ")],
    &[(Token::Integer, "1"), (Token::Whitespace, " "), (Token::Add, "+"), (Token::Integer, "2")],
    &[(Token::If, "if")],
    &[(Token::Ident, "a"), (Token::ParenClose, ")"), (Token::Comment, "# x"), (Token::Integer, "3")],
    &[(Token::CurlyBOpen, "{"), (Token::Ident, "a"), (Token::Integer, "1"), (Token::Semicolon, ";")],
    &[(Token::Let, "let"), (Token::Ident, "x"), (Token::In, "in")],
    &[(Token::SquareBOpen, "["), (Token::Ident, "a"), (Token::Dot, "."), (Token::Ident, "or")],
    &[(Token::InterpolStart, "\"${"), (Token::Ident, "a"), (Token::InterpolEndStart, "} ${")],
    &[(Token::Ident, "x"), (Token::At, "@"), (Token::CurlyBOpen, "{"), (Token::Comma, ","), (Token::Ellipsis, "...")],
];

#[test]
fn tree_is_lossless() {
    for input in INPUTS {
        let ast = parse(tokens(input));
        let mut got = Vec::new();
        leaves(ast.node(), &mut got);
        assert_eq!(got, expected_leaves(input));
    }
}

#[test]
fn root_is_root() {
    for input in INPUTS {
        let ast = parse(tokens(input));
        assert_eq!(kind_of(ast.root().kind().0), NodeType::Root);
        let text_len: u32 = input.iter().map(|(_, s)| s.len() as u32).sum();
        assert_eq!(u32::from(ast.root().text_len()), text_len);
    }
}

#[test]
fn root_holds_one_expression_and_leftovers_in_an_error_node() {
    let ast = parse(tokens(&[
        (Token::Ident, "a"),
        (Token::Whitespace, " "),
        (Token::ParenClose, ")"),
        (Token::Integer, "3"),
    ]));
    assert_eq!(
        root_child_kinds(&ast),
        vec![NodeType::Token(Token::Ident), NodeType::Token(Token::Whitespace), NodeType::Error]
    );
    let errors = ast.errors();
    assert_eq!(errors.len(), 1);
    match &errors[0] {
        ParseError::Unexpected(node, offset) => {
            assert_eq!(kind_of(node.kind().0), NodeType::Error);
            assert_eq!(node.to_string(), ")3");
            assert_eq!(*offset, 2);
        }
        other => panic!("unexpected error {:?}", other),
    }
    match ast.as_result() {
        Err(ParseError::Unexpected(node, offset)) => {
            assert_eq!(node.to_string(), ")3");
            assert_eq!(offset, 2);
        }
        _ => panic!("as_result should report the error node"),
    }
}

#[test]
fn early_end_of_input_is_recorded() {
    let ast = parse(tokens(&[(Token::If, "if")]));
    let errors = ast.errors();
    assert_eq!(
        &errors[..5],
        &[
            ParseError::UnexpectedEOF,
            ParseError::UnexpectedEOFWanted(Token::Then),
            ParseError::UnexpectedEOF,
            ParseError::UnexpectedEOFWanted(Token::Else),
            ParseError::UnexpectedEOF,
        ]
    );
    // the three missing expressions are empty `Error` nodes
    assert_eq!(errors.len(), 8);
    for e in &errors[5..] {
        match e {
            ParseError::Unexpected(node, offset) => {
                assert_eq!(kind_of(node.kind().0), NodeType::Error);
                assert_eq!(node.children().len(), 0);
                assert_eq!(*offset, 2);
            }
            other => panic!("unexpected error {:?}", other),
        }
    }
    assert_eq!(ast.as_result().err(), Some(ParseError::UnexpectedEOF));
}

#[test]
fn empty_input_wants_an_expression() {
    let ast = parse(Vec::new());
    assert_eq!(root_child_kinds(&ast), vec![NodeType::Error]);
    let errors = ast.errors();
    assert_eq!(errors.len(), 2);
    assert_eq!(errors[0], ParseError::UnexpectedEOF);
}

#[test]
fn expect_wraps_skipped_tokens_in_an_error_node() {
    // `with a b; c`: `b` stands where `;` was expected
    let ast = parse(tokens(&[
        (Token::With, "with"),
        (Token::Ident, "a"),
        (Token::Add, "+"),
        (Token::Assign, "="),
        (Token::Semicolon, ";"),
        (Token::Ident, "c"),
    ]));
    let errors = ast.errors();
    assert!(!errors.is_empty());
    assert!(errors.iter().all(|e| matches!(e, ParseError::Unexpected(..))));
    let mut got = Vec::new();
    leaves(ast.node(), &mut got);
    assert_eq!(got.len(), 6);
}

#[test]
fn as_result_is_ok_without_errors() {
    let ast = parse(tokens(&[(Token::Integer, "1")]));
    assert!(ast.errors().is_empty());
    let ok = ast.as_result().expect("no error");
    assert_eq!(kind_of(ok.into_root().kind().0), NodeType::Root);
}

#[test]
fn kinds_round_trip() {
    for i in 0..52u16 {
        let t = Token::from_index(i).expect("a token");
        assert_eq!(t.index(), i);
        let k = NodeType::Token(t);
        assert_eq!(Types::kind_from_raw(Types::kind_to_raw(k)), Some(k));
        assert_eq!(NodeType::from(t), k);
        assert_eq!(k.is_trivia(), t.is_trivia());
    }
    assert_eq!(Token::from_index(52), None);
    let mut inner = 0;
    for raw in 0..256u16 {
        if let Some(k) = Types::kind_from_raw(raw) {
            assert_eq!(Types::kind_to_raw(k), raw);
            assert!(!k.is_trivia());
            inner += 1;
        }
    }
    assert_eq!(inner, 28);
    assert_eq!(Types::kind_to_raw(NodeType::Apply), 0);
    assert_eq!(Types::kind_to_raw(NodeType::Token(Token::Comment)), 256);
    assert_eq!(Types::kind_from_raw(256 + 52), None);
}

#[test]
fn token_classes() {
    assert!(Token::Whitespace.is_trivia());
    assert!(Token::Comment.is_trivia());
    assert!(Token::Error.is_trivia());
    assert!(!Token::Ident.is_trivia());
    assert!(Token::String.is_value());
    assert!(Token::Path.is_value());
    assert!(!Token::Ident.is_value());
    assert!(Token::Ident.is_fn_arg());
    assert!(Token::Integer.is_fn_arg());
    assert!(!Token::Add.is_fn_arg());
    assert!(!Token::DynamicStart.is_fn_arg());
}

#[test]
fn keyword_expressions_become_keyword_nodes() {
    let cases: &[(&[(Token, &str)], NodeType)] = &[
        (&[(Token::Whitespace, " "), (Token::With, "with"), (Token::Ident, "a"), (Token::Semicolon, ";"), (Token::Ident, "b")], NodeType::With),
        (&[(Token::Assert, "assert"), (Token::Ident, "a"), (Token::Semicolon, ";"), (Token::Ident, "b")], NodeType::Assert),
        (&[(Token::Let, "let"), (Token::In, "in"), (Token::Ident, "b")], NodeType::LetIn),
        (&[(Token::Let, "let"), (Token::CurlyBOpen, "{"), (Token::CurlyBClose, "}")], NodeType::Let),
    ];
    for (input, kind) in cases {
        let ast = parse(tokens(input));
        assert!(ast.errors().is_empty());
        let kinds = root_child_kinds(&ast);
        assert_eq!(kinds.last(), Some(kind));
    }
}

/// The tree as nested `Kind[...]`, tokens by their text.
fn outline(node: &GreenNodeData) -> String {
    let mut out = format!("{:?}[", kind_of(node.kind().0));
    let mut first = true;
    for child in node.children() {
        if !first {
            out.push(' ');
        }
        first = false;
        match child {
            NodeOrToken::Node(n) => out.push_str(&outline(n)),
            NodeOrToken::Token(t) => out.push_str(t.text()),
        }
    }
    out.push(']');
    out
}

#[test]
fn missing_separator_and_body_at_the_end() {
    // `with a b`: the application `a b`, then no `;` and no body
    let ast = parse(tokens(&[(Token::With, "with"), (Token::Ident, "a"), (Token::Ident, "b")]));
    assert_eq!(outline(ast.node()), "Root[With[with Apply[a b] Error[]]]");
    let errors = ast.errors();
    assert_eq!(errors.len(), 3);
    assert_eq!(errors[0], ParseError::UnexpectedEOFWanted(Token::Semicolon));
    assert_eq!(errors[1], ParseError::UnexpectedEOF);
    assert!(matches!(errors[2], ParseError::Unexpected(_, 6)));
}

#[test]
fn junk_in_a_pattern_becomes_an_error_node() {
    // `{ a, 1 }: a`
    let ast = parse(tokens(&[
        (Token::CurlyBOpen, "{"),
        (Token::Ident, "a"),
        (Token::Comma, ","),
        (Token::Integer, "1"),
        (Token::CurlyBClose, "}"),
        (Token::Colon, ":"),
        (Token::Ident, "a"),
    ]));
    assert_eq!(outline(ast.node()), "Root[Lambda[Pattern[{ PatEntry[a] , Error[1] }] : a]]");
    let errors = ast.errors();
    assert_eq!(errors.len(), 1);
    match &errors[0] {
        ParseError::Unexpected(node, offset) => {
            assert_eq!(outline(node), "Error[1]");
            assert_eq!(*offset, 3);
        }
        other => panic!("unexpected error {:?}", other),
    }
}

#[test]
fn comparisons_do_not_chain() {
    // `1 < 2 < 3`: one comparison, the rest is left over
    let ast = parse(tokens(&[
        (Token::Integer, "1"),
        (Token::Less, "<"),
        (Token::Integer, "2"),
        (Token::Less, "<"),
        (Token::Integer, "3"),
    ]));
    assert_eq!(outline(ast.node()), "Root[Operation[1 < 2] Error[< 3]]");
}

#[test]
fn stray_separator_inside_an_operand() {
    // `assert a + ; b`: the right operand of `+` starts with `;`, which
    // becomes an `Error` node applied to `b`; then `;` and the body are missing
    let ast = parse(tokens(&[
        (Token::Assert, "assert"),
        (Token::Ident, "a"),
        (Token::Add, "+"),
        (Token::Semicolon, ";"),
        (Token::Ident, "b"),
    ]));
    assert_eq!(outline(ast.node()), "Root[Assert[assert Operation[a + Apply[Error[;] b]] Error[]]]");
    let errors = ast.errors();
    assert_eq!(errors[0], ParseError::UnexpectedEOFWanted(Token::Semicolon));
    assert_eq!(errors[1], ParseError::UnexpectedEOF);
}

#[test]
fn skipped_tokens_before_an_expected_one() {
    // `with a = = ; b`: the stray `=`s go into one `Error` node before `;`
    let ast = parse(tokens(&[
        (Token::With, "with"),
        (Token::Ident, "a"),
        (Token::Whitespace, " "),
        (Token::Assign, "="),
        (Token::Whitespace, " "),
        (Token::Assign, "="),
        (Token::Semicolon, ";"),
        (Token::Ident, "b"),
    ]));
    assert_eq!(outline(ast.node()), "Root[With[with a   Error[=   =] ; b]]");
}

#[test]
fn error_nodes_of_the_same_shape_are_told_apart_by_offset() {
    // `{a,1,b,1}:a`: both stray `1`s become `Error[1]` nodes
    let ast = parse(tokens(&[
        (Token::CurlyBOpen, "{"),
        (Token::Ident, "a"),
        (Token::Comma, ","),
        (Token::Integer, "1"),
        (Token::Comma, ","),
        (Token::Ident, "b"),
        (Token::Comma, ","),
        (Token::Integer, "1"),
        (Token::CurlyBClose, "}"),
        (Token::Colon, ":"),
        (Token::Ident, "a"),
    ]));
    assert_eq!(
        outline(ast.node()),
        "Root[Lambda[Pattern[{ PatEntry[a] , Error[1] Error[,] PatEntry[b] , Error[1] }] : a]]"
    );
    let found: Vec<(String, u32)> = ast
        .errors()
        .into_iter()
        .map(|e| match e {
            ParseError::Unexpected(node, offset) => (outline(&node), offset),
            other => panic!("unexpected error {:?}", other),
        })
        .collect();
    assert_eq!(
        found,
        vec![("Error[1]".to_string(), 3), ("Error[,]".to_string(), 4), ("Error[1]".to_string(), 7)]
    );
}

#[test]
fn cloned_ast_has_the_same_tree_and_errors() {
    let ast = parse(tokens(&[(Token::If, "if"), (Token::Ident, "a")]));
    let copy = ast.clone();
    assert_eq!(copy.node(), ast.node());
    assert_eq!(copy.errors(), ast.errors());
}
