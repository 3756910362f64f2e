//! The parser's scenarios: token streams and the trees they parse into.

use rnix::{parse, NodeType, Token, Types};
use rowan::{GreenNodeData, NodeOrToken};

/// The name under which a raw kind is printed.
fn kind_name(raw: u16) -> String {
    match Types::kind_from_raw(raw).expect("a kind that the parser produces") {
        NodeType::AttrSet => "Set".to_string(),
        kind => format!("{:?}", kind),
    }
}

/// Print a node and everything below it, one element per line, with its
/// kind and text range, indented by depth.
fn stringify_node(node: &GreenNodeData, start: u32, indent: usize, out: &mut String) {
    let end = start + u32::from(node.text_len());
    out.push_str(&format!("{:indent$}{}@[{}; {})\n", "", kind_name(node.kind().0), start, end, indent = indent));
    let mut offset = start;
    for child in node.children() {
        match child {
            NodeOrToken::Node(n) => {
                stringify_node(n, offset, indent + 2, out);
                offset += u32::from(n.text_len());
            }
            NodeOrToken::Token(t) => {
                let len = u32::from(t.text_len());
                out.push_str(&format!("{:indent$}{}@[{}; {})\n", "", kind_name(t.kind().0), offset, offset + len, indent = indent + 2));
                offset += len;
            }
        }
    }
}

/// Parse the tokens, require that no error occurs, and compare the printed tree.
fn assert_parse(tokens: &[(Token, &str)], expected: &str) {
    let input: Vec<(Token, String)> = tokens.iter().map(|(t, s)| (*t, s.to_string())).collect();
    let parsed = parse(input).as_result().expect("error occured when parsing");
    let mut actual = String::new();
    stringify_node(parsed.node(), 0, 0, &mut actual);
    if actual != expected {
        println!("--- Actual ---");
        println!("{}", actual);
        println!("-- Expected ---");
        println!("{}", expected);
        println!("--- End ---");
        panic!("Tests did not match");
    }
}

#[test]
fn set() {
    assert_parse(
        &[
            (Token::CurlyBOpen, "{"),
            (Token::Whitespace, " "),

            (Token::Ident, "meaning_of_life"),
            (Token::Whitespace, " "),
            (Token::Assign, "="),
            (Token::Whitespace, " "),
            (Token::Integer, "42"),
            (Token::Semicolon, ";"),

            (Token::Ident, "H4X0RNUM83R"),
            (Token::Whitespace, " "),
            (Token::Assign, "="),
            (Token::Whitespace, " "),
            (Token::Float, "1.337"),
            (Token::Semicolon, ";"),

            (Token::Whitespace, " "),
            (Token::CurlyBClose, "}")
        ],
        "\
Root@[0; 45)
  Set@[0; 45)
    Token(CurlyBOpen)@[0; 1)
    Token(Whitespace)@[1; 2)
    SetEntry@[2; 23)
      Attribute@[2; 18)
        Token(Ident)@[2; 17)
        Token(Whitespace)@[17; 18)
      Token(Assign)@[18; 19)
      Token(Whitespace)@[19; 20)
      Token(Integer)@[20; 22)
      Token(Semicolon)@[22; 23)
    SetEntry@[23; 43)
      Attribute@[23; 35)
        Token(Ident)@[23; 34)
        Token(Whitespace)@[34; 35)
      Token(Assign)@[35; 36)
      Token(Whitespace)@[36; 37)
      Token(Float)@[37; 42)
      Token(Semicolon)@[42; 43)
    Token(Whitespace)@[43; 44)
    Token(CurlyBClose)@[44; 45)
"
    );
    assert_parse(
        &[
            (Token::Rec, "rec"),
            (Token::CurlyBOpen, "{"),
            (Token::Ident, "test"),
            (Token::Assign, "="),
            (Token::Integer, "1"),
            (Token::Semicolon, ";"),
            (Token::CurlyBClose, "}")
        ],
        "\
Root@[0; 12)
  Set@[0; 12)
    Token(Rec)@[0; 3)
    Token(CurlyBOpen)@[3; 4)
    SetEntry@[4; 11)
      Attribute@[4; 8)
        Token(Ident)@[4; 8)
      Token(Assign)@[8; 9)
      Token(Integer)@[9; 10)
      Token(Semicolon)@[10; 11)
    Token(CurlyBClose)@[11; 12)
"
    );
    assert_parse(
        &[
            (Token::CurlyBOpen, "{"),
            (Token::CurlyBClose, "}")
        ],
        "\
Root@[0; 2)
  Set@[0; 2)
    Token(CurlyBOpen)@[0; 1)
    Token(CurlyBClose)@[1; 2)
"
    );
    assert_parse(
        &[
            (Token::CurlyBOpen, "{"),

            (Token::Ident, "a"),
                (Token::Dot, "."),
                (Token::Ident, "b"),
            (Token::Assign, "="),
            (Token::Integer, "2"),
            (Token::Semicolon, ";"),

            (Token::InterpolStart, "\"${"),
                (Token::Ident, "c"),
            (Token::InterpolEnd, "}\""),
                (Token::Dot, "."),
                (Token::DynamicStart, "${"),
                    (Token::Ident, "d"),
                (Token::DynamicEnd, "${"),
            (Token::Assign, "="),
            (Token::Integer, "3"),
            (Token::Semicolon, ";"),

            (Token::CurlyBClose, "}")
        ],
        "\
Root@[0; 23)
  Set@[0; 23)
    Token(CurlyBOpen)@[0; 1)
    SetEntry@[1; 7)
      Attribute@[1; 4)
        Token(Ident)@[1; 2)
        Token(Dot)@[2; 3)
        Token(Ident)@[3; 4)
      Token(Assign)@[4; 5)
      Token(Integer)@[5; 6)
      Token(Semicolon)@[6; 7)
    SetEntry@[7; 22)
      Attribute@[7; 19)
        Interpol@[7; 13)
          InterpolLiteral@[7; 10)
            Token(InterpolStart)@[7; 10)
          InterpolAst@[10; 11)
            Token(Ident)@[10; 11)
          InterpolLiteral@[11; 13)
            Token(InterpolEnd)@[11; 13)
        Token(Dot)@[13; 14)
        Dynamic@[14; 19)
          Token(DynamicStart)@[14; 16)
          Token(Ident)@[16; 17)
          Token(DynamicEnd)@[17; 19)
      Token(Assign)@[19; 20)
      Token(Integer)@[20; 21)
      Token(Semicolon)@[21; 22)
    Token(CurlyBClose)@[22; 23)
"
    );
}
#[test]
fn math() {
    assert_parse(
        &[
            (Token::Integer, "1"),
            (Token::Whitespace, " "),
            (Token::Add, "+"),
            (Token::Whitespace, " "),
            (Token::Integer, "2"),
            (Token::Whitespace, " "),
            (Token::Add, "+"),
            (Token::Whitespace, " "),
            (Token::Integer, "3"),
            (Token::Whitespace, " "),
            (Token::Mul, "*"),
            (Token::Whitespace, " "),
            (Token::Integer, "4")
        ],
        "\
Root@[0; 13)
  Operation@[0; 13)
    Operation@[0; 6)
      Token(Integer)@[0; 1)
      Token(Whitespace)@[1; 2)
      Token(Add)@[2; 3)
      Token(Whitespace)@[3; 4)
      Token(Integer)@[4; 5)
      Token(Whitespace)@[5; 6)
    Token(Add)@[6; 7)
    Operation@[7; 13)
      Token(Whitespace)@[7; 8)
      Token(Integer)@[8; 9)
      Token(Whitespace)@[9; 10)
      Token(Mul)@[10; 11)
      Token(Whitespace)@[11; 12)
      Token(Integer)@[12; 13)
"
    );
    assert_parse(
        &[
            (Token::Integer, "5"),
            (Token::Mul, "*"),
            (Token::Sub, "-"),
            (Token::ParenOpen, "("),
            (Token::Integer, "3"),
            (Token::Sub, "-"),
            (Token::Integer, "2"),
            (Token::ParenClose, ")")
        ],
        "\
Root@[0; 8)
  Operation@[0; 8)
    Token(Integer)@[0; 1)
    Token(Mul)@[1; 2)
    Unary@[2; 8)
      Token(Sub)@[2; 3)
      Paren@[3; 8)
        Token(ParenOpen)@[3; 4)
        Operation@[4; 7)
          Token(Integer)@[4; 5)
          Token(Sub)@[5; 6)
          Token(Integer)@[6; 7)
        Token(ParenClose)@[7; 8)
"
    );
}
#[test]
fn let_in() {
    assert_parse(
        &[
            (Token::Let, "let"),
                (Token::Whitespace, " "),
                (Token::Ident, "a"),
                (Token::Whitespace, " "),
                (Token::Assign, "="),
                (Token::Whitespace, " "),
                (Token::Integer, "42"),
                (Token::Semicolon, ";"),
            (Token::Whitespace, " "),
            (Token::In, "in"),
                (Token::Whitespace, " "),
                (Token::Ident, "a")
        ],
        "\
Root@[0; 16)
  LetIn@[0; 16)
    Token(Let)@[0; 3)
    Token(Whitespace)@[3; 4)
    SetEntry@[4; 11)
      Attribute@[4; 6)
        Token(Ident)@[4; 5)
        Token(Whitespace)@[5; 6)
      Token(Assign)@[6; 7)
      Token(Whitespace)@[7; 8)
      Token(Integer)@[8; 10)
      Token(Semicolon)@[10; 11)
    Token(Whitespace)@[11; 12)
    Token(In)@[12; 14)
    Token(Whitespace)@[14; 15)
    Token(Ident)@[15; 16)
"
    );
}
#[test]
fn let_legacy_syntax() {
    assert_parse(
        &[
            (Token::Let, "let"),
            (Token::CurlyBOpen, "{"),
                (Token::Ident, "a"),
                    (Token::Assign, "="),
                    (Token::Integer, "42"),
                    (Token::Semicolon, ";"),
                (Token::Ident, "body"),
                    (Token::Assign, "="),
                    (Token::Ident, "a"),
                    (Token::Semicolon, ";"),
            (Token::CurlyBClose, "}")
        ],
        "\
Root@[0; 17)
  Let@[0; 17)
    Token(Let)@[0; 3)
    Token(CurlyBOpen)@[3; 4)
    SetEntry@[4; 9)
      Attribute@[4; 5)
        Token(Ident)@[4; 5)
      Token(Assign)@[5; 6)
      Token(Integer)@[6; 8)
      Token(Semicolon)@[8; 9)
    SetEntry@[9; 16)
      Attribute@[9; 13)
        Token(Ident)@[9; 13)
      Token(Assign)@[13; 14)
      Token(Ident)@[14; 15)
      Token(Semicolon)@[15; 16)
    Token(CurlyBClose)@[16; 17)
"
    );
}
#[test]
fn interpolation() {
    assert_parse(
        &[
            (Token::Whitespace, " "),
            (Token::InterpolStart, r#""Hello, ${"#),
                (Token::Whitespace, " "),
                (Token::CurlyBOpen, "{"),
                (Token::Whitespace, " "),
                (Token::Ident, "world"),
                (Token::Whitespace, " "),
                (Token::Assign, "="),
                (Token::Whitespace, " "),
                (Token::String, r#""World""#),
                (Token::Semicolon, ";"),
                (Token::Whitespace, " "),
                (Token::CurlyBClose, "}"),
                (Token::Dot, "."),
                (Token::Ident, "world"),
                (Token::Whitespace, " "),
            (Token::InterpolEnd, r#"}!""#),
            (Token::Whitespace, " ")
        ],
        "\
Root@[0; 43)
  Token(Whitespace)@[0; 1)
  Interpol@[1; 42)
    InterpolLiteral@[1; 11)
      Token(InterpolStart)@[1; 11)
    InterpolAst@[11; 39)
      Token(Whitespace)@[11; 12)
      IndexSet@[12; 38)
        Set@[12; 32)
          Token(CurlyBOpen)@[12; 13)
          Token(Whitespace)@[13; 14)
          SetEntry@[14; 30)
            Attribute@[14; 20)
              Token(Ident)@[14; 19)
              Token(Whitespace)@[19; 20)
            Token(Assign)@[20; 21)
            Token(Whitespace)@[21; 22)
            Token(String)@[22; 29)
            Token(Semicolon)@[29; 30)
          Token(Whitespace)@[30; 31)
          Token(CurlyBClose)@[31; 32)
        Token(Dot)@[32; 33)
        Token(Ident)@[33; 38)
      Token(Whitespace)@[38; 39)
    InterpolLiteral@[39; 42)
      Token(InterpolEnd)@[39; 42)
  Token(Whitespace)@[42; 43)
"
    );
  assert_parse(
      &[
            (Token::Whitespace, " "),
            (Token::InterpolStart, r#""${"#),
                (Token::Ident, "hello"),
            (Token::InterpolEndStart, r#"} ${"#),
                (Token::Ident, "world"),
            (Token::InterpolEnd, r#"}""#),
            (Token::Whitespace, " ")
      ],
      "\
Root@[0; 21)
  Token(Whitespace)@[0; 1)
  Interpol@[1; 20)
    InterpolLiteral@[1; 4)
      Token(InterpolStart)@[1; 4)
    InterpolAst@[4; 9)
      Token(Ident)@[4; 9)
    InterpolLiteral@[9; 13)
      Token(InterpolEndStart)@[9; 13)
    InterpolAst@[13; 18)
      Token(Ident)@[13; 18)
    InterpolLiteral@[18; 20)
      Token(InterpolEnd)@[18; 20)
  Token(Whitespace)@[20; 21)
"
  );
  assert_parse(
      &[
            (Token::Whitespace, " "),
            (Token::InterpolStart, r#"''${"#),
                (Token::InterpolStart, r#""${"#),
                    (Token::Ident, "var"),
                (Token::InterpolEnd, r#"}""#),
            (Token::InterpolEnd, r#"}''"#),
            (Token::Whitespace, " ")
      ],
      "\
Root@[0; 17)
  Token(Whitespace)@[0; 1)
  Interpol@[1; 16)
    InterpolLiteral@[1; 5)
      Token(InterpolStart)@[1; 5)
    InterpolAst@[5; 13)
      Interpol@[5; 13)
        InterpolLiteral@[5; 8)
          Token(InterpolStart)@[5; 8)
        InterpolAst@[8; 11)
          Token(Ident)@[8; 11)
        InterpolLiteral@[11; 13)
          Token(InterpolEnd)@[11; 13)
    InterpolLiteral@[13; 16)
      Token(InterpolEnd)@[13; 16)
  Token(Whitespace)@[16; 17)
"
  );
}
#[test]
fn index_set() {
    assert_parse(
        &[
            (Token::Ident, "a"),
            (Token::Dot, "."),
            (Token::Ident, "b"),
            (Token::Dot, "."),
            (Token::Ident, "c")
        ],
        "\
Root@[0; 5)
  IndexSet@[0; 5)
    IndexSet@[0; 3)
      Token(Ident)@[0; 1)
      Token(Dot)@[1; 2)
      Token(Ident)@[2; 3)
    Token(Dot)@[3; 4)
    Token(Ident)@[4; 5)
"
    );
    assert_parse(
        &[
            (Token::CurlyBOpen, "{"),
                (Token::Ident, "a"),
                    (Token::Dot, "."),
                    (Token::Ident, "b"),
                    (Token::Dot, "."),
                    (Token::Ident, "c"),
                (Token::Assign, "="),
                (Token::Integer, "1"),
                (Token::Semicolon, ";"),
            (Token::CurlyBClose, "}")
        ],
        "\
Root@[0; 10)
  Set@[0; 10)
    Token(CurlyBOpen)@[0; 1)
    SetEntry@[1; 9)
      Attribute@[1; 6)
        Token(Ident)@[1; 2)
        Token(Dot)@[2; 3)
        Token(Ident)@[3; 4)
        Token(Dot)@[4; 5)
        Token(Ident)@[5; 6)
      Token(Assign)@[6; 7)
      Token(Integer)@[7; 8)
      Token(Semicolon)@[8; 9)
    Token(CurlyBClose)@[9; 10)
"
    );
    assert_parse(
        &[
            (Token::Ident, "test"),
                (Token::Dot, "."),
                (Token::String, "\"invalid ident\""),
                (Token::Dot, "."),
                (Token::InterpolStart, "\"${"),
                    (Token::Ident, "hi"),
                (Token::InterpolEnd, "}\""),
                (Token::Dot, "."),
                (Token::DynamicStart, "${"),
                    (Token::Ident, "a"),
                (Token::DynamicEnd, "}")
        ],
        "\
Root@[0; 33)
  IndexSet@[0; 33)
    IndexSet@[0; 28)
      IndexSet@[0; 20)
        Token(Ident)@[0; 4)
        Token(Dot)@[4; 5)
        Token(String)@[5; 20)
      Token(Dot)@[20; 21)
      Interpol@[21; 28)
        InterpolLiteral@[21; 24)
          Token(InterpolStart)@[21; 24)
        InterpolAst@[24; 26)
          Token(Ident)@[24; 26)
        InterpolLiteral@[26; 28)
          Token(InterpolEnd)@[26; 28)
    Token(Dot)@[28; 29)
    Dynamic@[29; 33)
      Token(DynamicStart)@[29; 31)
      Token(Ident)@[31; 32)
      Token(DynamicEnd)@[32; 33)
"
    );
}
#[test]
fn isset() {
    assert_parse(
        &[
            (Token::Ident, "a"),
            (Token::Question, "?"),
            (Token::String, "\"b\""),
            (Token::And, "&&"),
            (Token::Ident, "true")
        ],
        "\
Root@[0; 11)
  Operation@[0; 11)
    Operation@[0; 5)
      Token(Ident)@[0; 1)
      Token(Question)@[1; 2)
      Token(String)@[2; 5)
    Token(And)@[5; 7)
    Token(Ident)@[7; 11)
"
    );
    assert_parse(
        &[
            (Token::Ident, "a"),
                (Token::Dot, "."),
                (Token::Ident, "b"),
                (Token::Dot, "."),
                (Token::Ident, "c"),
            (Token::Ident, "or"),
            (Token::Integer, "1"),
            (Token::Add, "+"),
            (Token::Integer, "1")
        ],
        "\
Root@[0; 10)
  Operation@[0; 10)
    OrDefault@[0; 8)
      IndexSet@[0; 5)
        IndexSet@[0; 3)
          Token(Ident)@[0; 1)
          Token(Dot)@[1; 2)
          Token(Ident)@[2; 3)
        Token(Dot)@[3; 4)
        Token(Ident)@[4; 5)
      Token(Ident)@[5; 7)
      Token(Integer)@[7; 8)
    Token(Add)@[8; 9)
    Token(Integer)@[9; 10)
"
    );
}
#[test]
fn merge() {
    assert_parse(
        &[
            (Token::CurlyBOpen, "{"),
            (Token::Ident, "a"),
            (Token::Assign, "="),
            (Token::Integer, "1"),
            (Token::Semicolon, ";"),
            (Token::CurlyBClose, "}"),
            (Token::Merge, "//"),
            (Token::CurlyBOpen, "{"),
            (Token::Ident, "b"),
            (Token::Assign, "="),
            (Token::Integer, "2"),
            (Token::Semicolon, ";"),
            (Token::CurlyBClose, "}")
        ],
        "\
Root@[0; 14)
  Operation@[0; 14)
    Set@[0; 6)
      Token(CurlyBOpen)@[0; 1)
      SetEntry@[1; 5)
        Attribute@[1; 2)
          Token(Ident)@[1; 2)
        Token(Assign)@[2; 3)
        Token(Integer)@[3; 4)
        Token(Semicolon)@[4; 5)
      Token(CurlyBClose)@[5; 6)
    Token(Merge)@[6; 8)
    Set@[8; 14)
      Token(CurlyBOpen)@[8; 9)
      SetEntry@[9; 13)
        Attribute@[9; 10)
          Token(Ident)@[9; 10)
        Token(Assign)@[10; 11)
        Token(Integer)@[11; 12)
        Token(Semicolon)@[12; 13)
      Token(CurlyBClose)@[13; 14)
"
    );
}
#[test]
fn with() {
    assert_parse(
        &[
            (Token::With, "with"),
            (Token::Ident, "namespace"),
            (Token::Semicolon, ";"),
            (Token::Ident, "expr")
        ],
        "\
Root@[0; 18)
  With@[0; 18)
    Token(With)@[0; 4)
    Token(Ident)@[4; 13)
    Token(Semicolon)@[13; 14)
    Token(Ident)@[14; 18)
"
    );
}
#[test]
fn assert_keyword() {
    assert_parse(
        &[
            (Token::Assert, "assert"),
            (Token::Ident, "a"),
            (Token::Equal, "=="),
            (Token::Ident, "b"),
            (Token::Semicolon, ";"),
            (Token::String, "\"a == b\"")
        ],
        "\
Root@[0; 19)
  Assert@[0; 19)
    Token(Assert)@[0; 6)
    Operation@[6; 10)
      Token(Ident)@[6; 7)
      Token(Equal)@[7; 9)
      Token(Ident)@[9; 10)
    Token(Semicolon)@[10; 11)
    Token(String)@[11; 19)
"
    );
}
#[test]
fn inherit() {
    assert_parse(
        &[
            (Token::CurlyBOpen, "{"),
                (Token::Ident, "a"),
                    (Token::Assign, "="),
                    (Token::Integer, "1"),
                    (Token::Semicolon, ";"),
                (Token::Inherit, "inherit"),
                    (Token::Whitespace, " "),
                    (Token::Ident, "b"),
                    (Token::Whitespace, " "),
                    (Token::Ident, "c"),
                    (Token::Semicolon, ";"),
                (Token::Inherit, "inherit"),
                    (Token::Whitespace, " "),
                    (Token::ParenOpen, "("),
                    (Token::Ident, "set"),
                    (Token::ParenClose, ")"),
                    (Token::Whitespace, " "),
                    (Token::Ident, "d"),
                    (Token::Whitespace, " "),
                    (Token::Ident, "e"),
                    (Token::Semicolon, ";"),
            (Token::CurlyBClose, "}")
        ],
        "\
Root@[0; 36)
  Set@[0; 36)
    Token(CurlyBOpen)@[0; 1)
    SetEntry@[1; 5)
      Attribute@[1; 2)
        Token(Ident)@[1; 2)
      Token(Assign)@[2; 3)
      Token(Integer)@[3; 4)
      Token(Semicolon)@[4; 5)
    Inherit@[5; 17)
      Token(Inherit)@[5; 12)
      Token(Whitespace)@[12; 13)
      Token(Ident)@[13; 14)
      Token(Whitespace)@[14; 15)
      Token(Ident)@[15; 16)
      Token(Semicolon)@[16; 17)
    Inherit@[17; 35)
      Token(Inherit)@[17; 24)
      Token(Whitespace)@[24; 25)
      InheritFrom@[25; 30)
        Token(ParenOpen)@[25; 26)
        Token(Ident)@[26; 29)
        Token(ParenClose)@[29; 30)
      Token(Whitespace)@[30; 31)
      Token(Ident)@[31; 32)
      Token(Whitespace)@[32; 33)
      Token(Ident)@[33; 34)
      Token(Semicolon)@[34; 35)
    Token(CurlyBClose)@[35; 36)
"
    );
}
#[test]
fn ifs() {
    assert_parse(
        &[
            (Token::Ident, "false"),
            (Token::Implication, "->"),
            (Token::Invert, "!"),
            (Token::Ident, "false"),

            (Token::And, "&&"),

            (Token::Ident, "false"),
            (Token::Equal, "=="),
            (Token::Ident, "true"),

            (Token::Or, "||"),

            (Token::Ident, "true")
        ],
        "\
Root@[0; 32)
  Operation@[0; 32)
    Token(Ident)@[0; 5)
    Token(Implication)@[5; 7)
    Operation@[7; 32)
      Operation@[7; 26)
        Unary@[7; 13)
          Token(Invert)@[7; 8)
          Token(Ident)@[8; 13)
        Token(And)@[13; 15)
        Operation@[15; 26)
          Token(Ident)@[15; 20)
          Token(Equal)@[20; 22)
          Token(Ident)@[22; 26)
      Token(Or)@[26; 28)
      Token(Ident)@[28; 32)
"
    );
    assert_parse(
        &[
            (Token::Integer, "1"),
            (Token::Less, "<"),
            (Token::Integer, "2"),

            (Token::Or, "||"),

            (Token::Integer, "2"),
            (Token::LessOrEq, "<="),
            (Token::Integer, "2"),

            (Token::And, "&&"),

            (Token::Integer, "2"),
            (Token::More, ">"),
            (Token::Integer, "1"),

            (Token::And, "&&"),

            (Token::Integer, "2"),
            (Token::MoreOrEq, ">="),
            (Token::Integer, "2")
        ],
        "\
Root@[0; 20)
  Operation@[0; 20)
    Operation@[0; 3)
      Token(Integer)@[0; 1)
      Token(Less)@[1; 2)
      Token(Integer)@[2; 3)
    Token(Or)@[3; 5)
    Operation@[5; 20)
      Operation@[5; 14)
        Operation@[5; 9)
          Token(Integer)@[5; 6)
          Token(LessOrEq)@[6; 8)
          Token(Integer)@[8; 9)
        Token(And)@[9; 11)
        Operation@[11; 14)
          Token(Integer)@[11; 12)
          Token(More)@[12; 13)
          Token(Integer)@[13; 14)
      Token(And)@[14; 16)
      Operation@[16; 20)
        Token(Integer)@[16; 17)
        Token(MoreOrEq)@[17; 19)
        Token(Integer)@[19; 20)
"
    );
    assert_parse(
        &[
            (Token::Integer, "1"),
            (Token::Equal, "=="),
            (Token::Integer, "1"),

            (Token::And, "&&"),

            (Token::Integer, "2"),
            (Token::NotEqual, "!="),
            (Token::Integer, "3")
        ],
        "\
Root@[0; 10)
  Operation@[0; 10)
    Operation@[0; 4)
      Token(Integer)@[0; 1)
      Token(Equal)@[1; 3)
      Token(Integer)@[3; 4)
    Token(And)@[4; 6)
    Operation@[6; 10)
      Token(Integer)@[6; 7)
      Token(NotEqual)@[7; 9)
      Token(Integer)@[9; 10)
"
    );
    assert_parse(
        &[
            (Token::If, "if"),
            (Token::Ident, "false"),
            (Token::Then, "then"),
                (Token::Integer, "1"),
            (Token::Else, "else"),
                (Token::If, "if"),
                (Token::Ident, "true"),
                (Token::Then, "then"),
                    (Token::Ident, "two"),
                (Token::Else, "else"),
                    (Token::Integer, "3")
        ],
        "\
Root@[0; 34)
  IfElse@[0; 34)
    Token(If)@[0; 2)
    Token(Ident)@[2; 7)
    Token(Then)@[7; 11)
    Token(Integer)@[11; 12)
    Token(Else)@[12; 16)
    IfElse@[16; 34)
      Token(If)@[16; 18)
      Token(Ident)@[18; 22)
      Token(Then)@[22; 26)
      Token(Ident)@[26; 29)
      Token(Else)@[29; 33)
      Token(Integer)@[33; 34)
"
    );
}
#[test]
fn list() {
    assert_parse(
        &[
            (Token::SquareBOpen, "["),
            (Token::Ident, "a"),
            (Token::Integer, "2"),
            (Token::Integer, "3"),
            (Token::String, "\"lol\""),
            (Token::SquareBClose, "]")
        ],
        "\
Root@[0; 10)
  List@[0; 10)
    Token(SquareBOpen)@[0; 1)
    ListItem@[1; 2)
      Token(Ident)@[1; 2)
    ListItem@[2; 3)
      Token(Integer)@[2; 3)
    ListItem@[3; 4)
      Token(Integer)@[3; 4)
    ListItem@[4; 9)
      Token(String)@[4; 9)
    Token(SquareBClose)@[9; 10)
"
    );
    assert_parse(
        &[
            (Token::SquareBOpen, "["), (Token::Integer, "1"), (Token::SquareBClose, "]"),
            (Token::Concat, "++"),
            (Token::SquareBOpen, "["), (Token::Ident, "two"), (Token::SquareBClose, "]"),
            (Token::Concat, "++"),
            (Token::SquareBOpen, "["), (Token::Integer, "3"), (Token::SquareBClose, "]")
        ],
        "\
Root@[0; 15)
  Operation@[0; 15)
    Operation@[0; 10)
      List@[0; 3)
        Token(SquareBOpen)@[0; 1)
        ListItem@[1; 2)
          Token(Integer)@[1; 2)
        Token(SquareBClose)@[2; 3)
      Token(Concat)@[3; 5)
      List@[5; 10)
        Token(SquareBOpen)@[5; 6)
        ListItem@[6; 9)
          Token(Ident)@[6; 9)
        Token(SquareBClose)@[9; 10)
    Token(Concat)@[10; 12)
    List@[12; 15)
      Token(SquareBOpen)@[12; 13)
      ListItem@[13; 14)
        Token(Integer)@[13; 14)
      Token(SquareBClose)@[14; 15)
"
    );
}
#[test]
fn lambda() {
    assert_parse(
        &[
            (Token::Ident, "import"),
            (Token::Path, "<nixpkgs>"),
            (Token::CurlyBOpen, "{"),
            (Token::CurlyBClose, "}")
        ],
        "\
Root@[0; 17)
  Apply@[0; 17)
    Apply@[0; 15)
      Token(Ident)@[0; 6)
      Token(Path)@[6; 15)
    Set@[15; 17)
      Token(CurlyBOpen)@[15; 16)
      Token(CurlyBClose)@[16; 17)
"
    );
    assert_parse(
        &[
            (Token::Ident, "a"),
            (Token::Colon, ":"),
            (Token::Whitespace, " "),
            (Token::Ident, "b"),
            (Token::Colon, ":"),
            (Token::Whitespace, " "),
            (Token::Ident, "a"),
            (Token::Whitespace, " "),
            (Token::Add, "+"),
            (Token::Whitespace, " "),
            (Token::Ident, "b")
        ],
        "\
Root@[0; 11)
  Lambda@[0; 11)
    Token(Ident)@[0; 1)
    Token(Colon)@[1; 2)
    Token(Whitespace)@[2; 3)
    Lambda@[3; 11)
      Token(Ident)@[3; 4)
      Token(Colon)@[4; 5)
      Token(Whitespace)@[5; 6)
      Operation@[6; 11)
        Token(Ident)@[6; 7)
        Token(Whitespace)@[7; 8)
        Token(Add)@[8; 9)
        Token(Whitespace)@[9; 10)
        Token(Ident)@[10; 11)
"
    );
    assert_parse(
        &[
            (Token::Ident, "a"),
            (Token::Whitespace, " "),
            (Token::Integer, "1"),
            (Token::Whitespace, " "),
            (Token::Integer, "2"),
            (Token::Whitespace, " "),
            (Token::Add, "+"),
            (Token::Whitespace, " "),
            (Token::Integer, "3")
        ],
        "\
Root@[0; 9)
  Operation@[0; 9)
    Apply@[0; 6)
      Apply@[0; 4)
        Token(Ident)@[0; 1)
        Token(Whitespace)@[1; 2)
        Token(Integer)@[2; 3)
        Token(Whitespace)@[3; 4)
      Token(Integer)@[4; 5)
      Token(Whitespace)@[5; 6)
    Token(Add)@[6; 7)
    Token(Whitespace)@[7; 8)
    Token(Integer)@[8; 9)
"
    );
   }
#[test]
fn patterns() {
    assert_parse(
        &[
            (Token::CurlyBOpen, "{"),
            (Token::Whitespace, " "),
            (Token::Ellipsis, "..."),
            (Token::Whitespace, " "),
            (Token::CurlyBClose, "}"),
            (Token::Colon, ":"),
            (Token::Whitespace, " "),
            (Token::Integer, "1")
        ],
        "\
Root@[0; 10)
  Lambda@[0; 10)
    Pattern@[0; 7)
      Token(CurlyBOpen)@[0; 1)
      Token(Whitespace)@[1; 2)
      Token(Ellipsis)@[2; 5)
      Token(Whitespace)@[5; 6)
      Token(CurlyBClose)@[6; 7)
    Token(Colon)@[7; 8)
    Token(Whitespace)@[8; 9)
    Token(Integer)@[9; 10)
"
    );
    assert_parse(
        &[
            (Token::CurlyBOpen, "{"),
            (Token::CurlyBClose, "}"),
            (Token::Whitespace, " "),
            (Token::At, "@"),
            (Token::Whitespace, " "),
            (Token::Ident, "outer"),
            (Token::Colon, ":"),
            (Token::Whitespace, " "),
            (Token::Integer, "1")
        ],
        "\
Root@[0; 13)
  Lambda@[0; 13)
    Pattern@[0; 10)
      Token(CurlyBOpen)@[0; 1)
      Token(CurlyBClose)@[1; 2)
      Token(Whitespace)@[2; 3)
      PatBind@[3; 10)
        Token(At)@[3; 4)
        Token(Whitespace)@[4; 5)
        Token(Ident)@[5; 10)
    Token(Colon)@[10; 11)
    Token(Whitespace)@[11; 12)
    Token(Integer)@[12; 13)
"
    );
    assert_parse(
        &[
            (Token::CurlyBOpen, "{"), (Token::Whitespace, " "),

            (Token::Ident, "a"), (Token::Comma, ","), (Token::Whitespace, " "),
            (Token::Ident, "b"), (Token::Whitespace, " "),
                (Token::Question, "?"), (Token::Whitespace, " "),
                (Token::String, "\"default\""),

            (Token::CurlyBClose, "}"),
            (Token::Colon, ":"),
            (Token::Whitespace, " "),
            (Token::Ident, "a")
        ],
        "\
Root@[0; 22)
  Lambda@[0; 22)
    Pattern@[0; 19)
      Token(CurlyBOpen)@[0; 1)
      Token(Whitespace)@[1; 2)
      PatEntry@[2; 3)
        Token(Ident)@[2; 3)
      Token(Comma)@[3; 4)
      Token(Whitespace)@[4; 5)
      PatEntry@[5; 18)
        Token(Ident)@[5; 6)
        Token(Whitespace)@[6; 7)
        Token(Question)@[7; 8)
        Token(Whitespace)@[8; 9)
        Token(String)@[9; 18)
      Token(CurlyBClose)@[18; 19)
    Token(Colon)@[19; 20)
    Token(Whitespace)@[20; 21)
    Token(Ident)@[21; 22)
"
    );
    assert_parse(
        &[
            (Token::CurlyBOpen, "{"), (Token::Whitespace, " "),

            (Token::Ident, "a"), (Token::Comma, ","), (Token::Whitespace, " "),
            (Token::Ident, "b"), (Token::Whitespace, " "),
                (Token::Question, "?"), (Token::Whitespace, " "),
                (Token::String, "\"default\""), (Token::Comma, ","), (Token::Whitespace, " "),
            (Token::Ellipsis, "..."), (Token::Whitespace, " "),

            (Token::CurlyBClose, "}"),
            (Token::Colon, ":"),
            (Token::Whitespace, " "),
            (Token::Ident, "a")
        ],
        "\
Root@[0; 28)
  Lambda@[0; 28)
    Pattern@[0; 25)
      Token(CurlyBOpen)@[0; 1)
      Token(Whitespace)@[1; 2)
      PatEntry@[2; 3)
        Token(Ident)@[2; 3)
      Token(Comma)@[3; 4)
      Token(Whitespace)@[4; 5)
      PatEntry@[5; 18)
        Token(Ident)@[5; 6)
        Token(Whitespace)@[6; 7)
        Token(Question)@[7; 8)
        Token(Whitespace)@[8; 9)
        Token(String)@[9; 18)
      Token(Comma)@[18; 19)
      Token(Whitespace)@[19; 20)
      Token(Ellipsis)@[20; 23)
      Token(Whitespace)@[23; 24)
      Token(CurlyBClose)@[24; 25)
    Token(Colon)@[25; 26)
    Token(Whitespace)@[26; 27)
    Token(Ident)@[27; 28)
"
    );
    assert_parse(
        &[
            (Token::Ident, "outer"), (Token::Whitespace, " "),
            (Token::At, "@"), (Token::Whitespace, " "),
            (Token::CurlyBOpen, "{"), (Token::Whitespace, " "),
            (Token::Ident, "a"), (Token::Whitespace, " "),
            (Token::CurlyBClose, "}"),
            (Token::Colon, ":"), (Token::Whitespace, " "),
            (Token::Ident, "outer")
        ],
        "\
Root@[0; 20)
  Lambda@[0; 20)
    Pattern@[0; 13)
      PatBind@[0; 7)
        Token(Ident)@[0; 5)
        Token(Whitespace)@[5; 6)
        Token(At)@[6; 7)
      Token(Whitespace)@[7; 8)
      Token(CurlyBOpen)@[8; 9)
      Token(Whitespace)@[9; 10)
      PatEntry@[10; 12)
        Token(Ident)@[10; 11)
        Token(Whitespace)@[11; 12)
      Token(CurlyBClose)@[12; 13)
    Token(Colon)@[13; 14)
    Token(Whitespace)@[14; 15)
    Token(Ident)@[15; 20)
"
    );
    assert_parse(
        &[
            (Token::CurlyBOpen, "{"),
            (Token::Ident, "a"),
            (Token::Question, "?"),
            (Token::CurlyBOpen, "{"),
            (Token::CurlyBClose, "}"),
            (Token::CurlyBClose, "}"),
            (Token::Colon, ":"),
            (Token::Ident, "a")
        ],
        "\
Root@[0; 8)
  Lambda@[0; 8)
    Pattern@[0; 6)
      Token(CurlyBOpen)@[0; 1)
      PatEntry@[1; 5)
        Token(Ident)@[1; 2)
        Token(Question)@[2; 3)
        Set@[3; 5)
          Token(CurlyBOpen)@[3; 4)
          Token(CurlyBClose)@[4; 5)
      Token(CurlyBClose)@[5; 6)
    Token(Colon)@[6; 7)
    Token(Ident)@[7; 8)
"
    );
    assert_parse(
        &[
            (Token::CurlyBOpen, "{"),
            (Token::Ident, "a"),
            (Token::Comma, ","),
            (Token::CurlyBClose, "}"),
            (Token::Colon, ":"),
            (Token::Ident, "a")
        ],
        "\
Root@[0; 6)
  Lambda@[0; 6)
    Pattern@[0; 4)
      Token(CurlyBOpen)@[0; 1)
      PatEntry@[1; 2)
        Token(Ident)@[1; 2)
      Token(Comma)@[2; 3)
      Token(CurlyBClose)@[3; 4)
    Token(Colon)@[4; 5)
    Token(Ident)@[5; 6)
"
    );
}
#[test]
fn dynamic() {
    assert_parse(
        &[
            (Token::DynamicStart, "${"),
                (Token::Ident, "a"),
            (Token::DynamicEnd, "}")
        ],
        "\
Root@[0; 4)
  Dynamic@[0; 4)
    Token(DynamicStart)@[0; 2)
    Token(Ident)@[2; 3)
    Token(DynamicEnd)@[3; 4)
"
    );
}
