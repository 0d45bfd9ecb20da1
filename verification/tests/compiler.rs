use anathema::compiler::{compile, instructions, statements};
use anathema::constants::{Constants, TextPart, TextPath};
use anathema::error::Error;
use anathema::eval::eval;
use anathema::lexer::{lex, LexError, LexErrorKind};
use anathema::optimizer::Instruction;
use anathema::parser::ParseExpr;
use anathema::pratt::{expr, get_precedence, ParseErrorKind};
use anathema::prec;
use anathema::strings::Strings;
use anathema::template::{Cond, Fragment, Template, Text};
use anathema::testing::{add, ident, index, mul, strlit, unum};
use anathema::token::{Kind, Operator, StringId, Token, Tokens, Value};
use anathema::value::ValueExpr;
use anathema::vm::Scope;

fn kinds(source: &str) -> Vec<Kind> {
    let mut strings = Strings::empty();
    lex(source, &mut strings).unwrap().into_iter().map(|t| t.0).collect()
}

fn lex_error(source: &str) -> LexError {
    let mut strings = Strings::empty();
    lex(source, &mut strings).unwrap_err()
}

#[test]
fn lexes_a_line() {
    let mut strings = Strings::empty();
    let tokens = lex("  for x in list", &mut strings).unwrap();
    let expected = vec![
        Token(Kind::Indent(2), 0),
        Token(Kind::For, 2),
        Token(Kind::Value(Value::Ident(StringId(0))), 6),
        Token(Kind::In, 8),
        Token(Kind::Value(Value::Ident(StringId(1))), 11),
        Token(Kind::Eof, 15),
    ];
    assert_eq!(tokens, expected);
    assert_eq!(strings.get(StringId(0)).unwrap(), "x");
    assert_eq!(strings.get(StringId(1)).unwrap(), "list");
}

#[test]
fn indent_once_per_line() {
    assert_eq!(
        kinds("a\n    b\n\nc"),
        vec![
            Kind::Indent(0),
            Kind::Value(Value::Ident(StringId(0))),
            Kind::Newline,
            Kind::Indent(4),
            Kind::Value(Value::Ident(StringId(1))),
            Kind::Newline,
            Kind::Indent(0),
            Kind::Newline,
            Kind::Indent(0),
            Kind::Value(Value::Ident(StringId(2))),
            Kind::Eof,
        ]
    );
    assert_eq!(kinds(""), vec![Kind::Eof]);
}

#[test]
fn positions_are_byte_offsets() {
    let mut strings = Strings::empty();
    let source = "'\u{e5}\u{4f60}' x";
    let tokens = lex(source, &mut strings).unwrap();
    assert_eq!(tokens[1], Token(Kind::Value(Value::String(StringId(0))), 0));
    assert_eq!(tokens[2], Token(Kind::Value(Value::Ident(StringId(1))), 8));
    assert_eq!(tokens[3], Token(Kind::Eof, source.len()));
    assert_eq!(strings.get(StringId(0)).unwrap(), "\u{e5}\u{4f60}");
}

#[test]
fn numbers_colours_and_booleans() {
    assert_eq!(
        kinds("12 1.50 #f0a #10ff02 true false")[1..7],
        [
            Kind::Value(Value::Number(12)),
            Kind::Value(Value::Float(150, 2)),
            Kind::Value(Value::Hex(255, 0, 170)),
            Kind::Value(Value::Hex(16, 255, 2)),
            Kind::Value(Value::Bool(true)),
            Kind::Value(Value::Bool(false)),
        ]
    );
    assert_eq!(kinds("18446744073709551615")[1], Kind::Value(Value::Number(u64::MAX)));
}

#[test]
fn operators_take_the_longest_match() {
    let ops: Vec<_> = kinds("== = <= < >= > && || {{ { }} } += -= *= /= %= ! . , : ( ) [ ] + * / %")
        .into_iter()
        .filter_map(|k| match k {
            Kind::Op(op) => Some(op),
            _ => None,
        })
        .collect();
    assert_eq!(
        ops,
        vec![
            Operator::EqualEqual,
            Operator::Equal,
            Operator::LessThanOrEqual,
            Operator::LessThan,
            Operator::GreaterThanOrEqual,
            Operator::GreaterThan,
            Operator::And,
            Operator::Or,
            Operator::LDoubleCurly,
            Operator::LCurly,
            Operator::RDoubleCurly,
            Operator::RCurly,
            Operator::PlusEqual,
            Operator::MinusEqual,
            Operator::MulEqual,
            Operator::DivEqual,
            Operator::ModEqual,
            Operator::Not,
            Operator::Dot,
            Operator::Comma,
            Operator::Colon,
            Operator::LParen,
            Operator::RParen,
            Operator::LBracket,
            Operator::RBracket,
            Operator::Plus,
            Operator::Mul,
            Operator::Div,
            Operator::Mod,
        ]
    );
}

#[test]
fn strings_and_escapes() {
    let mut strings = Strings::empty();
    lex(r#""a\n\t\\\"\'b" 'c"d'"#, &mut strings).unwrap();
    assert_eq!(strings.get(StringId(0)).unwrap(), "a\n\t\\\"'b");
    assert_eq!(strings.get(StringId(1)).unwrap(), "c\"d");
}

#[test]
fn equal_strings_share_an_id() {
    let mut strings = Strings::empty();
    let tokens = lex("a b a 'a'", &mut strings).unwrap();
    assert_eq!(tokens[1].0, Kind::Value(Value::Ident(StringId(0))));
    assert_eq!(tokens[2].0, Kind::Value(Value::Ident(StringId(1))));
    assert_eq!(tokens[3].0, Kind::Value(Value::Ident(StringId(0))));
    assert_eq!(tokens[4].0, Kind::Value(Value::String(StringId(0))));
    assert_eq!(strings.len(), 2);
}

#[test]
fn lex_errors() {
    assert_eq!(
        lex_error("a 'bc"),
        LexError { kind: LexErrorKind::UnterminatedString, position: 2 }
    );
    assert_eq!(
        lex_error(r#"ab "c\qd""#),
        LexError { kind: LexErrorKind::InvalidEscape, position: 5 }
    );
    assert_eq!(lex_error("a ? b"), LexError { kind: LexErrorKind::UnexpectedChar, position: 2 });
    assert_eq!(lex_error("a & b"), LexError { kind: LexErrorKind::UnexpectedChar, position: 2 });
    assert_eq!(lex_error("a\n \tb"), LexError { kind: LexErrorKind::TabIndent, position: 3 });
    assert_eq!(
        lex_error("18446744073709551616"),
        LexError { kind: LexErrorKind::InvalidNumber, position: 0 }
    );
    assert_eq!(lex_error("x #12"), LexError { kind: LexErrorKind::InvalidHex, position: 2 });
    assert_eq!(lex_error("#12345g"), LexError { kind: LexErrorKind::InvalidHex, position: 0 });
}

#[test]
fn precedence_ladder() {
    let ladder = [
        prec::INITIAL,
        prec::ASSIGNMENT,
        prec::CONDITIONAL,
        prec::LOGICAL,
        prec::SUM,
        prec::PRODUCT,
        prec::PREFIX,
        prec::CALL,
        prec::SUBCRIPT,
    ];
    assert!(ladder.windows(2).all(|w| w[0] < w[1]));
    assert_eq!(get_precedence(Operator::Equal), prec::ASSIGNMENT);
    assert_eq!(get_precedence(Operator::EqualEqual), prec::CONDITIONAL);
    assert_eq!(get_precedence(Operator::And), prec::CONDITIONAL);
    assert_eq!(get_precedence(Operator::LessThan), prec::LOGICAL);
    assert_eq!(get_precedence(Operator::Minus), prec::SUM);
    assert_eq!(get_precedence(Operator::Mod), prec::PRODUCT);
    assert_eq!(get_precedence(Operator::LParen), prec::CALL);
    assert_eq!(get_precedence(Operator::Dot), prec::SUBCRIPT);
    assert_eq!(get_precedence(Operator::LBracket), prec::SUBCRIPT);
    assert_eq!(get_precedence(Operator::Comma), 0);
}

fn parse_error(input: &str) -> (ParseErrorKind, usize) {
    let mut strings = Strings::empty();
    let tokens = lex(input, &mut strings).unwrap();
    let mut tokens = Tokens::new(tokens, input.len());
    let e = expr(&mut tokens).unwrap_err();
    (e.kind, e.position)
}

#[test]
fn malformed_expressions_are_errors() {
    assert_eq!(parse_error("(1 + 2"), (ParseErrorKind::UnmatchedBracket, 6));
    assert_eq!(parse_error("a[1"), (ParseErrorKind::UnmatchedBracket, 3));
    assert_eq!(parse_error("1 +"), (ParseErrorKind::UnexpectedEof, 3));
    assert_eq!(parse_error(""), (ParseErrorKind::UnexpectedEof, 0));
    assert_eq!(parse_error("* 2"), (ParseErrorKind::UnexpectedToken, 0));
    assert_eq!(parse_error("{a 1}"), (ParseErrorKind::ExpectedColon, 3));
    assert_eq!(parse_error("f(1, "), (ParseErrorKind::UnexpectedEof, 5));
    assert_eq!(parse_error("for"), (ParseErrorKind::UnexpectedToken, 0));
}

#[test]
fn unary_and_comparison() {
    let mut strings = Strings::empty();
    let tokens = lex("-a < !b || c", &mut strings).unwrap();
    let mut tokens = Tokens::new(tokens, 12);
    let e = expr(&mut tokens).unwrap();
    assert_eq!(e.to_string(), "(|| (< (-<sid 0>) (!<sid 1>)) <sid 2>)");
}

#[test]
fn parsed_expressions_become_value_expressions() {
    let mut strings = Strings::empty();
    let source = "a.b[0] + 2 * 'x'";
    let tokens = lex(source, &mut strings).unwrap();
    let mut tokens = Tokens::new(tokens, source.len());
    let parsed = expr(&mut tokens).unwrap();
    let value = eval(&parsed, &strings).unwrap();
    let expected = add(
        index(anathema::testing::dot(ident("a"), ident("b")), unum(0)),
        mul(unum(2), strlit("x")),
    );
    assert!(value.same(&expected));
    assert!(!value.same(&unum(2)));

    let tokens = lex("a = 1", &mut strings).unwrap();
    let mut tokens = Tokens::new(tokens, 5);
    let assignment = expr(&mut tokens).unwrap();
    assert!(eval(&assignment, &strings).is_none());
}

fn parse(source: &str) -> Vec<ParseExpr> {
    statements(source).unwrap().exprs
}

fn statement_error(source: &str) -> (ParseErrorKind, usize) {
    match statements(source) {
        Err(Error::Parse(e)) => (e.kind, e.position),
        other => panic!("{:?}", other.map(|p| p.exprs)),
    }
}

#[test]
fn statements_and_scopes() {
    let source = "a\n    b [k: 1] 'txt'\n        view v\n    for x in xs\n        c\nif y\n    d\nelse if z\n    e\nelse\n    f\n";
    assert_eq!(
        parse(source),
        vec![
            ParseExpr::Node(0),
            ParseExpr::ScopeStart,
            ParseExpr::Node(1),
            ParseExpr::LoadAttribute { key: 2, value: 0 },
            ParseExpr::LoadText(0),
            ParseExpr::ScopeStart,
            ParseExpr::View(1),
            ParseExpr::ScopeEnd,
            ParseExpr::For { data: 2, binding: 4 },
            ParseExpr::ScopeStart,
            ParseExpr::Node(5),
            ParseExpr::ScopeEnd,
            ParseExpr::ScopeEnd,
            ParseExpr::If(3),
            ParseExpr::ScopeStart,
            ParseExpr::Node(6),
            ParseExpr::ScopeEnd,
            ParseExpr::Else(Some(4)),
            ParseExpr::ScopeStart,
            ParseExpr::Node(7),
            ParseExpr::ScopeEnd,
            ParseExpr::Else(None),
            ParseExpr::ScopeStart,
            ParseExpr::Node(8),
            ParseExpr::ScopeEnd,
            ParseExpr::Eof,
        ]
    );
}

#[test]
fn constants_are_interned() {
    let parsed = statements("a [x: 1 + 2, y: 1 + 2] 'hi'\nb [x: 3] 'hi'\n").unwrap();
    assert_eq!(
        parsed.exprs,
        vec![
            ParseExpr::Node(0),
            ParseExpr::LoadAttribute { key: 1, value: 0 },
            ParseExpr::LoadAttribute { key: 2, value: 0 },
            ParseExpr::LoadText(0),
            ParseExpr::Node(4),
            ParseExpr::LoadAttribute { key: 1, value: 1 },
            ParseExpr::LoadText(0),
            ParseExpr::Eof,
        ]
    );
    let consts: &Constants = &parsed.consts;
    assert_eq!(consts.lookup_string(StringId(3)).unwrap(), "hi");
    let text = consts.lookup_text(anathema::constants::TextId(0)).unwrap();
    assert_eq!(text.0, vec![TextPart::Literal(StringId(3))]);
    assert!(consts.lookup_text(anathema::constants::TextId(1)).is_none());
    let sum = consts.lookup_value(anathema::constants::ValueId(0)).unwrap();
    assert!(sum.same(&add(unum(1), unum(2))));
}

#[test]
fn texts_are_split_into_parts() {
    let parsed = statements("text 'a {{ b }} c' {{ d }} ''\n").unwrap();
    let text: &TextPath = parsed.consts.lookup_text(anathema::constants::TextId(0)).unwrap();
    assert_eq!(
        text.0,
        vec![
            TextPart::Literal(StringId(1)),
            TextPart::Path(anathema::constants::ValueId(0)),
            TextPart::Literal(StringId(2)),
            TextPart::Path(anathema::constants::ValueId(1)),
        ]
    );
    assert_eq!(parsed.consts.lookup_string(StringId(1)).unwrap(), "a ");
    assert_eq!(parsed.consts.lookup_string(StringId(2)).unwrap(), " c");
}

#[test]
fn parse_errors() {
    assert_eq!(statement_error("a\n        b\n    c\n"), (ParseErrorKind::InvalidIndent, 12));
    assert_eq!(statement_error("    a\nb\n"), (ParseErrorKind::InvalidIndent, 6));
    assert_eq!(statement_error("view v\n    a\n"), (ParseErrorKind::InvalidIndent, 7));
    assert_eq!(statement_error("for x xs\n"), (ParseErrorKind::MalformedHeader, 0));
    assert_eq!(statement_error("view 1\n"), (ParseErrorKind::MalformedHeader, 0));
    assert_eq!(statement_error("1\n"), (ParseErrorKind::MalformedHeader, 0));
    assert_eq!(statement_error("a [x 1]\n"), (ParseErrorKind::ExpectedColon, 5));
    assert_eq!(statement_error("a [x: 1\n"), (ParseErrorKind::MalformedHeader, 7));
    assert_eq!(statement_error("a [x: 1"), (ParseErrorKind::UnmatchedBracket, 7));
    assert_eq!(statement_error("if {{ x\n"), (ParseErrorKind::UnterminatedInterpolation, 7));
    assert_eq!(statement_error("text 'a {{ b'\n"), (ParseErrorKind::UnterminatedInterpolation, 5));
    assert_eq!(statement_error("text '{{ ? }}'\n"), (ParseErrorKind::InvalidInterpolation, 5));
    assert_eq!(statement_error("text '{{ a b }}'\n"), (ParseErrorKind::UnexpectedToken, 5));
    assert_eq!(statement_error("if a = 1\n    b\n"), (ParseErrorKind::InvalidExpression, 0));
    assert_eq!(statement_error("if 1.5\n    b\n"), (ParseErrorKind::InvalidExpression, 0));
    assert_eq!(statement_error("a b\n"), (ParseErrorKind::UnexpectedToken, 2));
    assert!(matches!(compile("a 'b\n"), Err(Error::Lex(_))));
}

#[test]
fn nested_node_with_attributes_and_text() {
    let source = "text [a: b] \"\"\n    span \"\"\n";
    let (stream, _) = instructions(source).unwrap();
    assert_eq!(
        stream,
        vec![
            Instruction::LoadAttribute { key: 1, value: 0 },
            Instruction::LoadText(0),
            Instruction::Node { ident: 0, scope_size: 2 },
            Instruction::LoadText(0),
            Instruction::Node { ident: 2, scope_size: 0 },
        ]
    );
    let templates = compile(source).unwrap();
    assert_eq!(templates.len(), 1);
    match &templates[0] {
        Template::Node { ident, attributes, text, children } => {
            assert_eq!(ident, "text");
            assert_eq!(attributes.len(), 1);
            assert!(attributes.get(&"a".to_string()).unwrap().same(&ident_expr("b")));
            match text {
                Some(Text::Fragments(fragments)) => assert!(fragments.is_empty()),
                _ => panic!("the text should be empty"),
            }
            assert_eq!(children.len(), 1);
            match &children[0] {
                Template::Node { ident, attributes, text, children } => {
                    assert_eq!(ident, "span");
                    assert_eq!(attributes.len(), 0);
                    assert!(text.is_some());
                    assert!(children.is_empty());
                }
                _ => panic!(),
            }
        }
        _ => panic!(),
    }
}

fn ident_expr(name: &str) -> ValueExpr {
    *ident(name)
}

#[test]
fn chains_and_loops_are_assembled() {
    let templates =
        compile("if a\n    x\nelse if b\n    y\nelse\n    z\nfor i in list\n    w 'n{{ i }}'\nview v\n")
            .unwrap();
    assert_eq!(templates.len(), 3);
    match &templates[0] {
        Template::ControlFlow(arms) => {
            assert_eq!(arms.len(), 3);
            assert!(matches!(&arms[0].cond, Cond::If(e) if e.same(&ident_expr("a"))));
            assert!(matches!(&arms[1].cond, Cond::Else(Some(e)) if e.same(&ident_expr("b"))));
            assert!(matches!(&arms[2].cond, Cond::Else(None)));
            assert_eq!(arms[1].body.len(), 1);
        }
        _ => panic!(),
    }
    match &templates[1] {
        Template::Loop { binding, data, body } => {
            assert_eq!(binding, "i");
            assert!(data.same(&ident_expr("list")));
            match &body[0] {
                Template::Node { text: Some(Text::Fragments(fragments)), .. } => {
                    assert_eq!(fragments.len(), 2);
                    assert!(fragments[0].is_string());
                    assert!(!fragments[1].is_string());
                    assert!(matches!(&fragments[1], Fragment::Data(e) if e.same(&ident_expr("i"))));
                }
                _ => panic!(),
            }
        }
        _ => panic!(),
    }
    assert!(matches!(&templates[2], Template::View(e) if e.same(&ident_expr("v"))));
}

#[test]
fn a_single_literal_is_a_string() {
    let templates = compile("text 'hello'\n").unwrap();
    match &templates[0] {
        Template::Node { text: Some(Text::String(s)), .. } => assert_eq!(s, "hello"),
        _ => panic!(),
    }
}

#[test]
fn a_stream_that_cannot_stand_is_refused() {
    let consts = Constants::new();
    let orphan = vec![Instruction::Else { cond: None, size: 0 }];
    assert!(matches!(Scope::new(orphan, &consts).exec(), Err(Error::OptimizerInvariant)));
    let too_long = vec![Instruction::Node { ident: 0, scope_size: 3 }];
    assert!(matches!(Scope::new(too_long, &consts).exec(), Err(Error::OptimizerInvariant)));
    let unknown = vec![Instruction::View(7)];
    assert!(matches!(Scope::new(unknown, &consts).exec(), Err(Error::OptimizerInvariant)));
    assert!(Scope::new(vec![], &consts).exec().unwrap().is_empty());
    assert!(matches!(compile("if x\nelse\n    c\n"), Err(Error::OptimizerInvariant)));
}

#[test]
fn assembling_the_optimized_list_is_walking_the_tree() {
    // the same templates come out of two ways of writing the same tree
    let a = compile("if x\nfor y in z\na [k: 1]\n    b\n").unwrap();
    let b = compile("a [k: 1]\n    b\n").unwrap();
    assert_eq!(a.len(), b.len());
    match (&a[0], &b[0]) {
        (
            Template::Node { ident: i1, attributes: a1, children: c1, .. },
            Template::Node { ident: i2, attributes: a2, children: c2, .. },
        ) => {
            assert_eq!(i1, i2);
            assert_eq!(a1.len(), a2.len());
            assert_eq!(c1.len(), c2.len());
        }
        _ => panic!(),
    }
}

#[test]
fn the_assembler_uses_its_instructions_up() {
    let mut consts = Constants::new();
    let a = consts.store_string("a".to_string());
    let b = consts.store_string("b".to_string());
    let x = consts.store_value(*ident("x"));
    let stream = vec![
        Instruction::If { cond: x.0, size: 1 },
        Instruction::Node { ident: a.0, scope_size: 0 },
        Instruction::Else { cond: None, size: 1 },
        Instruction::Node { ident: b.0, scope_size: 0 },
    ];
    let mut scope = Scope::new(stream, &consts);
    let templates = scope.exec().unwrap();
    assert_eq!(templates.len(), 1);
    match &templates[0] {
        Template::ControlFlow(arms) => {
            assert_eq!(arms.len(), 2);
            assert_eq!(arms[0].body.len(), 1);
            assert_eq!(arms[1].body.len(), 1);
        }
        _ => panic!("the instructions make a chain"),
    }
    // nothing is left to assemble
    assert!(scope.exec().unwrap().is_empty());
}
