use anathema::lexer::lex;
use anathema::pratt::{expr, Expr};
use anathema::strings::Strings;
use anathema::token::Tokens;

fn parse_expr(input: &str) -> Expr {
    let mut strings = Strings::empty();
    let tokens = lex(input, &mut strings).unwrap();
    let mut tokens = Tokens::new(tokens, input.len());

    expr(&mut tokens).unwrap()
}

fn parse(input: &str) -> String {
    let expression = parse_expr(input);
    expression.to_string()
}

#[test]
fn add_sub() {
    let input = "1 + 2";
    assert_eq!(parse(input), "(+ 1 2)");

    let input = "1 - 2";
    assert_eq!(parse(input), "(- 1 2)");
}

#[test]
fn mul_div() {
    let input = "5 + 1 * 2";
    assert_eq!(parse(input), "(+ 5 (* 1 2))");

    let input = "5 - 1 / 2";
    assert_eq!(parse(input), "(- 5 (/ 1 2))");
}

#[test]
fn brackets() {
    let input = "(5 + 1) * 2";
    assert_eq!(parse(input), "(* (+ 5 1) 2)");
}

#[test]
fn function() {
    let input = "fun(1, a + 2 * 3, 3)";
    assert_eq!(parse(input), "<sid 0>(1, (+ <sid 1> (* 2 3)), 3)");
}

#[test]
fn function_no_args() {
    let input = "f()";
    assert_eq!(parse(input), "<sid 0>()");
}

#[test]
fn array_index() {
    let input = "array[0][1]";
    assert_eq!(parse(input), "<sid 0>[0][1]");
}

#[test]
fn map_lookup() {
    let input = "map['key']";
    assert_eq!(parse(input), "<sid 0>[\"<sid 1>\"]");
}

#[test]
fn dot_lookup() {
    let input = "a.b.c";
    assert_eq!(parse(input), "(. (. <sid 0> <sid 1>) <sid 2>)");
}

#[test]
fn modulo() {
    let input = "5 + 1 % 2";
    assert_eq!(parse(input), "(+ 5 (% 1 2))");
}

#[test]
fn list() {
    let input = "[1, 2, a, 4]";
    assert_eq!(parse(input), "[1, 2, <sid 0>, 4]");
}

#[test]
fn nested_list() {
    let input = "[1, [2, 3, [4, 5]]]";
    assert_eq!(parse(input), "[1, [2, 3, [4, 5]]]");
}

#[test]
fn equality() {
    let input = "1 == 2";
    assert_eq!(parse(input), "(== 1 2)");
}

#[test]
fn map() {
    let input = "{a: 1, b: c}";
    assert_eq!(parse(input), "{<sid 0>: 1, <sid 1>: <sid 2>}");
}
