use anathema::compiler::statements;
use anathema::optimizer::{is_well_scoped, Instruction, Optimizer};
use anathema::parser::ParseExpr;

fn parse(src: &str) -> Vec<Instruction> {
    let parsed = statements(src).unwrap();
    assert!(is_well_scoped(&parsed.exprs));
    let opt = Optimizer::new(parsed.exprs);
    opt.optimize()
}

fn optimize(input: Vec<ParseExpr>) -> Vec<Instruction> {
    assert!(is_well_scoped(&input));
    Optimizer::new(input).optimize()
}

#[test]
fn optimize_nested_scopes() {
    let src = "
        a
            a
            ";
    let mut expressions = parse(src);
    assert_eq!(expressions.remove(0), Instruction::Node { ident: 0, scope_size: 1 });
    assert_eq!(expressions.remove(0), Instruction::Node { ident: 0, scope_size: 0 });
}

#[test]
fn optimize_if() {
    let src = "
        if {{ a }}
            a
            ";
    let mut expressions = parse(src);
    assert_eq!(expressions.remove(0), Instruction::If { cond: 0, size: 1 });
    assert_eq!(expressions.remove(0), Instruction::Node { ident: 0, scope_size: 0 });
}

#[test]
fn optimize_else() {
    let src = "
        if {{ a }}
            a
        else
            a
            ";
    let mut expressions = parse(src);
    assert_eq!(expressions.remove(0), Instruction::If { cond: 0, size: 1 });
    assert_eq!(expressions.remove(0), Instruction::Node { ident: 0, scope_size: 0 });
    assert_eq!(expressions.remove(0), Instruction::Else { cond: None, size: 1 });
    assert_eq!(expressions.remove(0), Instruction::Node { ident: 0, scope_size: 0 });
}

#[test]
fn optimize_for() {
    let src = "
        a
        for b in {{ b }}
            a
            b
            ";
    let mut expressions = parse(src);
    assert_eq!(expressions.remove(0), Instruction::Node { ident: 0, scope_size: 0 });
    assert_eq!(expressions.remove(0), Instruction::For { data: 0, binding: 1, size: 2 });
    assert_eq!(expressions.remove(0), Instruction::Node { ident: 0, scope_size: 0 });
    assert_eq!(expressions.remove(0), Instruction::Node { ident: 1, scope_size: 0 });
}

#[test]
fn nested_ifs() {
    let src = "
        if {{ a }}
            if {{ a }}
                a
            ";
    let mut expressions = parse(src);
    assert_eq!(expressions.remove(0), Instruction::If { cond: 0, size: 2 });
    assert_eq!(expressions.remove(0), Instruction::If { cond: 0, size: 1 });
    assert_eq!(expressions.remove(0), Instruction::Node { ident: 0, scope_size: 0 });
}

#[test]
fn remove_empty_elses() {
    let src = "
        if {{ x }}
            a
            a
        else
        if {{ x }}
            a
        else
        b
        ";
    let mut expressions = parse(src);
    assert_eq!(expressions.remove(0), Instruction::If { cond: 0, size: 2 });
    assert_eq!(expressions.remove(0), Instruction::Node { ident: 0, scope_size: 0 });
    assert_eq!(expressions.remove(0), Instruction::Node { ident: 0, scope_size: 0 });
    assert_eq!(expressions.remove(0), Instruction::If { cond: 0, size: 1 });
    assert_eq!(expressions.remove(0), Instruction::Node { ident: 0, scope_size: 0 });
    assert_eq!(expressions.remove(0), Instruction::Node { ident: 1, scope_size: 0 });
}

#[test]
fn remove_empty_if() {
    let src = "
        if {{ data }}
        x
        ";
    let mut expressions = parse(src);
    assert_eq!(expressions.remove(0), Instruction::Node { ident: 0, scope_size: 0 });
    assert!(expressions.is_empty());
}

#[test]
fn remove_empty_else() {
    let src = "
            if {{ x }}
                x
            else
            x
        ";
    let mut expressions = parse(src);
    assert_eq!(expressions.remove(0), Instruction::If { cond: 0, size: 1 });
    assert_eq!(expressions.remove(0), Instruction::Node { ident: 0, scope_size: 0 });
    assert_eq!(expressions.remove(0), Instruction::Node { ident: 0, scope_size: 0 });
    assert!(expressions.is_empty());
}

#[test]
fn optimise_empty_if_else() {
    let src = "
            if {{ x }}
            else
            x
        ";
    let mut expressions = parse(src);
    assert_eq!(expressions.remove(0), Instruction::Node { ident: 0, scope_size: 0 });
    assert!(expressions.is_empty());
}

#[test]
fn optimise_empty_if_else_if() {
    let src = "
            if {{ x }}
            else if {{ x }}
            else
            x
        ";
    let mut expressions = parse(src);
    assert_eq!(expressions.remove(0), Instruction::Node { ident: 0, scope_size: 0 });
    assert!(expressions.is_empty());
}

#[test]
fn texts() {
    let src = r#"
            text [a: b] ""
                span ""
        "#;
    let mut expressions = parse(src);
    assert_eq!(expressions.remove(0), Instruction::LoadAttribute { key: 1, value: 0 });
    assert_eq!(expressions.remove(0), Instruction::LoadText(0));
    assert_eq!(expressions.remove(0), Instruction::Node { ident: 0, scope_size: 2 });
    assert_eq!(expressions.remove(0), Instruction::LoadText(0));
    assert_eq!(expressions.remove(0), Instruction::Node { ident: 2, scope_size: 0 });
    assert!(expressions.is_empty());
}

#[test]
fn else_behind_an_empty_if_keeps_its_body() {
    let src = "
if {{ x }}
else
    c
";
    let expressions = parse(src);
    assert_eq!(
        expressions,
        vec![
            Instruction::Else { cond: None, size: 1 },
            Instruction::Node { ident: 0, scope_size: 0 },
        ]
    );
}

#[test]
fn a_head_without_a_scope_leaves_no_trace() {
    let with = vec![
        ParseExpr::Node(0),
        ParseExpr::For { data: 0, binding: 1 },
        ParseExpr::If(3),
        ParseExpr::Else(None),
        ParseExpr::Node(1),
        ParseExpr::Eof,
    ];
    let without = vec![ParseExpr::Node(0), ParseExpr::Node(1), ParseExpr::Eof];
    assert_eq!(optimize(with), optimize(without));
}

#[test]
fn empty_else_takes_the_empty_if_before_it_away() {
    // if 0 { if 1 } else { for .. } : both bodies end up empty
    let input = vec![
        ParseExpr::If(0),
        ParseExpr::ScopeStart,
        ParseExpr::If(1),
        ParseExpr::ScopeEnd,
        ParseExpr::Else(None),
        ParseExpr::ScopeStart,
        ParseExpr::For { data: 0, binding: 0 },
        ParseExpr::ScopeEnd,
        ParseExpr::Node(7),
    ];
    assert_eq!(optimize(input), vec![Instruction::Node { ident: 7, scope_size: 0 }]);
}

#[test]
fn an_if_with_an_empty_scope_stays() {
    let input = vec![ParseExpr::If(0), ParseExpr::ScopeStart, ParseExpr::If(1), ParseExpr::ScopeEnd];
    assert_eq!(optimize(input), vec![Instruction::If { cond: 0, size: 0 }]);
}

#[test]
fn sizes_count_the_whole_body() {
    let input = vec![
        ParseExpr::For { data: 0, binding: 0 },
        ParseExpr::ScopeStart,
        ParseExpr::Node(1),
        ParseExpr::LoadAttribute { key: 2, value: 3 },
        ParseExpr::LoadText(4),
        ParseExpr::ScopeStart,
        ParseExpr::View(5),
        ParseExpr::ScopeEnd,
        ParseExpr::ScopeEnd,
        ParseExpr::View(6),
    ];
    assert_eq!(
        optimize(input),
        vec![
            Instruction::For { data: 0, binding: 0, size: 4 },
            Instruction::LoadAttribute { key: 2, value: 3 },
            Instruction::LoadText(4),
            Instruction::Node { ident: 1, scope_size: 1 },
            Instruction::View(5),
            Instruction::View(6),
        ]
    );
}

#[test]
fn scopes_are_checked() {
    assert!(is_well_scoped(&vec![ParseExpr::If(0), ParseExpr::ScopeStart, ParseExpr::ScopeEnd]));
    assert!(is_well_scoped(&vec![
        ParseExpr::Node(0),
        ParseExpr::LoadText(0),
        ParseExpr::ScopeStart,
        ParseExpr::ScopeEnd
    ]));
    assert!(!is_well_scoped(&vec![ParseExpr::ScopeStart, ParseExpr::ScopeEnd]));
    assert!(!is_well_scoped(&vec![ParseExpr::View(0), ParseExpr::ScopeStart, ParseExpr::ScopeEnd]));
    assert!(!is_well_scoped(&vec![ParseExpr::If(0), ParseExpr::ScopeStart]));
    assert!(!is_well_scoped(&vec![ParseExpr::ScopeEnd]));
    assert!(!is_well_scoped(&vec![
        ParseExpr::If(0),
        ParseExpr::LoadText(0),
        ParseExpr::ScopeStart,
        ParseExpr::ScopeEnd
    ]));
}
