//! What the parser owes the optimizer: the statement list of every
//! template that parses is well scoped.
use vstd::prelude::*;
use crate::optimizer::{scan_scopes, scope_step, well_scoped, Opener, ScopeState};
use crate::parser::{
    attributes_spec, close_all, dedent, enter, parse_spec, program_spec, statement_spec,
    text_spec, ParseExpr, Tables,
};
use crate::pratt::resume;
use crate::token::{token_at, Kind, Operator, Token, Value};

verus! {

/// The scopes of `out` are open `depth` deep, and `opener` tells what may
/// follow.
pub open spec fn scoped(out: Seq<ParseExpr>, depth: nat, opener: Opener) -> bool {
    scan_scopes(out, out.len() as int) == Some(ScopeState { depth, opener })
}

proof fn lemma_scan_prefix(a: Seq<ParseExpr>, b: Seq<ParseExpr>, n: int)
    requires
        0 <= n <= a.len(),
    ensures
        scan_scopes(a + b, n) == scan_scopes(a, n),
    decreases n,
{
    if n > 0 {
        lemma_scan_prefix(a, b, n - 1);
        assert((a + b)[n - 1] == a[n - 1]);
    }
}

proof fn lemma_scan_push(out: Seq<ParseExpr>, e: ParseExpr)
    ensures
        scan_scopes(out.push(e), out.len() as int + 1) == match scan_scopes(
            out,
            out.len() as int,
        ) {
            Some(state) => scope_step(state, e),
            None => None,
        },
{
    assert(out.push(e) =~= out + seq![e]);
    lemma_scan_prefix(out, seq![e], out.len() as int);
    assert(out.push(e)[out.len() as int] == e);
}

/// Every statement from `from` on is a load of an attribute.
pub open spec fn attributes_from(exprs: Seq<ParseExpr>, from: int) -> bool {
    forall|i: int| from <= i < exprs.len() ==> (#[trigger] exprs[i]) is LoadAttribute
}

proof fn lemma_attributes(
    tokens: Seq<Token>,
    eof: usize,
    pos: int,
    tables: Tables,
    acc: Seq<ParseExpr>,
    from: int,
)
    requires
        0 <= from <= acc.len(),
        attributes_from(acc, from),
    ensures
        match attributes_spec(tokens, eof, pos, tables, acc) {
            Ok(read) => acc.len() <= read.exprs.len() && read.exprs.subrange(
                0,
                acc.len() as int,
            ) == acc && attributes_from(read.exprs, from),
            Err(_) => true,
        },
    decreases tokens.len() - pos,
{
    if 0 <= pos < tokens.len() {
        match tokens[pos].0 {
            Kind::Op(Operator::RBracket) => {
                assert(acc.subrange(0, acc.len() as int) =~= acc);
            },
            Kind::Op(Operator::Comma) => {
                lemma_attributes(tokens, eof, pos + 1, tables, acc, from);
            },
            Kind::Value(Value::Ident(key)) => {
                if token_at(tokens, eof, pos + 1).0 == Kind::Op(Operator::Colon) {
                    match crate::parser::store_name(tables, key, tokens[pos]) {
                        Ok(name) => match crate::parser::value_spec(tokens, eof, pos + 2) {
                            Ok(parsed) => match crate::parser::store_value(
                                name.tables,
                                parsed.value,
                                tokens[pos],
                            ) {
                                Ok(value) => {
                                    let next = acc.push(
                                        ParseExpr::LoadAttribute { key: name.id, value: value.id },
                                    );
                                    lemma_attributes(
                                        tokens,
                                        eof,
                                        resume(tokens, pos + 2, parsed.end),
                                        value.tables,
                                        next,
                                        from,
                                    );
                                    match attributes_spec(
                                        tokens,
                                        eof,
                                        resume(tokens, pos + 2, parsed.end),
                                        value.tables,
                                        next,
                                    ) {
                                        Ok(read) => {
                                            assert(read.exprs.subrange(0, acc.len() as int)
                                                =~= read.exprs.subrange(
                                                0,
                                                next.len() as int,
                                            ).subrange(0, acc.len() as int));
                                            assert(next.subrange(0, acc.len() as int) =~= acc);
                                        },
                                        Err(_) => {},
                                    }
                                },
                                Err(_) => {},
                            },
                            Err(_) => {},
                        },
                        Err(_) => {},
                    }
                }
            },
            _ => {},
        }
    }
}

/// Behind a node the loads of its attributes leave its scope free to
/// start.
proof fn lemma_scan_attributes(out: Seq<ParseExpr>, exprs: Seq<ParseExpr>, depth: nat, n: int)
    requires
        scoped(out, depth, Opener::Node),
        attributes_from(exprs, 0),
        0 <= n <= exprs.len(),
    ensures
        scan_scopes(out + exprs, out.len() + n) == Some(
            ScopeState { depth, opener: Opener::Node },
        ),
    decreases n,
{
    if n == 0 {
        lemma_scan_prefix(out, exprs, out.len() as int);
    } else {
        lemma_scan_attributes(out, exprs, depth, n - 1);
        assert((out + exprs)[out.len() + n - 1] == exprs[n - 1]);
    }
}

/// The scopes of `out` are open `depth` deep.
pub open spec fn at_depth(out: Seq<ParseExpr>, depth: nat) -> bool {
    match scan_scopes(out, out.len() as int) {
        Some(state) => state.depth == depth,
        None => false,
    }
}

/// A scope may start behind `out`.
pub open spec fn may_open(out: Seq<ParseExpr>) -> bool {
    match scan_scopes(out, out.len() as int) {
        Some(state) => state.opener != Opener::Closed,
        None => false,
    }
}

/// The statements of one line leave the depth as it is, and where the
/// line may open a scope, the scope may start behind them.
proof fn lemma_statement(
    tokens: Seq<Token>,
    eof: usize,
    pos: int,
    tables: Tables,
    out: Seq<ParseExpr>,
    depth: nat,
)
    requires
        at_depth(out, depth),
    ensures
        match statement_spec(tokens, eof, pos, tables) {
            Ok(statement) => at_depth(out + statement.exprs, depth) && (statement.opens
                ==> may_open(out + statement.exprs)),
            Err(_) => true,
        },
{
    let opener = scan_scopes(out, out.len() as int)->Some_0.opener;
    assert(scoped(out, depth, opener));
    match statement_spec(tokens, eof, pos, tables) {
        Ok(statement) => {
            let first = token_at(tokens, eof, pos);
            match first.0 {
                Kind::Value(Value::Ident(ident)) => {
                    let name = crate::parser::store_name(tables, ident, first)->Ok_0;
                    let node = seq![ParseExpr::Node(name.id)];
                    let attributes = if token_at(tokens, eof, pos + 1).0 == Kind::Op(
                        Operator::LBracket,
                    ) {
                        attributes_spec(tokens, eof, pos + 2, name.tables, node)
                    } else {
                        Ok(
                            crate::parser::Read {
                                exprs: node,
                                end: pos + 1,
                                tables: name.tables,
                            },
                        )
                    };
                    lemma_attributes(tokens, eof, pos + 2, name.tables, node, 1);
                    let read = attributes->Ok_0;
                    assert(read.exprs.subrange(0, 1) == node);
                    assert(read.exprs[0] == read.exprs.subrange(0, 1)[0]);
                    let loads = read.exprs.subrange(1, read.exprs.len() as int);
                    assert(read.exprs =~= node + loads);
                    let with_node = out.push(ParseExpr::Node(name.id));
                    lemma_scan_push(out, ParseExpr::Node(name.id));
                    assert(scoped(with_node, depth, Opener::Node));
                    assert(attributes_from(loads, 0)) by {
                        assert forall|i: int| 0 <= i < loads.len() implies (
                        #[trigger] loads[i]) is LoadAttribute by {
                            assert(loads[i] == read.exprs[i + 1]);
                        }
                    }
                    lemma_scan_attributes(with_node, loads, depth, loads.len() as int);
                    assert(with_node + loads =~= out + read.exprs);
                    assert(scoped(out + read.exprs, depth, Opener::Node));
                    let text = text_spec(
                        tokens,
                        eof,
                        read.end,
                        read.tables,
                        Seq::empty(),
                        false,
                    )->Ok_0;
                    if text.seen {
                        let last = ParseExpr::LoadText(
                            crate::parser::store_text(text.tables, text.parts).id,
                        );
                        lemma_scan_push(out + read.exprs, last);
                        assert(out + statement.exprs =~= (out + read.exprs).push(last));
                    }
                    assert(scoped(out + statement.exprs, depth, Opener::Node));
                },
                Kind::View => {
                    assert(statement.exprs.len() == 1);
                    lemma_scan_push(out, statement.exprs[0]);
                    assert(out + statement.exprs =~= out.push(statement.exprs[0]));
                    assert(scoped(out + statement.exprs, depth, Opener::Closed));
                },
                _ => {
                    assert(statement.exprs.len() == 1);
                    lemma_scan_push(out, statement.exprs[0]);
                    assert(out + statement.exprs =~= out.push(statement.exprs[0]));
                    assert(scoped(out + statement.exprs, depth, Opener::Head));
                },
            }
        },
        Err(_) => {},
    }
}

/// The depth that goes with the open indents: one scope for each indent
/// but the outermost.
pub open spec fn depth_of(indents: Seq<usize>) -> nat {
    if indents.len() == 0 {
        0
    } else {
        (indents.len() - 1) as nat
    }
}

proof fn lemma_dedent(indents: Seq<usize>, indent: usize, out: Seq<ParseExpr>)
    requires
        at_depth(out, depth_of(indents)),
    ensures
        match dedent(indents, indent, out) {
            Some(entered) => at_depth(entered.1, depth_of(entered.0)),
            None => true,
        },
    decreases indents.len(),
{
    if indents.len() == 0 {
    } else if indents.last() == indent {
    } else if indents.last() > indent {
        let rest = indents.drop_last();
        let closed = out.push(ParseExpr::ScopeEnd);
        if indents.len() >= 2 {
            lemma_scan_push(out, ParseExpr::ScopeEnd);
            lemma_dedent(rest, indent, closed);
        }
    }
}

proof fn lemma_enter(indents: Seq<usize>, indent: usize, opens: bool, out: Seq<ParseExpr>)
    requires
        at_depth(out, depth_of(indents)),
        opens ==> may_open(out),
    ensures
        match enter(indents, indent, opens, out) {
            Some(entered) => at_depth(entered.1, depth_of(entered.0)),
            None => true,
        },
{
    if indents.len() == 0 {
    } else if indent > indents.last() {
        if opens {
            lemma_scan_push(out, ParseExpr::ScopeStart);
        }
    } else {
        lemma_dedent(indents, indent, out);
    }
}

proof fn lemma_close_all(indents: Seq<usize>, out: Seq<ParseExpr>)
    requires
        at_depth(out, depth_of(indents)),
    ensures
        well_scoped(close_all(indents, out)),
    decreases indents.len(),
{
    if indents.len() <= 1 {
        lemma_scan_push(out, ParseExpr::Eof);
    } else {
        lemma_scan_push(out, ParseExpr::ScopeEnd);
        lemma_close_all(indents.drop_last(), out.push(ParseExpr::ScopeEnd));
    }
}

proof fn lemma_program(
    tokens: Seq<Token>,
    eof: usize,
    pos: int,
    tables: Tables,
    indents: Seq<usize>,
    opens: bool,
    out: Seq<ParseExpr>,
)
    requires
        at_depth(out, depth_of(indents)),
        opens ==> may_open(out),
    ensures
        match program_spec(tokens, eof, pos, tables, indents, opens, out) {
            Ok(program) => well_scoped(program.exprs),
            Err(_) => true,
        },
    decreases tokens.len() - pos,
{
    if pos < 0 || pos >= tokens.len() {
        lemma_close_all(indents, out);
    } else {
        match tokens[pos].0 {
            Kind::Eof => {
                lemma_close_all(indents, out);
            },
            Kind::Newline => {
                lemma_program(tokens, eof, pos + 1, tables, indents, opens, out);
            },
            Kind::Indent(indent) => {
                let next = token_at(tokens, eof, pos + 1);
                if next.0 is Newline || next.0 is Eof {
                    lemma_program(tokens, eof, pos + 1, tables, indents, opens, out);
                } else {
                    lemma_enter(indents, indent, opens, out);
                    match enter(indents, indent, opens, out) {
                        Some((open, begun)) => {
                            lemma_statement(tokens, eof, pos + 1, tables, begun, depth_of(open));
                            match statement_spec(tokens, eof, pos + 1, tables) {
                                Ok(statement) => {
                                    let end = resume(tokens, pos + 1, statement.end);
                                    lemma_program(
                                        tokens,
                                        eof,
                                        end,
                                        statement.tables,
                                        open,
                                        statement.opens,
                                        begun + statement.exprs,
                                    );
                                },
                                Err(_) => {},
                            }
                        },
                        None => {},
                    }
                }
            },
            _ => {},
        }
    }
}

/// The statement list of every template that parses is well scoped: each
/// scope starts behind a line that may open one, and every scope that
/// starts also ends. So the optimizer takes whatever the parser gives.
pub proof fn lemma_parsed_is_well_scoped(tokens: Seq<Token>, eof: usize, pos: int, tables: Tables)
    ensures
        match parse_spec(tokens, eof, pos, tables) {
            Ok(program) => well_scoped(program.exprs),
            Err(_) => true,
        },
{
    lemma_program(tokens, eof, pos, tables, Seq::empty(), false, Seq::empty());
}

} // verus!
