//! The statement parser: tokens to a flat list of statements, with the
//! scopes that indentation opens and closes written out.
use vstd::prelude::*;
use crate::constants::{Constants, Pool, TextPart, TextPath, ValueId};
use crate::eval::{eval, eval_spec, name_at};
use crate::lexer::{lex, lex_spec};
use crate::pratt::{
    agrees, error_at, expr, expr_spec, resume, Ast, Expr, ParseError, ParseErrorKind, Parsed,
};

use crate::strings::{intern, Strings};
use crate::token::{
    lemma_skip_indent_bounds, skip_indent, token_at, Kind, Operator, StringId, Token, Tokens,
    Value,
};
use crate::value::{Term, ValueExpr};

verus! {

/// One statement of the flat list. The numbers are ids into the constant
/// pool: `cond`, `data`, `value` and `View` name value expressions, `Node`,
/// `binding` and `key` name strings, `LoadText` names a text.
#[derive(Debug, Copy, Clone, PartialEq, Eq, Structural)]
pub enum ParseExpr {
    If(usize),
    Else(Option<usize>),
    For { data: usize, binding: usize },
    Node(usize),
    View(usize),
    LoadText(usize),
    LoadAttribute { key: usize, value: usize },
    ScopeStart,
    ScopeEnd,
    Eof,
}

/// The two tables that parsing fills: the strings of the lexer, which the
/// tokens refer to, and the constant pool, which the statements refer to.
pub struct Tables {
    pub names: Seq<Seq<char>>,
    pub pool: Pool,
}

/// What storing a constant leaves: its id, and the tables.
pub struct Stored {
    pub id: usize,
    pub tables: Tables,
}

/// Interns the string that the lexer knows as `id` into the pool.
pub open spec fn store_name(tables: Tables, id: StringId, at: Token) -> Result<
    Stored,
    ParseError,
> {
    match name_at(tables.names, id) {
        Some(name) => Ok(
            Stored {
                id: intern(tables.pool.strings, name).1 as usize,
                tables: Tables {
                    names: tables.names,
                    pool: Pool {
                        strings: intern(tables.pool.strings, name).0,
                        texts: tables.pool.texts,
                        values: tables.pool.values,
                    },
                },
            },
        ),
        None => Err(error_at(ParseErrorKind::InvalidExpression, at)),
    }
}

/// Interns a value expression into the pool.
pub open spec fn store_term(tables: Tables, term: Term) -> Stored {
    Stored {
        id: intern(tables.pool.values, term).1 as usize,
        tables: Tables {
            names: tables.names,
            pool: Pool {
                strings: tables.pool.strings,
                texts: tables.pool.texts,
                values: intern(tables.pool.values, term).0,
            },
        },
    }
}

/// Evaluates a parsed expression and interns it into the pool.
pub open spec fn store_value(tables: Tables, ast: Ast, at: Token) -> Result<Stored, ParseError> {
    match eval_spec(ast, tables.names) {
        Some(term) => Ok(store_term(tables, term)),
        None => Err(error_at(ParseErrorKind::InvalidExpression, at)),
    }
}

/// Interns a text into the pool.
pub open spec fn store_text(tables: Tables, parts: Seq<TextPart>) -> Stored {
    Stored {
        id: intern(tables.pool.texts, parts).1 as usize,
        tables: Tables {
            names: tables.names,
            pool: Pool {
                strings: tables.pool.strings,
                texts: intern(tables.pool.texts, parts).0,
                values: tables.pool.values,
            },
        },
    }
}

/// The expression at `pos`, bare or between `{{` and `}}`.
pub open spec fn value_spec(tokens: Seq<Token>, eof: usize, pos: int) -> Result<
    Parsed<Ast>,
    ParseError,
> {
    let p = skip_indent(tokens, pos);
    if 0 <= p < tokens.len() && tokens[p].0 == Kind::Op(Operator::LDoubleCurly) {
        match expr_spec(tokens, eof, p + 1) {
            Ok(inner) => {
                let q = skip_indent(tokens, resume(tokens, p + 1, inner.end));
                if q < tokens.len() && tokens[q].0 == Kind::Op(Operator::RDoubleCurly) {
                    Ok(Parsed { value: inner.value, end: q + 1 })
                } else {
                    Err(
                        error_at(
                            ParseErrorKind::UnterminatedInterpolation,
                            token_at(tokens, eof, q),
                        ),
                    )
                }
            },
            Err(e) => Err(e),
        }
    } else {
        expr_spec(tokens, eof, pos)
    }
}

/// The first place at or after `i` where `c` stands twice in a row; the
/// length of `content` if there is none.
pub open spec fn find_pair(content: Seq<char>, i: int, c: char) -> int
    decreases content.len() - i,
{
    if i < 0 || i >= content.len() {
        content.len() as int
    } else if i + 1 < content.len() && content[i] == c && content[i + 1] == c {
        i
    } else {
        find_pair(content, i + 1, c)
    }
}

pub proof fn lemma_find_pair(content: Seq<char>, i: int, c: char)
    requires
        0 <= i <= content.len(),
    ensures
        i <= find_pair(content, i, c) <= content.len(),
        find_pair(content, i, c) < content.len() ==> find_pair(content, i, c) + 2
            <= content.len(),
    decreases content.len() - i,
{
    if i < content.len() && !(i + 1 < content.len() && content[i] == c && content[i + 1] == c) {
        lemma_find_pair(content, i + 1, c);
    }
}

/// The expression written in `chars`, which must hold nothing else,
/// evaluated and interned.
pub open spec fn inline_value(chars: Seq<char>, tables: Tables) -> Result<Stored, ParseErrorKind> {
    match lex_spec(chars, tables.names) {
        Err(_) => Err(ParseErrorKind::InvalidInterpolation),
        Ok(lexed) => match expr_spec(lexed.tokens, 0, 0) {
            Err(e) => Err(e.kind),
            Ok(parsed) => {
                let rest = skip_indent(lexed.tokens, resume(lexed.tokens, 1, parsed.end));
                if token_at(lexed.tokens, 0, rest).0 is Eof {
                    match eval_spec(parsed.value, lexed.table) {
                        Some(term) => Ok(
                            store_term(Tables { names: lexed.table, pool: tables.pool }, term),
                        ),
                        None => Err(ParseErrorKind::InvalidExpression),
                    }
                } else {
                    Err(ParseErrorKind::UnexpectedToken)
                }
            },
        },
    }
}

/// The parts of a text, and the tables they were stored in.
pub struct Parts {
    pub parts: Seq<TextPart>,
    pub tables: Tables,
}

/// `parts` with the literal `content[from..to]` behind it, if it is not
/// empty.
pub open spec fn with_literal(content: Seq<char>, from: int, to: int, acc: Parts) -> Parts {
    if from < to {
        let literal = content.subrange(from, to);
        Parts {
            parts: acc.parts.push(
                TextPart::Literal(StringId(intern(acc.tables.pool.strings, literal).1 as usize)),
            ),
            tables: Tables {
                names: acc.tables.names,
                pool: Pool {
                    strings: intern(acc.tables.pool.strings, literal).0,
                    texts: acc.tables.pool.texts,
                    values: acc.tables.pool.values,
                },
            },
        }
    } else {
        acc
    }
}

/// The parts that the content of a string makes from `from` on, behind
/// those in `acc`: what stands between `{{` and `}}` is an expression, the
/// rest are literals.
pub open spec fn split_text(content: Seq<char>, from: int, acc: Parts) -> Result<
    Parts,
    ParseErrorKind,
>
    decreases content.len() - from,
{
    if from < 0 || from > content.len() {
        Ok(acc)
    } else {
        let open = find_pair(content, from, '{');
        let read = with_literal(content, from, open, acc);
        proof {
            lemma_find_pair(content, from, '{');
        }
        if open >= content.len() {
            Ok(read)
        } else {
            let close = find_pair(content, open + 2, '}');
            proof {
                lemma_find_pair(content, open + 2, '}');
            }
            if close >= content.len() {
                Err(ParseErrorKind::UnterminatedInterpolation)
            } else {
                match inline_value(content.subrange(open + 2, close), read.tables) {
                    Ok(stored) => split_text(
                        content,
                        close + 2,
                        Parts {
                            parts: read.parts.push(TextPart::Path(ValueId(stored.id))),
                            tables: stored.tables,
                        },
                    ),
                    Err(kind) => Err(kind),
                }
            }
        }
    }
}

/// What reading the text of a node line gives.
pub struct TextRead {
    pub parts: Seq<TextPart>,
    /// Whether the line holds a text at all.
    pub seen: bool,
    pub end: int,
    pub tables: Tables,
}

/// The text that starts at `pos`: strings and `{{ expression }}` spans, as
/// many as follow each other.
pub open spec fn text_spec(
    tokens: Seq<Token>,
    eof: usize,
    pos: int,
    tables: Tables,
    parts: Seq<TextPart>,
    seen: bool,
) -> Result<TextRead, ParseError>
    decreases tokens.len() - pos,
{
    if pos < 0 || pos >= tokens.len() {
        Ok(TextRead { parts, seen, end: pos, tables })
    } else {
        match tokens[pos].0 {
            Kind::Value(Value::String(id)) => match name_at(tables.names, id) {
                Some(content) => match split_text(content, 0, Parts { parts, tables }) {
                    Ok(read) => text_spec(tokens, eof, pos + 1, read.tables, read.parts, true),
                    Err(kind) => Err(error_at(kind, tokens[pos])),
                },
                None => Err(error_at(ParseErrorKind::InvalidExpression, tokens[pos])),
            },
            Kind::Op(Operator::LDoubleCurly) => match value_spec(tokens, eof, pos) {
                Ok(parsed) => match store_value(tables, parsed.value, tokens[pos]) {
                    Ok(stored) => text_spec(
                        tokens,
                        eof,
                        resume(tokens, pos + 1, parsed.end),
                        stored.tables,
                        parts.push(TextPart::Path(ValueId(stored.id))),
                        true,
                    ),
                    Err(e) => Err(e),
                },
                Err(e) => Err(e),
            },
            _ => Ok(TextRead { parts, seen, end: pos, tables }),
        }
    }
}

/// What reading a part of a line gives: the statements, the position
/// behind them, and the tables.
pub struct Read {
    pub exprs: Seq<ParseExpr>,
    pub end: int,
    pub tables: Tables,
}

/// The attributes from `pos` up to the closing bracket, which is read too:
/// `key: expression`, with commas between them.
pub open spec fn attributes_spec(
    tokens: Seq<Token>,
    eof: usize,
    pos: int,
    tables: Tables,
    acc: Seq<ParseExpr>,
) -> Result<Read, ParseError>
    decreases tokens.len() - pos,
{
    if pos < 0 || pos >= tokens.len() {
        Err(ParseError { kind: ParseErrorKind::UnmatchedBracket, position: eof })
    } else {
        match tokens[pos].0 {
            Kind::Op(Operator::RBracket) => Ok(Read { exprs: acc, end: pos + 1, tables }),
            Kind::Op(Operator::Comma) => attributes_spec(tokens, eof, pos + 1, tables, acc),
            Kind::Value(Value::Ident(key)) => if token_at(tokens, eof, pos + 1).0 == Kind::Op(
                Operator::Colon,
            ) {
                match store_name(tables, key, tokens[pos]) {
                    Ok(name) => match value_spec(tokens, eof, pos + 2) {
                        Ok(parsed) => match store_value(name.tables, parsed.value, tokens[pos]) {
                            Ok(value) => attributes_spec(
                                tokens,
                                eof,
                                resume(tokens, pos + 2, parsed.end),
                                value.tables,
                                acc.push(
                                    ParseExpr::LoadAttribute { key: name.id, value: value.id },
                                ),
                            ),
                            Err(e) => Err(e),
                        },
                        Err(e) => Err(e),
                    },
                    Err(e) => Err(e),
                }
            } else {
                Err(error_at(ParseErrorKind::ExpectedColon, token_at(tokens, eof, pos + 1)))
            },
            Kind::Eof => Err(error_at(ParseErrorKind::UnmatchedBracket, tokens[pos])),
            _ => Err(error_at(ParseErrorKind::MalformedHeader, tokens[pos])),
        }
    }
}

/// What one line holds.
pub struct Statement {
    pub exprs: Seq<ParseExpr>,
    /// Whether a scope may follow: true of `if`, `else`, `for` and nodes.
    pub opens: bool,
    pub end: int,
    pub tables: Tables,
}

/// The expression of a head: its id in the pool, the position behind it,
/// and the tables.
pub struct Head {
    pub id: usize,
    pub end: int,
    pub tables: Tables,
}

/// Reads the expression of a head, which starts at `pos`, and interns it.
pub open spec fn head_spec(
    tokens: Seq<Token>,
    eof: usize,
    pos: int,
    tables: Tables,
    at: Token,
) -> Result<Head, ParseError> {
    match value_spec(tokens, eof, pos) {
        Ok(parsed) => match store_value(tables, parsed.value, at) {
            Ok(stored) => Ok(Head { id: stored.id, end: parsed.end, tables: stored.tables }),
            Err(e) => Err(e),
        },
        Err(e) => Err(e),
    }
}

/// The statement that starts at `pos`:
///
/// * `for name in expression`
/// * `if expression`
/// * `else`, or `else if expression`
/// * `view name`
/// * `name`, then attributes in square brackets, then a text, both optional
pub open spec fn statement_spec(tokens: Seq<Token>, eof: usize, pos: int, tables: Tables) -> Result<
    Statement,
    ParseError,
> {
    let first = token_at(tokens, eof, pos);
    match first.0 {
        Kind::For => match (token_at(tokens, eof, pos + 1).0, token_at(tokens, eof, pos + 2).0) {
            (Kind::Value(Value::Ident(binding)), Kind::In) => match store_name(
                tables,
                binding,
                first,
            ) {
                Ok(name) => match head_spec(tokens, eof, pos + 3, name.tables, first) {
                    Ok(read) => Ok(
                        Statement {
                            exprs: seq![ParseExpr::For { data: read.id, binding: name.id }],
                            opens: true,
                            end: read.end,
                            tables: read.tables,
                        },
                    ),
                    Err(e) => Err(e),
                },
                Err(e) => Err(e),
            },
            _ => Err(error_at(ParseErrorKind::MalformedHeader, first)),
        },
        Kind::If => match head_spec(tokens, eof, pos + 1, tables, first) {
            Ok(read) => Ok(
                Statement {
                    exprs: seq![ParseExpr::If(read.id)],
                    opens: true,
                    end: read.end,
                    tables: read.tables,
                },
            ),
            Err(e) => Err(e),
        },
        Kind::Else => if token_at(tokens, eof, pos + 1).0 is If {
            match head_spec(tokens, eof, pos + 2, tables, first) {
                Ok(read) => Ok(
                    Statement {
                        exprs: seq![ParseExpr::Else(Some(read.id))],
                        opens: true,
                        end: read.end,
                        tables: read.tables,
                    },
                ),
                Err(e) => Err(e),
            }
        } else {
            Ok(Statement { exprs: seq![ParseExpr::Else(None)], opens: true, end: pos + 1, tables })
        },
        Kind::View => match token_at(tokens, eof, pos + 1).0 {
            Kind::Value(Value::Ident(id)) => match name_at(tables.names, id) {
                Some(name) => Ok(
                    Statement {
                        exprs: seq![ParseExpr::View(store_term(tables, Term::Ident(name)).id)],
                        opens: false,
                        end: pos + 2,
                        tables: store_term(tables, Term::Ident(name)).tables,
                    },
                ),
                None => Err(error_at(ParseErrorKind::InvalidExpression, first)),
            },
            _ => Err(error_at(ParseErrorKind::MalformedHeader, first)),
        },
        Kind::Value(Value::Ident(ident)) => match store_name(tables, ident, first) {
            Ok(name) => {
                let attributes = if token_at(tokens, eof, pos + 1).0 == Kind::Op(
                    Operator::LBracket,
                ) {
                    attributes_spec(tokens, eof, pos + 2, name.tables, seq![ParseExpr::Node(name.id)])
                } else {
                    Ok(
                        Read {
                            exprs: seq![ParseExpr::Node(name.id)],
                            end: pos + 1,
                            tables: name.tables,
                        },
                    )
                };
                match attributes {
                    Ok(read) => match text_spec(
                        tokens,
                        eof,
                        read.end,
                        read.tables,
                        Seq::empty(),
                        false,
                    ) {
                        Ok(text) => if text.seen {
                            Ok(
                                Statement {
                                    exprs: read.exprs.push(
                                        ParseExpr::LoadText(
                                            store_text(text.tables, text.parts).id,
                                        ),
                                    ),
                                    opens: true,
                                    end: text.end,
                                    tables: store_text(text.tables, text.parts).tables,
                                },
                            )
                        } else {
                            Ok(
                                Statement {
                                    exprs: read.exprs,
                                    opens: true,
                                    end: text.end,
                                    tables: text.tables,
                                },
                            )
                        },
                        Err(e) => Err(e),
                    },
                    Err(e) => Err(e),
                }
            },
            Err(e) => Err(e),
        },
        _ => Err(error_at(ParseErrorKind::MalformedHeader, first)),
    }
}

/// The open indents and the statements behind a dedent to `indent`: a scope
/// ends for every indent that is deeper. `None` if no line above is
/// indented by `indent`.
pub open spec fn dedent(indents: Seq<usize>, indent: usize, out: Seq<ParseExpr>) -> Option<
    (Seq<usize>, Seq<ParseExpr>),
>
    decreases indents.len(),
{
    if indents.len() == 0 {
        None
    } else if indents.last() == indent {
        Some((indents, out))
    } else if indents.last() > indent {
        dedent(indents.drop_last(), indent, out.push(ParseExpr::ScopeEnd))
    } else {
        None
    }
}

/// The open indents and the statements at the start of a line indented by
/// `indent`. The first line sets the outermost indent. A deeper indent
/// starts a scope, which only a line that `opens` allows. A shallower one
/// ends scopes.
pub open spec fn enter(indents: Seq<usize>, indent: usize, opens: bool, out: Seq<ParseExpr>) -> Option<
    (Seq<usize>, Seq<ParseExpr>),
> {
    if indents.len() == 0 {
        Some((seq![indent], out))
    } else if indent > indents.last() {
        if opens {
            Some((indents.push(indent), out.push(ParseExpr::ScopeStart)))
        } else {
            None
        }
    } else {
        dedent(indents, indent, out)
    }
}

/// `out` with the end of every scope that is still open, and the end of
/// the list.
pub open spec fn close_all(indents: Seq<usize>, out: Seq<ParseExpr>) -> Seq<ParseExpr>
    decreases indents.len(),
{
    if indents.len() <= 1 {
        out.push(ParseExpr::Eof)
    } else {
        close_all(indents.drop_last(), out.push(ParseExpr::ScopeEnd))
    }
}

/// The statements of a template, and the tables they refer to.
pub struct Program {
    pub exprs: Seq<ParseExpr>,
    pub tables: Tables,
}

/// The statements of the lines from `pos` on, behind those in `out`.
/// `indents` holds the indents of the scopes that are open, and `opens`
/// tells whether the last statement may be followed by a scope. A line is
/// an indent, a statement and a line break; a line without a statement is
/// passed over.
pub open spec fn program_spec(
    tokens: Seq<Token>,
    eof: usize,
    pos: int,
    tables: Tables,
    indents: Seq<usize>,
    opens: bool,
    out: Seq<ParseExpr>,
) -> Result<Program, ParseError>
    decreases tokens.len() - pos,
{
    if pos < 0 || pos >= tokens.len() {
        Ok(Program { exprs: close_all(indents, out), tables })
    } else {
        match tokens[pos].0 {
            Kind::Eof => Ok(Program { exprs: close_all(indents, out), tables }),
            Kind::Newline => program_spec(tokens, eof, pos + 1, tables, indents, opens, out),
            Kind::Indent(indent) => {
                let next = token_at(tokens, eof, pos + 1);
                if next.0 is Newline || next.0 is Eof {
                    program_spec(tokens, eof, pos + 1, tables, indents, opens, out)
                } else {
                    match enter(indents, indent, opens, out) {
                        Some((open, begun)) => match statement_spec(
                            tokens,
                            eof,
                            pos + 1,
                            tables,
                        ) {
                            Ok(statement) => {
                                let end = resume(tokens, pos + 1, statement.end);
                                let after = token_at(tokens, eof, end);
                                if after.0 is Newline || after.0 is Eof {
                                    program_spec(
                                        tokens,
                                        eof,
                                        end,
                                        statement.tables,
                                        open,
                                        statement.opens,
                                        begun + statement.exprs,
                                    )
                                } else {
                                    Err(error_at(ParseErrorKind::UnexpectedToken, after))
                                }
                            },
                            Err(e) => Err(e),
                        },
                        None => Err(error_at(ParseErrorKind::InvalidIndent, tokens[pos])),
                    }
                }
            },
            _ => Err(error_at(ParseErrorKind::UnexpectedToken, tokens[pos])),
        }
    }
}

/// The statements of a template.
pub open spec fn parse_spec(tokens: Seq<Token>, eof: usize, pos: int, tables: Tables) -> Result<
    Program,
    ParseError,
> {
    program_spec(tokens, eof, pos, tables, Seq::empty(), false, Seq::empty())
}

/// The tables as two exec values hold them.
pub open spec fn tables_of(names: Strings, consts: Constants) -> Tables {
    Tables { names: names@, pool: consts@ }
}

/// The cursor moved, if at all, forward over the same tokens.
pub open spec fn moved_on(before: Tokens, after: Tokens) -> bool {
    &&& after.wf()
    &&& after.tokens() == before.tokens()
    &&& after.eof() == before.eof()
    &&& before.pos() <= after.pos()
}

fn intern_name(names: &Strings, consts: &mut Constants, id: StringId, at: Token) -> (r: Result<
    usize,
    ParseError,
>)
    ensures
        match store_name(tables_of(*names, *old(consts)), id, at) {
            Ok(stored) => r == Ok::<usize, ParseError>(stored.id) && tables_of(
                *names,
                *final(consts),
            ) == stored.tables,
            Err(e) => r == Err::<usize, ParseError>(e),
        },
{
    match names.get(id) {
        Some(name) => {
            let stored = consts.store_string(name.clone());
            Ok(stored.0)
        },
        None => Err(ParseError { kind: ParseErrorKind::InvalidExpression, position: at.1 }),
    }
}

fn intern_value(names: &Strings, consts: &mut Constants, expr: &Expr, at: Token) -> (r: Result<
    usize,
    ParseError,
>)
    ensures
        match store_value(tables_of(*names, *old(consts)), expr@, at) {
            Ok(stored) => r == Ok::<usize, ParseError>(stored.id) && tables_of(
                *names,
                *final(consts),
            ) == stored.tables,
            Err(e) => r == Err::<usize, ParseError>(e),
        },
{
    match eval(expr, names) {
        Some(value) => {
            let stored = consts.store_value(value);
            Ok(stored.0)
        },
        None => Err(ParseError { kind: ParseErrorKind::InvalidExpression, position: at.1 }),
    }
}

/// Reads the expression at the cursor, bare or between `{{` and `}}`.
fn parse_value(tokens: &mut Tokens) -> (r: Result<Expr, ParseError>)
    requires
        old(tokens).wf(),
    ensures
        agrees(
            *old(tokens),
            *final(tokens),
            value_spec(old(tokens).tokens(), old(tokens).eof(), old(tokens).pos()),
            r,
        ),
{
    let ghost ts = tokens.tokens();
    let ghost start = tokens.pos();
    proof {
        lemma_skip_indent_bounds(ts, start);
    }
    let token = tokens.peek_skip_indent();
    proof {
        lemma_skip_indent_bounds(ts, tokens.pos());
    }
    if matches!(token.0, Kind::Op(Operator::LDoubleCurly)) {
        tokens.consume();
        match expr(tokens) {
            Ok(inner) => {
                proof {
                    lemma_skip_indent_bounds(ts, tokens.pos());
                }
                let close = tokens.next_no_indent();
                if matches!(close.0, Kind::Op(Operator::RDoubleCurly)) {
                    Ok(inner)
                } else {
                    Err(
                        ParseError {
                            kind: ParseErrorKind::UnterminatedInterpolation,
                            position: close.1,
                        },
                    )
                }
            },
            Err(e) => Err(e),
        }
    } else {
        expr(tokens)
    }
}

/// Reads the expression of a head and interns it.
fn parse_head(tokens: &mut Tokens, names: &Strings, consts: &mut Constants, at: Token) -> (r:
    Result<usize, ParseError>)
    requires
        old(tokens).wf(),
    ensures
        moved_on(*old(tokens), *final(tokens)),
        match head_spec(
            old(tokens).tokens(),
            old(tokens).eof(),
            old(tokens).pos(),
            tables_of(*names, *old(consts)),
            at,
        ) {
            Ok(head) => r == Ok::<usize, ParseError>(head.id) && final(tokens).pos() == head.end
                && old(tokens).pos() < head.end && tables_of(*names, *final(consts))
                == head.tables,
            Err(e) => r == Err::<usize, ParseError>(e),
        },
{
    match parse_value(tokens) {
        Ok(value) => intern_value(names, consts, &value, at),
        Err(e) => Err(e),
    }
}

fn find_pair_from(content: &Vec<char>, from: usize, c: char) -> (r: usize)
    requires
        from <= content.len(),
    ensures
        r == find_pair(content@, from as int, c),
        from <= r <= content.len(),
        r < content.len() ==> r + 2 <= content.len(),
{
    let mut i = from;
    proof {
        lemma_find_pair(content@, from as int, c);
    }
    while i < content.len() && !(i + 1 < content.len() && content[i] == c && content[i + 1] == c)
        invariant
            from <= i <= content.len(),
            find_pair(content@, i as int, c) == find_pair(content@, from as int, c),
        decreases content.len() - i,
    {
        i += 1;
    }
    i
}

/// Reads the expression written in `content[from..to]`, which must hold
/// nothing else, and interns it.
fn parse_inline(
    content: &Vec<char>,
    from: usize,
    to: usize,
    names: &mut Strings,
    consts: &mut Constants,
) -> (r: Result<usize, ParseErrorKind>)
    requires
        from <= to <= content.len(),
    ensures
        match inline_value(
            content@.subrange(from as int, to as int),
            tables_of(*old(names), *old(consts)),
        ) {
            Ok(stored) => r == Ok::<usize, ParseErrorKind>(stored.id) && tables_of(
                *final(names),
                *final(consts),
            ) == stored.tables,
            Err(kind) => r == Err::<usize, ParseErrorKind>(kind),
        },
{
    let source = crate::lexer::copy_range(content, from, to);
    let inner = match lex(source.as_str(), names) {
        Ok(inner) => inner,
        Err(_) => {
            return Err(ParseErrorKind::InvalidInterpolation);
        },
    };
    let mut tokens = Tokens::new(inner, 0);
    let parsed = match expr(&mut tokens) {
        Ok(parsed) => parsed,
        Err(e) => {
            return Err(e.kind);
        },
    };
    proof {
        lemma_skip_indent_bounds(tokens.tokens(), tokens.pos());
    }
    let rest = tokens.peek_skip_indent();
    if !matches!(rest.0, Kind::Eof) {
        return Err(ParseErrorKind::UnexpectedToken);
    }
    match eval(&parsed, names) {
        Some(value) => {
            let stored = consts.store_value(value);
            Ok(stored.0)
        },
        None => Err(ParseErrorKind::InvalidExpression),
    }
}

/// Splits the content of a string into the parts of a text; see
/// [`split_text`].
fn split_content(
    content: &Vec<char>,
    names: &mut Strings,
    consts: &mut Constants,
    parts: &mut Vec<TextPart>,
) -> (r: Result<(), ParseErrorKind>)
    ensures
        match split_text(
            content@,
            0,
            Parts { parts: old(parts)@, tables: tables_of(*old(names), *old(consts)) },
        ) {
            Ok(read) => r is Ok && final(parts)@ == read.parts && tables_of(
                *final(names),
                *final(consts),
            ) == read.tables,
            Err(kind) => r == Err::<(), ParseErrorKind>(kind),
        },
{
    let ghost goal = split_text(
        content@,
        0,
        Parts { parts: parts@, tables: tables_of(*names, *consts) },
    );
    let mut from: usize = 0;
    loop
        invariant
            from <= content.len(),
            split_text(
                content@,
                from as int,
                Parts { parts: parts@, tables: tables_of(*names, *consts) },
            ) == goal,
            goal == split_text(
                content@,
                0,
                Parts { parts: old(parts)@, tables: tables_of(*old(names), *old(consts)) },
            ),
        decreases content.len() - from,
    {
        let open = find_pair_from(content, from, '{');
        if from < open {
            let literal = crate::lexer::copy_range(content, from, open);
            let id = consts.store_string(literal);
            parts.push(TextPart::Literal(id));
        }
        if open >= content.len() {
            return Ok(());
        }
        let close = find_pair_from(content, open + 2, '}');
        if close >= content.len() {
            return Err(ParseErrorKind::UnterminatedInterpolation);
        }
        match parse_inline(content, open + 2, close, names, consts) {
            Ok(id) => {
                parts.push(TextPart::Path(ValueId(id)));
            },
            Err(kind) => {
                return Err(kind);
            },
        }
        from = close + 2;
    }
}

/// Reads the text of a node line; see [`text_spec`]. Returns whether the
/// line holds a text.
fn parse_text(
    tokens: &mut Tokens,
    names: &mut Strings,
    consts: &mut Constants,
    parts: &mut Vec<TextPart>,
) -> (r: Result<bool, ParseError>)
    requires
        old(tokens).wf(),
        old(parts)@.len() == 0,
    ensures
        moved_on(*old(tokens), *final(tokens)),
        match text_spec(
            old(tokens).tokens(),
            old(tokens).eof(),
            old(tokens).pos(),
            tables_of(*old(names), *old(consts)),
            Seq::empty(),
            false,
        ) {
            Ok(read) => r == Ok::<bool, ParseError>(read.seen) && final(parts)@ == read.parts
                && final(tokens).pos() == read.end && tables_of(*final(names), *final(consts))
                == read.tables,
            Err(e) => r == Err::<bool, ParseError>(e),
        },
{
    let ghost ts = tokens.tokens();
    let ghost eof = tokens.eof();
    let ghost goal = text_spec(
        ts,
        eof,
        tokens.pos(),
        tables_of(*names, *consts),
        Seq::empty(),
        false,
    );
    let mut seen = false;
    assert(parts@ =~= Seq::<TextPart>::empty());
    loop
        invariant
            moved_on(*old(tokens), *tokens),
            ts == old(tokens).tokens(),
            eof == old(tokens).eof(),
            text_spec(ts, eof, tokens.pos(), tables_of(*names, *consts), parts@, seen) == goal,
            goal == text_spec(
                ts,
                eof,
                old(tokens).pos(),
                tables_of(*old(names), *old(consts)),
                Seq::empty(),
                false,
            ),
        decreases ts.len() - tokens.pos(),
    {
        let token = tokens.peek();
        match token.0 {
            Kind::Value(Value::String(id)) => {
                let content = match names.get(id) {
                    Some(content) => crate::lexer::to_chars(content.as_str()),
                    None => {
                        return Err(
                            ParseError {
                                kind: ParseErrorKind::InvalidExpression,
                                position: token.1,
                            },
                        );
                    },
                };
                match split_content(&content, names, consts, parts) {
                    Ok(()) => {},
                    Err(kind) => {
                        return Err(ParseError { kind, position: token.1 });
                    },
                }
                tokens.consume();
                seen = true;
            },
            Kind::Op(Operator::LDoubleCurly) => {
                proof {
                    lemma_skip_indent_bounds(ts, tokens.pos());
                }
                let value = match parse_value(tokens) {
                    Ok(value) => value,
                    Err(e) => {
                        return Err(e);
                    },
                };
                match intern_value(names, consts, &value, token) {
                    Ok(id) => {
                        parts.push(TextPart::Path(ValueId(id)));
                    },
                    Err(e) => {
                        return Err(e);
                    },
                }
                seen = true;
            },
            _ => {
                return Ok(seen);
            },
        }
    }
}

/// Reads the attributes of a node line, the opening bracket of which was
/// read, and writes a load for each behind `out`.
fn parse_attributes(
    tokens: &mut Tokens,
    names: &Strings,
    consts: &mut Constants,
    out: &mut Vec<ParseExpr>,
) -> (r: Result<(), ParseError>)
    requires
        old(tokens).wf(),
    ensures
        moved_on(*old(tokens), *final(tokens)),
        match attributes_spec(
            old(tokens).tokens(),
            old(tokens).eof(),
            old(tokens).pos(),
            tables_of(*names, *old(consts)),
            old(out)@,
        ) {
            Ok(read) => r is Ok && final(out)@ == read.exprs && final(tokens).pos() == read.end
                && tables_of(*names, *final(consts)) == read.tables,
            Err(e) => r == Err::<(), ParseError>(e),
        },
{
    let ghost ts = tokens.tokens();
    let ghost eof = tokens.eof();
    let ghost goal = attributes_spec(ts, eof, tokens.pos(), tables_of(*names, *consts), out@);
    loop
        invariant
            moved_on(*old(tokens), *tokens),
            ts == old(tokens).tokens(),
            eof == old(tokens).eof(),
            attributes_spec(ts, eof, tokens.pos(), tables_of(*names, *consts), out@) == goal,
            goal == attributes_spec(
                ts,
                eof,
                old(tokens).pos(),
                tables_of(*names, *old(consts)),
                old(out)@,
            ),
        decreases ts.len() - tokens.pos(),
    {
        let token = tokens.next();
        match token.0 {
            Kind::Op(Operator::RBracket) => {
                return Ok(());
            },
            Kind::Op(Operator::Comma) => {},
            Kind::Value(Value::Ident(key)) => {
                let colon = tokens.next();
                if !matches!(colon.0, Kind::Op(Operator::Colon)) {
                    return Err(
                        ParseError { kind: ParseErrorKind::ExpectedColon, position: colon.1 },
                    );
                }
                let key = match intern_name(names, consts, key, token) {
                    Ok(key) => key,
                    Err(e) => {
                        return Err(e);
                    },
                };
                let value = match parse_value(tokens) {
                    Ok(value) => value,
                    Err(e) => {
                        return Err(e);
                    },
                };
                let value = match intern_value(names, consts, &value, token) {
                    Ok(value) => value,
                    Err(e) => {
                        return Err(e);
                    },
                };
                out.push(ParseExpr::LoadAttribute { key, value });
            },
            Kind::Eof => {
                return Err(
                    ParseError { kind: ParseErrorKind::UnmatchedBracket, position: token.1 },
                );
            },
            _ => {
                return Err(
                    ParseError { kind: ParseErrorKind::MalformedHeader, position: token.1 },
                );
            },
        }
    }
}

/// Reads the statement at the cursor and writes it behind `out`; see
/// [`statement_spec`]. Returns whether a scope may follow.
fn parse_statement(
    tokens: &mut Tokens,
    names: &mut Strings,
    consts: &mut Constants,
    out: &mut Vec<ParseExpr>,
) -> (r: Result<bool, ParseError>)
    requires
        old(tokens).wf(),
    ensures
        moved_on(*old(tokens), *final(tokens)),
        match statement_spec(
            old(tokens).tokens(),
            old(tokens).eof(),
            old(tokens).pos(),
            tables_of(*old(names), *old(consts)),
        ) {
            Ok(statement) => r == Ok::<bool, ParseError>(statement.opens) && final(out)@ == old(
                out,
            )@ + statement.exprs && final(tokens).pos() == statement.end && old(tokens).pos()
                < statement.end && tables_of(*final(names), *final(consts)) == statement.tables,
            Err(e) => r == Err::<bool, ParseError>(e),
        },
{
    let ghost ts = tokens.tokens();
    let first = tokens.next();
    match first.0 {
        Kind::For => {
            let binding = match tokens.next().0 {
                Kind::Value(Value::Ident(binding)) => binding,
                _ => {
                    return Err(
                        ParseError { kind: ParseErrorKind::MalformedHeader, position: first.1 },
                    );
                },
            };
            if !matches!(tokens.next().0, Kind::In) {
                return Err(
                    ParseError { kind: ParseErrorKind::MalformedHeader, position: first.1 },
                );
            }
            let binding = match intern_name(names, consts, binding, first) {
                Ok(binding) => binding,
                Err(e) => {
                    return Err(e);
                },
            };
            let data = match parse_head(tokens, names, consts, first) {
                Ok(data) => data,
                Err(e) => {
                    return Err(e);
                },
            };
            out.push(ParseExpr::For { data, binding });
            assert(out@ =~= old(out)@ + seq![ParseExpr::For { data, binding }]);
            Ok(true)
        },
        Kind::If => {
            let cond = match parse_head(tokens, names, consts, first) {
                Ok(cond) => cond,
                Err(e) => {
                    return Err(e);
                },
            };
            out.push(ParseExpr::If(cond));
            assert(out@ =~= old(out)@ + seq![ParseExpr::If(cond)]);
            Ok(true)
        },
        Kind::Else => {
            if matches!(tokens.peek().0, Kind::If) {
                tokens.consume();
                let cond = match parse_head(tokens, names, consts, first) {
                    Ok(cond) => cond,
                    Err(e) => {
                        return Err(e);
                    },
                };
                out.push(ParseExpr::Else(Some(cond)));
                assert(out@ =~= old(out)@ + seq![ParseExpr::Else(Some(cond))]);
            } else {
                out.push(ParseExpr::Else(None));
                assert(out@ =~= old(out)@ + seq![ParseExpr::Else(None)]);
            }
            Ok(true)
        },
        Kind::View => {
            let id = match tokens.next().0 {
                Kind::Value(Value::Ident(id)) => id,
                _ => {
                    return Err(
                        ParseError { kind: ParseErrorKind::MalformedHeader, position: first.1 },
                    );
                },
            };
            let name = match names.get(id) {
                Some(name) => ValueExpr::Ident(name.clone()),
                None => {
                    return Err(
                        ParseError { kind: ParseErrorKind::InvalidExpression, position: first.1 },
                    );
                },
            };
            let view = consts.store_value(name);
            out.push(ParseExpr::View(view.0));
            assert(out@ =~= old(out)@ + seq![ParseExpr::View(view.0)]);
            Ok(false)
        },
        Kind::Value(Value::Ident(ident)) => {
            let ident = match intern_name(names, consts, ident, first) {
                Ok(ident) => ident,
                Err(e) => {
                    return Err(e);
                },
            };
            let mut loads: Vec<ParseExpr> = Vec::new();
            loads.push(ParseExpr::Node(ident));
            assert(loads@ =~= seq![ParseExpr::Node(ident)]);
            if matches!(tokens.peek().0, Kind::Op(Operator::LBracket)) {
                tokens.consume();
                match parse_attributes(tokens, names, consts, &mut loads) {
                    Ok(()) => {},
                    Err(e) => {
                        return Err(e);
                    },
                }
            }
            let mut parts: Vec<TextPart> = Vec::new();
            let seen = match parse_text(tokens, names, consts, &mut parts) {
                Ok(seen) => seen,
                Err(e) => {
                    return Err(e);
                },
            };
            if seen {
                let text = consts.store_text(TextPath(parts));
                loads.push(ParseExpr::LoadText(text.0));
            }
            let ghost exprs = loads@;
            out.append(&mut loads);
            Ok(true)
        },
        _ => Err(ParseError { kind: ParseErrorKind::MalformedHeader, position: first.1 }),
    }
}

/// Parses the tokens of a template into the flat statement list. Names of
/// nodes, keys and bindings, texts and value expressions are interned into
/// `consts`; the statements hold their ids. `names` is the table of the
/// lexer that wrote the tokens; expressions inside strings are lexed into
/// it.
///
/// The list ends with `Eof`, behind the end of every scope that was open.
/// A parse that succeeds has read every token: the cursor is left at the
/// end of the input.
pub fn parse(tokens: &mut Tokens, names: &mut Strings, consts: &mut Constants) -> (r: Result<
    Vec<ParseExpr>,
    ParseError,
>)
    requires
        old(tokens).wf(),
    ensures
        moved_on(*old(tokens), *final(tokens)),
        match parse_spec(
            old(tokens).tokens(),
            old(tokens).eof(),
            old(tokens).pos(),
            tables_of(*old(names), *old(consts)),
        ) {
            Ok(program) => r is Ok && r->Ok_0@ == program.exprs && tables_of(
                *final(names),
                *final(consts),
            ) == program.tables && final(tokens).current().0 is Eof,
            Err(e) => r is Err && r->Err_0 == e,
        },
{
    let ghost ts = tokens.tokens();
    let ghost eof = tokens.eof();
    let ghost goal = parse_spec(ts, eof, tokens.pos(), tables_of(*names, *consts));
    let mut out: Vec<ParseExpr> = Vec::new();
    let mut indents: Vec<usize> = Vec::new();
    let mut opens = false;
    loop
        invariant
            moved_on(*old(tokens), *tokens),
            ts == old(tokens).tokens(),
            eof == old(tokens).eof(),
            program_spec(
                ts,
                eof,
                tokens.pos(),
                tables_of(*names, *consts),
                indents@,
                opens,
                out@,
            ) == goal,
            goal == parse_spec(
                ts,
                eof,
                old(tokens).pos(),
                tables_of(*old(names), *old(consts)),
            ),
        decreases ts.len() - tokens.pos(),
    {
        let token = tokens.peek();
        match token.0 {
            Kind::Eof => {
                close_scopes(&mut indents, &mut out);
                return Ok(out);
            },
            Kind::Newline => {
                tokens.consume();
            },
            Kind::Indent(indent) => {
                tokens.consume();
                let next = tokens.peek();
                if matches!(next.0, Kind::Newline) || matches!(next.0, Kind::Eof) {
                    continue ;
                }
                if !enter_line(&mut indents, indent, opens, &mut out) {
                    return Err(
                        ParseError { kind: ParseErrorKind::InvalidIndent, position: token.1 },
                    );
                }
                opens = match parse_statement(tokens, names, consts, &mut out) {
                    Ok(opens) => opens,
                    Err(e) => {
                        return Err(e);
                    },
                };
                let after = tokens.peek();
                if !(matches!(after.0, Kind::Newline) || matches!(after.0, Kind::Eof)) {
                    return Err(
                        ParseError { kind: ParseErrorKind::UnexpectedToken, position: after.1 },
                    );
                }
            },
            _ => {
                return Err(
                    ParseError { kind: ParseErrorKind::UnexpectedToken, position: token.1 },
                );
            },
        }
    }
}

/// Ends every scope that is open, and the list.
fn close_scopes(indents: &mut Vec<usize>, out: &mut Vec<ParseExpr>)
    ensures
        final(out)@ == close_all(old(indents)@, old(out)@),
{
    while indents.len() > 1
        invariant
            close_all(indents@, out@) == close_all(old(indents)@, old(out)@),
        decreases indents.len(),
    {
        indents.pop();
        out.push(ParseExpr::ScopeEnd);
    }
    out.push(ParseExpr::Eof);
}

/// Starts or ends the scopes that the indent of a line asks for; `false`
/// where the indent cannot stand. See [`enter`].
fn enter_line(indents: &mut Vec<usize>, indent: usize, opens: bool, out: &mut Vec<ParseExpr>) -> (ok:
    bool)
    ensures
        match enter(old(indents)@, indent, opens, old(out)@) {
            Some((open, begun)) => ok && final(indents)@ == open && final(out)@ == begun,
            None => !ok,
        },
{
    if indents.len() == 0 {
        indents.push(indent);
        assert(indents@ =~= seq![indent]);
        return true;
    }
    if indent > indents[indents.len() - 1] {
        if !opens {
            return false;
        }
        indents.push(indent);
        out.push(ParseExpr::ScopeStart);
        return true;
    }
    loop
        invariant
            dedent(indents@, indent, out@) == dedent(old(indents)@, indent, old(out)@),
            enter(old(indents)@, indent, opens, old(out)@) == dedent(
                old(indents)@,
                indent,
                old(out)@,
            ),
        decreases indents.len(),
    {
        if indents.len() == 0 {
            return false;
        }
        let last = indents[indents.len() - 1];
        if last == indent {
            return true;
        }
        if last < indent {
            return false;
        }
        indents.pop();
        out.push(ParseExpr::ScopeEnd);
    }
}

} // verus!
