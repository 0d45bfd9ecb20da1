//! The expression parser: a Pratt parser over the token cursor.
use vstd::prelude::*;
use vstd::string::StringExecFns;
use crate::prec;
use crate::token::{
    lemma_skip_indent_bounds, skip_indent, token_at, Kind, Operator, StringId, Token, Tokens,
    Value,
};

verus! {

#[derive(Debug, Copy, Clone, PartialEq, Eq, Structural)]
pub enum ParseErrorKind {
    /// The input ends where more is needed.
    UnexpectedEof,
    /// A token that cannot stand where it stands.
    UnexpectedToken,
    /// An opening parenthesis or square bracket without its closing one.
    UnmatchedBracket,
    /// A key of a map without a colon behind it.
    ExpectedColon,
    /// A line indented deeper than the line above allows, or a dedent to a
    /// level that no line above has.
    InvalidIndent,
    /// A `for`, `if`, `else`, `view` or node line that is not of its form.
    MalformedHeader,
    /// A `{{` without its `}}`.
    UnterminatedInterpolation,
    /// What stands between `{{` and `}}` in a string is no expression.
    InvalidInterpolation,
    /// An expression that stands for no value: an assignment, a number
    /// with a fraction, or a name that the lexer did not intern.
    InvalidExpression,
}

/// Why and where (as a byte offset) parsing stopped.
#[derive(Debug, Copy, Clone, PartialEq, Eq, Structural)]
pub struct ParseError {
    pub kind: ParseErrorKind,
    pub position: usize,
}

/// The left-binding power of an operator; zero for one that binds nothing.
pub open spec fn precedence(op: Operator) -> u8 {
    match op {
        Operator::Equal => prec::ASSIGNMENT,
        Operator::GreaterThan
        | Operator::GreaterThanOrEqual
        | Operator::LessThan
        | Operator::LessThanOrEqual => prec::LOGICAL,
        Operator::Or | Operator::And | Operator::EqualEqual => prec::CONDITIONAL,
        Operator::Plus | Operator::Minus => prec::SUM,
        Operator::Mul | Operator::Div | Operator::Mod => prec::PRODUCT,
        Operator::LParen => prec::CALL,
        Operator::Dot => prec::SUBCRIPT,
        Operator::LBracket => prec::SUBCRIPT,
        _ => 0,
    }
}

pub fn get_precedence(op: Operator) -> (p: u8)
    ensures
        p == precedence(op),
{
    match op {
        Operator::Equal => prec::ASSIGNMENT,
        Operator::GreaterThan
        | Operator::GreaterThanOrEqual
        | Operator::LessThan
        | Operator::LessThanOrEqual => prec::LOGICAL,
        Operator::Or | Operator::And | Operator::EqualEqual => prec::CONDITIONAL,
        Operator::Plus | Operator::Minus => prec::SUM,
        Operator::Mul | Operator::Div | Operator::Mod => prec::PRODUCT,
        Operator::LParen => prec::CALL,
        Operator::Dot => prec::SUBCRIPT,
        Operator::LBracket => prec::SUBCRIPT,
        _ => 0,
    }
}

/// An expression as the parser builds it; names and strings are ids.
#[derive(Debug)]
pub enum Expr {
    Unary { op: Operator, expr: Box<Expr> },
    Binary { lhs: Box<Expr>, rhs: Box<Expr>, op: Operator },
    Bool(bool),
    Num(u64),
    Float(u64, u32),
    Color(u8, u8, u8),
    Ident(StringId),
    Str(StringId),
    Call { fun: Box<Expr>, args: Vec<Expr> },
    Array { lhs: Box<Expr>, index: Box<Expr> },
    List(Vec<Expr>),
    Dict(Vec<(Expr, Expr)>),
}

/// The mathematical form of an [`Expr`].
pub enum Ast {
    Unary { op: Operator, expr: Box<Ast> },
    Binary { lhs: Box<Ast>, rhs: Box<Ast>, op: Operator },
    Bool(bool),
    Num(u64),
    Float(u64, u32),
    Color(u8, u8, u8),
    Ident(StringId),
    Str(StringId),
    Call { fun: Box<Ast>, args: Seq<Ast> },
    Array { lhs: Box<Ast>, index: Box<Ast> },
    List(Seq<Ast>),
    Dict(Seq<(Ast, Ast)>),
}

pub open spec fn expr_view(e: Expr) -> Ast
    decreases e,
{
    match e {
        Expr::Unary { op, expr } => Ast::Unary { op, expr: Box::new(expr_view(*expr)) },
        Expr::Binary { lhs, rhs, op } => Ast::Binary {
            lhs: Box::new(expr_view(*lhs)),
            rhs: Box::new(expr_view(*rhs)),
            op,
        },
        Expr::Bool(b) => Ast::Bool(b),
        Expr::Num(n) => Ast::Num(n),
        Expr::Float(m, s) => Ast::Float(m, s),
        Expr::Color(r, g, b) => Ast::Color(r, g, b),
        Expr::Ident(id) => Ast::Ident(id),
        Expr::Str(id) => Ast::Str(id),
        Expr::Call { fun, args } => Ast::Call {
            fun: Box::new(expr_view(*fun)),
            args: Seq::new(
                args.len() as nat,
                |i: int|
                    if 0 <= i < args.len() {
                        expr_view(args[i])
                    } else {
                        Ast::Bool(false)
                    },
            ),
        },
        Expr::Array { lhs, index } => Ast::Array {
            lhs: Box::new(expr_view(*lhs)),
            index: Box::new(expr_view(*index)),
        },
        Expr::List(items) => Ast::List(
            Seq::new(
                items.len() as nat,
                |i: int|
                    if 0 <= i < items.len() {
                        expr_view(items[i])
                    } else {
                        Ast::Bool(false)
                    },
            ),
        ),
        Expr::Dict(entries) => Ast::Dict(
            Seq::new(
                entries.len() as nat,
                |i: int|
                    if 0 <= i < entries.len() {
                        (expr_view(entries[i].0), expr_view(entries[i].1))
                    } else {
                        (Ast::Bool(false), Ast::Bool(false))
                    },
            ),
        ),
    }
}

impl View for Expr {
    type V = Ast;

    open spec fn view(&self) -> Ast {
        expr_view(*self)
    }
}

/// The views of a list of expressions.
pub open spec fn exprs_view(items: Seq<Expr>) -> Seq<Ast> {
    Seq::new(items.len(), |i: int| items[i]@)
}

/// The views of a list of map entries.
pub open spec fn entries_view(entries: Seq<(Expr, Expr)>) -> Seq<(Ast, Ast)> {
    Seq::new(entries.len(), |i: int| (entries[i].0@, entries[i].1@))
}

/// The decimal digits of `n`.
pub open spec fn decimal(n: nat) -> Seq<char>
    decreases n,
{
    if n < 10 {
        seq![(('0' as u8) + n) as char]
    } else {
        decimal(n / 10).push((('0' as u8) + n % 10) as char)
    }
}

/// `out`, then an id of an interned string: `<sid 3>`.
pub open spec fn write_id(out: Seq<char>, id: StringId) -> Seq<char> {
    out + "<sid "@ + decimal(id.0 as nat) + ">"@
}

/// `out`, then the first `n` of `items` with `, ` between them.
pub open spec fn write_list(out: Seq<char>, items: Seq<Ast>, n: int) -> Seq<char>
    decreases items, n,
{
    if n <= 0 || n > items.len() {
        out
    } else if n == 1 {
        write(out, items[0])
    } else {
        write(write_list(out, items, n - 1) + ", "@, items[n - 1])
    }
}

/// `out`, then the first `n` of `entries`, each `key: value`, with `, `
/// between them.
pub open spec fn write_entries(out: Seq<char>, entries: Seq<(Ast, Ast)>, n: int) -> Seq<char>
    decreases entries, n,
{
    if n <= 0 || n > entries.len() {
        out
    } else {
        let front = if n == 1 {
            out
        } else {
            write_entries(out, entries, n - 1) + ", "@
        };
        write(write(front, entries[n - 1].0) + ": "@, entries[n - 1].1)
    }
}

/// `out`, then an expression as text: operators in prefix form, `(+ 1 2)`,
/// and ids of interned strings as `<sid 0>`.
pub open spec fn write(out: Seq<char>, ast: Ast) -> Seq<char>
    decreases ast, 0int,
{
    match ast {
        Ast::Unary { op, expr } => write(out + "("@ + op.symbol(), *expr) + ")"@,
        Ast::Binary { lhs, rhs, op } => write(
            write(out + "("@ + op.symbol() + " "@, *lhs) + " "@,
            *rhs,
        ) + ")"@,
        Ast::Bool(b) => if b {
            out + "true"@
        } else {
            out + "false"@
        },
        Ast::Num(n) => out + decimal(n as nat),
        Ast::Float(m, s) => out + decimal(m as nat) + "e-"@ + decimal(s as nat),
        Ast::Color(r, g, b) => out + "Rgb { r: "@ + decimal(r as nat) + ", g: "@ + decimal(
            g as nat,
        ) + ", b: "@ + decimal(b as nat) + " }"@,
        Ast::Ident(id) => write_id(out, id),
        Ast::Str(id) => write_id(out + "\""@, id) + "\""@,
        Ast::Call { fun, args } => write_list(write(out, *fun) + "("@, args, args.len() as int)
            + ")"@,
        Ast::Array { lhs, index } => write(write(out, *lhs) + "["@, *index) + "]"@,
        Ast::List(items) => write_list(out + "["@, items, items.len() as int) + "]"@,
        Ast::Dict(entries) => write_entries(out + "{"@, entries, entries.len() as int) + "}"@,
    }
}

/// An expression as text.
pub open spec fn render(ast: Ast) -> Seq<char> {
    write(Seq::empty(), ast)
}

/// Writes the decimal digits of `n` behind `out`.
pub fn push_decimal(out: &mut String, n: u64)
    ensures
        final(out)@ == old(out)@ + decimal(n as nat),
    decreases n,
{
    if n >= 10 {
        push_decimal(out, n / 10);
    }
    let digit = (n % 10) as u8;
    out.push((('0' as u8) + digit) as char);
    proof {
        assert(out@ =~= old(out)@ + decimal(n as nat));
    }
}

fn push_id(out: &mut String, id: StringId)
    ensures
        final(out)@ == write_id(old(out)@, id),
{
    out.append("<sid ");
    push_decimal(out, id.0 as u64);
    out.append(">");
}

fn push_exprs(items: &Vec<Expr>, out: &mut String)
    ensures
        final(out)@ == write_list(old(out)@, exprs_view(items@), items.len() as int),
    decreases items, 1int,
{
    let ghost views = exprs_view(items@);
    let mut k: usize = 0;
    while k < items.len()
        invariant
            k <= items.len(),
            views == exprs_view(items@),
            out@ == write_list(old(out)@, views, k as int),
        decreases items.len() - k,
    {
        if k > 0 {
            out.append(", ");
        }
        assert(views[k as int] == items[k as int]@);
        push_expr(&items[k], out);
        k += 1;
    }
}

fn push_entries(entries: &Vec<(Expr, Expr)>, out: &mut String)
    ensures
        final(out)@ == write_entries(old(out)@, entries_view(entries@), entries.len() as int),
    decreases entries, 1int,
{
    let ghost views = entries_view(entries@);
    let mut k: usize = 0;
    while k < entries.len()
        invariant
            k <= entries.len(),
            views == entries_view(entries@),
            out@ == write_entries(old(out)@, views, k as int),
        decreases entries.len() - k,
    {
        if k > 0 {
            out.append(", ");
        }
        assert(views[k as int] == (entries[k as int].0@, entries[k as int].1@));
        push_expr(&entries[k].0, out);
        out.append(": ");
        push_expr(&entries[k].1, out);
        k += 1;
    }
}

fn push_expr(e: &Expr, out: &mut String)
    ensures
        final(out)@ == write(old(out)@, e@),
    decreases e, 0int,
{
    match e {
        Expr::Unary { op, expr } => {
            out.append("(");
            out.append(op.as_str());
            push_expr(expr, out);
            out.append(")");
        },
        Expr::Binary { lhs, rhs, op } => {
            out.append("(");
            out.append(op.as_str());
            out.append(" ");
            push_expr(lhs, out);
            out.append(" ");
            push_expr(rhs, out);
            out.append(")");
        },
        Expr::Bool(b) => {
            if *b {
                out.append("true");
            } else {
                out.append("false");
            }
        },
        Expr::Num(n) => {
            push_decimal(out, *n);
        },
        Expr::Float(m, s) => {
            push_decimal(out, *m);
            out.append("e-");
            push_decimal(out, *s as u64);
        },
        Expr::Color(r, g, b) => {
            out.append("Rgb { r: ");
            push_decimal(out, *r as u64);
            out.append(", g: ");
            push_decimal(out, *g as u64);
            out.append(", b: ");
            push_decimal(out, *b as u64);
            out.append(" }");
        },
        Expr::Ident(id) => {
            push_id(out, *id);
        },
        Expr::Str(id) => {
            out.append("\"");
            push_id(out, *id);
            out.append("\"");
        },
        Expr::Call { fun, args } => {
            push_expr(fun, out);
            out.append("(");
            assert(e@->Call_args =~= exprs_view(args@));
            push_exprs(args, out);
            out.append(")");
        },
        Expr::Array { lhs, index } => {
            push_expr(lhs, out);
            out.append("[");
            push_expr(index, out);
            out.append("]");
        },
        Expr::List(items) => {
            out.append("[");
            assert(e@->List_0 =~= exprs_view(items@));
            push_exprs(items, out);
            out.append("]");
        },
        Expr::Dict(entries) => {
            out.append("{");
            assert(e@->Dict_0 =~= entries_view(entries@));
            push_entries(entries, out);
            out.append("}");
        },
    }
}

impl Expr {
    /// The expression as text; see [`render`].
    pub fn to_string(&self) -> (s: String)
        ensures
            s@ == render(self@),
    {
        let mut out = String::new();
        push_expr(self, &mut out);
        out
    }
}

/// What a parse returns: a value, and the position of the next token.
pub struct Parsed<T> {
    pub value: T,
    pub end: int,
}

/// The place to go on from after a part that was read from `after` on and
/// ended at `end`: never before `after`, never past the tokens.
pub open spec fn resume(tokens: Seq<Token>, after: int, end: int) -> int {
    if after <= end <= tokens.len() {
        end
    } else {
        tokens.len() as int
    }
}

pub open spec fn error_at(kind: ParseErrorKind, token: Token) -> ParseError {
    ParseError { kind, position: token.1 }
}

/// The operand that starts with the token at `p`: a literal, a name, a
/// list, a map, a parenthesised expression or a prefix operator with its
/// operand.
pub open spec fn operand(tokens: Seq<Token>, eof: usize, p: int) -> Result<Parsed<Ast>, ParseError>
    decreases tokens.len() - p, 1int,
{
    if p < 0 || p >= tokens.len() {
        Err(ParseError { kind: ParseErrorKind::UnexpectedEof, position: eof })
    } else {
        let first = tokens[p];
        match first.0 {
            Kind::Op(Operator::LBracket) => match items(
                tokens,
                eof,
                p + 1,
                Operator::RBracket,
                Seq::empty(),
            ) {
                Ok(list) => Ok(Parsed { value: Ast::List(list.value), end: list.end }),
                Err(e) => Err(e),
            },
            Kind::Op(Operator::LCurly) => match entries(tokens, eof, p + 1, Seq::empty()) {
                Ok(map) => Ok(Parsed { value: Ast::Dict(map.value), end: map.end }),
                Err(e) => Err(e),
            },
            Kind::Op(Operator::LParen) => match expression(tokens, eof, p + 1, prec::INITIAL) {
                Ok(inner) => {
                    let q = skip_indent(tokens, resume(tokens, p + 1, inner.end));
                    if q < tokens.len() && tokens[q].0 == Kind::Op(Operator::RParen) {
                        Ok(Parsed { value: inner.value, end: q + 1 })
                    } else {
                        Err(error_at(ParseErrorKind::UnmatchedBracket, token_at(tokens, eof, q)))
                    }
                },
                Err(e) => Err(e),
            },
            Kind::Op(op) => if op == Operator::Minus || op == Operator::Not {
                match expression(tokens, eof, p + 1, prec::PREFIX) {
                    Ok(operand) => Ok(
                        Parsed {
                            value: Ast::Unary { op, expr: Box::new(operand.value) },
                            end: operand.end,
                        },
                    ),
                    Err(e) => Err(e),
                }
            } else {
                Err(error_at(ParseErrorKind::UnexpectedToken, first))
            },
            Kind::Value(value) => match value {
                Value::Number(n) => Ok(Parsed { value: Ast::Num(n), end: p + 1 }),
                Value::Float(m, s) => Ok(Parsed { value: Ast::Float(m, s), end: p + 1 }),
                Value::Ident(id) => Ok(Parsed { value: Ast::Ident(id), end: p + 1 }),
                Value::String(id) => Ok(Parsed { value: Ast::Str(id), end: p + 1 }),
                Value::Bool(b) => Ok(Parsed { value: Ast::Bool(b), end: p + 1 }),
                Value::Hex(r, g, b) => Ok(Parsed { value: Ast::Color(r, g, b), end: p + 1 }),
                Value::Index(_) => Err(error_at(ParseErrorKind::UnexpectedToken, first)),
            },
            Kind::Eof => Err(error_at(ParseErrorKind::UnexpectedEof, first)),
            _ => Err(error_at(ParseErrorKind::UnexpectedToken, first)),
        }
    }
}

/// The expression that starts at or after `pos` (indents are skipped) and
/// takes in every operator that binds tighter than `precedence`.
pub open spec fn expression(tokens: Seq<Token>, eof: usize, pos: int, precedence: u8) -> Result<
    Parsed<Ast>,
    ParseError,
>
    decreases tokens.len() - pos, 2int,
{
    let p = skip_indent(tokens, pos);
    if pos < 0 || p >= tokens.len() {
        Err(ParseError { kind: ParseErrorKind::UnexpectedEof, position: eof })
    } else {
        proof {
            lemma_skip_indent_bounds(tokens, pos);
        }
        match operand(tokens, eof, p) {
            Ok(left) => climb(
                tokens,
                eof,
                resume(tokens, p + 1, left.end),
                left.value,
                precedence,
            ),
            Err(e) => Err(e),
        }
    }
}

/// Extends `left`, an expression that ends before `pos`, by the calls,
/// subscripts and binary operators behind it that bind tighter than
/// `precedence`.
pub open spec fn climb(tokens: Seq<Token>, eof: usize, pos: int, left: Ast, precedence: u8) -> Result<
    Parsed<Ast>,
    ParseError,
>
    decreases tokens.len() - pos, 0int,
{
    let p = skip_indent(tokens, pos);
    if pos < 0 || p >= tokens.len() {
        Ok(Parsed { value: left, end: p })
    } else {
        proof {
            lemma_skip_indent_bounds(tokens, pos);
        }
        match tokens[p].0 {
            Kind::Op(op) => if precedence >= self::precedence(op) {
                Ok(Parsed { value: left, end: p })
            } else if op == Operator::LParen {
                match items(tokens, eof, p + 1, Operator::RParen, Seq::empty()) {
                    Ok(args) => climb(
                        tokens,
                        eof,
                        resume(tokens, p + 1, args.end),
                        Ast::Call { fun: Box::new(left), args: args.value },
                        precedence,
                    ),
                    Err(e) => Err(e),
                }
            } else if op == Operator::LBracket {
                match expression(tokens, eof, p + 1, prec::INITIAL) {
                    Ok(index) => {
                        let q = skip_indent(tokens, resume(tokens, p + 1, index.end));
                        proof {
                            lemma_skip_indent_bounds(tokens, resume(tokens, p + 1, index.end));
                        }
                        if q < tokens.len() && tokens[q].0 == Kind::Op(Operator::RBracket) {
                            climb(
                                tokens,
                                eof,
                                q + 1,
                                Ast::Array { lhs: Box::new(left), index: Box::new(index.value) },
                                precedence,
                            )
                        } else {
                            Err(
                                error_at(
                                    ParseErrorKind::UnmatchedBracket,
                                    token_at(tokens, eof, q),
                                ),
                            )
                        }
                    },
                    Err(e) => Err(e),
                }
            } else {
                match expression(tokens, eof, p + 1, self::precedence(op)) {
                    Ok(right) => climb(
                        tokens,
                        eof,
                        resume(tokens, p + 1, right.end),
                        Ast::Binary { lhs: Box::new(left), rhs: Box::new(right.value), op },
                        precedence,
                    ),
                    Err(e) => Err(e),
                }
            },
            _ => Ok(Parsed { value: left, end: p }),
        }
    }
}

/// The expressions from `pos` up to the operator `close`, which is read
/// too; commas between, before and behind them are passed over. `acc` holds
/// the expressions read so far.
pub open spec fn items(
    tokens: Seq<Token>,
    eof: usize,
    pos: int,
    close: Operator,
    acc: Seq<Ast>,
) -> Result<Parsed<Seq<Ast>>, ParseError>
    decreases tokens.len() - pos, 3int,
{
    let p = skip_indent(tokens, pos);
    if pos < 0 || p >= tokens.len() {
        Err(ParseError { kind: ParseErrorKind::UnexpectedEof, position: eof })
    } else {
        proof {
            lemma_skip_indent_bounds(tokens, pos);
        }
        if tokens[p].0 == Kind::Op(Operator::Comma) {
            items(tokens, eof, p + 1, close, acc)
        } else if tokens[p].0 == Kind::Op(close) {
            Ok(Parsed { value: acc, end: p + 1 })
        } else {
            match expression(tokens, eof, p, prec::INITIAL) {
                Ok(item) => items(
                    tokens,
                    eof,
                    resume(tokens, p + 1, item.end),
                    close,
                    acc.push(item.value),
                ),
                Err(e) => Err(e),
            }
        }
    }
}

/// The `key: value` entries from `pos` up to the closing brace, which is
/// read too; commas are passed over. `acc` holds the entries read so far.
pub open spec fn entries(tokens: Seq<Token>, eof: usize, pos: int, acc: Seq<(Ast, Ast)>) -> Result<
    Parsed<Seq<(Ast, Ast)>>,
    ParseError,
>
    decreases tokens.len() - pos, 3int,
{
    let p = skip_indent(tokens, pos);
    if pos < 0 || p >= tokens.len() {
        Err(ParseError { kind: ParseErrorKind::UnexpectedEof, position: eof })
    } else {
        proof {
            lemma_skip_indent_bounds(tokens, pos);
        }
        if tokens[p].0 == Kind::Op(Operator::Comma) {
            entries(tokens, eof, p + 1, acc)
        } else if tokens[p].0 == Kind::Op(Operator::RCurly) {
            Ok(Parsed { value: acc, end: p + 1 })
        } else {
            match expression(tokens, eof, p, prec::INITIAL) {
                Ok(key) => {
                    let q = skip_indent(tokens, resume(tokens, p + 1, key.end));
                    proof {
                        lemma_skip_indent_bounds(tokens, resume(tokens, p + 1, key.end));
                    }
                    if q < tokens.len() && tokens[q].0 == Kind::Op(Operator::Colon) {
                        match expression(tokens, eof, q + 1, prec::INITIAL) {
                            Ok(value) => entries(
                                tokens,
                                eof,
                                resume(tokens, q + 1, value.end),
                                acc.push((key.value, value.value)),
                            ),
                            Err(e) => Err(e),
                        }
                    } else {
                        Err(error_at(ParseErrorKind::ExpectedColon, token_at(tokens, eof, q)))
                    }
                },
                Err(e) => Err(e),
            }
        }
    }
}

/// The expression that starts at `pos`.
pub open spec fn expr_spec(tokens: Seq<Token>, eof: usize, pos: int) -> Result<
    Parsed<Ast>,
    ParseError,
> {
    expression(tokens, eof, pos, prec::INITIAL)
}

/// The cursor moved forward over the same tokens and `r` is what
/// `expected` says: the same expression with the cursor at its end, or the
/// same error.
pub open spec fn agrees(
    before: Tokens,
    after: Tokens,
    expected: Result<Parsed<Ast>, ParseError>,
    r: Result<Expr, ParseError>,
) -> bool {
    &&& after.wf()
    &&& after.tokens() == before.tokens()
    &&& after.eof() == before.eof()
    &&& before.pos() <= after.pos()
    &&& match expected {
        Ok(parsed) => r is Ok && r->Ok_0@ == parsed.value && after.pos() == parsed.end
            && before.pos() < parsed.end,
        Err(e) => r is Err && r->Err_0 == e,
    }
}

/// Parses one expression at the cursor.
pub fn expr(tokens: &mut Tokens) -> (r: Result<Expr, ParseError>)
    requires
        old(tokens).wf(),
    ensures
        agrees(
            *old(tokens),
            *final(tokens),
            expr_spec(old(tokens).tokens(), old(tokens).eof(), old(tokens).pos()),
            r,
        ),
{
    expr_bp(tokens, prec::INITIAL)
}

fn expr_bp(tokens: &mut Tokens, precedence: u8) -> (r: Result<Expr, ParseError>)
    requires
        old(tokens).wf(),
    ensures
        agrees(
            *old(tokens),
            *final(tokens),
            expression(old(tokens).tokens(), old(tokens).eof(), old(tokens).pos(), precedence),
            r,
        ),
    decreases old(tokens).tokens().len() - old(tokens).pos(), 2int,
{
    let ghost ts = tokens.tokens();
    let ghost eof = tokens.eof();
    let ghost start = tokens.pos();
    let ghost p = skip_indent(ts, start);
    let ghost goal = expression(ts, eof, start, precedence);
    proof {
        lemma_skip_indent_bounds(ts, start);
    }
    let first = tokens.next_no_indent();
    let mut left = match first.0 {
        Kind::Op(Operator::LBracket) => {
            match parse_collection(tokens) {
                Ok(list) => list,
                Err(e) => {
                    return Err(e);
                },
            }
        },
        Kind::Op(Operator::LCurly) => {
            match parse_map(tokens) {
                Ok(map) => map,
                Err(e) => {
                    return Err(e);
                },
            }
        },
        Kind::Op(Operator::LParen) => {
            match expr_bp(tokens, prec::INITIAL) {
                Ok(inner) => {
                    proof {
                        lemma_skip_indent_bounds(ts, tokens.pos());
                    }
                    let close = tokens.next_no_indent();
                    if matches!(close.0, Kind::Op(Operator::RParen)) {
                        inner
                    } else {
                        return Err(
                            ParseError {
                                kind: ParseErrorKind::UnmatchedBracket,
                                position: close.1,
                            },
                        );
                    }
                },
                Err(e) => {
                    return Err(e);
                },
            }
        },
        Kind::Op(op) => {
            if matches!(op, Operator::Minus) || matches!(op, Operator::Not) {
                match expr_bp(tokens, prec::PREFIX) {
                    Ok(operand) => Expr::Unary { op, expr: Box::new(operand) },
                    Err(e) => {
                        return Err(e);
                    },
                }
            } else {
                return Err(
                    ParseError { kind: ParseErrorKind::UnexpectedToken, position: first.1 },
                );
            }
        },
        Kind::Value(value) => match value {
            Value::Number(n) => Expr::Num(n),
            Value::Float(m, s) => Expr::Float(m, s),
            Value::Ident(id) => Expr::Ident(id),
            Value::String(id) => Expr::Str(id),
            Value::Bool(b) => Expr::Bool(b),
            Value::Hex(r, g, b) => Expr::Color(r, g, b),
            Value::Index(_) => {
                return Err(
                    ParseError { kind: ParseErrorKind::UnexpectedToken, position: first.1 },
                );
            },
        },
        Kind::Eof => {
            return Err(ParseError { kind: ParseErrorKind::UnexpectedEof, position: first.1 });
        },
        _ => {
            return Err(ParseError { kind: ParseErrorKind::UnexpectedToken, position: first.1 });
        },
    };
    loop
        invariant
            tokens.wf(),
            tokens.tokens() == ts,
            tokens.eof() == eof,
            ts == old(tokens).tokens(),
            eof == old(tokens).eof(),
            start == old(tokens).pos(),
            start < tokens.pos(),
            climb(ts, eof, tokens.pos(), left@, precedence) == goal,
            goal == expression(ts, eof, start, precedence),
        decreases ts.len() - tokens.pos(),
    {
        proof {
            lemma_skip_indent_bounds(ts, tokens.pos());
        }
        let token = tokens.peek_skip_indent();
        let op = match token.0 {
            Kind::Op(op) => op,
            _ => {
                return Ok(left);
            },
        };
        let token_prec = get_precedence(op);
        if precedence >= token_prec {
            return Ok(left);
        }
        tokens.consume();
        match op {
            Operator::LParen => {
                match parse_function(tokens, left) {
                    Ok(call) => {
                        left = call;
                    },
                    Err(e) => {
                        return Err(e);
                    },
                }
            },
            Operator::LBracket => {
                match expr_bp(tokens, prec::INITIAL) {
                    Ok(index) => {
                        proof {
                            lemma_skip_indent_bounds(ts, tokens.pos());
                        }
                        let close = tokens.next_no_indent();
                        if matches!(close.0, Kind::Op(Operator::RBracket)) {
                            left = Expr::Array { lhs: Box::new(left), index: Box::new(index) };
                        } else {
                            return Err(
                                ParseError {
                                    kind: ParseErrorKind::UnmatchedBracket,
                                    position: close.1,
                                },
                            );
                        }
                    },
                    Err(e) => {
                        return Err(e);
                    },
                }
            },
            _ => {
                match expr_bp(tokens, token_prec) {
                    Ok(right) => {
                        left = Expr::Binary { lhs: Box::new(left), rhs: Box::new(right), op };
                    },
                    Err(e) => {
                        return Err(e);
                    },
                }
            },
        }
    }
}

/// Reads expressions up to `close`; see [`items`].
fn parse_items(tokens: &mut Tokens, close: Operator) -> (r: Result<Vec<Expr>, ParseError>)
    requires
        old(tokens).wf(),
    ensures
        final(tokens).wf(),
        final(tokens).tokens() == old(tokens).tokens(),
        final(tokens).eof() == old(tokens).eof(),
        old(tokens).pos() <= final(tokens).pos(),
        match items(
            old(tokens).tokens(),
            old(tokens).eof(),
            old(tokens).pos(),
            close,
            Seq::empty(),
        ) {
            Ok(parsed) => r is Ok && exprs_view(r->Ok_0@) == parsed.value && final(tokens).pos()
                == parsed.end,
            Err(e) => r is Err && r->Err_0 == e,
        },
    decreases old(tokens).tokens().len() - old(tokens).pos(), 3int,
{
    let ghost ts = tokens.tokens();
    let ghost eof = tokens.eof();
    let ghost start = tokens.pos();
    let ghost goal = items(ts, eof, start, close, Seq::empty());
    let mut list: Vec<Expr> = Vec::new();
    assert(exprs_view(list@) =~= Seq::<Ast>::empty());
    loop
        invariant
            tokens.wf(),
            tokens.tokens() == ts,
            tokens.eof() == eof,
            ts == old(tokens).tokens(),
            eof == old(tokens).eof(),
            start == old(tokens).pos(),
            start <= tokens.pos(),
            items(ts, eof, tokens.pos(), close, exprs_view(list@)) == goal,
            goal == items(ts, eof, start, close, Seq::empty()),
        decreases ts.len() - tokens.pos(),
    {
        proof {
            lemma_skip_indent_bounds(ts, tokens.pos());
        }
        let token = tokens.peek_skip_indent();
        if matches!(token.0, Kind::Op(Operator::Comma)) {
            tokens.consume();
            continue ;
        }
        if let Kind::Op(op) = token.0 {
            if op == close {
                tokens.consume();
                return Ok(list);
            }
        }
        let ghost before = exprs_view(list@);
        let ghost here = tokens.pos();
        proof {
            lemma_skip_indent_bounds(ts, here);
        }
        match expr_bp(tokens, prec::INITIAL) {
            Ok(item) => {
                list.push(item);
                assert(exprs_view(list@) =~= before.push(item@));
            },
            Err(e) => {
                return Err(e);
            },
        }
    }
}

fn parse_function(tokens: &mut Tokens, left: Expr) -> (r: Result<Expr, ParseError>)
    requires
        old(tokens).wf(),
    ensures
        final(tokens).wf(),
        final(tokens).tokens() == old(tokens).tokens(),
        final(tokens).eof() == old(tokens).eof(),
        old(tokens).pos() <= final(tokens).pos(),
        match items(
            old(tokens).tokens(),
            old(tokens).eof(),
            old(tokens).pos(),
            Operator::RParen,
            Seq::empty(),
        ) {
            Ok(parsed) => r is Ok && r->Ok_0@ == (Ast::Call {
                fun: Box::new(left@),
                args: parsed.value,
            }) && final(tokens).pos() == parsed.end,
            Err(e) => r is Err && r->Err_0 == e,
        },
    decreases old(tokens).tokens().len() - old(tokens).pos(), 4int,
{
    match parse_items(tokens, Operator::RParen) {
        Ok(args) => {
            let call = Expr::Call { fun: Box::new(left), args };
            assert(call@->Call_args =~= exprs_view(args@));
            Ok(call)
        },
        Err(e) => Err(e),
    }
}

fn parse_collection(tokens: &mut Tokens) -> (r: Result<Expr, ParseError>)
    requires
        old(tokens).wf(),
    ensures
        final(tokens).wf(),
        final(tokens).tokens() == old(tokens).tokens(),
        final(tokens).eof() == old(tokens).eof(),
        old(tokens).pos() <= final(tokens).pos(),
        match items(
            old(tokens).tokens(),
            old(tokens).eof(),
            old(tokens).pos(),
            Operator::RBracket,
            Seq::empty(),
        ) {
            Ok(parsed) => r is Ok && r->Ok_0@ == Ast::List(parsed.value) && final(tokens).pos()
                == parsed.end,
            Err(e) => r is Err && r->Err_0 == e,
        },
    decreases old(tokens).tokens().len() - old(tokens).pos(), 4int,
{
    match parse_items(tokens, Operator::RBracket) {
        Ok(elements) => {
            let list = Expr::List(elements);
            assert(list@->List_0 =~= exprs_view(elements@));
            Ok(list)
        },
        Err(e) => Err(e),
    }
}

fn parse_map(tokens: &mut Tokens) -> (r: Result<Expr, ParseError>)
    requires
        old(tokens).wf(),
    ensures
        final(tokens).wf(),
        final(tokens).tokens() == old(tokens).tokens(),
        final(tokens).eof() == old(tokens).eof(),
        old(tokens).pos() <= final(tokens).pos(),
        match entries(old(tokens).tokens(), old(tokens).eof(), old(tokens).pos(), Seq::empty()) {
            Ok(parsed) => r is Ok && r->Ok_0@ == Ast::Dict(parsed.value) && final(tokens).pos()
                == parsed.end,
            Err(e) => r is Err && r->Err_0 == e,
        },
    decreases old(tokens).tokens().len() - old(tokens).pos(), 3int,
{
    let ghost ts = tokens.tokens();
    let ghost eof = tokens.eof();
    let ghost start = tokens.pos();
    let ghost goal = entries(ts, eof, start, Seq::empty());
    let mut elements: Vec<(Expr, Expr)> = Vec::new();
    assert(entries_view(elements@) =~= Seq::<(Ast, Ast)>::empty());
    loop
        invariant
            tokens.wf(),
            tokens.tokens() == ts,
            tokens.eof() == eof,
            ts == old(tokens).tokens(),
            eof == old(tokens).eof(),
            start == old(tokens).pos(),
            start <= tokens.pos(),
            entries(ts, eof, tokens.pos(), entries_view(elements@)) == goal,
            goal == entries(ts, eof, start, Seq::empty()),
        decreases ts.len() - tokens.pos(),
    {
        proof {
            lemma_skip_indent_bounds(ts, tokens.pos());
        }
        let token = tokens.peek_skip_indent();
        if matches!(token.0, Kind::Op(Operator::Comma)) {
            tokens.consume();
            continue ;
        }
        if matches!(token.0, Kind::Op(Operator::RCurly)) {
            tokens.consume();
            let map = Expr::Dict(elements);
            assert(map@->Dict_0 =~= entries_view(elements@));
            return Ok(map);
        }
        let ghost before = entries_view(elements@);
        proof {
            lemma_skip_indent_bounds(ts, tokens.pos());
        }
        let key = match expr_bp(tokens, prec::INITIAL) {
            Ok(key) => key,
            Err(e) => {
                return Err(e);
            },
        };
        proof {
            lemma_skip_indent_bounds(ts, tokens.pos());
        }
        let colon = tokens.peek_skip_indent();
        if !matches!(colon.0, Kind::Op(Operator::Colon)) {
            return Err(ParseError { kind: ParseErrorKind::ExpectedColon, position: colon.1 });
        }
        tokens.consume();
        let value = match expr_bp(tokens, prec::INITIAL) {
            Ok(value) => value,
            Err(e) => {
                return Err(e);
            },
        };
        elements.push((key, value));
        assert(entries_view(elements@) =~= before.push((key@, value@)));
    }
}

} // verus!
