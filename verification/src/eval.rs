//! From parsed expressions to value expressions: ids of interned strings
//! are replaced by the strings.
use vstd::prelude::*;
use crate::pratt::{entries_view, exprs_view, Ast, Expr};
use crate::strings::Strings;
use crate::token::{Operator, StringId};
use crate::value::{
    lemma_call_view, lemma_dict_view, lemma_list_view, term_pairs_of, terms_of, BinaryOp, Color,
    Num, Owned, Term, UnaryOp, ValueExpr,
};

verus! {

/// The binary operation that an operator of the template language writes.
pub open spec fn binary_op(op: Operator) -> Option<BinaryOp> {
    match op {
        Operator::Plus => Some(BinaryOp::Add),
        Operator::Minus => Some(BinaryOp::Sub),
        Operator::Mul => Some(BinaryOp::Mul),
        Operator::Div => Some(BinaryOp::Div),
        Operator::Mod => Some(BinaryOp::Mod),
        Operator::EqualEqual => Some(BinaryOp::Equality),
        Operator::GreaterThan => Some(BinaryOp::Greater),
        Operator::GreaterThanOrEqual => Some(BinaryOp::GreaterEqual),
        Operator::LessThan => Some(BinaryOp::Less),
        Operator::LessThanOrEqual => Some(BinaryOp::LessEqual),
        Operator::And => Some(BinaryOp::And),
        Operator::Or => Some(BinaryOp::Or),
        _ => None,
    }
}

pub open spec fn name_at(names: Seq<Seq<char>>, id: StringId) -> Option<Seq<char>> {
    if id.0 < names.len() {
        Some(names[id.0 as int])
    } else {
        None
    }
}

/// The first `n` of `items`, each evaluated; `None` if one of them has no
/// value expression.
pub open spec fn eval_list(items: Seq<Ast>, names: Seq<Seq<char>>, n: int) -> Option<Seq<Term>>
    decreases items, n,
{
    if n <= 0 || n > items.len() {
        Some(Seq::empty())
    } else {
        match (eval_list(items, names, n - 1), eval_spec(items[n - 1], names)) {
            (Some(front), Some(last)) => Some(front.push(last)),
            _ => None,
        }
    }
}

/// The first `n` of `entries`, keys and values evaluated.
pub open spec fn eval_entries(entries: Seq<(Ast, Ast)>, names: Seq<Seq<char>>, n: int) -> Option<
    Seq<(Term, Term)>,
>
    decreases entries, n,
{
    if n <= 0 || n > entries.len() {
        Some(Seq::empty())
    } else {
        match (
            eval_entries(entries, names, n - 1),
            eval_spec(entries[n - 1].0, names),
            eval_spec(entries[n - 1].1, names),
        ) {
            (Some(front), Some(key), Some(value)) => Some(front.push((key, value))),
            _ => None,
        }
    }
}

/// The value expression that a parsed expression stands for, with the
/// interned strings in `names`. `None` for an id that is not in `names`,
/// for an operator that computes no value (an assignment, say) and for a
/// number with a fraction.
pub open spec fn eval_spec(ast: Ast, names: Seq<Seq<char>>) -> Option<Term>
    decreases ast, 0int,
{
    match ast {
        Ast::Unary { op, expr } => match eval_spec(*expr, names) {
            Some(operand) => if op == Operator::Minus {
                Some(Term::Unary(UnaryOp::Negative, Box::new(operand)))
            } else if op == Operator::Not {
                Some(Term::Unary(UnaryOp::Not, Box::new(operand)))
            } else {
                None
            },
            None => None,
        },
        Ast::Binary { lhs, rhs, op } => match (eval_spec(*lhs, names), eval_spec(*rhs, names)) {
            (Some(l), Some(r)) => if op == Operator::Dot {
                Some(Term::Dot(Box::new(l), Box::new(r)))
            } else {
                match binary_op(op) {
                    Some(b) => Some(Term::Binary(b, Box::new(l), Box::new(r))),
                    None => None,
                }
            },
            _ => None,
        },
        Ast::Bool(b) => Some(Term::Owned(Owned::Bool(b))),
        Ast::Num(n) => Some(Term::Owned(Owned::Num(Num::Unsigned(n)))),
        Ast::Float(_, _) => None,
        Ast::Color(r, g, b) => Some(Term::Owned(Owned::Color(Color::Rgb(r, g, b)))),
        Ast::Ident(id) => match name_at(names, id) {
            Some(name) => Some(Term::Ident(name)),
            None => None,
        },
        Ast::Str(id) => match name_at(names, id) {
            Some(text) => Some(Term::String(text)),
            None => None,
        },
        Ast::Call { fun, args } => match (
            eval_spec(*fun, names),
            eval_list(args, names, args.len() as int),
        ) {
            (Some(f), Some(a)) => Some(Term::Call { fun: Box::new(f), args: a }),
            _ => None,
        },
        Ast::Array { lhs, index } => match (eval_spec(*lhs, names), eval_spec(*index, names)) {
            (Some(l), Some(i)) => Some(Term::Index(Box::new(l), Box::new(i))),
            _ => None,
        },
        Ast::List(items) => match eval_list(items, names, items.len() as int) {
            Some(list) => Some(Term::List(list)),
            None => None,
        },
        Ast::Dict(entries) => match eval_entries(entries, names, entries.len() as int) {
            Some(list) => Some(Term::Dict(list)),
            None => None,
        },
    }
}

fn binary_op_of(op: Operator) -> (r: Option<BinaryOp>)
    ensures
        r == binary_op(op),
{
    match op {
        Operator::Plus => Some(BinaryOp::Add),
        Operator::Minus => Some(BinaryOp::Sub),
        Operator::Mul => Some(BinaryOp::Mul),
        Operator::Div => Some(BinaryOp::Div),
        Operator::Mod => Some(BinaryOp::Mod),
        Operator::EqualEqual => Some(BinaryOp::Equality),
        Operator::GreaterThan => Some(BinaryOp::Greater),
        Operator::GreaterThanOrEqual => Some(BinaryOp::GreaterEqual),
        Operator::LessThan => Some(BinaryOp::Less),
        Operator::LessThanOrEqual => Some(BinaryOp::LessEqual),
        Operator::And => Some(BinaryOp::And),
        Operator::Or => Some(BinaryOp::Or),
        _ => None,
    }
}

/// An optional expression as the optional term that it is.
pub open spec fn value_view(v: Option<ValueExpr>) -> Option<Term> {
    match v {
        Some(e) => Some(e@),
        None => None,
    }
}

proof fn lemma_eval_list_fails(items: Seq<Ast>, names: Seq<Seq<char>>, n: int, m: int)
    requires
        0 <= n <= m <= items.len(),
        eval_list(items, names, n) is None,
    ensures
        eval_list(items, names, m) is None,
    decreases m - n,
{
    if n < m {
        lemma_eval_list_fails(items, names, n, m - 1);
    }
}

proof fn lemma_eval_entries_fails(entries: Seq<(Ast, Ast)>, names: Seq<Seq<char>>, n: int, m: int)
    requires
        0 <= n <= m <= entries.len(),
        eval_entries(entries, names, n) is None,
    ensures
        eval_entries(entries, names, m) is None,
    decreases m - n,
{
    if n < m {
        lemma_eval_entries_fails(entries, names, n, m - 1);
    }
}

fn eval_all(items: &Vec<Expr>, names: &Strings) -> (r: Option<Vec<ValueExpr>>)
    ensures
        match r {
            Some(list) => eval_list(exprs_view(items@), names@, items.len() as int) == Some(
                terms_of(list@),
            ),
            None => eval_list(exprs_view(items@), names@, items.len() as int) is None,
        },
    decreases items, 1int,
{
    let ghost views = exprs_view(items@);
    let mut out: Vec<ValueExpr> = Vec::new();
    let mut k: usize = 0;
    assert(terms_of(out@) =~= Seq::<Term>::empty());
    while k < items.len()
        invariant
            k <= items.len(),
            views == exprs_view(items@),
            eval_list(views, names@, k as int) == Some(terms_of(out@)),
        decreases items.len() - k,
    {
        let ghost before = terms_of(out@);
        assert(views[k as int] == items[k as int]@);
        match eval(&items[k], names) {
            Some(item) => {
                out.push(item);
                assert(terms_of(out@) =~= before.push(item@));
            },
            None => {
                proof {
                    assert(eval_list(views, names@, k + 1) is None);
                    lemma_eval_list_fails(views, names@, k + 1, items.len() as int);
                }
                return None;
            },
        }
        k += 1;
    }
    Some(out)
}

fn eval_pairs(entries: &Vec<(Expr, Expr)>, names: &Strings) -> (r: Option<
    Vec<(ValueExpr, ValueExpr)>,
>)
    ensures
        match r {
            Some(list) => eval_entries(entries_view(entries@), names@, entries.len() as int)
                == Some(term_pairs_of(list@)),
            None => eval_entries(entries_view(entries@), names@, entries.len() as int) is None,
        },
    decreases entries, 1int,
{
    let ghost views = entries_view(entries@);
    let mut out: Vec<(ValueExpr, ValueExpr)> = Vec::new();
    let mut k: usize = 0;
    assert(term_pairs_of(out@) =~= Seq::<(Term, Term)>::empty());
    while k < entries.len()
        invariant
            k <= entries.len(),
            views == entries_view(entries@),
            eval_entries(views, names@, k as int) == Some(term_pairs_of(out@)),
        decreases entries.len() - k,
    {
        let ghost before = term_pairs_of(out@);
        assert(views[k as int] == (entries[k as int].0@, entries[k as int].1@));
        let key = eval(&entries[k].0, names);
        let value = eval(&entries[k].1, names);
        match (key, value) {
            (Some(key), Some(value)) => {
                out.push((key, value));
                assert(term_pairs_of(out@) =~= before.push((key@, value@)));
            },
            _ => {
                proof {
                    assert(eval_entries(views, names@, k + 1) is None);
                    lemma_eval_entries_fails(views, names@, k + 1, entries.len() as int);
                }
                return None;
            },
        }
        k += 1;
    }
    Some(out)
}

/// Evaluates a parsed expression to a value expression; see [`eval_spec`].
pub fn eval(expr: &Expr, names: &Strings) -> (r: Option<ValueExpr>)
    ensures
        value_view(r) == eval_spec(expr@, names@),
    decreases expr, 0int,
{
    match expr {
        Expr::Unary { op, expr } => {
            let operand = match eval(expr, names) {
                Some(operand) => operand,
                None => {
                    return None;
                },
            };
            match op {
                Operator::Minus => Some(ValueExpr::Unary(UnaryOp::Negative, Box::new(operand))),
                Operator::Not => Some(ValueExpr::Unary(UnaryOp::Not, Box::new(operand))),
                _ => None,
            }
        },
        Expr::Binary { lhs, rhs, op } => {
            let l = match eval(lhs, names) {
                Some(l) => l,
                None => {
                    return None;
                },
            };
            let r = match eval(rhs, names) {
                Some(r) => r,
                None => {
                    return None;
                },
            };
            if matches!(op, Operator::Dot) {
                return Some(ValueExpr::Dot(Box::new(l), Box::new(r)));
            }
            match binary_op_of(*op) {
                Some(b) => Some(ValueExpr::Binary(b, Box::new(l), Box::new(r))),
                None => None,
            }
        },
        Expr::Bool(b) => Some(ValueExpr::Owned(Owned::Bool(*b))),
        Expr::Num(n) => Some(ValueExpr::Owned(Owned::Num(Num::Unsigned(*n)))),
        Expr::Float(_, _) => None,
        Expr::Color(r, g, b) => Some(ValueExpr::Owned(Owned::Color(Color::Rgb(*r, *g, *b)))),
        Expr::Ident(id) => match names.get(*id) {
            Some(name) => Some(ValueExpr::Ident(name.clone())),
            None => None,
        },
        Expr::Str(id) => match names.get(*id) {
            Some(text) => Some(ValueExpr::String(text.clone())),
            None => None,
        },
        Expr::Call { fun, args } => {
            assert(expr@->Call_args =~= exprs_view(args@));
            let f = match eval(fun, names) {
                Some(f) => f,
                None => {
                    return None;
                },
            };
            match eval_all(args, names) {
                Some(a) => {
                    let fun = Box::new(f);
                    proof {
                        lemma_call_view(fun, a);
                    }
                    Some(ValueExpr::Call { fun, args: a })
                },
                None => None,
            }
        },
        Expr::Array { lhs, index } => {
            let l = match eval(lhs, names) {
                Some(l) => l,
                None => {
                    return None;
                },
            };
            match eval(index, names) {
                Some(i) => Some(ValueExpr::Index(Box::new(l), Box::new(i))),
                None => None,
            }
        },
        Expr::List(items) => {
            assert(expr@->List_0 =~= exprs_view(items@));
            match eval_all(items, names) {
                Some(list) => {
                    proof {
                        lemma_list_view(list);
                    }
                    Some(ValueExpr::List(list))
                },
                None => None,
            }
        },
        Expr::Dict(entries) => {
            assert(expr@->Dict_0 =~= entries_view(entries@));
            match eval_pairs(entries, names) {
                Some(list) => {
                    proof {
                        lemma_dict_view(list);
                    }
                    Some(ValueExpr::Dict(list))
                },
                None => None,
            }
        },
    }
}

} // verus!
