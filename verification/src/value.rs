//! Value expressions: what an attribute, a condition or a loop's data is
//! written as in a template.
use vstd::prelude::*;

verus! {

#[derive(Debug, Copy, Clone, PartialEq, Eq, Structural)]
pub enum Color {
    Reset,
    Black,
    Red,
    Green,
    Yellow,
    Blue,
    Magenta,
    Cyan,
    White,
    Rgb(u8, u8, u8),
}

#[derive(Debug, Copy, Clone, PartialEq, Eq, Structural)]
pub enum Num {
    Signed(i64),
    Unsigned(u64),
}

/// A scalar that is held by value.
#[derive(Debug, Copy, Clone, PartialEq, Eq, Structural)]
pub enum Owned {
    Bool(bool),
    Num(Num),
    Color(Color),
}

#[derive(Debug, Copy, Clone, PartialEq, Eq, Structural)]
pub enum UnaryOp {
    Not,
    Negative,
}

#[derive(Debug, Copy, Clone, PartialEq, Eq, Structural)]
pub enum BinaryOp {
    Add,
    Sub,
    Mul,
    Div,
    Mod,
    Equality,
    Greater,
    GreaterEqual,
    Less,
    LessEqual,
    And,
    Or,
}

#[derive(Debug)]
pub enum ValueExpr {
    Owned(Owned),
    String(String),
    Ident(String),
    Unary(UnaryOp, Box<ValueExpr>),
    Binary(BinaryOp, Box<ValueExpr>, Box<ValueExpr>),
    Index(Box<ValueExpr>, Box<ValueExpr>),
    Dot(Box<ValueExpr>, Box<ValueExpr>),
    List(Vec<ValueExpr>),
    Dict(Vec<(ValueExpr, ValueExpr)>),
    Call { fun: Box<ValueExpr>, args: Vec<ValueExpr> },
}

/// The mathematical form of a [`ValueExpr`].
pub enum Term {
    Owned(Owned),
    String(Seq<char>),
    Ident(Seq<char>),
    Unary(UnaryOp, Box<Term>),
    Binary(BinaryOp, Box<Term>, Box<Term>),
    Index(Box<Term>, Box<Term>),
    Dot(Box<Term>, Box<Term>),
    List(Seq<Term>),
    Dict(Seq<(Term, Term)>),
    Call { fun: Box<Term>, args: Seq<Term> },
}

pub open spec fn term_of(e: ValueExpr) -> Term
    decreases e,
{
    match e {
        ValueExpr::Owned(o) => Term::Owned(o),
        ValueExpr::String(s) => Term::String(s@),
        ValueExpr::Ident(s) => Term::Ident(s@),
        ValueExpr::Unary(op, a) => Term::Unary(op, Box::new(term_of(*a))),
        ValueExpr::Binary(op, a, b) => Term::Binary(
            op,
            Box::new(term_of(*a)),
            Box::new(term_of(*b)),
        ),
        ValueExpr::Index(a, b) => Term::Index(Box::new(term_of(*a)), Box::new(term_of(*b))),
        ValueExpr::Dot(a, b) => Term::Dot(Box::new(term_of(*a)), Box::new(term_of(*b))),
        ValueExpr::List(items) => Term::List(
            Seq::new(
                items.len() as nat,
                |i: int|
                    if 0 <= i < items.len() {
                        term_of(items[i])
                    } else {
                        Term::Owned(Owned::Bool(false))
                    },
            ),
        ),
        ValueExpr::Dict(entries) => Term::Dict(
            Seq::new(
                entries.len() as nat,
                |i: int|
                    if 0 <= i < entries.len() {
                        (term_of(entries[i].0), term_of(entries[i].1))
                    } else {
                        (Term::Owned(Owned::Bool(false)), Term::Owned(Owned::Bool(false)))
                    },
            ),
        ),
        ValueExpr::Call { fun, args } => Term::Call {
            fun: Box::new(term_of(*fun)),
            args: Seq::new(
                args.len() as nat,
                |i: int|
                    if 0 <= i < args.len() {
                        term_of(args[i])
                    } else {
                        Term::Owned(Owned::Bool(false))
                    },
            ),
        },
    }
}

impl View for ValueExpr {
    type V = Term;

    open spec fn view(&self) -> Term {
        term_of(*self)
    }
}

/// The views of a list of expressions.
pub open spec fn terms_of(items: Seq<ValueExpr>) -> Seq<Term> {
    Seq::new(items.len(), |i: int| items[i]@)
}

/// The views of a list of pairs of expressions.
pub open spec fn term_pairs_of(entries: Seq<(ValueExpr, ValueExpr)>) -> Seq<(Term, Term)> {
    Seq::new(entries.len(), |i: int| (entries[i].0@, entries[i].1@))
}

pub proof fn lemma_list_view(items: Vec<ValueExpr>)
    ensures
        ValueExpr::List(items)@ == Term::List(terms_of(items@)),
{
    assert(ValueExpr::List(items)@->List_0 =~= terms_of(items@));
}

pub proof fn lemma_dict_view(entries: Vec<(ValueExpr, ValueExpr)>)
    ensures
        ValueExpr::Dict(entries)@ == Term::Dict(term_pairs_of(entries@)),
{
    assert(ValueExpr::Dict(entries)@->Dict_0 =~= term_pairs_of(entries@));
}

pub proof fn lemma_call_view(fun: Box<ValueExpr>, args: Vec<ValueExpr>)
    ensures
        (ValueExpr::Call { fun, args })@ == (Term::Call {
            fun: Box::new(fun@),
            args: terms_of(args@),
        }),
{
    assert((ValueExpr::Call { fun, args })@->Call_args =~= terms_of(args@));
}

fn same_list(a: &Vec<ValueExpr>, b: &Vec<ValueExpr>) -> (r: bool)
    ensures
        r == (terms_of(a@) == terms_of(b@)),
    decreases a, 1int,
{
    if a.len() != b.len() {
        assert(terms_of(a@).len() != terms_of(b@).len());
        return false;
    }
    let mut i: usize = 0;
    while i < a.len()
        invariant
            i <= a.len(),
            a.len() == b.len(),
            forall|j: int| 0 <= j < i ==> a[j]@ == b[j]@,
        decreases a.len() - i,
    {
        if !a[i].same(&b[i]) {
            assert(terms_of(a@)[i as int] == a[i as int]@);
            assert(terms_of(b@)[i as int] == b[i as int]@);
            return false;
        }
        i += 1;
    }
    assert(terms_of(a@) =~= terms_of(b@));
    true
}

fn same_pairs(a: &Vec<(ValueExpr, ValueExpr)>, b: &Vec<(ValueExpr, ValueExpr)>) -> (r: bool)
    ensures
        r == (term_pairs_of(a@) == term_pairs_of(b@)),
    decreases a, 1int,
{
    if a.len() != b.len() {
        assert(term_pairs_of(a@).len() != term_pairs_of(b@).len());
        return false;
    }
    let mut i: usize = 0;
    while i < a.len()
        invariant
            i <= a.len(),
            a.len() == b.len(),
            forall|j: int| 0 <= j < i ==> a[j].0@ == b[j].0@ && a[j].1@ == b[j].1@,
        decreases a.len() - i,
    {
        if !a[i].0.same(&b[i].0) || !a[i].1.same(&b[i].1) {
            assert(term_pairs_of(a@)[i as int] == (a[i as int].0@, a[i as int].1@));
            assert(term_pairs_of(b@)[i as int] == (b[i as int].0@, b[i as int].1@));
            return false;
        }
        i += 1;
    }
    assert(term_pairs_of(a@) =~= term_pairs_of(b@));
    true
}

fn copy_list(a: &Vec<ValueExpr>) -> (r: Vec<ValueExpr>)
    ensures
        terms_of(r@) == terms_of(a@),
    decreases a, 1int,
{
    let mut out: Vec<ValueExpr> = Vec::new();
    let mut i: usize = 0;
    while i < a.len()
        invariant
            i <= a.len(),
            out.len() == i,
            forall|j: int| 0 <= j < i ==> out[j]@ == a[j]@,
        decreases a.len() - i,
    {
        out.push(a[i].duplicate());
        i += 1;
    }
    assert(terms_of(out@) =~= terms_of(a@));
    out
}

fn copy_pairs(a: &Vec<(ValueExpr, ValueExpr)>) -> (r: Vec<(ValueExpr, ValueExpr)>)
    ensures
        term_pairs_of(r@) == term_pairs_of(a@),
    decreases a, 1int,
{
    let mut out: Vec<(ValueExpr, ValueExpr)> = Vec::new();
    let mut i: usize = 0;
    while i < a.len()
        invariant
            i <= a.len(),
            out.len() == i,
            forall|j: int| 0 <= j < i ==> out[j].0@ == a[j].0@ && out[j].1@ == a[j].1@,
        decreases a.len() - i,
    {
        out.push((a[i].0.duplicate(), a[i].1.duplicate()));
        i += 1;
    }
    assert(term_pairs_of(out@) =~= term_pairs_of(a@));
    out
}

impl ValueExpr {
    /// Whether two expressions are written alike.
    pub fn same(&self, other: &ValueExpr) -> (r: bool)
        ensures
            r == (self@ == other@),
        decreases self, 0int,
    {
        match (self, other) {
            (ValueExpr::Owned(a), ValueExpr::Owned(b)) => *a == *b,
            (ValueExpr::String(a), ValueExpr::String(b)) => *a == *b,
            (ValueExpr::Ident(a), ValueExpr::Ident(b)) => *a == *b,
            (ValueExpr::Unary(op, a), ValueExpr::Unary(op2, b)) => *op == *op2 && a.same(b),
            (ValueExpr::Binary(op, a1, a2), ValueExpr::Binary(op2, b1, b2)) => *op == *op2
                && a1.same(b1) && a2.same(b2),
            (ValueExpr::Index(a1, a2), ValueExpr::Index(b1, b2)) => a1.same(b1) && a2.same(b2),
            (ValueExpr::Dot(a1, a2), ValueExpr::Dot(b1, b2)) => a1.same(b1) && a2.same(b2),
            (ValueExpr::List(a), ValueExpr::List(b)) => {
                proof {
                    lemma_list_view(*a);
                    lemma_list_view(*b);
                }
                same_list(a, b)
            },
            (ValueExpr::Dict(a), ValueExpr::Dict(b)) => {
                proof {
                    lemma_dict_view(*a);
                    lemma_dict_view(*b);
                }
                same_pairs(a, b)
            },
            (ValueExpr::Call { fun: f, args: a }, ValueExpr::Call { fun: g, args: b }) => {
                proof {
                    lemma_call_view(*f, *a);
                    lemma_call_view(*g, *b);
                }
                f.same(g) && same_list(a, b)
            },
            _ => false,
        }
    }

    /// A copy of the expression.
    pub fn duplicate(&self) -> (r: ValueExpr)
        ensures
            r@ == self@,
        decreases self, 0int,
    {
        match self {
            ValueExpr::Owned(o) => ValueExpr::Owned(*o),
            ValueExpr::String(s) => ValueExpr::String(s.clone()),
            ValueExpr::Ident(s) => ValueExpr::Ident(s.clone()),
            ValueExpr::Unary(op, a) => ValueExpr::Unary(*op, Box::new(a.duplicate())),
            ValueExpr::Binary(op, a, b) => ValueExpr::Binary(
                *op,
                Box::new(a.duplicate()),
                Box::new(b.duplicate()),
            ),
            ValueExpr::Index(a, b) => ValueExpr::Index(
                Box::new(a.duplicate()),
                Box::new(b.duplicate()),
            ),
            ValueExpr::Dot(a, b) => ValueExpr::Dot(
                Box::new(a.duplicate()),
                Box::new(b.duplicate()),
            ),
            ValueExpr::List(items) => {
                let copy = copy_list(items);
                proof {
                    lemma_list_view(*items);
                    lemma_list_view(copy);
                }
                ValueExpr::List(copy)
            },
            ValueExpr::Dict(entries) => {
                let copy = copy_pairs(entries);
                proof {
                    lemma_dict_view(*entries);
                    lemma_dict_view(copy);
                }
                ValueExpr::Dict(copy)
            },
            ValueExpr::Call { fun, args } => {
                let copy = copy_list(args);
                let fun_copy = Box::new(fun.duplicate());
                proof {
                    lemma_call_view(*fun, *args);
                    lemma_call_view(fun_copy, copy);
                }
                ValueExpr::Call { fun: fun_copy, args: copy }
            },
        }
    }
}

} // verus!
