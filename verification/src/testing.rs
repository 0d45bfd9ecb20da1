//! Short ways to write value expressions by hand.
use vstd::prelude::*;
use crate::node_id::NodeId;
use crate::path::{Path, PathView};
use crate::state::{Change, Seen, State, ValueRef};
use crate::store::{seen_at, Data, Store, Value};
use crate::value::{lemma_list_view, terms_of, BinaryOp, Num, Owned, Term, UnaryOp, ValueExpr};

verus! {

/// A small state to try things out on: a name, and a list of names.
pub struct Inner {
    store: Store,
}

impl Inner {
    /// What the state holds.
    pub closed spec fn data(&self) -> Data {
        self.store.data()
    }

    /// The state with the name `Fiddle McStick` and the names `arthur` and
    /// `bobby`.
    pub fn new() -> (s: Self)
        ensures
            s.data() == Data::Dict(
                seq![
                    ("name"@, Data::Str("Fiddle McStick"@)),
                    ("names"@, Data::List(seq![Data::Str("arthur"@), Data::Str("bobby"@)])),
                ],
            ),
    {
        let mut store = Store::new();
        store.insert("name", Value::Str("Fiddle McStick".to_owned()));
        let mut names: Vec<Value> = Vec::new();
        names.push(Value::Str("arthur".to_owned()));
        names.push(Value::Str("bobby".to_owned()));
        proof {
            reveal_strlit("name");
            reveal_strlit("names");
            crate::store::lemma_list_view(names);
            assert(crate::store::list_view(names@) =~= seq![
                Data::Str("arthur"@),
                Data::Str("bobby"@),
            ]);
            let first = seq![("name"@, Data::Str("Fiddle McStick"@))];
            assert(store.entries() =~= first);
            assert("name"@.len() != "names"@.len());
            crate::store::lemma_entry_index(first, "names"@);
        }
        store.insert("names", Value::List(names));
        proof {
            assert(store.entries() =~= seq![
                ("name"@, Data::Str("Fiddle McStick"@)),
                ("names"@, Data::List(seq![Data::Str("arthur"@), Data::Str("bobby"@)])),
            ]);
        }
        Self { store }
    }
}

impl State for Inner {
    open spec fn value(&self, key: PathView) -> Option<Seen> {
        seen_at(self.data(), key)
    }

    closed spec fn pending(&self) -> Seq<(Seq<usize>, Change)> {
        self.store.dirty()
    }

    closed spec fn subscribed(&self) -> Seq<(PathView, Seq<usize>)> {
        self.store.readers()
    }

    open spec fn with_reader(
        readers: Seq<(PathView, Seq<usize>)>,
        key: PathView,
        node: Seq<usize>,
    ) -> Seq<(PathView, Seq<usize>)> {
        crate::state::subscribed_with(readers, key, node)
    }

    fn get(&mut self, key: &Path, node_id: Option<&NodeId>) -> (r: Option<ValueRef>) {
        self.store.read(key, node_id)
    }
}

// Paths

pub fn ident(p: &str) -> (r: Box<ValueExpr>)
    ensures
        r@ == Term::Ident(p@),
{
    Box::new(ValueExpr::Ident(p.to_owned()))
}

pub fn index(lhs: Box<ValueExpr>, rhs: Box<ValueExpr>) -> (r: Box<ValueExpr>)
    ensures
        r@ == Term::Index(Box::new(lhs@), Box::new(rhs@)),
{
    Box::new(ValueExpr::Index(lhs, rhs))
}

pub fn dot(lhs: Box<ValueExpr>, rhs: Box<ValueExpr>) -> (r: Box<ValueExpr>)
    ensures
        r@ == Term::Dot(Box::new(lhs@), Box::new(rhs@)),
{
    Box::new(ValueExpr::Dot(lhs, rhs))
}

// Maths

pub fn mul(lhs: Box<ValueExpr>, rhs: Box<ValueExpr>) -> (r: Box<ValueExpr>)
    ensures
        r@ == Term::Binary(BinaryOp::Mul, Box::new(lhs@), Box::new(rhs@)),
{
    Box::new(ValueExpr::Binary(BinaryOp::Mul, lhs, rhs))
}

pub fn div(lhs: Box<ValueExpr>, rhs: Box<ValueExpr>) -> (r: Box<ValueExpr>)
    ensures
        r@ == Term::Binary(BinaryOp::Div, Box::new(lhs@), Box::new(rhs@)),
{
    Box::new(ValueExpr::Binary(BinaryOp::Div, lhs, rhs))
}

pub fn modulo(lhs: Box<ValueExpr>, rhs: Box<ValueExpr>) -> (r: Box<ValueExpr>)
    ensures
        r@ == Term::Binary(BinaryOp::Mod, Box::new(lhs@), Box::new(rhs@)),
{
    Box::new(ValueExpr::Binary(BinaryOp::Mod, lhs, rhs))
}

pub fn sub(lhs: Box<ValueExpr>, rhs: Box<ValueExpr>) -> (r: Box<ValueExpr>)
    ensures
        r@ == Term::Binary(BinaryOp::Sub, Box::new(lhs@), Box::new(rhs@)),
{
    Box::new(ValueExpr::Binary(BinaryOp::Sub, lhs, rhs))
}

pub fn add(lhs: Box<ValueExpr>, rhs: Box<ValueExpr>) -> (r: Box<ValueExpr>)
    ensures
        r@ == Term::Binary(BinaryOp::Add, Box::new(lhs@), Box::new(rhs@)),
{
    Box::new(ValueExpr::Binary(BinaryOp::Add, lhs, rhs))
}

// Values

pub fn unum(n: u64) -> (r: Box<ValueExpr>)
    ensures
        r@ == Term::Owned(Owned::Num(Num::Unsigned(n))),
{
    Box::new(ValueExpr::Owned(Owned::Num(Num::Unsigned(n))))
}

pub fn inum(n: i64) -> (r: Box<ValueExpr>)
    ensures
        r@ == Term::Owned(Owned::Num(Num::Signed(n))),
{
    Box::new(ValueExpr::Owned(Owned::Num(Num::Signed(n))))
}

pub fn boolean(b: bool) -> (r: Box<ValueExpr>)
    ensures
        r@ == Term::Owned(Owned::Bool(b)),
{
    Box::new(ValueExpr::Owned(Owned::Bool(b)))
}

pub fn strlit(lit: &str) -> (r: Box<ValueExpr>)
    ensures
        r@ == Term::String(lit@),
{
    Box::new(ValueExpr::String(lit.to_owned()))
}

// List

pub fn list(input: Vec<ValueExpr>) -> (r: Box<ValueExpr>)
    ensures
        r@ == Term::List(terms_of(input@)),
{
    proof {
        lemma_list_view(input);
    }
    Box::new(ValueExpr::List(input))
}

// Op

pub fn neg(expr: Box<ValueExpr>) -> (r: Box<ValueExpr>)
    ensures
        r@ == Term::Unary(UnaryOp::Negative, Box::new(expr@)),
{
    Box::new(ValueExpr::Unary(UnaryOp::Negative, expr))
}

pub fn not(expr: Box<ValueExpr>) -> (r: Box<ValueExpr>)
    ensures
        r@ == Term::Unary(UnaryOp::Not, Box::new(expr@)),
{
    Box::new(ValueExpr::Unary(UnaryOp::Not, expr))
}

pub fn eq(lhs: Box<ValueExpr>, rhs: Box<ValueExpr>) -> (r: Box<ValueExpr>)
    ensures
        r@ == Term::Binary(BinaryOp::Equality, Box::new(lhs@), Box::new(rhs@)),
{
    Box::new(ValueExpr::Binary(BinaryOp::Equality, lhs, rhs))
}

pub fn and(lhs: Box<ValueExpr>, rhs: Box<ValueExpr>) -> (r: Box<ValueExpr>)
    ensures
        r@ == Term::Binary(BinaryOp::And, Box::new(lhs@), Box::new(rhs@)),
{
    Box::new(ValueExpr::Binary(BinaryOp::And, lhs, rhs))
}

pub fn or(lhs: Box<ValueExpr>, rhs: Box<ValueExpr>) -> (r: Box<ValueExpr>)
    ensures
        r@ == Term::Binary(BinaryOp::Or, Box::new(lhs@), Box::new(rhs@)),
{
    Box::new(ValueExpr::Binary(BinaryOp::Or, lhs, rhs))
}

} // verus!
