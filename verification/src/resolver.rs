//! Resolving value expressions against the scope and the state.
use vstd::prelude::*;
use crate::node_id::NodeId;
use crate::path::{Path, PathView};
use crate::scope::{lookup_spec, Bound, Scope, ScopeValue};
use crate::state::{id_view, lemma_record_concat, record_all, record_for, equal, seen_view, truthy, Seen, State, ValueRef};
use crate::pratt::{decimal, push_decimal};
use crate::scope::lemma_bound_list;
use crate::template::{pieces_of, Fragment, Piece, Text, TextView};
use crate::value::{terms_of, BinaryOp, Num, Owned, Term, UnaryOp, ValueExpr};
use vstd::string::StringExecFns;

verus! {

pub open spec fn path_opt_view(p: Option<Path>) -> Option<PathView> {
    match p {
        Some(p) => Some(p@),
        None => None,
    }
}

/// The path that an expression writes: a name is a key, `a.b` is the path
/// of `a` followed by that of `b`, and `a[0]` or `a["k"]` is the path of
/// `a` followed by an index or a key. Other expressions write no path.
pub open spec fn path_spec(term: Term) -> Option<PathView>
    decreases term,
{
    match term {
        Term::Ident(name) => Some(PathView::Key(name)),
        Term::Dot(lhs, rhs) => match (path_spec(*lhs), path_spec(*rhs)) {
            (Some(l), Some(r)) => Some(PathView::Composite(Box::new(l), Box::new(r))),
            _ => None,
        },
        Term::Index(lhs, index) => match path_spec(*lhs) {
            Some(l) => match *index {
                Term::Owned(Owned::Num(Num::Unsigned(n))) => if n <= usize::MAX {
                    Some(
                        PathView::Composite(Box::new(l), Box::new(PathView::Index(n as usize))),
                    )
                } else {
                    None
                },
                Term::String(key) => Some(
                    PathView::Composite(Box::new(l), Box::new(PathView::Key(key))),
                ),
                _ => None,
            },
            None => None,
        },
        _ => None,
    }
}

/// The path that an expression writes; see [`path_spec`].
pub fn path_of(expr: &ValueExpr) -> (r: Option<Path>)
    ensures
        path_opt_view(r) == path_spec(expr@),
    decreases expr,
{
    proof {
        reveal_with_fuel(crate::value::term_of, 3);
        reveal_with_fuel(crate::path::path_view, 3);
        reveal_with_fuel(path_spec, 2);
    }
    match expr {
        ValueExpr::Ident(name) => Some(Path::Key(name.clone())),
        ValueExpr::Dot(lhs, rhs) => {
            let l = match path_of(lhs) {
                Some(l) => l,
                None => {
                    return None;
                },
            };
            match path_of(rhs) {
                Some(r) => Some(Path::Composite(Box::new(l), Box::new(r))),
                None => None,
            }
        },
        ValueExpr::Index(lhs, index) => {
            let l = match path_of(lhs) {
                Some(l) => l,
                None => {
                    return None;
                },
            };
            match &**index {
                ValueExpr::Owned(Owned::Num(Num::Unsigned(n))) => {
                    if *n <= usize::MAX as u64 {
                        let path = Path::Composite(Box::new(l), Box::new(Path::Index(*n as usize)));
                        assert(path->Composite_1@ == PathView::Index(*n as usize));
                        Some(path)
                    } else {
                        None
                    }
                },
                ValueExpr::String(key) => {
                    let path = Path::Composite(Box::new(l), Box::new(Path::Key(key.clone())));
                    assert(path->Composite_1@ == PathView::Key(key@));
                    Some(path)
                },
                _ => None,
            }
        },
        _ => None,
    }
}

/// What a binary operation gives of two numbers of the same kind: the
/// number or truth that it computes; nothing where the result does not fit
/// the kind, and on division by zero.
pub open spec fn compute_unsigned(op: BinaryOp, a: u64, b: u64) -> Option<Owned> {
    match op {
        BinaryOp::Add => if a + b <= u64::MAX {
            Some(Owned::Num(Num::Unsigned((a + b) as u64)))
        } else {
            None
        },
        BinaryOp::Sub => if b <= a {
            Some(Owned::Num(Num::Unsigned((a - b) as u64)))
        } else {
            None
        },
        BinaryOp::Mul => if a * b <= u64::MAX {
            Some(Owned::Num(Num::Unsigned((a * b) as u64)))
        } else {
            None
        },
        BinaryOp::Div => if b != 0 {
            Some(Owned::Num(Num::Unsigned(a / b)))
        } else {
            None
        },
        BinaryOp::Mod => if b != 0 {
            Some(Owned::Num(Num::Unsigned(a % b)))
        } else {
            None
        },
        BinaryOp::Greater => Some(Owned::Bool(a > b)),
        BinaryOp::GreaterEqual => Some(Owned::Bool(a >= b)),
        BinaryOp::Less => Some(Owned::Bool(a < b)),
        BinaryOp::LessEqual => Some(Owned::Bool(a <= b)),
        _ => None,
    }
}

/// As [`compute_unsigned`], of two signed numbers. A quotient or a
/// remainder is only given of a dividend that is not negative and a
/// divisor that is positive.
pub open spec fn compute_signed(op: BinaryOp, a: i64, b: i64) -> Option<Owned> {
    match op {
        BinaryOp::Add => if i64::MIN <= a + b <= i64::MAX {
            Some(Owned::Num(Num::Signed((a + b) as i64)))
        } else {
            None
        },
        BinaryOp::Sub => if i64::MIN <= a - b <= i64::MAX {
            Some(Owned::Num(Num::Signed((a - b) as i64)))
        } else {
            None
        },
        BinaryOp::Mul => if i64::MIN <= a * b <= i64::MAX {
            Some(Owned::Num(Num::Signed((a * b) as i64)))
        } else {
            None
        },
        BinaryOp::Div => if a >= 0 && b > 0 {
            Some(Owned::Num(Num::Signed((a / b) as i64)))
        } else {
            None
        },
        BinaryOp::Mod => if a >= 0 && b > 0 {
            Some(Owned::Num(Num::Signed((a % b) as i64)))
        } else {
            None
        },
        BinaryOp::Greater => Some(Owned::Bool(a > b)),
        BinaryOp::GreaterEqual => Some(Owned::Bool(a >= b)),
        BinaryOp::Less => Some(Owned::Bool(a < b)),
        BinaryOp::LessEqual => Some(Owned::Bool(a <= b)),
        _ => None,
    }
}

/// What a binary operation gives of two values: `&&` and `||` go by what
/// is true, `==` by equality, and the others work on two numbers of the
/// same kind.
pub open spec fn compute(op: BinaryOp, a: Seen, b: Seen) -> Option<Seen> {
    match op {
        BinaryOp::And => Some(Seen::Owned(Owned::Bool(truthy(a) && truthy(b)))),
        BinaryOp::Or => Some(Seen::Owned(Owned::Bool(truthy(a) || truthy(b)))),
        BinaryOp::Equality => Some(Seen::Owned(Owned::Bool(equal(a, b)))),
        _ => match (a, b) {
            (
                Seen::Owned(Owned::Num(Num::Unsigned(x))),
                Seen::Owned(Owned::Num(Num::Unsigned(y))),
            ) => match compute_unsigned(op, x, y) {
                Some(o) => Some(Seen::Owned(o)),
                None => None,
            },
            (
                Seen::Owned(Owned::Num(Num::Signed(x))),
                Seen::Owned(Owned::Num(Num::Signed(y))),
            ) => match compute_signed(op, x, y) {
                Some(o) => Some(Seen::Owned(o)),
                None => None,
            },
            _ => None,
        },
    }
}

fn unsigned_op(op: BinaryOp, a: u64, b: u64) -> (r: Option<Owned>)
    ensures
        r == compute_unsigned(op, a, b),
{
    match op {
        BinaryOp::Add => match a.checked_add(b) {
            Some(n) => Some(Owned::Num(Num::Unsigned(n))),
            None => None,
        },
        BinaryOp::Sub => if b <= a {
            Some(Owned::Num(Num::Unsigned(a - b)))
        } else {
            None
        },
        BinaryOp::Mul => match a.checked_mul(b) {
            Some(n) => Some(Owned::Num(Num::Unsigned(n))),
            None => None,
        },
        BinaryOp::Div => if b != 0 {
            Some(Owned::Num(Num::Unsigned(a / b)))
        } else {
            None
        },
        BinaryOp::Mod => if b != 0 {
            Some(Owned::Num(Num::Unsigned(a % b)))
        } else {
            None
        },
        BinaryOp::Greater => Some(Owned::Bool(a > b)),
        BinaryOp::GreaterEqual => Some(Owned::Bool(a >= b)),
        BinaryOp::Less => Some(Owned::Bool(a < b)),
        BinaryOp::LessEqual => Some(Owned::Bool(a <= b)),
        _ => None,
    }
}

fn signed_op(op: BinaryOp, a: i64, b: i64) -> (r: Option<Owned>)
    ensures
        r == compute_signed(op, a, b),
{
    match op {
        BinaryOp::Add => match a.checked_add(b) {
            Some(n) => Some(Owned::Num(Num::Signed(n))),
            None => None,
        },
        BinaryOp::Sub => match a.checked_sub(b) {
            Some(n) => Some(Owned::Num(Num::Signed(n))),
            None => None,
        },
        BinaryOp::Mul => match a.checked_mul(b) {
            Some(n) => Some(Owned::Num(Num::Signed(n))),
            None => None,
        },
        BinaryOp::Div => if a >= 0 && b > 0 {
            Some(Owned::Num(Num::Signed(a / b)))
        } else {
            None
        },
        BinaryOp::Mod => if a >= 0 && b > 0 {
            Some(Owned::Num(Num::Signed(a % b)))
        } else {
            None
        },
        BinaryOp::Greater => Some(Owned::Bool(a > b)),
        BinaryOp::GreaterEqual => Some(Owned::Bool(a >= b)),
        BinaryOp::Less => Some(Owned::Bool(a < b)),
        BinaryOp::LessEqual => Some(Owned::Bool(a <= b)),
        _ => None,
    }
}

/// Computes a binary operation of two values; see [`compute`].
pub fn apply(op: BinaryOp, a: &ValueRef, b: &ValueRef) -> (r: Option<ValueRef>)
    ensures
        seen_view(r) == compute(op, a@, b@),
{
    match op {
        BinaryOp::And => Some(ValueRef::Owned(Owned::Bool(a.is_true() && b.is_true()))),
        BinaryOp::Or => Some(ValueRef::Owned(Owned::Bool(a.is_true() || b.is_true()))),
        BinaryOp::Equality => Some(ValueRef::Owned(Owned::Bool(a.equals(b)))),
        _ => match (a, b) {
            (
                ValueRef::Owned(Owned::Num(Num::Unsigned(x))),
                ValueRef::Owned(Owned::Num(Num::Unsigned(y))),
            ) => match unsigned_op(op, *x, *y) {
                Some(o) => Some(ValueRef::Owned(o)),
                None => None,
            },
            (
                ValueRef::Owned(Owned::Num(Num::Signed(x))),
                ValueRef::Owned(Owned::Num(Num::Signed(y))),
            ) => match signed_op(op, *x, *y) {
                Some(o) => Some(ValueRef::Owned(o)),
                None => None,
            },
            _ => None,
        },
    }
}

/// The negative of a number, where it fits.
pub open spec fn negate(v: Seen) -> Option<Seen> {
    match v {
        Seen::Owned(Owned::Num(Num::Signed(n))) => if n > i64::MIN {
            Some(Seen::Owned(Owned::Num(Num::Signed((-n) as i64))))
        } else {
            None
        },
        Seen::Owned(Owned::Num(Num::Unsigned(n))) => if n <= i64::MAX {
            Some(Seen::Owned(Owned::Num(Num::Signed((-n) as i64))))
        } else {
            None
        },
        _ => None,
    }
}

/// The path with the name that it starts with replaced by the path that
/// the name is bound to in the scope, if it is bound to one.
pub open spec fn absolute(path: PathView, frames: Seq<Seq<(PathView, Bound)>>) -> PathView
    decreases path,
{
    match path {
        PathView::Key(_) => match lookup_spec(frames, path) {
            Some(Bound::Dyn(bound)) => bound,
            _ => path,
        },
        PathView::Index(_) => path,
        PathView::Composite(first, second) => PathView::Composite(
            Box::new(absolute(*first, frames)),
            second,
        ),
    }
}

/// The value at `path`: what the scope binds the path to, a string or the
/// length of a list as they are, a path of the state looked up there; or,
/// where the scope does not bind it, what the state holds at the path made
/// absolute.
pub open spec fn lookup_value<S: State>(
    path: PathView,
    frames: Seq<Seq<(PathView, Bound)>>,
    state: S,
) -> Option<Seen> {
    match lookup_spec(frames, path) {
        Some(Bound::Static(s)) => Some(Seen::Str(s)),
        Some(Bound::List(items)) => Some(Seen::List(items.len() as usize)),
        Some(Bound::Dyn(bound)) => state.value(bound),
        None => state.value(absolute(path, frames)),
    }
}

/// The path that is read of the state when the value at `path` is looked
/// up: the path that the scope binds it to, or the path itself where the
/// scope does not bind it; none where the scope holds the value.
pub open spec fn path_reads(path: PathView, frames: Seq<Seq<(PathView, Bound)>>) -> Seq<PathView> {
    match lookup_spec(frames, path) {
        Some(Bound::Dyn(bound)) => seq![bound],
        None => seq![absolute(path, frames)],
        _ => Seq::empty(),
    }
}

/// The paths that are read of the state when an expression is resolved,
/// in the order in which they are read.
pub open spec fn reads(term: Term, frames: Seq<Seq<(PathView, Bound)>>) -> Seq<PathView>
    decreases term,
{
    match term {
        Term::Ident(_) | Term::Dot(_, _) | Term::Index(_, _) => match path_spec(term) {
            Some(path) => path_reads(path, frames),
            None => Seq::empty(),
        },
        Term::Unary(op, operand) => reads(*operand, frames),
        Term::Binary(op, lhs, rhs) => reads(*lhs, frames) + reads(*rhs, frames),
        _ => Seq::empty(),
    }
}

/// The paths that are read when the first `n` pieces of a text are shown.
pub open spec fn pieces_reads(
    pieces: Seq<Piece>,
    n: int,
    frames: Seq<Seq<(PathView, Bound)>>,
) -> Seq<PathView>
    decreases n,
{
    if n <= 0 || n > pieces.len() {
        Seq::empty()
    } else {
        pieces_reads(pieces, n - 1, frames) + match pieces[n - 1] {
            Piece::String(s) => Seq::empty(),
            Piece::Data(term) => reads(term, frames),
        }
    }
}

/// The paths that are read when a text is shown.
pub open spec fn text_reads(text: Option<TextView>, frames: Seq<Seq<(PathView, Bound)>>) -> Seq<
    PathView,
> {
    match text {
        Some(TextView::Fragments(pieces)) => pieces_reads(pieces, pieces.len() as int, frames),
        _ => Seq::empty(),
    }
}

/// What an expression resolves to under a scope and a state.
pub open spec fn resolve_spec<S: State>(
    term: Term,
    frames: Seq<Seq<(PathView, Bound)>>,
    state: S,
) -> Option<Seen>
    decreases term,
{
    match term {
        Term::Owned(o) => Some(Seen::Owned(o)),
        Term::String(s) => Some(Seen::Str(s)),
        Term::List(items) => Some(Seen::Expressions(items)),
        Term::Ident(_) | Term::Dot(_, _) | Term::Index(_, _) => match path_spec(term) {
            Some(path) => lookup_value(path, frames, state),
            None => None,
        },
        Term::Unary(op, operand) => match resolve_spec(*operand, frames, state) {
            Some(v) => match op {
                UnaryOp::Not => Some(Seen::Owned(Owned::Bool(!truthy(v)))),
                UnaryOp::Negative => negate(v),
            },
            None => None,
        },
        Term::Binary(op, lhs, rhs) => match (
            resolve_spec(*lhs, frames, state),
            resolve_spec(*rhs, frames, state),
        ) {
            (Some(l), Some(r)) => compute(op, l, r),
            _ => None,
        },
        Term::Dict(_) => None,
        Term::Call { .. } => None,
    }
}

/// The state holds the same values as `before`.
pub open spec fn same_values<S: State>(before: S, after: S) -> bool {
    forall|k: PathView| #[trigger] after.value(k) == before.value(k)
}

pub fn make_absolute(path: &Path, scope: &Scope) -> (r: Path)
    ensures
        r@ == absolute(path@, scope@),
    decreases path,
{
    match path {
        Path::Key(_) => match scope.lookup(path) {
            Some(ScopeValue::Dyn(bound)) => bound.duplicate(),
            _ => path.duplicate(),
        },
        Path::Index(_) => path.duplicate(),
        Path::Composite(first, second) => {
            let head = make_absolute(first, scope);
            Path::Composite(Box::new(head), Box::new(second.duplicate()))
        },
    }
}

/// Looks up the value at `path`, on behalf of `node_id`; see
/// [`lookup_value`].
pub fn lookup<S: State>(path: &Path, scope: &Scope, state: &mut S, node_id: Option<&NodeId>) -> (r:
    Option<ValueRef>)
    ensures
        seen_view(r) == lookup_value(path@, scope@, *old(state)),
        same_values(*old(state), *final(state)),
        final(state).pending() == old(state).pending(),
        final(state).subscribed() == record_for::<S>(
            old(state).subscribed(),
            path_reads(path@, scope@),
            id_view(node_id),
        ),
{
    proof {
        reveal_with_fuel(record_all, 2);
    }
    match scope.lookup(path) {
        Some(ScopeValue::Static(s)) => Some(ValueRef::Str(s.clone())),
        Some(ScopeValue::List(items)) => {
            proof {
                crate::scope::lemma_bound_list(*items);
            }
            Some(ValueRef::List(items.len()))
        },
        Some(ScopeValue::Dyn(bound)) => state.get(bound, node_id),
        None => {
            let path = make_absolute(path, scope);
            state.get(&path, node_id)
        },
    }
}

fn copy_expressions(items: &Vec<ValueExpr>) -> (r: Vec<ValueExpr>)
    ensures
        terms_of(r@) == terms_of(items@),
{
    let mut out: Vec<ValueExpr> = Vec::new();
    let mut i: usize = 0;
    while i < items.len()
        invariant
            i <= items.len(),
            out.len() == i,
            forall|j: int| 0 <= j < i ==> out[j]@ == items[j]@,
        decreases items.len() - i,
    {
        out.push(items[i].duplicate());
        i += 1;
    }
    assert(terms_of(out@) =~= terms_of(items@));
    out
}

fn negative(v: &ValueRef) -> (r: Option<ValueRef>)
    ensures
        seen_view(r) == negate(v@),
{
    match v {
        ValueRef::Owned(Owned::Num(Num::Signed(n))) => if *n > i64::MIN {
            Some(ValueRef::Owned(Owned::Num(Num::Signed(-*n))))
        } else {
            None
        },
        ValueRef::Owned(Owned::Num(Num::Unsigned(n))) => if *n <= 0x7fff_ffff_ffff_ffff {
            Some(ValueRef::Owned(Owned::Num(Num::Signed(-(*n as i64)))))
        } else {
            None
        },
        _ => None,
    }
}

/// Resolves an expression on behalf of `node_id`; see [`resolve_spec`].
/// Every value of the state that is read is read on behalf of the node.
pub fn resolve<S: State>(
    expr: &ValueExpr,
    scope: &Scope,
    state: &mut S,
    node_id: Option<&NodeId>,
) -> (r: Option<ValueRef>)
    ensures
        seen_view(r) == resolve_spec(expr@, scope@, *old(state)),
        same_values(*old(state), *final(state)),
        final(state).pending() == old(state).pending(),
        final(state).subscribed() == record_for::<S>(
            old(state).subscribed(),
            reads(expr@, scope@),
            id_view(node_id),
        ),
    decreases expr,
{
    match expr {
        ValueExpr::Owned(o) => Some(ValueRef::Owned(*o)),
        ValueExpr::String(s) => Some(ValueRef::Str(s.clone())),
        ValueExpr::List(items) => {
            proof {
                crate::value::lemma_list_view(*items);
            }
            Some(ValueRef::Expressions(copy_expressions(items)))
        },
        ValueExpr::Ident(_) | ValueExpr::Dot(_, _) | ValueExpr::Index(_, _) => {
            match path_of(expr) {
                Some(path) => lookup(&path, scope, state, node_id),
                None => None,
            }
        },
        ValueExpr::Unary(op, operand) => {
            match resolve(operand, scope, state, node_id) {
                Some(v) => match op {
                    UnaryOp::Not => Some(ValueRef::Owned(Owned::Bool(!v.is_true()))),
                    UnaryOp::Negative => negative(&v),
                },
                None => None,
            }
        },
        ValueExpr::Binary(op, lhs, rhs) => {
            let ghost start = *state;
            let l = resolve(lhs, scope, state, node_id);
            let ghost middle = *state;
            let r = resolve(rhs, scope, state, node_id);
            proof {
                match node_id {
                    Some(id) => {
                        lemma_record_concat::<S>(
                            start.subscribed(),
                            reads(lhs@, scope@),
                            reads(rhs@, scope@),
                            id@,
                        );
                    },
                    None => {},
                }
                lemma_resolve_same(rhs@, scope@, start, middle);
                assert(same_values(start, *state)) by {
                    assert forall|k: PathView| #[trigger] state.value(k) == start.value(k) by {
                        assert(middle.value(k) == start.value(k));
                    }
                }
            }
            match (l, r) {
                (Some(l), Some(r)) => apply(*op, &l, &r),
                _ => None,
            }
        },
        ValueExpr::Dict(_) => None,
        ValueExpr::Call { .. } => None,
    }
}

/// How a value is shown in a text: a string as it is, a truth as `true` or
/// `false`, a number in decimal digits; anything else, and a value that is
/// not there, as nothing.
pub open spec fn shown(v: Option<Seen>) -> Seq<char> {
    match v {
        Some(Seen::Str(s)) => s,
        Some(Seen::Owned(Owned::Bool(b))) => if b {
            "true"@
        } else {
            "false"@
        },
        Some(Seen::Owned(Owned::Num(Num::Unsigned(n)))) => decimal(n as nat),
        Some(Seen::Owned(Owned::Num(Num::Signed(n)))) => if n < 0 {
            "-"@ + decimal((-n) as nat)
        } else {
            decimal(n as nat)
        },
        _ => Seq::empty(),
    }
}

/// Writes a value behind `out` as it is shown in a text.
pub fn show(out: &mut String, value: &Option<ValueRef>)
    ensures
        final(out)@ == old(out)@ + shown(seen_view(*value)),
{
    match value {
        Some(ValueRef::Str(s)) => {
            out.append(s.as_str());
        },
        Some(ValueRef::Owned(Owned::Bool(b))) => {
            if *b {
                out.append("true");
            } else {
                out.append("false");
            }
        },
        Some(ValueRef::Owned(Owned::Num(Num::Unsigned(n)))) => {
            push_decimal(out, *n);
        },
        Some(ValueRef::Owned(Owned::Num(Num::Signed(n)))) => {
            if *n < 0 {
                out.append("-");
                let magnitude: u64 = if *n == i64::MIN {
                    0x8000_0000_0000_0000
                } else {
                    (-*n) as u64
                };
                push_decimal(out, magnitude);
                assert(out@ =~= old(out)@ + ("-"@ + decimal((-*n) as nat)));
            } else {
                push_decimal(out, *n as u64);
            }
        },
        _ => {
            assert(out@ =~= old(out)@ + Seq::<char>::empty());
        },
    }
}

/// The first `n` pieces of a text, one behind the other, each expression
/// resolved and shown.
pub open spec fn pieces_text<S: State>(
    pieces: Seq<Piece>,
    n: int,
    frames: Seq<Seq<(PathView, Bound)>>,
    state: S,
) -> Seq<char>
    decreases n,
{
    if n <= 0 || n > pieces.len() {
        Seq::empty()
    } else {
        pieces_text(pieces, n - 1, frames, state) + match pieces[n - 1] {
            Piece::String(s) => s,
            Piece::Data(term) => shown(resolve_spec(term, frames, state)),
        }
    }
}

/// The text of a node as it is shown.
pub open spec fn text_spec<S: State>(
    text: Option<TextView>,
    frames: Seq<Seq<(PathView, Bound)>>,
    state: S,
) -> Seq<char> {
    match text {
        Some(TextView::String(s)) => s,
        Some(TextView::Fragments(pieces)) => pieces_text(
            pieces,
            pieces.len() as int,
            frames,
            state,
        ),
        None => Seq::empty(),
    }
}

/// `b` holds the same values as `a`, and `c` the same as `b`: then `c`
/// holds the same as `a`.
pub proof fn lemma_same_values_chain<S: State>(a: S, b: S, c: S)
    requires
        same_values(a, b),
        same_values(b, c),
    ensures
        same_values(a, c),
{
    assert forall|k: PathView| #[trigger] c.value(k) == a.value(k) by {
        assert(b.value(k) == a.value(k));
    }
}

/// Resolves the text of a node on behalf of `node_id`; see [`text_spec`].
pub fn render_text<S: State>(
    text: &Option<Text>,
    scope: &Scope,
    state: &mut S,
    node_id: Option<&NodeId>,
) -> (r: String)
    ensures
        r@ == text_spec(crate::template::text_view(*text), scope@, *old(state)),
        same_values(*old(state), *final(state)),
        final(state).pending() == old(state).pending(),
        final(state).subscribed() == record_for::<S>(
            old(state).subscribed(),
            text_reads(crate::template::text_view(*text), scope@),
            id_view(node_id),
        ),
{
    match text {
        None => String::new(),
        Some(Text::String(s)) => s.clone(),
        Some(Text::Fragments(fragments)) => {
            let ghost pieces = pieces_of(fragments@);
            let ghost start = *state;
            let mut out = String::new();
            let mut k: usize = 0;
            while k < fragments.len()
                invariant
                    k <= fragments.len(),
                    pieces == pieces_of(fragments@),
                    same_values(start, *state),
                    state.pending() == start.pending(),
                    state.subscribed() == record_for::<S>(
                        start.subscribed(),
                        pieces_reads(pieces, k as int, scope@),
                        id_view(node_id),
                    ),
                    out@ == pieces_text(pieces, k as int, scope@, start),
                decreases fragments.len() - k,
            {
                assert(pieces[k as int] == fragments[k as int]@);
                match &fragments[k] {
                    Fragment::String(s) => {
                        out.append(s.as_str());
                        assert(pieces_reads(pieces, k + 1, scope@) =~= pieces_reads(
                            pieces,
                            k as int,
                            scope@,
                        ));
                    },
                    Fragment::Data(expr) => {
                        let ghost before = *state;
                        let value = resolve(expr, scope, state, node_id);
                        proof {
                            match node_id {
                                Some(id) => {
                                    lemma_record_concat::<S>(
                                        start.subscribed(),
                                        pieces_reads(pieces, k as int, scope@),
                                        reads(expr@, scope@),
                                        id@,
                                    );
                                },
                                None => {},
                            }
                            lemma_resolve_same(expr@, scope@, start, before);
                            lemma_same_values_chain(start, before, *state);
                        }
                        show(&mut out, &value);
                    },
                }
                k += 1;
            }
            out
        },
    }
}

/// Two states that hold the same values resolve every expression alike.
pub proof fn lemma_resolve_same<S: State>(
    term: Term,
    frames: Seq<Seq<(PathView, Bound)>>,
    a: S,
    b: S,
)
    requires
        same_values(a, b),
    ensures
        resolve_spec(term, frames, a) == resolve_spec(term, frames, b),
    decreases term,
{
    match term {
        Term::Unary(op, operand) => {
            lemma_resolve_same(*operand, frames, a, b);
        },
        Term::Binary(op, lhs, rhs) => {
            lemma_resolve_same(*lhs, frames, a, b);
            lemma_resolve_same(*rhs, frames, a, b);
        },
        Term::Ident(_) | Term::Dot(_, _) | Term::Index(_, _) => {
            match path_spec(term) {
                Some(path) => {
                    match lookup_spec(frames, path) {
                        Some(Bound::Dyn(bound)) => {
                            assert(b.value(bound) == a.value(bound));
                        },
                        None => {
                            assert(b.value(absolute(path, frames)) == a.value(
                                absolute(path, frames),
                            ));
                        },
                        _ => {},
                    }
                },
                None => {},
            }
        },
        _ => {},
    }
}

} // verus!
