//! The expansion engine: templates become a tree of widget nodes, one step
//! at a time.
use vstd::prelude::*;

use crate::error::Error;
use crate::node_id::NodeId;
use crate::path::{Path, PathView};
use crate::pratt::{decimal, push_decimal};
use crate::state::{lemma_record_concat, record_all};
use crate::resolver::{path_reads, reads, text_reads,
    absolute, lemma_resolve_same, lemma_same_values_chain, lookup, path_of, path_spec,
    render_text, resolve, resolve_spec, same_values, text_spec,
};
use crate::scope::{
    bounds_of, element, lemma_bound_list, lookup_spec, run_len, Bound, Collection, Run, Scope,
    ScopeValue,
};
use crate::node_id::is_prefix;
use crate::scope::run_changed;
use crate::state::{remove_node, seen_view, truthy, Change, DirtyQueue, Seen, State, ValueRef};
use crate::template::{
    arms_view, templates_view, Arm, ArmCond, Attributes, Cond, ControlFlow, Template, Tpl,
};
use crate::faithful::{
    arms_tied, arms_true, instance_frames, lemma_node_true_same, lemma_nodes_true_same,
    node_true, nodes_true, runs_bound, runs_true,
};
use crate::tree::{arms_shape, node_view, nodes_view, runs_view};
use crate::updates::{
    chain_notes, chain_refreshed, chain_updated, lemma_node_notes_same,
    lemma_node_updated_same, lemma_nodes_notes_same, lemma_nodes_updated_same,
    lemma_prefix_pushed, level_notes, matching_arm, node_notes, node_updated, nodes_notes,
    nodes_updated, refreshed, runs_notes, runs_updated,
};
use crate::tree_laws::{
    arms_ids, covered, lemma_arms_covered, lemma_change_covers, lemma_choice_covers,
    lemma_covered_chain, lemma_covered_concat, lemma_covered_later, lemma_covered_same,
    lemma_level_covered, lemma_reload_covers, lemma_reset_covers, lemma_runs_covered, node_ids,
    nodes_ids, run_ids_at, runs_ids,
};
use crate::value::{lemma_list_view, terms_of, Num, Owned, Term, ValueExpr};
use crate::widget::{attributes_view, Attribute, Factory, WidgetContainer};

verus! {

/// What a value that a template wrote is bound to as an element of a list:
/// strings, truths and numbers as the text that shows them, a list as the
/// list of its elements, a path as the path; anything else as the empty
/// string.
pub open spec fn scope_value_spec(term: Term) -> Bound
    decreases term,
{
    match term {
        Term::String(s) => Bound::Static(s),
        Term::Owned(Owned::Bool(b)) => Bound::Static(
            if b {
                "true"@
            } else {
                "false"@
            },
        ),
        Term::Owned(Owned::Num(Num::Unsigned(n))) => Bound::Static(decimal(n as nat)),
        Term::List(items) => Bound::List(
            Seq::new(
                items.len(),
                |i: int|
                    if 0 <= i < items.len() {
                        scope_value_spec(items[i])
                    } else {
                        Bound::Static(Seq::empty())
                    },
            ),
        ),
        Term::Ident(_) | Term::Dot(_, _) | Term::Index(_, _) => match path_spec(term) {
            Some(path) => Bound::Dyn(path),
            None => Bound::Static(Seq::empty()),
        },
        _ => Bound::Static(Seq::empty()),
    }
}

/// The elements of a written list as scope values.
pub open spec fn scope_values_spec(items: Seq<Term>) -> Seq<Bound> {
    Seq::new(items.len(), |i: int| scope_value_spec(items[i]))
}

fn scope_values_of(items: &Vec<ValueExpr>) -> (r: Vec<ScopeValue>)
    ensures
        bounds_of(r@) == scope_values_spec(terms_of(items@)),
    decreases items, 1int,
{
    let mut out: Vec<ScopeValue> = Vec::new();
    let mut i: usize = 0;
    while i < items.len()
        invariant
            i <= items.len(),
            out.len() == i,
            forall|j: int| 0 <= j < i ==> out[j]@ == scope_value_spec(items[j]@),
        decreases items.len() - i,
    {
        out.push(scope_value_of(&items[i]));
        i += 1;
    }
    assert(bounds_of(out@) =~= scope_values_spec(terms_of(items@)));
    out
}

/// The scope value of a written expression; see [`scope_value_spec`].
pub fn scope_value_of(expr: &ValueExpr) -> (r: ScopeValue)
    ensures
        r@ == scope_value_spec(expr@),
    decreases expr, 0int,
{
    match expr {
        ValueExpr::String(s) => ScopeValue::Static(s.clone()),
        ValueExpr::Owned(Owned::Bool(b)) => {
            if *b {
                ScopeValue::Static("true".to_owned())
            } else {
                ScopeValue::Static("false".to_owned())
            }
        },
        ValueExpr::Owned(Owned::Num(Num::Unsigned(n))) => {
            let mut text = String::new();
            push_decimal(&mut text, *n);
            assert(text@ =~= decimal(*n as nat));
            ScopeValue::Static(text)
        },
        ValueExpr::List(items) => {
            let values = scope_values_of(items);
            proof {
                lemma_list_view(*items);
                lemma_bound_list(values);
                assert(scope_value_spec(expr@)->List_0 =~= scope_values_spec(terms_of(items@)));
            }
            ScopeValue::List(values)
        },
        ValueExpr::Ident(_) | ValueExpr::Dot(_, _) | ValueExpr::Index(_, _) => {
            match path_of(expr) {
                Some(path) => ScopeValue::Dyn(path),
                None => ScopeValue::Static(String::new()),
            }
        },
        _ => ScopeValue::Static(String::new()),
    }
}

/// The paths that are read of the state when the condition of an arm is
/// evaluated.
pub open spec fn cond_reads(cond: ArmCond, frames: Seq<Seq<(PathView, Bound)>>) -> Seq<PathView> {
    match cond {
        ArmCond::If(term) => reads(term, frames),
        ArmCond::Else(Some(term)) => reads(term, frames),
        ArmCond::Else(None) => Seq::empty(),
    }
}

/// The path that is read of the state when the collection of a loop is
/// looked up: that of a collection of the state; none of a written list.
pub open spec fn data_reads(data: Term, frames: Seq<Seq<(PathView, Bound)>>) -> Seq<PathView> {
    match data {
        Term::List(items) => Seq::empty(),
        _ => match path_spec(data) {
            Some(path) => path_reads(path, frames),
            None => Seq::empty(),
        },
    }
}

/// The paths that are read when the first `n` attributes are resolved.
pub open spec fn attributes_reads(
    attributes: Seq<(Seq<char>, Term)>,
    n: int,
    frames: Seq<Seq<(PathView, Bound)>>,
) -> Seq<PathView>
    decreases n,
{
    if n <= 0 || n > attributes.len() {
        Seq::empty()
    } else {
        attributes_reads(attributes, n - 1, frames) + reads(attributes[n - 1].1, frames)
    }
}

/// The subscriptions after the conditions of the first `n` arms of a
/// chain with the id `id` were evaluated: each arm reads its condition
/// under its own id, the id of the chain with the number of the arm
/// behind it.
pub open spec fn arms_recorded<S: State>(
    readers: Seq<(PathView, Seq<usize>)>,
    arms: Seq<Arm>,
    frames: Seq<Seq<(PathView, Bound)>>,
    id: Seq<usize>,
    n: int,
) -> Seq<(PathView, Seq<usize>)>
    decreases n,
{
    if n <= 0 || n > arms.len() {
        readers
    } else {
        record_all::<S>(
            arms_recorded::<S>(readers, arms, frames, id, n - 1),
            cond_reads(arms[n - 1].cond, frames),
            id.push((n - 1) as usize),
        )
    }
}

/// The subscriptions after the node with the id `id` was made of a
/// template: a widget reads its text and then its attributes, a loop its
/// collection, each under the id of the node; the arms of a chain read
/// their conditions, each under its own id.
pub open spec fn create_recorded<S: State>(
    readers: Seq<(PathView, Seq<usize>)>,
    template: Tpl,
    frames: Seq<Seq<(PathView, Bound)>>,
    id: Seq<usize>,
) -> Seq<(PathView, Seq<usize>)> {
    match template {
        Tpl::Node { ident, attributes, text, children } => record_all::<S>(
            readers,
            text_reads(text, frames) + attributes_reads(
                attributes,
                attributes.len() as int,
                frames,
            ),
            id,
        ),
        Tpl::Loop { binding, data, body } => record_all::<S>(readers, data_reads(data, frames), id),
        Tpl::ControlFlow(arms) => arms_recorded::<S>(readers, arms, frames, id, arms.len() as int),
        Tpl::View(_) => readers,
    }
}

/// What a loop runs over: a written list as it stands; else what the
/// expression names, a list bound in the scope or a collection of the
/// state, of which the length is read; the empty collection where the
/// expression names nothing.
pub open spec fn collection_spec<S: State>(
    data: Term,
    frames: Seq<Seq<(PathView, Bound)>>,
    state: S,
) -> Run {
    match data {
        Term::List(items) => Run::Static(scope_values_spec(items)),
        _ => match path_spec(data) {
            Some(path) => match lookup_spec(frames, path) {
                Some(Bound::List(items)) => Run::Static(items),
                Some(Bound::Static(_)) => Run::Empty,
                Some(Bound::Dyn(bound)) => Run::State {
                    path: bound,
                    len: state_len(state.value(bound)),
                },
                None => Run::State {
                    path: absolute(path, frames),
                    len: state_len(state.value(absolute(path, frames))),
                },
            },
            None => Run::Empty,
        },
    }
}

/// The length of a list of the state; zero of anything else.
pub open spec fn state_len(v: Option<Seen>) -> usize {
    match v {
        Some(Seen::List(n)) => n,
        _ => 0,
    }
}

fn list_len(v: &Option<ValueRef>) -> (n: usize)
    ensures
        n == state_len(seen_view(*v)),
{
    match v {
        Some(ValueRef::List(n)) => *n,
        _ => 0,
    }
}

fn copy_scope_values(items: &Vec<ScopeValue>) -> (r: Vec<ScopeValue>)
    ensures
        bounds_of(r@) == bounds_of(items@),
{
    let mut out: Vec<ScopeValue> = Vec::new();
    let mut i: usize = 0;
    while i < items.len()
        invariant
            i <= items.len(),
            out.len() == i,
            forall|j: int| 0 <= j < i ==> out[j]@ == items[j]@,
        decreases items.len() - i,
    {
        out.push(items[i].duplicate());
        i += 1;
    }
    assert(bounds_of(out@) =~= bounds_of(items@));
    out
}

/// Finds what a loop runs over, on behalf of the loop's node; see
/// [`collection_spec`].
pub fn collection_of<S: State>(
    data: &ValueExpr,
    scope: &Scope,
    state: &mut S,
    node_id: &NodeId,
) -> (r: Collection)
    ensures
        r@ == collection_spec(data@, scope@, *old(state)),
        same_values(*old(state), *final(state)),
        final(state).pending() == old(state).pending(),
        final(state).subscribed() == record_all::<S>(
            old(state).subscribed(),
            data_reads(data@, scope@),
            node_id@,
        ),
{
    proof {
        reveal_with_fuel(record_all, 2);
    }
    match data {
        ValueExpr::List(items) => {
            proof {
                lemma_list_view(*items);
            }
            Collection::Static(scope_values_of(items))
        },
        _ => {
            let path = match path_of(data) {
                Some(path) => path,
                None => {
                    return Collection::Empty;
                },
            };
            match scope.lookup(&path) {
                Some(ScopeValue::List(items)) => {
                    proof {
                        lemma_bound_list(*items);
                    }
                    Collection::Static(copy_scope_values(items))
                },
                Some(ScopeValue::Static(_)) => Collection::Empty,
                Some(ScopeValue::Dyn(bound)) => {
                    let value = state.get(bound, Some(node_id));
                    Collection::State { path: bound.duplicate(), len: list_len(&value) }
                },
                None => {
                    let path = crate::resolver::make_absolute(&path, scope);
                    let value = state.get(&path, Some(node_id));
                    let len = list_len(&value);
                    Collection::State { path, len }
                },
            }
        },
    }
}

/// The index of the first arm that is true, if one is.
pub open spec fn first_true(truths: Seq<bool>) -> Option<int>
    decreases truths.len(),
{
    if truths.len() == 0 {
        None
    } else {
        match first_true(truths.drop_last()) {
            Some(i) => Some(i),
            None => if truths.last() {
                Some(truths.len() - 1)
            } else {
                None
            },
        }
    }
}

/// At most one arm is chosen: the first that is true, before which none
/// is.
pub proof fn lemma_first_true(truths: Seq<bool>)
    ensures
        match first_true(truths) {
            Some(i) => 0 <= i < truths.len() && truths[i] && forall|j: int|
                0 <= j < i ==> !truths[j],
            None => forall|j: int| 0 <= j < truths.len() ==> !truths[j],
        },
    decreases truths.len(),
{
    if truths.len() > 0 {
        let front = truths.drop_last();
        lemma_first_true(front);
        assert forall|j: int| 0 <= j < front.len() implies front[j] == truths[j] by {}
        match first_true(front) {
            Some(i) => {},
            None => {
                assert forall|j: int| 0 <= j < truths.len() - 1 implies !truths[j] by {
                    assert(!front[j]);
                }
            },
        }
    }
}

/// Picks the arm to show: the first that is true.
pub fn select(truths: &Vec<bool>) -> (r: Option<usize>)
    ensures
        match r {
            Some(i) => first_true(truths@) == Some(i as int),
            None => first_true(truths@) is None,
        },
{
    let mut i: usize = 0;
    while i < truths.len()
        invariant
            i <= truths.len(),
            forall|j: int| 0 <= j < i ==> !truths@[j],
        decreases truths.len() - i,
    {
        if truths[i] {
            proof {
                lemma_first_true(truths@);
                match first_true(truths@) {
                    Some(k) => {
                        if k < i {
                            assert(!truths@[k]);
                        }
                    },
                    None => {
                        assert(!truths@[i as int]);
                    },
                }
            }
            return Some(i);
        }
        i += 1;
    }
    proof {
        lemma_first_true(truths@);
    }
    None
}

/// Whether an arm is true: an `if` or `else if` when its condition
/// resolves to something true, an `else` always.
pub open spec fn arm_truth<S: State>(
    cond: ArmCond,
    frames: Seq<Seq<(PathView, Bound)>>,
    state: S,
) -> bool {
    match cond {
        ArmCond::If(term) => match resolve_spec(term, frames, state) {
            Some(v) => truthy(v),
            None => false,
        },
        ArmCond::Else(Some(term)) => match resolve_spec(term, frames, state) {
            Some(v) => truthy(v),
            None => false,
        },
        ArmCond::Else(None) => true,
    }
}

/// Evaluates the condition of an arm on behalf of the arm's node.
pub fn evaluate<S: State>(cond: &Cond, scope: &Scope, state: &mut S, node_id: &NodeId) -> (r: bool)
    ensures
        r == arm_truth(cond@, scope@, *old(state)),
        same_values(*old(state), *final(state)),
        final(state).pending() == old(state).pending(),
        final(state).subscribed() == record_all::<S>(
            old(state).subscribed(),
            cond_reads(cond@, scope@),
            node_id@,
        ),
{
    match cond {
        Cond::If(expr) => match resolve(expr, scope, state, Some(node_id)) {
            Some(v) => v.is_true(),
            None => false,
        },
        Cond::Else(Some(expr)) => match resolve(expr, scope, state, Some(node_id)) {
            Some(v) => v.is_true(),
            None => false,
        },
        Cond::Else(None) => true,
    }
}

/// How deep a template nests.
pub open spec fn height(t: Tpl) -> nat
    decreases t, 0int,
{
    match t {
        Tpl::Node { children, .. } => 1 + heights(children),
        Tpl::Loop { body, .. } => 1 + heights(body),
        Tpl::ControlFlow(arms) => 1 + arms_height(arms),
        Tpl::View(_) => 1,
    }
}

/// How deep the deepest of a list of templates nests.
pub open spec fn heights(ts: Seq<Tpl>) -> nat
    decreases ts, 1int,
{
    if ts.len() == 0 {
        0
    } else {
        let front = heights(ts.drop_last());
        let last = height(ts.last());
        if front >= last {
            front
        } else {
            last
        }
    }
}

/// How deep the deepest body of a list of arms nests.
pub open spec fn arms_height(arms: Seq<Arm>) -> nat
    decreases arms, 1int,
{
    if arms.len() == 0 {
        0
    } else {
        let front = arms_height(arms.drop_last());
        let last = heights(arms.last().body);
        if front >= last {
            front
        } else {
            last
        }
    }
}

pub proof fn lemma_heights(ts: Seq<Tpl>, i: int)
    requires
        0 <= i < ts.len(),
    ensures
        height(ts[i]) <= heights(ts),
    decreases ts.len(),
{
    if i < ts.len() - 1 {
        lemma_heights(ts.drop_last(), i);
    }
}

pub proof fn lemma_arms_height(arms: Seq<Arm>, i: int)
    requires
        0 <= i < arms.len(),
    ensures
        heights(arms[i].body) <= arms_height(arms),
    decreases arms.len(),
{
    if i < arms.len() - 1 {
        lemma_arms_height(arms.drop_last(), i);
    }
}

/// The nodes that a list of templates expands to, as far as they were
/// expanded: the node at `i` stems from the template at `i`.
pub struct Nodes {
    pub inner: Vec<Node>,
    /// The id of the node that these are the children of.
    pub parent: NodeId,
    /// The names that the templates see.
    pub scope: Scope,
}

pub struct Node {
    pub node_id: NodeId,
    pub kind: NodeKind,
}

pub enum NodeKind {
    /// A widget and its children.
    Single(Single),
    /// A loop and its body instances.
    Loop(LoopNode),
    /// An `if` / `else` chain and its arms.
    ControlFlow(IfElse),
    /// The place of a view, which the engine does not expand.
    View,
}

pub struct Single {
    pub widget: WidgetContainer,
    pub children: Nodes,
}

pub struct LoopNode {
    /// The name that the loop binds.
    pub binding: Path,
    pub collection: Collection,
    /// The body instances: the instance at `k` stands for the element at
    /// `k` of the collection.
    pub iterations: Vec<Nodes>,
    /// The number that the next new instance gets in its id.
    pub next_index: usize,
}

pub struct ArmNode {
    /// Whether the condition of the arm was true when it was last
    /// evaluated.
    pub truth: bool,
    pub body: Nodes,
}

pub struct IfElse {
    pub arms: Vec<ArmNode>,
}

/// Whether each arm was true when it was last evaluated.
pub open spec fn truths(arms: Seq<ArmNode>) -> Seq<bool> {
    Seq::new(arms.len(), |i: int| arms[i].truth)
}

/// The arm that is shown.
pub open spec fn active_arm(cf: IfElse) -> Option<int> {
    first_true(truths(cf.arms@))
}

/// The nodes are in order and know where they are: each has the id of its
/// parent with its own index behind it, and is well formed itself.
pub open spec fn nodes_wf(nodes: Nodes) -> bool
    decreases nodes,
{
    &&& nodes.scope@.len() > 0
    &&& forall|i: int|
        0 <= i < nodes.inner.len() ==> (#[trigger] nodes.inner[i]).node_id@
            == nodes.parent@.push(i as usize) && node_wf(nodes.inner[i])
}

/// * A widget has the id of its node, and its children lie under it.
/// * A loop has no more body instances than its collection has elements.
///   Each instance lies under the loop with a number of its own, smaller
///   than the number that the next instance gets, and the instance at `k`
///   sees the name of the loop bound to the element at `k`.
/// * The arm at `j` of a chain lies under the chain with the number `j`,
///   and only the arm that is shown has nodes.
pub open spec fn node_wf(node: Node) -> bool
    decreases node,
{
    match node.kind {
        NodeKind::Single(s) => {
            &&& s.widget.node_id@ == node.node_id@
            &&& s.children.parent@ == node.node_id@
            &&& nodes_wf(s.children)
        },
        NodeKind::Loop(l) => loop_wf(l, node.node_id@),
        NodeKind::ControlFlow(cf) => chain_wf(cf, node.node_id@),
        NodeKind::View => true,
    }
}

/// A loop with the id `id` is well formed; see [`node_wf`].
pub open spec fn loop_wf(l: LoopNode, id: Seq<usize>) -> bool
    decreases l,
{
    &&& l.iterations.len() <= run_len(l.collection@)
    &&& forall|k: int|
        0 <= k < l.iterations.len() ==> {
            &&& (#[trigger] l.iterations[k]).parent@.len() == id.len() + 1
            &&& l.iterations[k].parent@.drop_last() == id
            &&& l.iterations[k].parent@.last() < l.next_index
            &&& nodes_wf(l.iterations[k])
            &&& lookup_spec(l.iterations[k].scope@, l.binding@) == element(
                l.collection@,
                k as usize,
            )
        }
    &&& forall|a: int, b: int|
        0 <= a < b < l.iterations.len() ==> (#[trigger] l.iterations[a]).parent@.last()
            != (#[trigger] l.iterations[b]).parent@.last()
}

/// A chain with the id `id` is well formed; see [`node_wf`].
pub open spec fn chain_wf(cf: IfElse, id: Seq<usize>) -> bool
    decreases cf,
{
    forall|j: int|
        0 <= j < cf.arms.len() ==> {
            &&& (#[trigger] cf.arms[j]).body.parent@ == id.push(j as usize)
            &&& nodes_wf(cf.arms[j].body)
            &&& (active_arm(cf) != Some(j) ==> cf.arms[j].body.inner.len() == 0)
        }
}

/// The nodes are those of `templates`, as far as they are made: the node
/// at `i` is the node of the template at `i`; see [`node_conforms`].
pub open spec fn nodes_conform(nodes: Nodes, templates: Seq<Tpl>) -> bool
    decreases nodes,
{
    &&& nodes.inner.len() <= templates.len()
    &&& forall|i: int|
        0 <= i < nodes.inner.len() ==> node_conforms(#[trigger] nodes.inner[i], templates[i])
}

/// The node is the node of `template`:
///
/// * a widget of the kind that a node template names, with children that
///   are those of the children of the template;
/// * a loop that binds the name of a loop template, with body instances
///   that are each those of the body of the template;
/// * a chain with one arm for each arm of a chain template, the nodes of
///   each arm being those of the body of its arm;
/// * the place of a view.
pub open spec fn node_conforms(node: Node, template: Tpl) -> bool
    decreases node,
{
    match (node.kind, template) {
        (NodeKind::Single(s), Tpl::Node { ident, attributes, text, children }) => {
            &&& s.widget.name@ == ident
            &&& nodes_conform(s.children, children)
        },
        (NodeKind::Loop(l), Tpl::Loop { binding, data, body }) => {
            &&& l.binding@ == PathView::Key(binding)
            &&& runs_conform(l, body)
        },
        (NodeKind::ControlFlow(cf), Tpl::ControlFlow(arms)) => arms_conform(cf, arms),
        (NodeKind::View, Tpl::View(_)) => true,
        _ => false,
    }
}

/// Every body instance of the loop holds nodes of `body`.
pub open spec fn runs_conform(l: LoopNode, body: Seq<Tpl>) -> bool
    decreases l,
{
    forall|k: int|
        0 <= k < l.iterations.len() ==> nodes_conform(#[trigger] l.iterations[k], body)
}

/// The chain has the arms of `arms`, each with nodes of the body of its
/// arm.
pub open spec fn arms_conform(cf: IfElse, arms: Seq<Arm>) -> bool
    decreases cf,
{
    &&& cf.arms.len() == arms.len()
    &&& forall|j: int|
        0 <= j < cf.arms.len() ==> nodes_conform((#[trigger] cf.arms[j]).body, arms[j].body)
}

/// The number of widgets among the first `n` of `nodes` and under them.
pub open spec fn count_upto(nodes: Seq<Node>, n: int) -> nat
    decreases nodes, n,
{
    if n <= 0 || n > nodes.len() {
        0
    } else {
        count_upto(nodes, n - 1) + node_count(nodes[n - 1])
    }
}

/// The number of widgets in the first `n` body instances.
pub open spec fn runs_count(iterations: Seq<Nodes>, n: int) -> nat
    decreases iterations, n,
{
    if n <= 0 || n > iterations.len() {
        0
    } else {
        runs_count(iterations, n - 1) + nodes_count(iterations[n - 1])
    }
}

/// The number of widgets that a node stands for: a widget counts itself
/// and what is under it, a loop what its body instances hold, a chain what
/// the arm that is shown holds.
pub open spec fn node_count(node: Node) -> nat
    decreases node,
{
    match node.kind {
        NodeKind::Single(s) => 1 + nodes_count(s.children),
        NodeKind::Loop(l) => runs_count(l.iterations@, l.iterations.len() as int),
        NodeKind::ControlFlow(cf) => match active_arm(cf) {
            Some(a) => if 0 <= a < cf.arms.len() {
                nodes_count(cf.arms[a].body)
            } else {
                0
            },
            None => 0,
        },
        NodeKind::View => 0,
    }
}

/// The number of widgets in the tree.
pub open spec fn nodes_count(nodes: Nodes) -> nat
    decreases nodes,
{
    count_upto(nodes.inner@, nodes.inner.len() as int)
}

/// The number of widgets at the top: the widgets among `nodes`, and those
/// that their loops and chains put in their place.
pub open spec fn level_upto(nodes: Seq<Node>, n: int) -> nat
    decreases nodes, n,
{
    if n <= 0 || n > nodes.len() {
        0
    } else {
        level_upto(nodes, n - 1) + node_level(nodes[n - 1])
    }
}

pub open spec fn runs_level(iterations: Seq<Nodes>, n: int) -> nat
    decreases iterations, n,
{
    if n <= 0 || n > iterations.len() {
        0
    } else {
        runs_level(iterations, n - 1) + nodes_level(iterations[n - 1])
    }
}

pub open spec fn node_level(node: Node) -> nat
    decreases node,
{
    match node.kind {
        NodeKind::Single(s) => 1,
        NodeKind::Loop(l) => runs_level(l.iterations@, l.iterations.len() as int),
        NodeKind::ControlFlow(cf) => match active_arm(cf) {
            Some(a) => if 0 <= a < cf.arms.len() {
                nodes_level(cf.arms[a].body)
            } else {
                0
            },
            None => 0,
        },
        NodeKind::View => 0,
    }
}

/// The number of widgets that the nodes have produced for the level they
/// stand at.
pub open spec fn nodes_level(nodes: Nodes) -> nat
    decreases nodes,
{
    level_upto(nodes.inner@, nodes.inner.len() as int)
}

/// The values that the attributes of a node resolve to, the first `n` of
/// them.
pub open spec fn resolved_upto<S: State>(
    attributes: Seq<(Seq<char>, Term)>,
    n: int,
    frames: Seq<Seq<(PathView, Bound)>>,
    state: S,
) -> Seq<(Seq<char>, Option<Seen>)>
    decreases n,
{
    if n <= 0 || n > attributes.len() {
        Seq::empty()
    } else {
        resolved_upto(attributes, n - 1, frames, state).push(
            (attributes[n - 1].0, resolve_spec(attributes[n - 1].1, frames, state)),
        )
    }
}

/// Resolves the attributes of a node on behalf of the node.
pub fn resolve_attributes<S: State>(
    attributes: &Attributes,
    scope: &Scope,
    state: &mut S,
    node_id: &NodeId,
) -> (r: Vec<Attribute>)
    ensures
        attributes_view(r@) == resolved_upto(
            attributes@,
            attributes@.len() as int,
            scope@,
            *old(state),
        ),
        same_values(*old(state), *final(state)),
        final(state).pending() == old(state).pending(),
        final(state).subscribed() == record_all::<S>(
            old(state).subscribed(),
            attributes_reads(attributes@, attributes@.len() as int, scope@),
            node_id@,
        ),
{
    let ghost start = *state;
    let mut out: Vec<Attribute> = Vec::new();
    let mut k: usize = 0;
    assert(attributes_view(out@) =~= Seq::<(Seq<char>, Option<Seen>)>::empty());
    while k < attributes.len()
        invariant
            k <= attributes@.len(),
            same_values(start, *state),
            state.pending() == start.pending(),
            state.subscribed() == record_all::<S>(
                start.subscribed(),
                attributes_reads(attributes@, k as int, scope@),
                node_id@,
            ),
            attributes_view(out@) == resolved_upto(attributes@, k as int, scope@, start),
        decreases attributes@.len() - k,
    {
        let ghost before = *state;
        let ghost views = attributes_view(out@);
        let value = resolve(attributes.value_at(k), scope, state, Some(node_id));
        proof {
            lemma_record_concat::<S>(
                start.subscribed(),
                attributes_reads(attributes@, k as int, scope@),
                reads(attributes@[k as int].1, scope@),
                node_id@,
            );
            lemma_resolve_same(attributes@[k as int].1, scope@, start, before);
            lemma_same_values_chain(start, before, *state);
        }
        let attribute = Attribute { name: attributes.key_at(k).clone(), value };
        out.push(attribute);
        assert(attributes_view(out@) =~= views.push(
            (attributes@[k as int].0, resolve_spec(attributes@[k as int].1, scope@, start)),
        ));
        k += 1;
    }
    out
}

impl Nodes {
    /// No nodes yet, to stand under `parent` and see the names of `scope`.
    pub fn new(parent: NodeId, scope: Scope) -> (n: Self)
        requires
            scope@.len() > 0,
        ensures
            nodes_wf(n),
            n.parent@ == parent@,
            n.scope@ == scope@,
            n.inner@.len() == 0,
            nodes_level(n) == 0,
            nodes_count(n) == 0,
    {
        Self { inner: Vec::new(), parent, scope }
    }
}

impl Node {
    /// Makes the node of a template, with the id `node_id`, under `scope`:
    ///
    /// * of a node template the widget of its kind, with its text and its
    ///   attributes resolved, and no children yet;
    /// * of a loop the collection that it runs over, and no body instance
    ///   yet;
    /// * of a chain its arms, each evaluated, none expanded yet;
    /// * of a view its place.
    ///
    /// A kind that is not registered is an error.
    pub fn create<S: State>(
        template: &Template,
        node_id: NodeId,
        scope: &Scope,
        state: &mut S,
        factory: &Factory,
    ) -> (r: Result<Node, Error>)
        requires
            scope@.len() > 0,
        ensures
            same_values(*old(state), *final(state)),
            final(state).pending() == old(state).pending(),
            final(state).subscribed() == create_recorded::<S>(
                old(state).subscribed(),
                template@,
                scope@,
                node_id@,
            ),
            match r {
                Ok(node) => {
                    &&& node_wf(node)
                    &&& node.node_id@ == node_id@
                    &&& created(template@, node, scope@, *old(state), factory@)
                    &&& node_conforms(node, template@)
                    &&& node_room(node)
                    &&& node_registered(node, factory@)
                    &&& node_true(node, template@, scope@, *old(state))
                    &&& template@ is Node ==> node.kind->Single_0.widget.kind@ == factory.kind_of(
                        template@->Node_ident,
                    )
                },
                Err(e) => template@ is Node && !factory@.contains(template@->Node_ident)
                    && e is UnregisteredWidget && e->UnregisteredWidget_0@
                    == template@->Node_ident,
            },
    {
        match template {
            Template::Node { ident, attributes, text, children } => {
                proof {
                    crate::template::lemma_node_view(*ident, *attributes, *text, *children);
                }
                let ghost start = *state;
                let shown = render_text(text, scope, state, Some(&node_id));
                let ghost middle = *state;
                let values = resolve_attributes(attributes, scope, state, &node_id);
                proof {
                    lemma_record_concat::<S>(
                        start.subscribed(),
                        text_reads(crate::template::text_view(*text), scope@),
                        attributes_reads(attributes@, attributes@.len() as int, scope@),
                        node_id@,
                    );
                    lemma_same_values_chain(start, middle, *state);
                    lemma_resolved_same(
                        attributes@,
                        attributes@.len() as int,
                        scope@,
                        start,
                        middle,
                    );
                }
                let widget = match factory.exec(ident, node_id.duplicate(), shown, values) {
                    Ok(widget) => widget,
                    Err(e) => {
                        return Err(e);
                    },
                };
                let children = Nodes::new(node_id.duplicate(), scope.from_self());
                let node = Node { node_id, kind: NodeKind::Single(Single { widget, children }) };
                assert(node_conforms(node, template@));
                assert(node_room(node));
                assert(node_registered(node, factory@));
                assert(node_true(node, template@, scope@, *old(state)));
                                Ok(node)
            },
            Template::Loop { binding, data, body } => {
                proof {
                    crate::template::lemma_loop_view(*binding, *data, *body);
                }
                let collection = collection_of(data, scope, state, &node_id);
                let length = collection.len();
                assert(run_len(collection@) == length);
                let node = Node {
                    node_id,
                    kind: NodeKind::Loop(
                        LoopNode {
                            binding: Path::Key(binding.clone()),
                            collection,
                            iterations: Vec::new(),
                            next_index: 0,
                        },
                    ),
                };
                assert(node_conforms(node, template@));
                assert(node_room(node));
                assert(node_registered(node, factory@));
                assert(node_true(node, template@, scope@, *old(state)));
                Ok(node)
            },
            Template::ControlFlow(arms) => {
                proof {
                    crate::template::lemma_control_flow_view(*arms);
                }
                let ghost start = *state;
                let ghost views = arms_view(arms@);
                let mut nodes: Vec<ArmNode> = Vec::new();
                let mut j: usize = 0;
                while j < arms.len()
                    invariant
                        j <= arms.len(),
                        nodes.len() == j,
                        scope@.len() > 0,
                        views == arms_view(arms@),
                        same_values(start, *state),
                        state.pending() == start.pending(),
                        state.subscribed() == arms_recorded::<S>(
                            start.subscribed(),
                            views,
                            scope@,
                            node_id@,
                            j as int,
                        ),
                        forall|i: int|
                            0 <= i < j ==> {
                                &&& (#[trigger] nodes[i]).body.parent@ == node_id@.push(i as usize)
                                &&& nodes_wf(nodes[i].body)
                                &&& nodes[i].body.inner.len() == 0
                                &&& nodes[i].body.scope@ == scope@.push(Seq::empty())
                                &&& nodes[i].truth == arm_truth(views[i].cond, scope@, start)
                            },
                    decreases arms.len() - j,
                {
                    let ghost before = *state;
                    let arm_id = node_id.child(j);
                    proof {
                        crate::template::lemma_arm_view(arms[j as int].cond, arms[j as int].body);
                        assert(views[j as int] == arms[j as int]@);
                    }
                    let truth = evaluate(&arms[j].cond, scope, state, &arm_id);
                    proof {
                        lemma_truth_same(arms[j as int].cond@, scope@, start, before);
                        lemma_same_values_chain(start, before, *state);
                    }
                    nodes.push(ArmNode { truth, body: Nodes::new(arm_id, scope.from_self()) });
                    j += 1;
                }
                let node = Node { node_id, kind: NodeKind::ControlFlow(IfElse { arms: nodes }) };
                proof {
                    assert forall|i: int| 0 <= i < nodes.len() implies nodes_conform(
                        (#[trigger] nodes[i]).body,
                        views[i].body,
                    ) by {}
                    assert(arms_conform(node.kind->ControlFlow_0, views));
                    assert forall|i: int| 0 <= i < nodes.len() implies nodes_room(
                        (#[trigger] nodes[i]).body,
                    ) by {}
                    assert forall|i: int| 0 <= i < nodes.len() implies nodes_registered(
                        (#[trigger] nodes[i]).body,
                        factory@,
                    ) by {}
                    assert forall|i: int| 0 <= i < nodes.len() implies nodes_true(
                        (#[trigger] nodes[i]).body,
                        views[i].body,
                        start,
                    ) by {}
                    assert(arms_true(node.kind->ControlFlow_0, views, start));
                    assert(arms_tied(node.kind->ControlFlow_0, views, scope@, start));
                }
                assert(node_conforms(node, template@));
                assert(node_room(node));
                assert(node_registered(node, factory@));
                assert(node_true(node, template@, scope@, *old(state)));
                Ok(node)
            },
            Template::View(_) => {
                let node = Node { node_id, kind: NodeKind::View };
                assert(node_conforms(node, template@));
                assert(node_room(node));
                assert(node_registered(node, factory@));
                assert(node_true(node, template@, scope@, *old(state)));
                Ok(node)
            },
        }
    }
}

/// What a node is when it was just made of a template: see
/// [`Node::create`].
pub open spec fn created<S: State>(
    template: Tpl,
    node: Node,
    frames: Seq<Seq<(PathView, Bound)>>,
    state: S,
    kinds: Seq<Seq<char>>,
) -> bool {
    match template {
        Tpl::Node { ident, attributes, text, children } => {
            &&& node.kind is Single
            &&& kinds.contains(ident)
            &&& node.kind->Single_0.widget.name@ == ident
            &&& node.kind->Single_0.widget.text@ == text_spec(text, frames, state)
            &&& attributes_view(node.kind->Single_0.widget.attributes@) == resolved_upto(
                attributes,
                attributes.len() as int,
                frames,
                state,
            )
            &&& node.kind->Single_0.children.inner.len() == 0
            &&& node.kind->Single_0.children.scope@ == frames.push(Seq::empty())
        },
        Tpl::Loop { binding, data, body } => {
            &&& node.kind is Loop
            &&& node.kind->Loop_0.binding@ == PathView::Key(binding)
            &&& node.kind->Loop_0.collection@ == collection_spec(data, frames, state)
            &&& node.kind->Loop_0.iterations.len() == 0
            &&& node.kind->Loop_0.next_index == 0
        },
        Tpl::ControlFlow(arms) => {
            &&& node.kind is ControlFlow
            &&& node.kind->ControlFlow_0.arms.len() == arms.len()
            &&& forall|j: int|
                0 <= j < arms.len() ==> {
                    &&& (#[trigger] node.kind->ControlFlow_0.arms[j]).truth == arm_truth(
                        arms[j].cond,
                        frames,
                        state,
                    )
                    &&& node.kind->ControlFlow_0.arms[j].body.inner.len() == 0
                    &&& node.kind->ControlFlow_0.arms[j].body.scope@ == frames.push(Seq::empty())
                }
        },
        Tpl::View(_) => node.kind is View,
    }
}

/// An arm is as true in one state as in another that holds the same
/// values.
pub proof fn lemma_truth_same<S: State>(
    cond: ArmCond,
    frames: Seq<Seq<(PathView, Bound)>>,
    a: S,
    b: S,
)
    requires
        same_values(a, b),
    ensures
        arm_truth(cond, frames, a) == arm_truth(cond, frames, b),
{
    match cond {
        ArmCond::If(term) => lemma_resolve_same(term, frames, a, b),
        ArmCond::Else(Some(term)) => lemma_resolve_same(term, frames, a, b),
        ArmCond::Else(None) => {},
    }
}

/// Attributes resolve the same in two states that hold the same values.
pub proof fn lemma_resolved_same<S: State>(
    attributes: Seq<(Seq<char>, Term)>,
    n: int,
    frames: Seq<Seq<(PathView, Bound)>>,
    a: S,
    b: S,
)
    requires
        same_values(a, b),
    ensures
        resolved_upto(attributes, n, frames, a) == resolved_upto(attributes, n, frames, b),
    decreases n,
{
    if 0 < n <= attributes.len() {
        lemma_resolved_same(attributes, n - 1, frames, a, b);
        lemma_resolve_same(attributes[n - 1].1, frames, a, b);
    }
}

/// Nothing is left to expand at this level: every template has its node,
/// and every node is done.
pub open spec fn nodes_done(nodes: Nodes, templates: Seq<Tpl>) -> bool
    decreases nodes,
{
    &&& nodes.inner.len() == templates.len()
    &&& forall|i: int|
        0 <= i < nodes.inner.len() ==> node_done(#[trigger] nodes.inner[i], templates[i])
}

/// * A loop is done when it has one body instance for each element of its
///   collection, each of them done.
/// * A chain is done when the arm that is shown, if one is, is done.
/// * A widget and a view are done as soon as they are made: the children of
///   a widget are a level of their own.
pub open spec fn node_done(node: Node, template: Tpl) -> bool
    decreases node,
{
    match (node.kind, template) {
        (NodeKind::Loop(l), Tpl::Loop { binding, data, body }) => loop_done(l, body),
        (NodeKind::ControlFlow(cf), Tpl::ControlFlow(arms)) => chain_done(cf, arms),
        _ => true,
    }
}

pub open spec fn loop_done(l: LoopNode, body: Seq<Tpl>) -> bool
    decreases l,
{
    &&& l.iterations.len() == run_len(l.collection@)
    &&& forall|k: int|
        0 <= k < l.iterations.len() ==> nodes_done(#[trigger] l.iterations[k], body)
}

pub open spec fn chain_done(cf: IfElse, arms: Seq<Arm>) -> bool
    decreases cf,
{
    match active_arm(cf) {
        Some(a) => 0 <= a < cf.arms.len() && a < arms.len() ==> nodes_done(
            cf.arms[a].body,
            arms[a].body,
        ),
        None => true,
    }
}

proof fn lemma_level_update(nodes: Seq<Node>, i: int, node: Node, n: int)
    requires
        0 <= i < nodes.len(),
        0 <= n <= nodes.len(),
    ensures
        level_upto(nodes.update(i, node), n) == if i < n {
            level_upto(nodes, n) - node_level(nodes[i]) + node_level(node)
        } else {
            level_upto(nodes, n) as int
        },
        if i < n {
            level_upto(nodes, n) >= node_level(nodes[i])
        } else {
            true
        },
    decreases n,
{
    if n > 0 {
        lemma_level_update(nodes, i, node, n - 1);
    }
}

proof fn lemma_runs_update(iterations: Seq<Nodes>, i: int, run: Nodes, n: int)
    requires
        0 <= i < iterations.len(),
        0 <= n <= iterations.len(),
    ensures
        runs_level(iterations.update(i, run), n) == if i < n {
            runs_level(iterations, n) - nodes_level(iterations[i]) + nodes_level(run)
        } else {
            runs_level(iterations, n) as int
        },
        if i < n {
            runs_level(iterations, n) >= nodes_level(iterations[i])
        } else {
            true
        },
    decreases n,
{
    if n > 0 {
        lemma_runs_update(iterations, i, run, n - 1);
    }
}

proof fn lemma_level_prefix(nodes: Seq<Node>, node: Node, n: int)
    requires
        0 <= n <= nodes.len(),
    ensures
        level_upto(nodes.push(node), n) == level_upto(nodes, n),
    decreases n,
{
    if n > 0 {
        lemma_level_prefix(nodes, node, n - 1);
        assert(nodes.push(node)[n - 1] == nodes[n - 1]);
    }
}

proof fn lemma_level_push(nodes: Seq<Node>, node: Node)
    ensures
        level_upto(nodes.push(node), nodes.len() as int + 1) == level_upto(
            nodes,
            nodes.len() as int,
        ) + node_level(node),
{
    lemma_level_prefix(nodes, node, nodes.len() as int);
    assert(nodes.push(node)[nodes.len() as int] == node);
}

proof fn lemma_runs_prefix(iterations: Seq<Nodes>, run: Nodes, n: int)
    requires
        0 <= n <= iterations.len(),
    ensures
        runs_level(iterations.push(run), n) == runs_level(iterations, n),
    decreases n,
{
    if n > 0 {
        lemma_runs_prefix(iterations, run, n - 1);
        assert(iterations.push(run)[n - 1] == iterations[n - 1]);
    }
}

proof fn lemma_runs_push(iterations: Seq<Nodes>, run: Nodes)
    ensures
        runs_level(iterations.push(run), iterations.len() as int + 1) == runs_level(
            iterations,
            iterations.len() as int,
        ) + nodes_level(run),
{
    lemma_runs_prefix(iterations, run, iterations.len() as int);
    assert(iterations.push(run)[iterations.len() as int] == run);
}

impl Nodes {
    /// Makes one step: goes on where a loop or a chain of this level has
    /// more to give, else makes the node of the next template. Returns
    /// `Some(Ok(()))` when the step made a widget, `Some(Err(..))` when it
    /// failed, which leaves the widgets as they were, and `None` when the
    /// level is done.
    pub fn next<S: State>(
        &mut self,
        templates: &Vec<Template>,
        state: &mut S,
        factory: &Factory,
    ) -> (r: Option<Result<(), Error>>)
        requires
            nodes_wf(*old(self)),
        ensures
            nodes_wf(*final(self)),
            final(self).parent@ == old(self).parent@,
            final(self).scope@ == old(self).scope@,
            same_values(*old(state), *final(state)),
            final(state).pending() == old(state).pending(),
            stepped(nodes_level(*old(self)), nodes_level(*final(self)), r),
            r is None ==> nodes_done(*final(self), templates_view(templates@)),
            nodes_conform(*old(self), templates_view(templates@)) ==> nodes_conform(
                *final(self),
                templates_view(templates@),
            ),
            failure(
                r,
                factory@,
                nodes_conform(*old(self), templates_view(templates@)),
                nodes_room(*old(self)),
                named(templates_view(templates@), failed_name(r)),
            ),
            failed_at(r, *final(self), templates_view(templates@), factory@),
            nodes_room(*old(self)) ==> nodes_room(*final(self)),
            nodes_registered(*old(self), factory@) ==> nodes_registered(*final(self), factory@),
            nodes_conform(*old(self), templates_view(templates@)) && nodes_room(*old(self))
                && known(templates_view(templates@), factory@) ==> !(r is Some
                && r->Some_0 is Err),
            nodes_true(*old(self), templates_view(templates@), *old(state)) ==> nodes_true(
                *final(self),
                templates_view(templates@),
                *old(state),
            ),
            nodes_done(*old(self), templates_view(templates@)) ==> r is None && final(self)@
                == old(self)@,
        decreases heights(templates_view(templates@)), 2int,
    {
        let ghost start = *state;
        let ghost views = templates_view(templates@);
        let ghost fits = nodes_conform(*self, views);
        let ghost roomy = nodes_room(*self);
        let ghost listed = nodes_registered(*self, factory@);
        let ghost honest = nodes_true(*self, views, *state);
        let ghost finished = nodes_done(*self, views);
        let mut i: usize = 0;
        while i < self.inner.len() && i < templates.len()
            invariant
                finished == nodes_done(*old(self), views),
                finished ==> nodes_done(*self, views) && self@ == old(self)@,
                nodes_wf(*self),
                self.parent@ == old(self).parent@,
                self.scope@ == old(self).scope@,
                views == templates_view(templates@),
                same_values(*old(state), *state),
                state.pending() == old(state).pending(),
                nodes_level(*self) == nodes_level(*old(self)),
                fits == nodes_conform(*old(self), views),
                fits ==> nodes_conform(*self, views),
                roomy == nodes_room(*old(self)),
                roomy ==> nodes_room(*self),
                listed == nodes_registered(*old(self), factory@),
                listed ==> nodes_registered(*self, factory@),
                honest == nodes_true(*old(self), views, *old(state)),
                honest ==> nodes_true(*self, views, *old(state)),
                forall|j: int| 0 <= j < i ==> node_done(#[trigger] self.inner[j], views[j]),
            decreases self.inner.len() - i,
        {
            let ghost before = self.inner@;
            let ghost middle = *state;
            let mut node = self.inner.remove(i);
            proof {
                lemma_heights(views, i as int);
                assert(views[i as int] == templates[i as int]@);
                assert(node == before[i as int]);
            }
            let r = node.step(&templates[i], &self.scope, state, factory);
            self.inner.insert(i, node);
            proof {
                lemma_named(views, i as int, failed_name(r));
                assert(self.inner@ =~= before.update(i as int, node));
                if r is Some && r->Some_0 is Err {
                    let e = r->Some_0->Err_0;
                assert forall|j: int| 0 <= j < i && j < views.len() implies node_done(
                    #[trigger] self.inner@[j],
                    views[j],
                ) by {
                    assert(self.inner@[j] == before[j]);
                }
                assert(fails_from(self.inner@, views, factory@, e, i as int));
                lemma_fails_from(self.inner@, views, factory@, e, i as int);
                }
                assert(self.inner@ =~= before.update(i as int, node));
                lemma_level_update(before, i as int, node, before.len() as int);
                lemma_same_values_chain(*old(state), middle, *state);
                assert forall|j: int| 0 <= j < self.inner.len() implies (
                #[trigger] self.inner[j]).node_id@ == self.parent@.push(j as usize) && node_wf(
                    self.inner[j],
                ) by {
                    if j != i {
                        assert(self.inner[j] == before[j]);
                    }
                }
                assert forall|j: int| 0 <= j < i implies node_done(
                    #[trigger] self.inner[j],
                    views[j],
                ) by {
                    assert(self.inner[j] == before[j]);
                }
                if fits {
                    assert forall|j: int| 0 <= j < self.inner.len() implies node_conforms(
                        #[trigger] self.inner[j],
                        views[j],
                    ) by {
                        if j != i {
                            assert(self.inner[j] == before[j]);
                        }
                    }
                }
                if roomy {
                    assert forall|j: int| 0 <= j < self.inner.len() implies node_room(
                        #[trigger] self.inner[j],
                    ) by {
                        if j != i {
                            assert(self.inner[j] == before[j]);
                        }
                    }
                }
                if listed {
                    assert forall|j: int| 0 <= j < self.inner.len() implies node_registered(
                        #[trigger] self.inner[j],
                        factory@,
                    ) by {
                        if j != i {
                            assert(self.inner[j] == before[j]);
                        }
                    }
                }
                lemma_node_true_same(before[i as int], views[i as int], self.scope@, *old(state), middle);
                lemma_node_true_same(node, views[i as int], self.scope@, *old(state), middle);
                if honest {
                    assert forall|j: int| 0 <= j < self.inner.len() && j < views.len() implies node_true(
#[trigger] self.inner[j],
views[j],
self.scope@,
*old(state),
) by {
                        if j != i {
                            assert(self.inner[j] == before[j]);
                        }
                    }
                }
                if finished {
                    assert(node_done(before[i as int], views[i as int]));
                    assert forall|j: int| 0 <= j < self.inner.len() implies node_done(
                        #[trigger] self.inner[j],
                        views[j],
                    ) by {
                        if j != i {
                            assert(self.inner[j] == before[j]);
                        }
                    }
                    assert(self@.nodes =~= old(self)@.nodes) by {
                        assert forall|j: int| 0 <= j < self.inner.len() implies node_view(
                            self.inner[j],
                        ) == node_view(before[j]) by {
                            if j != i {
                                assert(self.inner[j] == before[j]);
                            }
                        }
                    }
                }
            }
            if r.is_some() {
                return r;
            }
            assert(self.inner[i as int] == node);
            i += 1;
        }
        while self.inner.len() < templates.len()
            invariant
                finished == nodes_done(*old(self), views),
                finished ==> nodes_done(*self, views) && self@ == old(self)@,
                nodes_wf(*self),
                self.parent@ == old(self).parent@,
                self.scope@ == old(self).scope@,
                views == templates_view(templates@),
                same_values(*old(state), *state),
                state.pending() == old(state).pending(),
                nodes_level(*self) == nodes_level(*old(self)),
                fits == nodes_conform(*old(self), views),
                fits ==> nodes_conform(*self, views),
                roomy == nodes_room(*old(self)),
                roomy ==> nodes_room(*self),
                listed == nodes_registered(*old(self), factory@),
                listed ==> nodes_registered(*self, factory@),
                honest == nodes_true(*old(self), views, *old(state)),
                honest ==> nodes_true(*self, views, *old(state)),
                forall|j: int|
                    0 <= j < self.inner.len() && j < views.len() ==> node_done(
                        #[trigger] self.inner[j],
                        views[j],
                    ),
            decreases templates.len() - self.inner.len(),
        {
            let index = self.inner.len();
            let ghost before = self.inner@;
            let ghost middle = *state;
            proof {
                lemma_heights(views, index as int);
                assert(views[index as int] == templates[index as int]@);
            }
            let node_id = self.parent.child(index);
            let mut node = match Node::create(
                &templates[index],
                node_id,
                &self.scope,
                state,
                factory,
            ) {
                Ok(node) => node,
                Err(e) => {
                    proof {
                        lemma_same_values_chain(*old(state), middle, *state);
                        lemma_named(views, index as int, failed_name(Some(Err(e))));
                        assert(fails_from(self.inner@, views, factory@, e, index as int));
                        lemma_fails_from(self.inner@, views, factory@, e, index as int);
                    }
                    return Some(Err(e));
                },
            };
            let ghost made = *state;
            let ghost fresh = node;
            let r = node.step(&templates[index], &self.scope, state, factory);
            let widget = matches!(node.kind, NodeKind::Single(_));
            self.inner.push(node);
            proof {
                lemma_named(views, index as int, failed_name(r));
                if r is Some && r->Some_0 is Err {
                    let e = r->Some_0->Err_0;
                assert forall|j: int| 0 <= j < index && j < views.len() implies node_done(
                    #[trigger] self.inner@[j],
                    views[j],
                ) by {
                    assert(self.inner@[j] == before[j]);
                }
                assert(self.inner@[index as int] == node);
                assert(fails_from(self.inner@, views, factory@, e, index as int));
                lemma_fails_from(self.inner@, views, factory@, e, index as int);
                }
                lemma_level_push(before, node);
                lemma_same_values_chain(*old(state), middle, made);
                lemma_same_values_chain(*old(state), made, *state);
                assert forall|j: int| 0 <= j < self.inner.len() implies (
                #[trigger] self.inner[j]).node_id@ == self.parent@.push(j as usize) && node_wf(
                    self.inner[j],
                ) by {
                    if j < index {
                        assert(self.inner[j] == before[j]);
                    }
                }
                if fits {
                    assert forall|j: int| 0 <= j < self.inner.len() implies node_conforms(
                        #[trigger] self.inner[j],
                        views[j],
                    ) by {
                        if j < index {
                            assert(self.inner[j] == before[j]);
                        }
                    }
                }
                if roomy {
                    assert forall|j: int| 0 <= j < self.inner.len() implies node_room(
                        #[trigger] self.inner[j],
                    ) by {
                        if j < index {
                            assert(self.inner[j] == before[j]);
                        }
                    }
                }
                if listed {
                    assert forall|j: int| 0 <= j < self.inner.len() implies node_registered(
                        #[trigger] self.inner[j],
                        factory@,
                    ) by {
                        if j < index {
                            assert(self.inner[j] == before[j]);
                        }
                    }
                }
                lemma_node_true_same(fresh, views[index as int], self.scope@, middle, made);
                lemma_node_true_same(node, views[index as int], self.scope@, *old(state), made);
                if honest {
                    assert forall|j: int| 0 <= j < self.inner.len() && j < views.len() implies node_true(
#[trigger] self.inner[j],
views[j],
self.scope@,
*old(state),
) by {
                        if j < index {
                            assert(self.inner[j] == before[j]);
                        }
                    }
                }
            }
            if widget {
                return Some(Ok(()));
            }
            if r.is_some() {
                return r;
            }
            proof {
                assert forall|j: int|
                    0 <= j < self.inner.len() && j < views.len() implies node_done(
                    #[trigger] self.inner[j],
                    views[j],
                ) by {
                    if j < index {
                        assert(self.inner[j] == before[j]);
                    } else {
                        assert(self.inner[j] == node);
                    }
                }
            }
        }
        if self.inner.len() > templates.len() {
            // More nodes than templates: these are not the templates that
            // the nodes were made of.
            proof {
                lemma_fails_from(
                    self.inner@,
                    views,
                    factory@,
                    Error::OptimizerInvariant,
                    templates.len() as int,
                );
            }
            return Some(Err(Error::OptimizerInvariant));
        }
        None
    }
}

impl Node {
    /// Makes one step inside the node: a loop or a chain goes on where it
    /// has more to give; a widget and a view have nothing to give.
    pub fn step<S: State>(
        &mut self,
        template: &Template,
        scope: &Scope,
        state: &mut S,
        factory: &Factory,
    ) -> (r: Option<Result<(), Error>>)
        requires
            node_wf(*old(self)),
            scope@.len() > 0,
        ensures
            node_wf(*final(self)),
            final(self).node_id@ == old(self).node_id@,
            same_values(*old(state), *final(state)),
            final(state).pending() == old(state).pending(),
            stepped(
                if old(self).kind is Single {
                    0
                } else {
                    node_level(*old(self))
                },
                if final(self).kind is Single {
                    0
                } else {
                    node_level(*final(self))
                },
                r,
            ),
            (old(self).kind is Single) == (final(self).kind is Single),
            r is None ==> node_done(*final(self), template@),
            node_conforms(*old(self), template@) ==> node_conforms(*final(self), template@),
            failure(
                r,
                factory@,
                node_conforms(*old(self), template@),
                node_room(*old(self)),
                tpl_named(template@, failed_name(r)),
            ),
            r is Some && r->Some_0 is Err ==> node_fails(
                *final(self),
                template@,
                factory@,
                r->Some_0->Err_0,
            ),
            node_room(*old(self)) ==> node_room(*final(self)),
            node_registered(*old(self), factory@) ==> node_registered(*final(self), factory@),
            node_true(*old(self), template@, scope@, *old(state)) ==> node_true(
                *final(self),
                template@,
                scope@,
                *old(state),
            ),
            node_conforms(*old(self), template@) && node_room(*old(self)) && tpl_known(
                template@,
                factory@,
            ) ==> !(r is Some && r->Some_0 is Err),
            node_done(*old(self), template@) ==> r is None && final(self)@ == old(self)@,
        decreases height(template@), 1int,
    {
        let ghost was = *self;
        match (&mut self.kind, template) {
            (NodeKind::Loop(l), Template::Loop { binding, data, body }) => {
                proof {
                    crate::template::lemma_loop_view(*binding, *data, *body);
                }
                let r = l.next(body, &self.node_id, scope, state, factory);
                proof {
                    let views = templates_view(body@);
                    if tpl_known(template@, factory@) {
                        assert forall|name: Seq<char>| #[trigger]
                            named(views, name) implies factory@.contains(name) by {
                            assert(tpl_named(template@, name));
                        }
                    }
                }
                r
            },
            (NodeKind::ControlFlow(cf), Template::ControlFlow(arms)) => {
                proof {
                    crate::template::lemma_control_flow_view(*arms);
                }
                let r = cf.next(arms, &self.node_id, state, factory);
                proof {
                    let views = arms_view(arms@);
                    let before = was.kind->ControlFlow_0;
                    if tpl_known(template@, factory@) {
                        assert forall|name: Seq<char>| #[trigger]
                            arms_named(views, name) implies factory@.contains(name) by {
                            assert(tpl_named(template@, name));
                        }
                    }
                    assert forall|j: int| 0 <= j < cf.arms.len() implies (
                    #[trigger] cf.arms[j]).truth == before.arms[j].truth by {
                        assert(truths(cf.arms@)[j] == truths(before.arms@)[j]);
                    }
                }
                r
            },
            _ => None,
        }
    }
}

impl LoopNode {
    /// Makes one step inside the loop: goes on in the body instance that has
    /// more to give, else starts the instance of the next element, with the
    /// name of the loop bound to it.
    pub fn next<S: State>(
        &mut self,
        body: &Vec<Template>,
        loop_id: &NodeId,
        scope: &Scope,
        state: &mut S,
        factory: &Factory,
    ) -> (r: Option<Result<(), Error>>)
        requires
            loop_wf(*old(self), loop_id@),
            scope@.len() > 0,
        ensures
            loop_wf(*final(self), loop_id@),
            final(self).collection@ == old(self).collection@,
            final(self).binding@ == old(self).binding@,
            same_values(*old(state), *final(state)),
            final(state).pending() == old(state).pending(),
            stepped(
                runs_level(old(self).iterations@, old(self).iterations.len() as int),
                runs_level(final(self).iterations@, final(self).iterations.len() as int),
                r,
            ),
            r is None ==> loop_done(*final(self), templates_view(body@)),
            runs_conform(*old(self), templates_view(body@)) ==> runs_conform(
                *final(self),
                templates_view(body@),
            ),
            failure(
                r,
                factory@,
                runs_conform(*old(self), templates_view(body@)),
                loop_room(*old(self)),
                named(templates_view(body@), failed_name(r)),
            ),
            r is Some && r->Some_0 is Err ==> loop_fails(
                *final(self),
                templates_view(body@),
                factory@,
                r->Some_0->Err_0,
            ),
            numbered_on(*old(self), *final(self), loop_id@),
            loop_room(*old(self)) ==> loop_room(*final(self)),
            loop_registered(*old(self), factory@) ==> loop_registered(*final(self), factory@),
            runs_true(*old(self), templates_view(body@), *old(state)) ==> runs_true(
                *final(self),
                templates_view(body@),
                *old(state),
            ),
            runs_bound(*old(self), scope@) ==> runs_bound(*final(self), scope@),
            runs_conform(*old(self), templates_view(body@)) && loop_room(*old(self)) && known(
                templates_view(body@),
                factory@,
            ) ==> !(r is Some && r->Some_0 is Err),
            loop_done(*old(self), templates_view(body@)) ==> r is None && runs_view(*final(self))
                == runs_view(*old(self)) && final(self).next_index == old(self).next_index,
        decreases heights(templates_view(body@)), 3int,
    {
        let ghost views = templates_view(body@);
        let ghost fits = runs_conform(*self, views);
        let ghost roomy = loop_room(*self);
        let ghost listed = loop_registered(*self, factory@);
        let ghost honest = runs_true(*self, views, *state);
        let ghost bound = runs_bound(*self, scope@);
        let ghost finished = loop_done(*self, views);
        let mut k: usize = 0;
        while k < self.iterations.len()
            invariant
                finished == loop_done(*old(self), views),
                finished ==> loop_done(*self, views) && runs_view(*self) == runs_view(*old(self))
                    && self.next_index == old(self).next_index,
                loop_wf(*self, loop_id@),
                views == templates_view(body@),
                fits == runs_conform(*old(self), views),
                fits ==> runs_conform(*self, views),
                roomy == loop_room(*old(self)),
                roomy ==> loop_room(*self),
                listed == loop_registered(*old(self), factory@),
                listed ==> loop_registered(*self, factory@),
                honest == runs_true(*old(self), views, *old(state)),
                honest ==> runs_true(*self, views, *old(state)),
                bound == runs_bound(*old(self), scope@),
                bound ==> runs_bound(*self, scope@),
                numbered_on(*old(self), *self, loop_id@),
                self.collection@ == old(self).collection@,
                self.binding@ == old(self).binding@,
                same_values(*old(state), *state),
                state.pending() == old(state).pending(),
                runs_level(self.iterations@, self.iterations.len() as int) == runs_level(
                    old(self).iterations@,
                    old(self).iterations.len() as int,
                ),
                forall|j: int| 0 <= j < k ==> nodes_done(#[trigger] self.iterations[j], views),
            decreases self.iterations.len() - k,
        {
            let ghost before = self.iterations@;
            let ghost middle = *state;
            let mut iteration = self.iterations.remove(k);
            assert(iteration == before[k as int]);
            let r = iteration.next(body, state, factory);
            self.iterations.insert(k, iteration);
            proof {
                assert(self.iterations@ =~= before.update(k as int, iteration));
                if r is Some && r->Some_0 is Err {
                    let e = r->Some_0->Err_0;
                    assert forall|j: int| 0 <= j < k implies nodes_done(
                        #[trigger] self.iterations@[j],
                        views,
                    ) by {
                        assert(self.iterations@[j] == before[j]);
                    }
                    assert(self.iterations@[k as int] == iteration);
                    assert(runs_fail_from(
                        self.iterations@,
                        views,
                        factory@,
                        e,
                        run_len(self.collection@),
                        self.next_index == usize::MAX,
                        k as int,
                    ));
                    lemma_runs_fail_from(
                        self.iterations@,
                        views,
                        factory@,
                        e,
                        run_len(self.collection@),
                        self.next_index == usize::MAX,
                        k as int,
                    );
                }
                lemma_runs_update(before, k as int, iteration, before.len() as int);
                lemma_same_values_chain(*old(state), middle, *state);
                assert forall|j: int| 0 <= j < self.iterations.len() implies {
                    &&& (#[trigger] self.iterations[j]).parent@.len() == loop_id@.len() + 1
                    &&& self.iterations[j].parent@.drop_last() == loop_id@
                    &&& self.iterations[j].parent@.last() < self.next_index
                    &&& nodes_wf(self.iterations[j])
                    &&& lookup_spec(self.iterations[j].scope@, self.binding@) == element(
                        self.collection@,
                        j as usize,
                    )
                } by {
                    if j != k {
                        assert(self.iterations[j] == before[j]);
                    } else {
                        assert(self.iterations[j].scope@ == before[j].scope@);
                    }
                }
                assert forall|a: int, b: int|
                    0 <= a < b < self.iterations.len() implies (
                #[trigger] self.iterations[a]).parent@.last() != (
                #[trigger] self.iterations[b]).parent@.last() by {
                    assert(self.iterations[a].parent@ == before[a].parent@);
                    assert(self.iterations[b].parent@ == before[b].parent@);
                }
                assert forall|j: int| 0 <= j < k implies nodes_done(
                    #[trigger] self.iterations[j],
                    views,
                ) by {
                    assert(self.iterations[j] == before[j]);
                }
                if fits {
                    assert forall|j: int| 0 <= j < self.iterations.len() implies nodes_conform(
                        #[trigger] self.iterations[j],
                        views,
                    ) by {
                        if j != k {
                            assert(self.iterations[j] == before[j]);
                        }
                    }
                }
                if roomy {
                    assert forall|j: int| 0 <= j < self.iterations.len() implies nodes_room(
                        #[trigger] self.iterations[j],
                    ) by {
                        if j != k {
                            assert(self.iterations[j] == before[j]);
                        }
                    }
                }
                if listed {
                    assert forall|j: int| 0 <= j < self.iterations.len() implies nodes_registered(
                        #[trigger] self.iterations[j],
                        factory@,
                    ) by {
                        if j != k {
                            assert(self.iterations[j] == before[j]);
                        }
                    }
                }
                lemma_nodes_true_same(before[k as int], views, *old(state), middle);
                lemma_nodes_true_same(iteration, views, *old(state), middle);
                if honest {
                    assert forall|j: int| 0 <= j < self.iterations.len() implies nodes_true(
#[trigger] self.iterations[j],
views,
*old(state),
) by {
                        if j != k {
                            assert(self.iterations[j] == before[j]);
                        }
                    }
                }
                if bound {
                    assert forall|j: int| 0 <= j < self.iterations.len() implies (#[trigger] self.iterations[j]).scope@ == instance_frames(
scope@,
self.binding@,
element(self.collection@, j as usize),
) by {
                        if j != k {
                            assert(self.iterations[j] == before[j]);
                        }
                    }
                }
                if finished {
                    assert(nodes_done(before[k as int], views));
                    assert forall|j: int| 0 <= j < self.iterations.len() implies nodes_done(
                        #[trigger] self.iterations[j],
                        views,
                    ) by {
                        if j != k {
                            assert(self.iterations[j] == before[j]);
                        }
                    }
                    assert(runs_view(*self) =~= runs_view(*old(self))) by {
                        assert forall|j: int| 0 <= j < self.iterations.len() implies nodes_view(
                            self.iterations[j],
                        ) == nodes_view(before[j]) by {
                            if j != k {
                                assert(self.iterations[j] == before[j]);
                            }
                        }
                    }
                }
            }
            if r.is_some() {
                return r;
            }
            assert(self.iterations[k as int] == iteration);
            k += 1;
        }
        while self.iterations.len() < self.collection.len()
            invariant
                finished == loop_done(*old(self), views),
                finished ==> loop_done(*self, views) && runs_view(*self) == runs_view(*old(self))
                    && self.next_index == old(self).next_index,
                loop_wf(*self, loop_id@),
                scope@.len() > 0,
                views == templates_view(body@),
                fits == runs_conform(*old(self), views),
                fits ==> runs_conform(*self, views),
                roomy == loop_room(*old(self)),
                roomy ==> loop_room(*self),
                listed == loop_registered(*old(self), factory@),
                listed ==> loop_registered(*self, factory@),
                honest == runs_true(*old(self), views, *old(state)),
                honest ==> runs_true(*self, views, *old(state)),
                bound == runs_bound(*old(self), scope@),
                bound ==> runs_bound(*self, scope@),
                numbered_on(*old(self), *self, loop_id@),
                self.collection@ == old(self).collection@,
                self.binding@ == old(self).binding@,
                same_values(*old(state), *state),
                state.pending() == old(state).pending(),
                runs_level(self.iterations@, self.iterations.len() as int) == runs_level(
                    old(self).iterations@,
                    old(self).iterations.len() as int,
                ),
                forall|j: int|
                    0 <= j < self.iterations.len() ==> nodes_done(
                        #[trigger] self.iterations[j],
                        views,
                    ),
            decreases run_len(self.collection@) - self.iterations.len(),
        {
            if self.next_index == usize::MAX {
                proof {
                    lemma_runs_fail_from(
                        self.iterations@,
                        views,
                        factory@,
                        Error::TooManyNodes,
                        run_len(self.collection@),
                        true,
                        self.iterations.len() as int,
                    );
                }
                return Some(Err(Error::TooManyNodes));
            }
            let ghost before = self.iterations@;
            let ghost middle = *state;
            let index = self.iterations.len();
            let number = self.next_index;
            self.next_index = number + 1;
            let mut inner = scope.from_self();
            let ghost outer = inner@;
            inner.scope_collection(self.binding.duplicate(), &self.collection, index);
            proof {
                match element(self.collection@, index) {
                    Some(value) => {
                        crate::scope::lemma_parents_untouched(outer, self.binding@, value);
                    },
                    None => {},
                }
                assert(lookup_spec(inner@, self.binding@) == element(self.collection@, index));
            }
            let mut iteration = Nodes::new(loop_id.child(number), inner);
            let r = iteration.next(body, state, factory);
            self.iterations.push(iteration);
            proof {
                if r is Some && r->Some_0 is Err {
                    let e = r->Some_0->Err_0;
                    assert forall|j: int| 0 <= j < index implies nodes_done(
                        #[trigger] self.iterations@[j],
                        views,
                    ) by {
                        assert(self.iterations@[j] == before[j]);
                    }
                    assert(self.iterations@[index as int] == iteration);
                    assert(runs_fail_from(
                        self.iterations@,
                        views,
                        factory@,
                        e,
                        run_len(self.collection@),
                        self.next_index == usize::MAX,
                        index as int,
                    ));
                    lemma_runs_fail_from(
                        self.iterations@,
                        views,
                        factory@,
                        e,
                        run_len(self.collection@),
                        self.next_index == usize::MAX,
                        index as int,
                    );
                }
                lemma_runs_push(before, iteration);
                lemma_same_values_chain(*old(state), middle, *state);
                assert(iteration.parent@.drop_last() =~= loop_id@);
                assert forall|j: int| 0 <= j < self.iterations.len() implies {
                    &&& (#[trigger] self.iterations[j]).parent@.len() == loop_id@.len() + 1
                    &&& self.iterations[j].parent@.drop_last() == loop_id@
                    &&& self.iterations[j].parent@.last() < self.next_index
                    &&& nodes_wf(self.iterations[j])
                    &&& lookup_spec(self.iterations[j].scope@, self.binding@) == element(
                        self.collection@,
                        j as usize,
                    )
                } by {
                    if j < index {
                        assert(self.iterations[j] == before[j]);
                    }
                }
                assert forall|a: int, b: int|
                    0 <= a < b < self.iterations.len() implies (
                #[trigger] self.iterations[a]).parent@.last() != (
                #[trigger] self.iterations[b]).parent@.last() by {
                    assert(self.iterations[a] == before[a]);
                    if b < index {
                        assert(self.iterations[b] == before[b]);
                    }
                }
                if fits {
                    assert forall|j: int| 0 <= j < self.iterations.len() implies nodes_conform(
                        #[trigger] self.iterations[j],
                        views,
                    ) by {
                        if j < index {
                            assert(self.iterations[j] == before[j]);
                        }
                    }
                }
                if roomy {
                    assert forall|j: int| 0 <= j < self.iterations.len() implies nodes_room(
                        #[trigger] self.iterations[j],
                    ) by {
                        if j < index {
                            assert(self.iterations[j] == before[j]);
                        }
                    }
                }
                if listed {
                    assert forall|j: int| 0 <= j < self.iterations.len() implies nodes_registered(
                        #[trigger] self.iterations[j],
                        factory@,
                    ) by {
                        if j < index {
                            assert(self.iterations[j] == before[j]);
                        }
                    }
                }
                lemma_nodes_true_same(iteration, views, *old(state), middle);
                if honest {
                    assert forall|j: int| 0 <= j < self.iterations.len() implies nodes_true(
#[trigger] self.iterations[j],
views,
*old(state),
) by {
                        if j < index {
                            assert(self.iterations[j] == before[j]);
                        }
                    }
                }
                if bound {
                    assert forall|j: int| 0 <= j < self.iterations.len() implies (#[trigger] self.iterations[j]).scope@ == instance_frames(
scope@,
self.binding@,
element(self.collection@, j as usize),
) by {
                        if j < index {
                            assert(self.iterations[j] == before[j]);
                        }
                    }
                }
            }
            if r.is_some() {
                return r;
            }
            proof {
                assert forall|j: int| 0 <= j < self.iterations.len() implies nodes_done(
                    #[trigger] self.iterations[j],
                    views,
                ) by {
                    if j < index {
                        assert(self.iterations[j] == before[j]);
                    } else {
                        assert(self.iterations[j] == iteration);
                    }
                }
            }
        }
        None
    }
}

impl IfElse {
    /// Makes one step inside the chain: goes on in the arm that is shown.
    #[verifier::rlimit(60)]
    pub fn next<S: State>(
        &mut self,
        arms: &Vec<ControlFlow>,
        chain_id: &NodeId,
        state: &mut S,
        factory: &Factory,
    ) -> (r: Option<Result<(), Error>>)
        requires
            chain_wf(*old(self), chain_id@),
        ensures
            chain_wf(*final(self), chain_id@),
            truths(final(self).arms@) == truths(old(self).arms@),
            same_values(*old(state), *final(state)),
            final(state).pending() == old(state).pending(),
            stepped(level_of_chain(*old(self)), level_of_chain(*final(self)), r),
            r is None ==> chain_done(*final(self), arms_view(arms@)),
            arms_conform(*old(self), arms_view(arms@)) ==> arms_conform(
                *final(self),
                arms_view(arms@),
            ),
            failure(
                r,
                factory@,
                arms_conform(*old(self), arms_view(arms@)),
                chain_room(*old(self)),
                arms_named(arms_view(arms@), failed_name(r)),
            ),
            r is Some && r->Some_0 is Err ==> chain_fails(
                *final(self),
                arms_view(arms@),
                factory@,
                r->Some_0->Err_0,
            ),
            chain_room(*old(self)) ==> chain_room(*final(self)),
            chain_registered(*old(self), factory@) ==> chain_registered(*final(self), factory@),
            arms_true(*old(self), arms_view(arms@), *old(state)) ==> arms_true(
                *final(self),
                arms_view(arms@),
                *old(state),
            ),
            final(self).arms.len() == old(self).arms.len(),
            forall|j: int|
                0 <= j < final(self).arms.len() ==> (#[trigger] final(self).arms[j]).body.scope@
                    == old(self).arms[j].body.scope@,
            arms_conform(*old(self), arms_view(arms@)) && chain_room(*old(self)) && arms_known(
                arms_view(arms@),
                factory@,
            ) ==> !(r is Some && r->Some_0 is Err),
            chain_done(*old(self), arms_view(arms@)) ==> r is None && arms_shape(*final(self))
                == arms_shape(*old(self)),
        decreases arms_height(arms_view(arms@)), 3int,
    {
        let ghost views = arms_view(arms@);
        let ghost fits = arms_conform(*self, views);
        let ghost roomy = chain_room(*self);
        let ghost listed = chain_registered(*self, factory@);
        let ghost honest = arms_true(*self, views, *state);
        let mut flags: Vec<bool> = Vec::new();
        let mut j: usize = 0;
        while j < self.arms.len()
            invariant
                j <= self.arms.len(),
                flags@ == truths(self.arms@).take(j as int),
            decreases self.arms.len() - j,
        {
            flags.push(self.arms[j].truth);
            assert(truths(self.arms@).take(j + 1) =~= truths(self.arms@).take(j as int).push(
                self.arms@[j as int].truth,
            ));
            j += 1;
        }
        assert(truths(self.arms@).take(self.arms.len() as int) =~= truths(self.arms@));
        let active = match select(&flags) {
            Some(active) => active,
            None => {
                return None;
            },
        };
        proof {
            lemma_first_true(truths(self.arms@));
        }
        if active >= arms.len() {
            return None;
        }
        let ghost before = self.arms@;
        let mut arm = self.arms.remove(active);
        proof {
            assert(arm == before[active as int]);
            lemma_arms_height(views, active as int);
            crate::template::lemma_arm_view(arms[active as int].cond, arms[active as int].body);
            assert(views[active as int] == arms[active as int]@);
        }
        let r = arm.body.next(&arms[active].body, state, factory);
        self.arms.insert(active, arm);
        proof {
            lemma_arms_named(views, active as int, failed_name(r));
            assert(self.arms@ =~= before.update(active as int, arm));
            assert(truths(self.arms@) =~= truths(before));
            assert forall|j: int| 0 <= j < self.arms.len() implies {
                &&& (#[trigger] self.arms[j]).body.parent@ == chain_id@.push(j as usize)
                &&& nodes_wf(self.arms[j].body)
                &&& (active_arm(*self) != Some(j) ==> self.arms[j].body.inner.len() == 0)
            } by {
                if j != active {
                    assert(self.arms[j] == before[j]);
                }
            }
            if fits {
                assert forall|j: int| 0 <= j < self.arms.len() implies nodes_conform(
                    (#[trigger] self.arms[j]).body,
                    views[j].body,
                ) by {
                    if j != active {
                        assert(self.arms[j] == before[j]);
                    }
                }
            }
            if roomy {
                assert forall|j: int| 0 <= j < self.arms.len() implies nodes_room(
                    (#[trigger] self.arms[j]).body,
                ) by {
                    if j != active {
                        assert(self.arms[j] == before[j]);
                    }
                }
            }
            if listed {
                assert forall|j: int| 0 <= j < self.arms.len() implies nodes_registered(
                    (#[trigger] self.arms[j]).body,
                    factory@,
                ) by {
                    if j != active {
                        assert(self.arms[j] == before[j]);
                    }
                }
            }
            if honest {
                assert forall|j: int| 0 <= j < self.arms.len() && j < views.len() implies nodes_true(
(#[trigger] self.arms[j]).body,
views[j].body,
*old(state),
) by {
                    if j != active {
                        assert(self.arms[j] == before[j]);
                    }
                }
            }
            if chain_done(*old(self), views) {
                assert(nodes_done(before[active as int].body, views[active as int].body));
                assert(arms_shape(*self) =~= arms_shape(*old(self))) by {
                    assert forall|j: int| 0 <= j < self.arms.len() implies nodes_view(
                        self.arms[j].body,
                    ) == nodes_view(before[j].body) && self.arms[j].truth == before[j].truth by {
                        if j != active {
                            assert(self.arms[j] == before[j]);
                        }
                    }
                }
            }
        }
        r
    }
}

/// The ids in all the nodes of `nodes`.
pub open spec fn ids_upto_of(nodes: Seq<Node>) -> Seq<Seq<usize>> {
    crate::tree_laws::ids_upto(nodes, nodes.len() as int)
}

/// The ids of the nodes of a level, from the last to the first.
pub open spec fn ids_backward(nodes: Seq<Node>) -> Seq<Seq<usize>> {
    Seq::new(nodes.len(), |i: int| nodes[nodes.len() - 1 - i].node_id@)
}

/// The ids of the nodes of a level, from the first to the last.
pub open spec fn ids_forward(nodes: Seq<Node>) -> Seq<Seq<usize>> {
    Seq::new(nodes.len(), |i: int| nodes[i].node_id@)
}

/// The ids of the body instances from the one at `from` on, from the last
/// back to it.
pub open spec fn runs_backward(iterations: Seq<Nodes>, from: int) -> Seq<Seq<usize>> {
    if 0 <= from <= iterations.len() {
        Seq::new(
            (iterations.len() - from) as nat,
            |i: int| iterations[iterations.len() - 1 - i].parent@,
        )
    } else {
        Seq::empty()
    }
}

/// What a chain has noted as removed when it has looked at its first `k`
/// arms: the nodes of the arm `shown`, which was shown, if that arm is
/// among them and is not the arm `now`, which is shown from now on.
pub open spec fn noted_upto(
    arms: Seq<ArmNode>,
    shown: Option<int>,
    now: Option<int>,
    k: int,
) -> Seq<Seq<usize>> {
    match shown {
        Some(a) => if now != Some(a) && 0 <= a < k && a < arms.len() {
            ids_forward(arms[a].body.inner@)
        } else {
            Seq::empty()
        },
        None => Seq::empty(),
    }
}

/// What a chain notes as removed when the arm `now` is shown from now on:
/// the nodes of the arm that was shown, if that is another arm.
pub open spec fn noted_by_choice(before: IfElse, now: Option<int>) -> Seq<Seq<usize>> {
    noted_upto(before.arms@, active_arm(before), now, before.arms.len() as int)
}

/// Two arms hold the same nodes.
pub open spec fn same_body(after: ArmNode, before: ArmNode) -> bool {
    after.body == before.body
}

/// Where a body instance comes from after a change of the collection: it
/// is the instance that stood at a place before and keeps its nodes, or
/// that instance without its nodes, or a new instance.
pub enum Origin {
    Kept(int),
    Emptied(int),
    Fresh,
}

/// The place that an instance stood at before; none of a new instance.
pub open spec fn source(origin: Origin) -> int {
    match origin {
        Origin::Kept(j) => j,
        Origin::Emptied(j) => j,
        Origin::Fresh => -1,
    }
}

/// Every instance stays where it is.
pub open spec fn kept_all(n: int) -> Seq<Origin> {
    Seq::new(n as nat, |k: int| Origin::Kept(k))
}

/// Where the body instances of a loop with `n` instances come from after
/// a change, before those behind the end of the collection go.
///
/// * An element that is gone takes its instance with it; the instances
///   behind it move up.
/// * A new element gets a new, empty instance at its place, and the
///   instances from there on move back. Where the loop has no number left
///   for a new instance, which `room` denies, every instance goes.
/// * Two elements that change places take their instances with them;
///   where only one of them has an instance, that instance is emptied.
/// * Nothing moves for an element that is new at the end, nor for an
///   element that has no instance yet.
pub open spec fn origins(change: Change, n: int, room: bool) -> Seq<Origin> {
    match change {
        Change::Remove(i) => if i < n {
            Seq::new(
                (n - 1) as nat,
                |k: int|
                    if k < i {
                        Origin::Kept(k)
                    } else {
                        Origin::Kept(k + 1)
                    },
            )
        } else {
            kept_all(n)
        },
        Change::Insert(i) => if i < n {
            if room {
                Seq::new(
                    (n + 1) as nat,
                    |k: int|
                        if k < i {
                            Origin::Kept(k)
                        } else if k == i {
                            Origin::Fresh
                        } else {
                            Origin::Kept(k - 1)
                        },
                )
            } else {
                Seq::empty()
            }
        } else {
            kept_all(n)
        },
        Change::Swap(a, b) => if a < n && b < n {
            Seq::new(
                n as nat,
                |k: int|
                    if k == a {
                        Origin::Kept(b as int)
                    } else if k == b {
                        Origin::Kept(a as int)
                    } else {
                        Origin::Kept(k)
                    },
            )
        } else if a < n {
            Seq::new(
                n as nat,
                |k: int|
                    if k == a {
                        Origin::Emptied(k)
                    } else {
                        Origin::Kept(k)
                    },
            )
        } else if b < n {
            Seq::new(
                n as nat,
                |k: int|
                    if k == b {
                        Origin::Emptied(k)
                    } else {
                        Origin::Kept(k)
                    },
            )
        } else {
            kept_all(n)
        },
        _ => kept_all(n),
    }
}

/// Whether a change gives a loop with `n` instances a new instance.
pub open spec fn makes_instance(change: Change, n: int, room: bool) -> bool {
    change is Insert && change->Insert_0 < n && room
}

/// The id of an instance: that of the instance that it was before, or of
/// a new instance the id of the loop with the number `next` behind it.
pub open spec fn parent_of(
    before: Seq<Nodes>,
    origin: Origin,
    id: Seq<usize>,
    next: usize,
) -> Seq<usize> {
    match origin {
        Origin::Kept(j) => before[j].parent@,
        Origin::Emptied(j) => before[j].parent@,
        Origin::Fresh => id.push(next),
    }
}

/// The instance `now` comes from `origin`: it has the id of its origin,
/// and the nodes of the instance that it was before where it keeps them,
/// else none.
pub open spec fn placed(
    now: Nodes,
    before: Seq<Nodes>,
    origin: Origin,
    id: Seq<usize>,
    next: usize,
) -> bool {
    &&& now.parent@ == parent_of(before, origin, id, next)
    &&& match origin {
        Origin::Kept(j) => now.inner == before[j].inner,
        _ => now.inner.len() == 0,
    }
}

/// What the move of the instances notes as removed: the instance of an
/// element that is gone, every instance where a new one cannot be made,
/// and an instance that is emptied.
pub open spec fn noted_by_move(before: Seq<Nodes>, change: Change, room: bool) -> Seq<Seq<usize>> {
    let n = before.len() as int;
    match change {
        Change::Remove(i) => if i < n {
            seq![before[i as int].parent@]
        } else {
            Seq::empty()
        },
        Change::Insert(i) => if i < n && !room {
            runs_backward(before, 0)
        } else {
            Seq::empty()
        },
        Change::Swap(a, b) => if a < n && b < n {
            Seq::empty()
        } else if a < n {
            seq![before[a as int].parent@]
        } else if b < n {
            seq![before[b as int].parent@]
        } else {
            Seq::empty()
        },
        _ => Seq::empty(),
    }
}

/// The number of instances that a collection of the length `len` leaves
/// of `shape`.
pub open spec fn kept_of(shape: Seq<Origin>, len: nat) -> int {
    if shape.len() <= len {
        shape.len() as int
    } else {
        len as int
    }
}

/// What a change of the collection of a loop notes as removed: what the
/// move of the instances notes, see [`noted_by_move`], and then the
/// instances behind the new end of the collection, from the last on.
pub open spec fn noted_by_change(
    before: Seq<Nodes>,
    change: Change,
    len: nat,
    id: Seq<usize>,
    next: usize,
) -> Seq<Seq<usize>> {
    let shape = origins(change, before.len() as int, next < usize::MAX);
    let kept = kept_of(shape, len);
    noted_by_move(before, change, next < usize::MAX) + Seq::new(
        (shape.len() - kept) as nat,
        |t: int| parent_of(before, shape[shape.len() - 1 - t], id, next),
    )
}

/// A loop with the id `id` after a change of its collection, other than
/// a change of the whole: the collection has its new length, the
/// instances are moved as [`origins`] says and end with the collection,
/// and the instance at `k` sees the name of the loop bound to the element
/// that is at `k` now.
pub open spec fn loop_moved(
    before: LoopNode,
    after: LoopNode,
    id: Seq<usize>,
    frames: Seq<Seq<(PathView, Bound)>>,
    change: Change,
) -> bool {
    let n = before.iterations.len() as int;
    let room = before.next_index < usize::MAX;
    let shape = origins(change, n, room);
    &&& after.binding@ == before.binding@
    &&& after.collection@ == run_changed(before.collection@, change)
    &&& after.next_index == if makes_instance(change, n, room) {
        (before.next_index + 1) as usize
    } else {
        before.next_index
    }
    &&& after.iterations.len() == kept_of(shape, run_len(after.collection@))
    &&& forall|k: int|
        0 <= k < after.iterations.len() ==> {
            &&& placed(
                #[trigger] after.iterations[k],
                before.iterations@,
                shape[k],
                id,
                before.next_index,
            )
            &&& after.iterations[k].scope@ == instance_frames(
                frames,
                after.binding@,
                element(after.collection@, k as usize),
            )
        }
}

/// Every instance of a move comes from a place of its own among the
/// instances before, or is new; and at most one is new.
pub proof fn lemma_origins(change: Change, n: int, room: bool)
    requires
        n >= 0,
    ensures
        forall|k: int|
            0 <= k < origins(change, n, room).len() ==> -1 <= source(
                #[trigger] origins(change, n, room)[k],
            ) < n,
        forall|a: int, b: int|
            0 <= a < b < origins(change, n, room).len() ==> source(
                #[trigger] origins(change, n, room)[a],
            ) != source(#[trigger] origins(change, n, room)[b]),
{
}

/// The instances are arranged as `shape` says, each with the id and the
/// nodes of its origin, and each well formed.
pub open spec fn arranged(
    now: Seq<Nodes>,
    before: Seq<Nodes>,
    shape: Seq<Origin>,
    id: Seq<usize>,
    next: usize,
) -> bool {
    &&& now.len() == shape.len()
    &&& forall|k: int|
        0 <= k < now.len() ==> placed(#[trigger] now[k], before, shape[k], id, next) && nodes_wf(
            now[k],
        )
}

impl LoopNode {
    /// Lets the instance of an element that is gone go.
    fn drop_at(&mut self, i: usize, loop_id: &NodeId, scope: &Scope, queue: &mut DirtyQueue)
        requires
            loop_wf(*old(self), loop_id@),
            scope@.len() > 0,
        ensures
            final(self).binding == old(self).binding,
            final(self).collection == old(self).collection,
            final(self).next_index == if makes_instance(
                Change::Remove(i),
                old(self).iterations.len() as int,
                old(self).next_index < usize::MAX,
            ) {
                (old(self).next_index + 1) as usize
            } else {
                old(self).next_index
            },
            arranged(
                final(self).iterations@,
                old(self).iterations@,
                origins(
                    Change::Remove(i),
                    old(self).iterations.len() as int,
                    old(self).next_index < usize::MAX,
                ),
                loop_id@,
                old(self).next_index,
            ),
            final(queue).dirty() == old(queue).dirty(),
            final(queue).removed() == old(queue).removed() + noted_by_move(
                old(self).iterations@,
                Change::Remove(i),
                old(self).next_index < usize::MAX,
            ),
    {
        let ghost runs = self.iterations@;
        let ghost next = self.next_index;
        let count = self.iterations.len();
        proof {
            assert(queue.removed() =~= old(queue).removed() + Seq::<Seq<usize>>::empty());
        }
        if i < count {
            let gone = self.iterations.remove(i);
            remove_node(queue, gone.parent);
            assert(queue.removed() =~= old(queue).removed() + seq![runs[i as int].parent@]);
        }
        proof {
            let shape = origins(Change::Remove(i), count as int, next < usize::MAX);
            let now = self.iterations@;
            assert(now.len() == shape.len());
            assert forall|k: int| 0 <= k < now.len() implies placed(
                #[trigger] now[k],
                runs,
                shape[k],
                loop_id@,
                next,
            ) && nodes_wf(now[k]) by {
                let j = source(shape[k]);
                if j >= 0 {
                    assert(nodes_wf(runs[j]));
                }
            }
        }
    }

    /// Makes a new, empty instance for a new element; where the loop has
    /// no number left for it, every instance goes.
    fn insert_at(&mut self, i: usize, loop_id: &NodeId, scope: &Scope, queue: &mut DirtyQueue)
        requires
            loop_wf(*old(self), loop_id@),
            scope@.len() > 0,
        ensures
            final(self).binding == old(self).binding,
            final(self).collection == old(self).collection,
            final(self).next_index == if makes_instance(
                Change::Insert(i),
                old(self).iterations.len() as int,
                old(self).next_index < usize::MAX,
            ) {
                (old(self).next_index + 1) as usize
            } else {
                old(self).next_index
            },
            arranged(
                final(self).iterations@,
                old(self).iterations@,
                origins(
                    Change::Insert(i),
                    old(self).iterations.len() as int,
                    old(self).next_index < usize::MAX,
                ),
                loop_id@,
                old(self).next_index,
            ),
            final(queue).dirty() == old(queue).dirty(),
            final(queue).removed() == old(queue).removed() + noted_by_move(
                old(self).iterations@,
                Change::Insert(i),
                old(self).next_index < usize::MAX,
            ),
    {
        let ghost runs = self.iterations@;
        let ghost next = self.next_index;
        let count = self.iterations.len();
        proof {
            assert(queue.removed() =~= old(queue).removed() + Seq::<Seq<usize>>::empty());
        }
        if i < count {
            if self.next_index < usize::MAX {
                let number = self.next_index;
                self.next_index = number + 1;
                let fresh = Nodes::new(loop_id.child(number), scope.from_self());
                self.iterations.insert(i, fresh);
            } else {
                while self.iterations.len() > 0
                    invariant
                        self.binding == old(self).binding,
                        self.collection == old(self).collection,
                        self.next_index == old(self).next_index,
                        self.iterations.len() <= runs.len(),
                        self.iterations@ == runs.take(self.iterations.len() as int),
                        queue.dirty() == old(queue).dirty(),
                        queue.removed() == old(queue).removed() + runs_backward(
                            runs,
                            self.iterations.len() as int,
                        ),
                    decreases self.iterations.len(),
                {
                    let gone = self.iterations.pop().unwrap();
                    remove_node(queue, gone.parent);
                    assert(self.iterations@ =~= runs.take(self.iterations.len() as int));
                    assert(queue.removed() =~= old(queue).removed() + runs_backward(
                        runs,
                        self.iterations.len() as int,
                    ));
                }
            }
        }
        proof {
            let shape = origins(Change::Insert(i), count as int, next < usize::MAX);
            let now = self.iterations@;
            assert(now.len() == shape.len());
            assert forall|k: int| 0 <= k < now.len() implies placed(
                #[trigger] now[k],
                runs,
                shape[k],
                loop_id@,
                next,
            ) && nodes_wf(now[k]) by {
                let j = source(shape[k]);
                if j >= 0 {
                    assert(nodes_wf(runs[j]));
                }
            }
        }
    }

    /// Lets two instances change places with their elements; where only
    /// one of the elements has an instance, that instance is emptied.
    fn swap_at(&mut self, a: usize, b: usize, loop_id: &NodeId, scope: &Scope, queue: &mut DirtyQueue)
        requires
            loop_wf(*old(self), loop_id@),
            scope@.len() > 0,
        ensures
            final(self).binding == old(self).binding,
            final(self).collection == old(self).collection,
            final(self).next_index == if makes_instance(
                Change::Swap(a, b),
                old(self).iterations.len() as int,
                old(self).next_index < usize::MAX,
            ) {
                (old(self).next_index + 1) as usize
            } else {
                old(self).next_index
            },
            arranged(
                final(self).iterations@,
                old(self).iterations@,
                origins(
                    Change::Swap(a, b),
                    old(self).iterations.len() as int,
                    old(self).next_index < usize::MAX,
                ),
                loop_id@,
                old(self).next_index,
            ),
            final(queue).dirty() == old(queue).dirty(),
            final(queue).removed() == old(queue).removed() + noted_by_move(
                old(self).iterations@,
                Change::Swap(a, b),
                old(self).next_index < usize::MAX,
            ),
    {
        let ghost runs = self.iterations@;
        let ghost next = self.next_index;
        let count = self.iterations.len();
        proof {
            assert(queue.removed() =~= old(queue).removed() + Seq::<Seq<usize>>::empty());
        }
        if a < count && b < count {
            if a != b {
                let lo = if a < b {
                    a
                } else {
                    b
                };
                let hi = if a < b {
                    b
                } else {
                    a
                };
                let high = self.iterations.remove(hi);
                let low = self.iterations.remove(lo);
                self.iterations.insert(lo, high);
                self.iterations.insert(hi, low);
                assert(self.iterations@ =~= runs.update(a as int, runs[b as int]).update(
                    b as int,
                    runs[a as int],
                ));
            }
        } else if a < count || b < count {
            let place = if a < count {
                a
            } else {
                b
            };
            let mut instance = self.iterations.remove(place);
            remove_node(queue, instance.parent.duplicate());
            instance.inner = Vec::new();
            self.iterations.insert(place, instance);
            assert(self.iterations@ =~= runs.update(place as int, instance));
            assert(queue.removed() =~= old(queue).removed() + seq![runs[place as int].parent@]);
        }
        proof {
            let shape = origins(Change::Swap(a, b), count as int, next < usize::MAX);
            let now = self.iterations@;
            assert(now.len() == shape.len());
            assert forall|k: int| 0 <= k < now.len() implies placed(
                #[trigger] now[k],
                runs,
                shape[k],
                loop_id@,
                next,
            ) && nodes_wf(now[k]) by {
                let j = source(shape[k]);
                if j >= 0 {
                    assert(nodes_wf(runs[j]));
                }
            }
        }
    }

    /// Moves the body instances with their elements; see [`origins`].
    fn rearrange(&mut self, change: Change, loop_id: &NodeId, scope: &Scope, queue: &mut DirtyQueue)
        requires
            loop_wf(*old(self), loop_id@),
            scope@.len() > 0,
        ensures
            final(self).binding == old(self).binding,
            final(self).collection == old(self).collection,
            final(self).next_index == if makes_instance(
                change,
                old(self).iterations.len() as int,
                old(self).next_index < usize::MAX,
            ) {
                (old(self).next_index + 1) as usize
            } else {
                old(self).next_index
            },
            arranged(
                final(self).iterations@,
                old(self).iterations@,
                origins(
                    change,
                    old(self).iterations.len() as int,
                    old(self).next_index < usize::MAX,
                ),
                loop_id@,
                old(self).next_index,
            ),
            final(queue).dirty() == old(queue).dirty(),
            final(queue).removed() == old(queue).removed() + noted_by_move(
                old(self).iterations@,
                change,
                old(self).next_index < usize::MAX,
            ),
    {
        let ghost runs = self.iterations@;
        let ghost next = self.next_index;
        let count = self.iterations.len();
        proof {
            assert(queue.removed() =~= old(queue).removed() + Seq::<Seq<usize>>::empty());
        }
        match change {
            Change::Remove(i) => {
                self.drop_at(i, loop_id, scope, queue);
            },
            Change::Insert(i) => {
                self.insert_at(i, loop_id, scope, queue);
            },
            Change::Swap(a, b) => {
                self.swap_at(a, b, loop_id, scope, queue);
            },
            _ => {
                proof {
                    assert forall|k: int| 0 <= k < runs.len() implies placed(
                        #[trigger] runs[k],
                        runs,
                        origins(change, count as int, next < usize::MAX)[k],
                        loop_id@,
                        next,
                    ) && nodes_wf(runs[k]) by {}
                }
            },
        }
    }

    /// Lets the body instances behind the end of the collection go, from
    /// the last on, and notes them as removed.
    fn cut_back(&mut self, queue: &mut DirtyQueue)
        ensures
            final(self).binding == old(self).binding,
            final(self).collection == old(self).collection,
            final(self).next_index == old(self).next_index,
            final(self).iterations.len() == if old(self).iterations.len() <= run_len(
                old(self).collection@,
            ) {
                old(self).iterations.len() as nat
            } else {
                run_len(old(self).collection@)
            },
            final(self).iterations@ == old(self).iterations@.take(
                final(self).iterations.len() as int,
            ),
            final(queue).dirty() == old(queue).dirty(),
            final(queue).removed() == old(queue).removed() + Seq::new(
                (old(self).iterations.len() - final(self).iterations.len()) as nat,
                |t: int| old(self).iterations[old(self).iterations.len() - 1 - t].parent@,
            ),
    {
        let ghost all = self.iterations@;
        assert(queue.removed() =~= old(queue).removed() + Seq::new(
            0,
            |t: int| all[all.len() - 1 - t].parent@,
        ));
        while self.iterations.len() > self.collection.len()
            invariant
                self.binding == old(self).binding,
                self.collection == old(self).collection,
                self.next_index == old(self).next_index,
                all == old(self).iterations@,
                self.iterations.len() <= all.len(),
                self.iterations@ == all.take(self.iterations.len() as int),
                self.iterations.len() == all.len() || self.iterations.len() >= run_len(
                    self.collection@,
                ),
                queue.dirty() == old(queue).dirty(),
                queue.removed() == old(queue).removed() + Seq::new(
                    (all.len() - self.iterations.len()) as nat,
                    |t: int| all[all.len() - 1 - t].parent@,
                ),
            decreases self.iterations.len(),
        {
            let gone = self.iterations.pop().unwrap();
            remove_node(queue, gone.parent);
            assert(self.iterations@ =~= all.take(self.iterations.len() as int));
            assert(queue.removed() =~= old(queue).removed() + Seq::new(
                (all.len() - self.iterations.len()) as nat,
                |t: int| all[all.len() - 1 - t].parent@,
            ));
        }
    }

    /// Lets every body instance see the name of the loop bound to the
    /// element that is at its place now.
    fn rebind(&mut self, scope: &Scope)
        requires
            scope@.len() > 0,
            old(self).iterations.len() <= run_len(old(self).collection@),
        ensures
            final(self).binding == old(self).binding,
            final(self).collection == old(self).collection,
            final(self).next_index == old(self).next_index,
            final(self).iterations.len() == old(self).iterations.len(),
            forall|j: int|
                0 <= j < final(self).iterations.len() ==> {
                    &&& (#[trigger] final(self).iterations[j]).parent == old(
                        self,
                    ).iterations[j].parent
                    &&& final(self).iterations[j].inner == old(self).iterations[j].inner
                    &&& final(self).iterations[j].scope@ == instance_frames(
                        scope@,
                        final(self).binding@,
                        element(final(self).collection@, j as usize),
                    )
                    &&& lookup_spec(final(self).iterations[j].scope@, final(self).binding@)
                        == element(final(self).collection@, j as usize)
                },
    {
        let mut k: usize = 0;
        while k < self.iterations.len()
            invariant
                k <= self.iterations.len(),
                scope@.len() > 0,
                self.binding == old(self).binding,
                self.collection == old(self).collection,
                self.next_index == old(self).next_index,
                self.iterations.len() == old(self).iterations.len(),
                self.iterations.len() <= run_len(self.collection@),
                forall|j: int|
                    0 <= j < self.iterations.len() ==> (#[trigger] self.iterations[j]).parent
                        == old(self).iterations[j].parent && self.iterations[j].inner == old(
                        self,
                    ).iterations[j].inner,
                forall|j: int|
                    0 <= j < k ==> (#[trigger] self.iterations[j]).scope@ == instance_frames(
                        scope@,
                        self.binding@,
                        element(self.collection@, j as usize),
                    ) && lookup_spec(self.iterations[j].scope@, self.binding@) == element(
                        self.collection@,
                        j as usize,
                    ),
            decreases self.iterations.len() - k,
        {
            let ghost now = self.iterations@;
            let mut inner = scope.from_self();
            let ghost outer = inner@;
            inner.scope_collection(self.binding.duplicate(), &self.collection, k);
            proof {
                match element(self.collection@, k) {
                    Some(value) => {
                        crate::scope::lemma_parents_untouched(outer, self.binding@, value);
                    },
                    None => {},
                }
                assert(lookup_spec(inner@, self.binding@) == element(self.collection@, k));
                assert(inner@ =~= instance_frames(
                    scope@,
                    self.binding@,
                    element(self.collection@, k),
                ));
            }
            let mut instance = self.iterations.remove(k);
            instance.scope = inner;
            self.iterations.insert(k, instance);
            proof {
                assert(self.iterations@ =~= now.update(k as int, instance));
                assert forall|j: int| 0 <= j < self.iterations.len() implies (
                #[trigger] self.iterations[j]).parent == old(self).iterations[j].parent
                    && self.iterations[j].inner == old(self).iterations[j].inner by {
                    if j != k {
                        assert(self.iterations[j] == now[j]);
                    }
                }
                assert forall|j: int| 0 <= j < k + 1 implies (
                #[trigger] self.iterations[j]).scope@ == instance_frames(
                    scope@,
                    self.binding@,
                    element(self.collection@, j as usize),
                ) && lookup_spec(self.iterations[j].scope@, self.binding@) == element(
                    self.collection@,
                    j as usize,
                ) by {
                    if j != k {
                        assert(self.iterations[j] == now[j]);
                    }
                }
            }
            k += 1;
        }
    }

    /// Takes in a change of the collection of the loop, other than a
    /// change of the whole. The collection gets its new length and the
    /// body instances move with their elements, see [`origins`]: nodes
    /// that stay keep their widgets and their ids. The instances behind
    /// the end of the collection go, and every instance is bound to the
    /// element that is at its place now. What goes and what is emptied is
    /// noted as removed in `queue`; see [`noted_by_change`].
    pub fn apply(
        &mut self,
        change: Change,
        loop_id: &NodeId,
        scope: &Scope,
        queue: &mut DirtyQueue,
    )
        requires
            loop_wf(*old(self), loop_id@),
            scope@.len() > 0,
        ensures
            loop_wf(*final(self), loop_id@),
            loop_moved(*old(self), *final(self), loop_id@, scope@, change),
            final(queue).dirty() == old(queue).dirty(),
            final(queue).removed() == old(queue).removed() + noted_by_change(
                old(self).iterations@,
                change,
                run_len(final(self).collection@) as nat,
                loop_id@,
                old(self).next_index,
            ),
    {
        let ghost before = *self;
        let ghost n = self.iterations.len() as int;
        let ghost room = self.next_index < usize::MAX;
        let ghost shape = origins(change, n, room);
        let ghost runs = self.iterations@;
        proof {
            lemma_origins(change, n, room);
        }
        self.rearrange(change, loop_id, scope, queue);
        let ghost moved = self.iterations@;
        let ghost moved_notes = queue.removed();
        self.collection.apply(change);
        self.cut_back(queue);
        let ghost cut = self.iterations@;
        let ghost kept = self.iterations.len() as int;
        self.rebind(scope);
        proof {
            assert(kept == kept_of(shape, run_len(self.collection@)));
            let gone = Seq::new(
                (moved.len() - kept) as nat,
                |t: int| moved[moved.len() - 1 - t].parent@,
            );
            let behind = Seq::new(
                (shape.len() - kept) as nat,
                |t: int| parent_of(runs, shape[shape.len() - 1 - t], loop_id@, before.next_index),
            );
            assert forall|t: int| 0 <= t < gone.len() implies #[trigger] gone[t] == behind[t] by {
                assert(placed(
                    moved[moved.len() - 1 - t],
                    runs,
                    shape[moved.len() - 1 - t],
                    loop_id@,
                    before.next_index,
                ));
            }
            assert(gone =~= behind);
            assert(queue.removed() =~= old(queue).removed() + noted_by_change(
                runs,
                change,
                run_len(self.collection@) as nat,
                loop_id@,
                before.next_index,
            ));
            assert forall|j: int| 0 <= j < self.iterations.len() implies {
                &&& (#[trigger] self.iterations[j]).parent@.len() == loop_id@.len() + 1
                &&& self.iterations[j].parent@.drop_last() == loop_id@
                &&& self.iterations[j].parent@.last() < self.next_index
                &&& nodes_wf(self.iterations[j])
                &&& placed(self.iterations[j], runs, shape[j], loop_id@, before.next_index)
            } by {
                assert(cut[j] == moved[j]);
                assert(placed(moved[j], runs, shape[j], loop_id@, before.next_index));
                assert(nodes_wf(moved[j]));
                let from = source(shape[j]);
                if from >= 0 {
                    assert(runs[from].parent@.last() < before.next_index);
                } else {
                    assert(loop_id@.push(before.next_index).drop_last() =~= loop_id@);
                }
                assert(self.iterations[j].scope@.len() > 0);
            }
            assert forall|a: int, b: int|
                0 <= a < b < self.iterations.len() implies (
            #[trigger] self.iterations[a]).parent@.last() != (
            #[trigger] self.iterations[b]).parent@.last() by {
                assert(cut[a] == moved[a]);
                assert(cut[b] == moved[b]);
                assert(placed(moved[a], runs, shape[a], loop_id@, before.next_index));
                assert(placed(moved[b], runs, shape[b], loop_id@, before.next_index));
                let x = source(shape[a]);
                let y = source(shape[b]);
                if x >= 0 {
                    assert(runs[x].parent@.last() < before.next_index);
                }
                if y >= 0 {
                    assert(runs[y].parent@.last() < before.next_index);
                }
            }
        }
    }
}

impl LoopNode {
    /// Lets the loop run over `collection` from now on. Every body instance
    /// goes, and is noted as removed in `queue`.
    pub fn reload(&mut self, collection: Collection, loop_id: &NodeId, queue: &mut DirtyQueue)
        requires
            loop_wf(*old(self), loop_id@),
        ensures
            loop_wf(*final(self), loop_id@),
            final(self).binding@ == old(self).binding@,
            final(self).next_index == old(self).next_index,
            final(self).collection@ == collection@,
            final(self).iterations.len() == 0,
            final(queue).dirty() == old(queue).dirty(),
            final(queue).removed() == old(queue).removed() + runs_backward(
                old(self).iterations@,
                0,
            ),
    {
        while self.iterations.len() > 0
            invariant
                self.binding@ == old(self).binding@,
                self.next_index == old(self).next_index,
                queue.dirty() == old(queue).dirty(),
                self.iterations.len() <= old(self).iterations.len(),
                self.iterations@ == old(self).iterations@.take(self.iterations.len() as int),
                queue.removed() == old(queue).removed() + runs_backward(
                    old(self).iterations@,
                    self.iterations.len() as int,
                ),
            decreases self.iterations.len(),
        {
            let gone = self.iterations.pop().unwrap();
            remove_node(queue, gone.parent);
            assert(self.iterations@ =~= old(self).iterations@.take(self.iterations.len() as int));
            assert(queue.removed() =~= old(queue).removed() + runs_backward(
                old(self).iterations@,
                self.iterations.len() as int,
            ));
        }
        self.collection = collection;
    }
}

impl Nodes {
    /// Takes in a change that was reported for the node `target`: walks
    /// down to the node and lets it take the change in; see
    /// [`Node::update`]. Nodes that `target` does not lie under stay as
    /// they are. What the level is afterwards says
    /// [`nodes_updated`](crate::updates::nodes_updated), what is noted as
    /// removed [`nodes_notes`](crate::updates::nodes_notes).
    pub fn update<S: State>(
        &mut self,
        templates: &Vec<Template>,
        target: &NodeId,
        change: Change,
        state: &mut S,
        queue: &mut DirtyQueue,
    )
        requires
            nodes_wf(*old(self)),
        ensures
            nodes_wf(*final(self)),
            final(self).parent@ == old(self).parent@,
            final(self).scope@ == old(self).scope@,
            final(self).inner.len() == old(self).inner.len(),
            forall|i: int|
                0 <= i < final(self).inner.len() && !is_prefix(
                    old(self).inner[i].node_id@,
                    target@,
                ) ==> #[trigger] final(self).inner[i] == old(self).inner[i],
            same_values(*old(state), *final(state)),
            final(state).pending() == old(state).pending(),
            final(queue).dirty() == old(queue).dirty(),
            nodes_conform(*old(self), templates_view(templates@)) ==> nodes_conform(
                *final(self),
                templates_view(templates@),
            ),
            old(queue).removed().is_prefix_of(final(queue).removed()),
            covered(nodes_ids(*old(self)), nodes_ids(*final(self)), final(queue).removed()),
            nodes_updated(
                *old(self),
                *final(self),
                templates_view(templates@),
                target@,
                change,
                *old(state),
            ),
            final(queue).removed() == old(queue).removed() + nodes_notes(
                *old(self),
                templates_view(templates@),
                target@,
                change,
                *old(state),
            ),
        decreases heights(templates_view(templates@)), 2int,
    {
        let ghost views = templates_view(templates@);
        let ghost fits = nodes_conform(*self, views);
        proof {
            lemma_covered_same(nodes_ids(*self), queue.removed());
            assert(queue.removed() =~= old(queue).removed() + level_notes(
                old(self).inner@,
                views,
                old(self).scope@,
                target@,
                change,
                *old(state),
                0,
            ));
        }
        let mut i: usize = 0;
        while i < self.inner.len() && i < templates.len()
            invariant
                i <= self.inner.len(),
                i <= templates.len(),
                views.len() == templates.len(),
                forall|j: int|
                    0 <= j < i && is_prefix(old(self).inner[j].node_id@, target@)
                        ==> node_updated(
                        old(self).inner[j],
                        #[trigger] self.inner[j],
                        views[j],
                        old(self).scope@,
                        target@,
                        change,
                        *old(state),
                    ),
                queue.removed() == old(queue).removed() + level_notes(
                    old(self).inner@,
                    views,
                    old(self).scope@,
                    target@,
                    change,
                    *old(state),
                    i as int,
                ),
                old(queue).removed().is_prefix_of(queue.removed()),
                covered(nodes_ids(*old(self)), nodes_ids(*self), queue.removed()),
                fits ==> nodes_conform(*self, views),
                nodes_wf(*self),
                self.parent@ == old(self).parent@,
                self.scope@ == old(self).scope@,
                self.inner.len() == old(self).inner.len(),
                views == templates_view(templates@),
                forall|j: int|
                    0 <= j < self.inner.len() && (j >= i || !is_prefix(
                        old(self).inner[j].node_id@,
                        target@,
                    )) ==> #[trigger] self.inner[j] == old(self).inner[j],
                same_values(*old(state), *state),
                state.pending() == old(state).pending(),
                queue.dirty() == old(queue).dirty(),
            decreases self.inner.len() - i,
        {
            if self.inner[i].node_id.contains(target) {
                let ghost before = self.inner@;
                let ghost middle = *state;
                let ghost noted = queue.removed();
                let mut node = self.inner.remove(i);
                proof {
                    lemma_heights(views, i as int);
                    assert(views[i as int] == templates[i as int]@);
                    assert(node == before[i as int]);
                }
                node.update(&templates[i], &self.scope, target, change, state, queue);
                self.inner.insert(i, node);
                proof {
                    assert(self.inner@ =~= before.update(i as int, node));
                    assert(before[i as int] == old(self).inner[i as int]);
                    lemma_node_updated_same(
                        before[i as int],
                        node,
                        views[i as int],
                        self.scope@,
                        target@,
                        change,
                        *old(state),
                        middle,
                    );
                    lemma_node_notes_same(
                        before[i as int],
                        views[i as int],
                        self.scope@,
                        target@,
                        change,
                        *old(state),
                        middle,
                    );
                    assert forall|j: int|
                        0 <= j < i + 1 && is_prefix(
                            old(self).inner[j].node_id@,
                            target@,
                        ) implies node_updated(
                        old(self).inner[j],
                        #[trigger] self.inner[j],
                        views[j],
                        old(self).scope@,
                        target@,
                        change,
                        *old(state),
                    ) by {
                        if j != i {
                            assert(self.inner[j] == before[j]);
                        }
                    }
                    assert(queue.removed() =~= old(queue).removed() + level_notes(
                        old(self).inner@,
                        views,
                        old(self).scope@,
                        target@,
                        change,
                        *old(state),
                        i + 1,
                    ));
                    assert forall|j: int| 0 <= j < before.len() implies covered(
                        node_ids(#[trigger] before[j]),
                        node_ids(self.inner@[j]),
                        queue.removed(),
                    ) by {
                        if j != i {
                            lemma_covered_same(node_ids(before[j]), queue.removed());
                        }
                    }
                    lemma_level_covered(before, self.inner@, before.len() as int, queue.removed());
                    lemma_covered_later(
                        nodes_ids(*old(self)),
                        ids_upto_of(before),
                        noted,
                        queue.removed(),
                    );
                    lemma_covered_chain(
                        nodes_ids(*old(self)),
                        ids_upto_of(before),
                        nodes_ids(*self),
                        queue.removed(),
                    );
                    lemma_same_values_chain(*old(state), middle, *state);
                    assert forall|j: int| 0 <= j < self.inner.len() implies (
                    #[trigger] self.inner[j]).node_id@ == self.parent@.push(j as usize)
                        && node_wf(self.inner[j]) by {
                        if j != i {
                            assert(self.inner[j] == before[j]);
                        }
                    }
                    assert forall|j: int|
                        0 <= j < self.inner.len() && (j >= i + 1 || !is_prefix(
                            old(self).inner[j].node_id@,
                            target@,
                        )) implies #[trigger] self.inner[j] == old(self).inner[j] by {
                        if j != i {
                            assert(self.inner[j] == before[j]);
                        }
                    }
                    if fits {
                        assert forall|j: int| 0 <= j < self.inner.len() implies node_conforms(
                            #[trigger] self.inner[j],
                            views[j],
                        ) by {
                            if j != i {
                                assert(self.inner[j] == before[j]);
                            }
                        }
                    }
                }
            } else {
                assert(queue.removed() =~= old(queue).removed() + level_notes(
                    old(self).inner@,
                    views,
                    old(self).scope@,
                    target@,
                    change,
                    *old(state),
                    i + 1,
                ));
            }
            i += 1;
        }
    }
}

impl Node {
    /// Takes in a change that was reported for the node `target`, which is
    /// this node or lies under it.
    ///
    /// * A widget that is the target resolves its text and its attributes
    ///   anew and is marked dirty.
    /// * A loop that is the target takes the change of its collection in;
    ///   where the collection was modified as a whole, it is read anew and
    ///   every body instance goes.
    /// * An arm of a chain that is the target is evaluated anew.
    /// * Else the change is handed down to the children of the widget, to
    ///   the body instances of the loop or to the arms of the chain.
    ///
    /// What the node is afterwards says
    /// [`node_updated`](crate::updates::node_updated), what is noted as
    /// removed [`node_notes`](crate::updates::node_notes).
    pub fn update<S: State>(
        &mut self,
        template: &Template,
        scope: &Scope,
        target: &NodeId,
        change: Change,
        state: &mut S,
        queue: &mut DirtyQueue,
    )
        requires
            node_wf(*old(self)),
            scope@.len() > 0,
        ensures
            node_wf(*final(self)),
            final(self).node_id@ == old(self).node_id@,
            same_values(*old(state), *final(state)),
            final(state).pending() == old(state).pending(),
            final(queue).dirty() == old(queue).dirty(),
            node_conforms(*old(self), template@) ==> node_conforms(*final(self), template@),
            old(queue).removed().is_prefix_of(final(queue).removed()),
            covered(node_ids(*old(self)), node_ids(*final(self)), final(queue).removed()),
            node_updated(
                *old(self),
                *final(self),
                template@,
                scope@,
                target@,
                change,
                *old(state),
            ),
            final(queue).removed() == old(queue).removed() + node_notes(
                *old(self),
                template@,
                scope@,
                target@,
                change,
                *old(state),
            ),
        decreases height(template@), 1int,
    {
        let is_target = self.node_id.same(target);
        let ghost was = *self;
        let ghost noted = queue.removed();
        proof {
            lemma_covered_same(node_ids(*self), queue.removed());
            lemma_covered_same(seq![self.node_id@], queue.removed());
            assert(noted =~= noted + Seq::<Seq<usize>>::empty());
        }
        match (&mut self.kind, template) {
            (NodeKind::Single(single), Template::Node { ident, attributes, text, children }) => {
                proof {
                    crate::template::lemma_node_view(*ident, *attributes, *text, *children);
                }
                if is_target {
                    single.refresh(attributes, text, scope, state);
                } else {
                    single.children.update(children, target, change, state, queue);
                    proof {
                        lemma_covered_same(seq![was.node_id@], queue.removed());
                        lemma_covered_concat(
                            seq![was.node_id@],
                            nodes_ids(was.kind->Single_0.children),
                            seq![was.node_id@],
                            nodes_ids(single.children),
                            queue.removed(),
                        );
                    }
                }
                assert(node_conforms(was, template@) ==> node_conforms(*self, template@));
                assert(node_updated(was, *self, template@, scope@, target@, change, *old(state)));
            },
            (NodeKind::Loop(l), Template::Loop { binding, data, body }) => {
                proof {
                    crate::template::lemma_loop_view(*binding, *data, *body);
                }
                if is_target {
                    match change {
                        Change::Modified => {
                            let collection = collection_of(data, scope, state, &self.node_id);
                            l.reload(collection, &self.node_id, queue);
                            proof {
                                lemma_reload_covers(
                                    was.kind->Loop_0,
                                    was.node_id@,
                                    noted,
                                    queue.removed(),
                                );
                                assert(runs_ids(l.iterations@, 0) =~= Seq::<Seq<usize>>::empty());
                            }
                        },
                        _ => {
                            l.apply(change, &self.node_id, scope, queue);
                            proof {
                                let views = templates_view(body@);
                                let before = was.kind->Loop_0;
                                let shape = origins(
                                    change,
                                    before.iterations.len() as int,
                                    before.next_index < usize::MAX,
                                );
                                lemma_origins(
                                    change,
                                    before.iterations.len() as int,
                                    before.next_index < usize::MAX,
                                );
                                if runs_conform(before, views) {
                                    assert forall|k: int|
                                        0 <= k < l.iterations.len() implies nodes_conform(
                                        #[trigger] l.iterations[k],
                                        views,
                                    ) by {
                                        assert(placed(
                                            l.iterations[k],
                                            before.iterations@,
                                            shape[k],
                                            was.node_id@,
                                            before.next_index,
                                        ));
                                        let from = source(shape[k]);
                                        if shape[k] is Kept {
                                            assert(nodes_conform(before.iterations[from], views));
                                        }
                                    }
                                }
                                lemma_change_covers(
                                    before,
                                    *l,
                                    was.node_id@,
                                    scope@,
                                    change,
                                    noted,
                                    queue.removed(),
                                );
                            }
                        },
                    }
                } else {
                    l.update(body, &self.node_id, target, change, state, queue);
                }
                assert(node_updated(was, *self, template@, scope@, target@, change, *old(state)));
                proof {
                    lemma_covered_same(seq![was.node_id@], queue.removed());
                    lemma_covered_concat(
                        seq![was.node_id@],
                        runs_ids(
                            was.kind->Loop_0.iterations@,
                            was.kind->Loop_0.iterations.len() as int,
                        ),
                        seq![was.node_id@],
                        runs_ids(l.iterations@, l.iterations.len() as int),
                        queue.removed(),
                    );
                }
                assert(node_conforms(was, template@) ==> node_conforms(*self, template@));
            },
            (NodeKind::ControlFlow(cf), Template::ControlFlow(arms)) => {
                proof {
                    crate::template::lemma_control_flow_view(*arms);
                }
                cf.update(arms, scope, &self.node_id, target, change, state, queue);
                assert(node_updated(was, *self, template@, scope@, target@, change, *old(state)));
                proof {
                    lemma_covered_same(seq![was.node_id@], queue.removed());
                    lemma_covered_concat(
                        seq![was.node_id@],
                        arms_ids(
                            was.kind->ControlFlow_0.arms@,
                            was.kind->ControlFlow_0.arms.len() as int,
                        ),
                        seq![was.node_id@],
                        arms_ids(cf.arms@, cf.arms.len() as int),
                        queue.removed(),
                    );
                }
                assert(node_conforms(was, template@) ==> node_conforms(*self, template@));
            },
            _ => {},
        }
    }
}

impl LoopNode {
    /// Hands a change down to the body instances that `target` lies under;
    /// the others stay as they are. See
    /// [`runs_updated`](crate::updates::runs_updated) and
    /// [`runs_notes`](crate::updates::runs_notes).
    pub fn update<S: State>(
        &mut self,
        body: &Vec<Template>,
        loop_id: &NodeId,
        target: &NodeId,
        change: Change,
        state: &mut S,
        queue: &mut DirtyQueue,
    )
        requires
            loop_wf(*old(self), loop_id@),
        ensures
            loop_wf(*final(self), loop_id@),
            final(self).collection@ == old(self).collection@,
            final(self).binding@ == old(self).binding@,
            same_values(*old(state), *final(state)),
            final(state).pending() == old(state).pending(),
            final(queue).dirty() == old(queue).dirty(),
            runs_conform(*old(self), templates_view(body@)) ==> runs_conform(
                *final(self),
                templates_view(body@),
            ),
            final(self).iterations.len() == old(self).iterations.len(),
            old(queue).removed().is_prefix_of(final(queue).removed()),
            covered(
                runs_ids(old(self).iterations@, old(self).iterations.len() as int),
                runs_ids(final(self).iterations@, final(self).iterations.len() as int),
                final(queue).removed(),
            ),
            runs_updated(
                *old(self),
                *final(self),
                templates_view(body@),
                target@,
                change,
                *old(state),
            ),
            final(queue).removed() == old(queue).removed() + runs_notes(
                old(self).iterations@,
                templates_view(body@),
                target@,
                change,
                *old(state),
                old(self).iterations.len() as int,
            ),
        decreases heights(templates_view(body@)), 3int,
    {
        let ghost views = templates_view(body@);
        let ghost fits = runs_conform(*self, views);
        proof {
            lemma_covered_same(
                runs_ids(self.iterations@, self.iterations.len() as int),
                queue.removed(),
            );
            assert(queue.removed() =~= old(queue).removed() + runs_notes(
                old(self).iterations@,
                views,
                target@,
                change,
                *old(state),
                0,
            ));
        }
        let mut k: usize = 0;
        while k < self.iterations.len()
            invariant
                k <= self.iterations.len(),
                self.next_index == old(self).next_index,
                forall|j: int|
                    0 <= j < self.iterations.len() && (j >= k || !is_prefix(
                        old(self).iterations[j].parent@,
                        target@,
                    )) ==> #[trigger] self.iterations[j] == old(self).iterations[j],
                forall|j: int|
                    0 <= j < k && is_prefix(old(self).iterations[j].parent@, target@)
                        ==> nodes_updated(
                        old(self).iterations[j],
                        #[trigger] self.iterations[j],
                        views,
                        target@,
                        change,
                        *old(state),
                    ),
                queue.removed() == old(queue).removed() + runs_notes(
                    old(self).iterations@,
                    views,
                    target@,
                    change,
                    *old(state),
                    k as int,
                ),
                self.iterations.len() == old(self).iterations.len(),
                old(queue).removed().is_prefix_of(queue.removed()),
                covered(
                    runs_ids(old(self).iterations@, old(self).iterations.len() as int),
                    runs_ids(self.iterations@, self.iterations.len() as int),
                    queue.removed(),
                ),
                views == templates_view(body@),
                fits ==> runs_conform(*self, views),
                loop_wf(*self, loop_id@),
                self.collection@ == old(self).collection@,
                self.binding@ == old(self).binding@,
                same_values(*old(state), *state),
                state.pending() == old(state).pending(),
                queue.dirty() == old(queue).dirty(),
            decreases self.iterations.len() - k,
        {
            if self.iterations[k].parent.contains(target) {
                let ghost before = self.iterations@;
                let ghost middle = *state;
                let ghost noted = queue.removed();
                let mut iteration = self.iterations.remove(k);
                assert(iteration == before[k as int]);
                iteration.update(body, target, change, state, queue);
                self.iterations.insert(k, iteration);
                proof {
                    assert(self.iterations@ =~= before.update(k as int, iteration));
                    assert(before[k as int] == old(self).iterations[k as int]);
                    lemma_nodes_updated_same(
                        before[k as int],
                        iteration,
                        views,
                        target@,
                        change,
                        *old(state),
                        middle,
                    );
                    lemma_nodes_notes_same(
                        before[k as int],
                        views,
                        target@,
                        change,
                        *old(state),
                        middle,
                    );
                    assert forall|j: int|
                        0 <= j < self.iterations.len() && (j >= k + 1 || !is_prefix(
                            old(self).iterations[j].parent@,
                            target@,
                        )) implies #[trigger] self.iterations[j] == old(self).iterations[j] by {
                        if j != k {
                            assert(self.iterations[j] == before[j]);
                        }
                    }
                    assert forall|j: int|
                        0 <= j < k + 1 && is_prefix(
                            old(self).iterations[j].parent@,
                            target@,
                        ) implies nodes_updated(
                        old(self).iterations[j],
                        #[trigger] self.iterations[j],
                        views,
                        target@,
                        change,
                        *old(state),
                    ) by {
                        if j != k {
                            assert(self.iterations[j] == before[j]);
                        }
                    }
                    assert(queue.removed() =~= old(queue).removed() + runs_notes(
                        old(self).iterations@,
                        views,
                        target@,
                        change,
                        *old(state),
                        k + 1,
                    ));
                    assert forall|j: int| 0 <= j < before.len() implies covered(
                        nodes_ids(#[trigger] before[j]),
                        run_ids_at(self.iterations@, j),
                        queue.removed(),
                    ) by {
                        if j != k {
                            lemma_covered_same(nodes_ids(before[j]), queue.removed());
                        }
                    }
                    lemma_runs_covered(
                        before,
                        self.iterations@,
                        before.len() as int,
                        queue.removed(),
                    );
                    lemma_covered_later(
                        runs_ids(old(self).iterations@, old(self).iterations.len() as int),
                        runs_ids(before, before.len() as int),
                        noted,
                        queue.removed(),
                    );
                    lemma_covered_chain(
                        runs_ids(old(self).iterations@, old(self).iterations.len() as int),
                        runs_ids(before, before.len() as int),
                        runs_ids(self.iterations@, self.iterations.len() as int),
                        queue.removed(),
                    );
                    lemma_same_values_chain(*old(state), middle, *state);
                    assert forall|j: int| 0 <= j < self.iterations.len() implies {
                        &&& (#[trigger] self.iterations[j]).parent@.len() == loop_id@.len() + 1
                        &&& self.iterations[j].parent@.drop_last() == loop_id@
                        &&& self.iterations[j].parent@.last() < self.next_index
                        &&& nodes_wf(self.iterations[j])
                        &&& lookup_spec(self.iterations[j].scope@, self.binding@) == element(
                            self.collection@,
                            j as usize,
                        )
                    } by {
                        if j != k {
                            assert(self.iterations[j] == before[j]);
                        } else {
                            assert(self.iterations[j].scope@ == before[j].scope@);
                        }
                    }
                    assert forall|a: int, b: int|
                        0 <= a < b < self.iterations.len() implies (
                    #[trigger] self.iterations[a]).parent@.last() != (
                    #[trigger] self.iterations[b]).parent@.last() by {
                        assert(self.iterations[a].parent@ == before[a].parent@);
                        assert(self.iterations[b].parent@ == before[b].parent@);
                    }
                    if fits {
                        assert forall|j: int|
                            0 <= j < self.iterations.len() implies nodes_conform(
                            #[trigger] self.iterations[j],
                            views,
                        ) by {
                            if j != k {
                                assert(self.iterations[j] == before[j]);
                            }
                        }
                    }
                }
            } else {
                assert(queue.removed() =~= old(queue).removed() + runs_notes(
                    old(self).iterations@,
                    views,
                    target@,
                    change,
                    *old(state),
                    k + 1,
                ));
            }
            k += 1;
        }
    }
}

impl IfElse {
    /// Takes in a change for `target`: the arm that is the target is
    /// evaluated anew, and an arm that the target lies under hands the
    /// change down. See [`chain_updated`](crate::updates::chain_updated)
    /// and [`chain_notes`](crate::updates::chain_notes).
    pub fn update<S: State>(
        &mut self,
        arms: &Vec<ControlFlow>,
        scope: &Scope,
        chain_id: &NodeId,
        target: &NodeId,
        change: Change,
        state: &mut S,
        queue: &mut DirtyQueue,
    )
        requires
            chain_wf(*old(self), chain_id@),
            scope@.len() > 0,
        ensures
            chain_wf(*final(self), chain_id@),
            final(self).arms.len() == old(self).arms.len(),
            same_values(*old(state), *final(state)),
            final(state).pending() == old(state).pending(),
            final(queue).dirty() == old(queue).dirty(),
            arms_conform(*old(self), arms_view(arms@)) ==> arms_conform(
                *final(self),
                arms_view(arms@),
            ),
            old(queue).removed().is_prefix_of(final(queue).removed()),
            covered(
                arms_ids(old(self).arms@, old(self).arms.len() as int),
                arms_ids(final(self).arms@, final(self).arms.len() as int),
                final(queue).removed(),
            ),
            chain_updated(
                *old(self),
                *final(self),
                arms_view(arms@),
                scope@,
                chain_id@,
                target@,
                change,
                *old(state),
            ),
            final(queue).removed() == old(queue).removed() + chain_notes(
                *old(self),
                arms_view(arms@),
                scope@,
                chain_id@,
                target@,
                change,
                *old(state),
            ),
        decreases arms_height(arms_view(arms@)), 3int,
    {
        let ghost views = arms_view(arms@);
        let ghost fits = arms_conform(*self, views);
        let ghost found = matching_arm(
            chain_id@,
            target@,
            crate::tree_laws::lesser(self.arms.len() as int, arms.len() as int),
        );
        proof {
            lemma_covered_same(arms_ids(self.arms@, self.arms.len() as int), queue.removed());
            assert(queue.removed() =~= old(queue).removed() + Seq::<Seq<usize>>::empty());
        }
        let mut j: usize = 0;
        while j < self.arms.len() && j < arms.len()
            invariant
                j <= self.arms.len(),
                j <= arms.len(),
                views.len() == arms.len(),
                found == matching_arm(
                    chain_id@,
                    target@,
                    crate::tree_laws::lesser(old(self).arms.len() as int, arms.len() as int),
                ),
                found is Some && found->Some_0 < j ==> chain_updated(
                    *old(self),
                    *self,
                    views,
                    scope@,
                    chain_id@,
                    target@,
                    change,
                    *old(state),
                ) && queue.removed() == old(queue).removed() + chain_notes(
                    *old(self),
                    views,
                    scope@,
                    chain_id@,
                    target@,
                    change,
                    *old(state),
                ),
                !(found is Some && found->Some_0 < j) ==> *self == *old(self) && queue.removed()
                    == old(queue).removed(),
                old(queue).removed().is_prefix_of(queue.removed()),
                covered(
                    arms_ids(old(self).arms@, old(self).arms.len() as int),
                    arms_ids(self.arms@, self.arms.len() as int),
                    queue.removed(),
                ),
                fits ==> arms_conform(*self, views),
                chain_wf(*self, chain_id@),
                self.arms.len() == old(self).arms.len(),
                views == arms_view(arms@),
                same_values(*old(state), *state),
                state.pending() == old(state).pending(),
                queue.dirty() == old(queue).dirty(),
            decreases self.arms.len() - j,
        {
            let ghost middle = *state;
            let ghost noted = queue.removed();
            let ghost chain = *self;
            let arm_id = chain_id.child(j);
            proof {
                if is_prefix(arm_id@, target@) {
                    crate::tree_laws::lemma_prefix_push(chain_id@, j, target@);
                    if target@.len() == chain_id@.len() + 1 {
                        assert(target@.subrange(0, target@.len() as int) =~= target@);
                    }
                } else if found == Some(j as int) {
                    lemma_prefix_pushed(chain_id@, j, target@);
                }
                if arm_id@ == target@ {
                    assert(target@.subrange(0, arm_id@.len() as int) =~= arm_id@);
                }
                crate::template::lemma_arm_view(arms[j as int].cond, arms[j as int].body);
                assert(views[j as int] == arms[j as int]@);
            }
            if arm_id.same(target) {
                self.refresh(arms, j, scope, chain_id, state, queue);
                proof {
                    assert(found == Some(j as int));
                    lemma_truth_same(
                        views[j as int].cond,
                        scope@,
                        *old(state),
                        middle,
                    );
                    assert(chain_updated(
                        *old(self),
                        *self,
                        views,
                        scope@,
                        chain_id@,
                        target@,
                        change,
                        *old(state),
                    ));
                    lemma_same_values_chain(*old(state), middle, *state);
                    lemma_choice_covers(chain, *self, chain_id@, noted, queue.removed());
                    lemma_covered_later(
                        arms_ids(old(self).arms@, old(self).arms.len() as int),
                        arms_ids(chain.arms@, chain.arms.len() as int),
                        noted,
                        queue.removed(),
                    );
                    lemma_covered_chain(
                        arms_ids(old(self).arms@, old(self).arms.len() as int),
                        arms_ids(chain.arms@, chain.arms.len() as int),
                        arms_ids(self.arms@, self.arms.len() as int),
                        queue.removed(),
                    );
                }
            } else if arm_id.contains(target) {
                let ghost before = self.arms@;
                let mut arm = self.arms.remove(j);
                proof {
                    assert(arm == before[j as int]);
                    lemma_arms_height(views, j as int);
                    crate::template::lemma_arm_view(arms[j as int].cond, arms[j as int].body);
                    assert(views[j as int] == arms[j as int]@);
                }
                let ghost was = arm.body.inner.len();
                arm.body.update(&arms[j].body, target, change, state, queue);
                self.arms.insert(j, arm);
                proof {
                    assert(self.arms@ =~= before.update(j as int, arm));
                    assert(truths(self.arms@) =~= truths(before));
                    assert(found == Some(j as int));
                    assert(before == old(self).arms@);
                    lemma_nodes_updated_same(
                        before[j as int].body,
                        arm.body,
                        views[j as int].body,
                        target@,
                        change,
                        *old(state),
                        middle,
                    );
                    lemma_nodes_notes_same(
                        before[j as int].body,
                        views[j as int].body,
                        target@,
                        change,
                        *old(state),
                        middle,
                    );
                    assert forall|i: int| 0 <= i < before.len() && i != j implies #[trigger] self.arms[i]
                        == old(self).arms[i] by {
                        assert(self.arms[i] == before[i]);
                    }
                    assert(chain_updated(
                        *old(self),
                        *self,
                        views,
                        scope@,
                        chain_id@,
                        target@,
                        change,
                        *old(state),
                    ));
                    assert forall|i: int| 0 <= i < before.len() implies (
                    #[trigger] before[i]).body.parent@ == self.arms@[i].body.parent@ && covered(
                        nodes_ids(before[i].body),
                        nodes_ids(self.arms@[i].body),
                        queue.removed(),
                    ) by {
                        if i != j {
                            lemma_covered_same(nodes_ids(before[i].body), queue.removed());
                        }
                    }
                    lemma_arms_covered(before, self.arms@, before.len() as int, queue.removed());
                    lemma_covered_later(
                        arms_ids(old(self).arms@, old(self).arms.len() as int),
                        arms_ids(before, before.len() as int),
                        noted,
                        queue.removed(),
                    );
                    lemma_covered_chain(
                        arms_ids(old(self).arms@, old(self).arms.len() as int),
                        arms_ids(before, before.len() as int),
                        arms_ids(self.arms@, self.arms.len() as int),
                        queue.removed(),
                    );
                    lemma_same_values_chain(*old(state), middle, *state);
                    assert forall|i: int| 0 <= i < self.arms.len() implies {
                        &&& (#[trigger] self.arms[i]).body.parent@ == chain_id@.push(i as usize)
                        &&& nodes_wf(self.arms[i].body)
                        &&& (active_arm(*self) != Some(i) ==> self.arms[i].body.inner.len() == 0)
                    } by {
                        if i != j {
                            assert(self.arms[i] == before[i]);
                        }
                    }
                    if fits {
                        assert forall|i: int| 0 <= i < self.arms.len() implies nodes_conform(
                            (#[trigger] self.arms[i]).body,
                            views[i].body,
                        ) by {
                            if i != j {
                                assert(self.arms[i] == before[i]);
                            }
                        }
                    }
                }
            }
            j += 1;
        }
    }
}

impl IfElse {
    /// Evaluates the arm at `index` anew. If another arm is shown after
    /// that, the nodes of the arm that was shown go, and are noted as
    /// removed in `queue`.
    pub fn refresh<S: State>(
        &mut self,
        arms: &Vec<ControlFlow>,
        index: usize,
        scope: &Scope,
        chain_id: &NodeId,
        state: &mut S,
        queue: &mut DirtyQueue,
    )
        requires
            chain_wf(*old(self), chain_id@),
            index < old(self).arms.len(),
            index < arms.len(),
        ensures
            chain_wf(*final(self), chain_id@),
            final(self).arms.len() == old(self).arms.len(),
            truths(final(self).arms@) == truths(old(self).arms@).update(
                index as int,
                arm_truth(arms[index as int].cond@, scope@, *old(state)),
            ),
            active_arm(*final(self)) == active_arm(*old(self)) ==> forall|j: int|
                0 <= j < final(self).arms.len() ==> same_body(
                    #[trigger] final(self).arms[j],
                    old(self).arms[j],
                ),
            forall|j: int|
                0 <= j < final(self).arms.len() ==> if active_arm(*final(self)) == Some(j) {
                    (#[trigger] final(self).arms[j]).body == old(self).arms[j].body
                } else {
                    final(self).arms[j].body.inner.len() == 0
                },
            same_values(*old(state), *final(state)),
            final(state).pending() == old(state).pending(),
            final(queue).dirty() == old(queue).dirty(),
            final(queue).removed() == old(queue).removed() + noted_by_choice(
                *old(self),
                active_arm(*final(self)),
            ),
            chain_refreshed(
                *old(self),
                *final(self),
                index as int,
                arm_truth(arms[index as int].cond@, scope@, *old(state)),
            ),
    {
        let ghost before = self.arms@;
        let ghost shown = active_arm(*self);
        let arm_id = chain_id.child(index);
        let truth = evaluate(&arms[index].cond, scope, state, &arm_id);
        let mut arm = self.arms.remove(index);
        arm.truth = truth;
        self.arms.insert(index, arm);
        assert(self.arms@ =~= before.update(index as int, arm));
        assert(truths(self.arms@) =~= truths(before).update(index as int, truth));
        proof {
            lemma_first_true(truths(before));
            lemma_first_true(truths(self.arms@));
        }
        let ghost changed = self.arms@;
        // Only the arm that is shown may have nodes.
        let mut flags: Vec<bool> = Vec::new();
        let mut j: usize = 0;
        while j < self.arms.len()
            invariant
                j <= self.arms.len(),
                flags@ == truths(self.arms@).take(j as int),
            decreases self.arms.len() - j,
        {
            flags.push(self.arms[j].truth);
            assert(truths(self.arms@).take(j + 1) =~= truths(self.arms@).take(j as int).push(
                self.arms@[j as int].truth,
            ));
            j += 1;
        }
        assert(truths(self.arms@).take(self.arms.len() as int) =~= truths(self.arms@));
        let active = select(&flags);
        let mut k: usize = 0;
        assert(queue.removed() =~= old(queue).removed() + noted_upto(
            before,
            shown,
            active_arm(*self),
            0,
        ));
        while k < self.arms.len()
            invariant
                k <= self.arms.len(),
                changed.len() == before.len(),
                forall|j: int|
                    0 <= j < self.arms.len() ==> (#[trigger] self.arms[j]).body.scope@
                        == before[j].body.scope@ && self.arms[j].body.parent@
                        == before[j].body.parent@,
                forall|j: int| 0 <= j < changed.len() ==> (#[trigger] changed[j]).body == before[j].body,
                forall|j: int|
                    0 <= j < before.len() && shown != Some(j) ==> (#[trigger] before[j]).body.inner.len()
                        == 0,
                queue.removed() == old(queue).removed() + noted_upto(
                    before,
                    shown,
                    active_arm(*self),
                    k as int,
                ),
                self.arms.len() == changed.len(),
                truths(self.arms@) == truths(changed),
                match active {
                    Some(a) => active_arm(*self) == Some(a as int),
                    None => active_arm(*self) is None,
                },
                forall|j: int|
                    0 <= j < self.arms.len() ==> {
                        &&& (#[trigger] self.arms[j]).body.parent@ == chain_id@.push(j as usize)
                        &&& nodes_wf(self.arms[j].body)
                        &&& (j < k && active_arm(*self) != Some(j) ==> self.arms[j].body.inner.len()
                            == 0)
                        &&& (j >= k || active_arm(*self) == Some(j) || changed[j].body.inner.len()
                            == 0 ==> self.arms[j] == changed[j])
                    },
                queue.dirty() == old(queue).dirty(),
            decreases self.arms.len() - k,
        {
            let shown_here = match active {
                Some(a) => a == k,
                None => false,
            };
            if !shown_here && self.arms[k].body.inner.len() > 0 {
                let ghost now = self.arms@;
                let ghost noted = queue.removed();
                let mut arm = self.arms.remove(k);
                let mut gone: Vec<Node> = Vec::new();
                std::mem::swap(&mut gone, &mut arm.body.inner);
                self.arms.insert(k, arm);
                assert(self.arms@ =~= now.update(k as int, arm));
                assert(truths(self.arms@) =~= truths(now));
                assert forall|j: int| 0 <= j < self.arms.len() implies (
                #[trigger] self.arms[j]).body.scope@ == before[j].body.scope@
                    && self.arms[j].body.parent@ == before[j].body.parent@ by {
                    if j != k {
                        assert(self.arms[j] == now[j]);
                    } else {
                        assert(arm.body.scope@ == now[k as int].body.scope@);
                        assert(arm.body.parent@ == now[k as int].body.parent@);
                    }
                }
                assert(gone@ == before[k as int].body.inner@) by {
                    assert(now[k as int] == changed[k as int]);
                }
                assert(shown == Some(k as int));
                assert(noted =~= old(queue).removed());
                let mut g: usize = 0;
                while g < gone.len()
                    invariant
                        g <= gone.len(),
                        queue.dirty() == old(queue).dirty(),
                        queue.removed() == noted + ids_forward(gone@).take(g as int),
                    decreases gone.len() - g,
                {
                    remove_node(queue, gone[g].node_id.duplicate());
                    assert(queue.removed() =~= noted + ids_forward(gone@).take(g + 1));
                    g += 1;
                }
                assert(ids_forward(gone@).take(gone.len() as int) =~= ids_forward(gone@));
            } else {
                proof {
                    if shown == Some(k as int) && !shown_here {
                        assert(self.arms[k as int] == changed[k as int]);
                        assert(ids_forward(before[k as int].body.inner@) =~= Seq::<
                            Seq<usize>,
                        >::empty());
                    }
                }
            }
            assert(queue.removed() =~= old(queue).removed() + noted_upto(
                before,
                shown,
                active_arm(*self),
                k + 1,
            ));
            k += 1;
        }
        proof {
            if active_arm(*self) == shown {
                assert forall|j: int| 0 <= j < self.arms.len() implies same_body(
                    #[trigger] self.arms[j],
                    before[j],
                ) by {
                    if j != index {
                        assert(changed[j] == before[j]);
                    }
                    if shown != Some(j) {
                        assert(before[j].body.inner.len() == 0);
                    }
                }
            }
        }
    }
}

impl Single {
    /// Resolves the text and the attributes of the widget anew, and marks
    /// the widget as dirty.
    pub fn refresh<S: State>(
        &mut self,
        attributes: &Attributes,
        text: &Option<crate::template::Text>,
        scope: &Scope,
        state: &mut S,
    )
        ensures
            final(self).children == old(self).children,
            final(self).widget.node_id == old(self).widget.node_id,
            final(self).widget.kind == old(self).widget.kind,
            final(self).widget.name == old(self).widget.name,
            final(self).widget.dirty,
            final(self).widget.text@ == text_spec(
                crate::template::text_view(*text),
                scope@,
                *old(state),
            ),
            attributes_view(final(self).widget.attributes@) == resolved_upto(
                attributes@,
                attributes@.len() as int,
                scope@,
                *old(state),
            ),
            refreshed(
                *old(self),
                *final(self),
                attributes@,
                crate::template::text_view(*text),
                scope@,
                *old(state),
            ),
            same_values(*old(state), *final(state)),
            final(state).pending() == old(state).pending(),
    {
        let ghost start = *state;
        let id = self.widget.node_id.duplicate();
        let shown = render_text(text, scope, state, Some(&id));
        let ghost middle = *state;
        let values = resolve_attributes(attributes, scope, state, &id);
        proof {
            lemma_same_values_chain(start, middle, *state);
            lemma_resolved_same(attributes@, attributes@.len() as int, scope@, start, middle);
        }
        self.widget.text = shown;
        self.widget.attributes = values;
        self.widget.dirty = true;
    }
}

/// A number of widgets as a `usize` holds it: the number itself, or the
/// greatest `usize` where it is greater.
pub open spec fn capped(n: nat) -> usize {
    if n <= usize::MAX {
        n as usize
    } else {
        usize::MAX
    }
}

impl Nodes {
    /// Counts the widgets in the tree; see [`nodes_count`].
    pub fn count(&self) -> (r: usize)
        ensures
            r == capped(nodes_count(*self)),
        decreases self, 1int,
    {
        let mut total: usize = 0;
        let mut i: usize = 0;
        while i < self.inner.len()
            invariant
                i <= self.inner.len(),
                total == capped(count_upto(self.inner@, i as int)),
            decreases self.inner.len() - i,
        {
            total = total.saturating_add(self.inner[i].count());
            i += 1;
        }
        total
    }

    /// Forgets every node, so that expansion starts from scratch; the
    /// nodes that go are noted as removed in `queue`.
    pub fn reset(&mut self, queue: &mut DirtyQueue)
        requires
            nodes_wf(*old(self)),
        ensures
            nodes_wf(*final(self)),
            final(self).inner.len() == 0,
            final(self).parent@ == old(self).parent@,
            final(self).scope@ == old(self).scope@,
            final(queue).dirty() == old(queue).dirty(),
            final(queue).removed() == old(queue).removed() + ids_backward(old(self).inner@),
            covered(nodes_ids(*old(self)), nodes_ids(*final(self)), final(queue).removed()),
    {
        while self.inner.len() > 0
            invariant
                self.parent@ == old(self).parent@,
                self.scope@ == old(self).scope@,
                self.scope@.len() > 0,
                queue.dirty() == old(queue).dirty(),
                self.inner.len() <= old(self).inner.len(),
                self.inner@ == old(self).inner@.take(self.inner.len() as int),
                queue.removed() == old(queue).removed() + ids_backward(old(self).inner@).take(
                    old(self).inner.len() - self.inner.len(),
                ),
            decreases self.inner.len(),
        {
            let gone = self.inner.pop().unwrap();
            remove_node(queue, gone.node_id);
            assert(self.inner@ =~= old(self).inner@.take(self.inner.len() as int));
            assert(queue.removed() =~= old(queue).removed() + ids_backward(old(self).inner@).take(
                old(self).inner.len() - self.inner.len(),
            ));
        }
        assert(ids_backward(old(self).inner@).take(old(self).inner.len() as int) =~= ids_backward(
            old(self).inner@,
        ));
        proof {
            lemma_reset_covers(*old(self), old(queue).removed(), queue.removed());
            assert(nodes_ids(*self) =~= Seq::<Seq<usize>>::empty());
        }
    }
}

impl Node {
    /// Counts the widgets that the node stands for; see [`node_count`].
    pub fn count(&self) -> (r: usize)
        ensures
            r == capped(node_count(*self)),
        decreases self, 0int,
    {
        match &self.kind {
            NodeKind::Single(s) => {
                let under = s.children.count();
                under.saturating_add(1)
            },
            NodeKind::Loop(l) => count_runs(&l.iterations),
            NodeKind::ControlFlow(cf) => {
                match cf.active() {
                    Some(a) => cf.arms[a].body.count(),
                    None => 0,
                }
            },
            NodeKind::View => 0,
        }
    }
}

fn count_runs(iterations: &Vec<Nodes>) -> (r: usize)
    ensures
        r == capped(runs_count(iterations@, iterations.len() as int)),
    decreases iterations, 2int,
{
    let mut total: usize = 0;
    let mut k: usize = 0;
    while k < iterations.len()
        invariant
            k <= iterations.len(),
            total == capped(runs_count(iterations@, k as int)),
        decreases iterations.len() - k,
    {
        total = total.saturating_add(iterations[k].count());
        k += 1;
    }
    total
}

impl IfElse {
    /// The arm that is shown: the first that is true.
    pub fn active(&self) -> (r: Option<usize>)
        ensures
            match r {
                Some(a) => active_arm(*self) == Some(a as int) && a < self.arms.len(),
                None => active_arm(*self) is None,
            },
    {
        let mut flags: Vec<bool> = Vec::new();
        let mut j: usize = 0;
        while j < self.arms.len()
            invariant
                j <= self.arms.len(),
                flags@ == truths(self.arms@).take(j as int),
            decreases self.arms.len() - j,
        {
            flags.push(self.arms[j].truth);
            assert(truths(self.arms@).take(j + 1) =~= truths(self.arms@).take(j as int).push(
                self.arms@[j as int].truth,
            ));
            j += 1;
        }
        assert(truths(self.arms@).take(self.arms.len() as int) =~= truths(self.arms@));
        proof {
            lemma_first_true(truths(self.arms@));
        }
        select(&flags)
    }
}

/// The number of widgets that a chain puts in its place.
pub open spec fn level_of_chain(cf: IfElse) -> nat {
    match active_arm(cf) {
        Some(a) => if 0 <= a < cf.arms.len() {
            nodes_level(cf.arms[a].body)
        } else {
            0
        },
        None => 0,
    }
}

/// Whether `name` is the kind of a node template among `templates` or
/// below them: in the children of a node, the body of a loop or an arm of
/// a chain.
pub open spec fn named(templates: Seq<Tpl>, name: Seq<char>) -> bool
    decreases templates, 1int,
{
    if templates.len() == 0 {
        false
    } else {
        named(templates.drop_last(), name) || tpl_named(templates.last(), name)
    }
}

/// Whether `name` is the kind of the template or of a node template below
/// it.
pub open spec fn tpl_named(template: Tpl, name: Seq<char>) -> bool
    decreases template, 0int,
{
    match template {
        Tpl::Node { ident, attributes, text, children } => ident == name || named(children, name),
        Tpl::Loop { binding, data, body } => named(body, name),
        Tpl::ControlFlow(arms) => arms_named(arms, name),
        Tpl::View(_) => false,
    }
}

/// Whether `name` is the kind of a node template in one of the arms.
pub open spec fn arms_named(arms: Seq<Arm>, name: Seq<char>) -> bool
    decreases arms, 1int,
{
    if arms.len() == 0 {
        false
    } else {
        arms_named(arms.drop_last(), name) || named(arms.last().body, name)
    }
}

/// A kind that the template at `i` names is named by the templates.
pub proof fn lemma_named(templates: Seq<Tpl>, i: int, name: Seq<char>)
    requires
        0 <= i < templates.len(),
    ensures
        tpl_named(templates[i], name) ==> named(templates, name),
    decreases templates.len(),
{
    if i < templates.len() - 1 {
        lemma_named(templates.drop_last(), i, name);
    }
}

/// A kind that the arm at `i` names is named by the arms.
pub proof fn lemma_arms_named(arms: Seq<Arm>, i: int, name: Seq<char>)
    requires
        0 <= i < arms.len(),
    ensures
        named(arms[i].body, name) ==> arms_named(arms, name),
    decreases arms.len(),
{
    if i < arms.len() - 1 {
        lemma_arms_named(arms.drop_last(), i, name);
    }
}

/// Every kind that the templates name is registered.
pub open spec fn known(templates: Seq<Tpl>, kinds: Seq<Seq<char>>) -> bool {
    forall|name: Seq<char>| #[trigger] named(templates, name) ==> kinds.contains(name)
}

/// Every kind that the template names is registered.
pub open spec fn tpl_known(template: Tpl, kinds: Seq<Seq<char>>) -> bool {
    forall|name: Seq<char>| #[trigger] tpl_named(template, name) ==> kinds.contains(name)
}

/// Every kind that the arms name is registered.
pub open spec fn arms_known(arms: Seq<Arm>, kinds: Seq<Seq<char>>) -> bool {
    forall|name: Seq<char>| #[trigger] arms_named(arms, name) ==> kinds.contains(name)
}

/// Every loop of the level and below it has numbers left for the body
/// instances that it still has to make.
pub open spec fn nodes_room(nodes: Nodes) -> bool
    decreases nodes,
{
    forall|i: int| 0 <= i < nodes.inner.len() ==> node_room(#[trigger] nodes.inner[i])
}

/// See [`nodes_room`].
pub open spec fn node_room(node: Node) -> bool
    decreases node,
{
    match node.kind {
        NodeKind::Single(s) => nodes_room(s.children),
        NodeKind::Loop(l) => loop_room(l),
        NodeKind::ControlFlow(cf) => chain_room(cf),
        NodeKind::View => true,
    }
}

/// The loop has a number left for each body instance that it still has to
/// make, and so has every loop below it.
pub open spec fn loop_room(l: LoopNode) -> bool
    decreases l,
{
    &&& l.next_index + run_len(l.collection@) - l.iterations.len() <= usize::MAX
    &&& forall|k: int| 0 <= k < l.iterations.len() ==> nodes_room(#[trigger] l.iterations[k])
}

/// See [`nodes_room`].
pub open spec fn chain_room(cf: IfElse) -> bool
    decreases cf,
{
    forall|j: int| 0 <= j < cf.arms.len() ==> nodes_room((#[trigger] cf.arms[j]).body)
}

/// Whether a step that failed with `e` failed where work was due: every
/// node in front of the place is done, and at the place
///
/// * a node template names a kind that is not registered, and `e` names
///   that kind; or
/// * a loop or a chain failed inside, see [`node_fails`]; or
/// * there are more nodes than templates, and `e` says that the nodes
///   are not those of the templates.
pub open spec fn level_fails(
    nodes: Nodes,
    templates: Seq<Tpl>,
    kinds: Seq<Seq<char>>,
    e: Error,
) -> bool
    decreases nodes, 0int,
{
    fails_from(nodes.inner@, templates, kinds, e, 0)
}

/// See [`level_fails`]: the nodes from the one at `i` on hold the place
/// where the step failed.
pub open spec fn fails_from(
    nodes: Seq<Node>,
    templates: Seq<Tpl>,
    kinds: Seq<Seq<char>>,
    e: Error,
    i: int,
) -> bool
    decreases nodes, nodes.len() - i,
{
    if 0 <= i < nodes.len() && i < templates.len() {
        node_fails(nodes[i], templates[i], kinds, e) || (node_done(nodes[i], templates[i])
            && fails_from(nodes, templates, kinds, e, i + 1))
    } else if nodes.len() > templates.len() {
        e is OptimizerInvariant
    } else if 0 <= i < templates.len() {
        templates[i] is Node && e is UnregisteredWidget && e->UnregisteredWidget_0@
            == templates[i]->Node_ident && !kinds.contains(templates[i]->Node_ident)
    } else {
        false
    }
}

/// Whether a step failed inside the node: in a body instance of a loop or
/// for want of a number for a new instance, or in the arm that a chain
/// shows.
pub open spec fn node_fails(node: Node, template: Tpl, kinds: Seq<Seq<char>>, e: Error) -> bool
    decreases node, 0int,
{
    match (node.kind, template) {
        (NodeKind::Loop(l), Tpl::Loop { binding, data, body }) => loop_fails(l, body, kinds, e),
        (NodeKind::ControlFlow(cf), Tpl::ControlFlow(arms)) => chain_fails(cf, arms, kinds, e),
        _ => false,
    }
}

/// Whether a step failed inside the loop; see [`runs_fail_from`].
pub open spec fn loop_fails(l: LoopNode, body: Seq<Tpl>, kinds: Seq<Seq<char>>, e: Error) -> bool
    decreases l, 0int,
{
    runs_fail_from(
        l.iterations@,
        body,
        kinds,
        e,
        run_len(l.collection@),
        l.next_index == usize::MAX,
        0,
    )
}

/// Whether a step failed in the body instances from the one at `k` on:
/// the instances in front of the place are done, and the instance at the
/// place failed; or every instance is done, an element has no instance
/// yet, and the loop has no number left for it.
pub open spec fn runs_fail_from(
    iterations: Seq<Nodes>,
    body: Seq<Tpl>,
    kinds: Seq<Seq<char>>,
    e: Error,
    len: nat,
    out_of_numbers: bool,
    k: int,
) -> bool
    decreases iterations, iterations.len() - k,
{
    if 0 <= k < iterations.len() {
        level_fails(iterations[k], body, kinds, e) || (nodes_done(iterations[k], body)
            && runs_fail_from(iterations, body, kinds, e, len, out_of_numbers, k + 1))
    } else {
        iterations.len() < len && out_of_numbers && e is TooManyNodes
    }
}

/// Whether a step failed in the arm that the chain shows.
pub open spec fn chain_fails(cf: IfElse, arms: Seq<Arm>, kinds: Seq<Seq<char>>, e: Error) -> bool
    decreases cf, 0int,
{
    match active_arm(cf) {
        Some(a) => 0 <= a < cf.arms.len() && a < arms.len() && level_fails(
            cf.arms[a].body,
            arms[a].body,
            kinds,
            e,
        ),
        None => false,
    }
}

/// Where the nodes in front of the one at `i` are done, a failure from
/// there on is a failure of the level.
pub proof fn lemma_fails_from(
    nodes: Seq<Node>,
    templates: Seq<Tpl>,
    kinds: Seq<Seq<char>>,
    e: Error,
    i: int,
)
    requires
        0 <= i <= nodes.len(),
        forall|j: int| 0 <= j < i && j < templates.len() ==> node_done(#[trigger] nodes[j], templates[j]),
        fails_from(nodes, templates, kinds, e, i),
    ensures
        fails_from(nodes, templates, kinds, e, 0),
    decreases i,
{
    if i > 0 {
        if i - 1 < templates.len() {
            assert(node_done(nodes[i - 1], templates[i - 1]));
            assert(fails_from(nodes, templates, kinds, e, i - 1));
        } else {
            assert(fails_from(nodes, templates, kinds, e, i - 1));
        }
        lemma_fails_from(nodes, templates, kinds, e, i - 1);
    }
}

/// Where the body instances in front of the one at `k` are done, a
/// failure from there on is a failure of the loop.
pub proof fn lemma_runs_fail_from(
    iterations: Seq<Nodes>,
    body: Seq<Tpl>,
    kinds: Seq<Seq<char>>,
    e: Error,
    len: nat,
    out_of_numbers: bool,
    k: int,
)
    requires
        0 <= k <= iterations.len(),
        forall|j: int| 0 <= j < k ==> nodes_done(#[trigger] iterations[j], body),
        runs_fail_from(iterations, body, kinds, e, len, out_of_numbers, k),
    ensures
        runs_fail_from(iterations, body, kinds, e, len, out_of_numbers, 0),
    decreases k,
{
    if k > 0 {
        assert(nodes_done(iterations[k - 1], body));
        assert(runs_fail_from(iterations, body, kinds, e, len, out_of_numbers, k - 1));
        lemma_runs_fail_from(iterations, body, kinds, e, len, out_of_numbers, k - 1);
    }
}

/// What a failed step says of the level: see [`level_fails`].
pub open spec fn failed_at(
    r: Option<Result<(), Error>>,
    nodes: Nodes,
    templates: Seq<Tpl>,
    kinds: Seq<Seq<char>>,
) -> bool {
    match r {
        Some(Err(e)) => level_fails(nodes, templates, kinds, e),
        _ => true,
    }
}

/// Every widget of the level and below it is named by a name that is
/// registered.
pub open spec fn nodes_registered(nodes: Nodes, kinds: Seq<Seq<char>>) -> bool
    decreases nodes,
{
    forall|i: int|
        0 <= i < nodes.inner.len() ==> node_registered(#[trigger] nodes.inner[i], kinds)
}

/// See [`nodes_registered`].
pub open spec fn node_registered(node: Node, kinds: Seq<Seq<char>>) -> bool
    decreases node,
{
    match node.kind {
        NodeKind::Single(s) => kinds.contains(s.widget.name@) && nodes_registered(
            s.children,
            kinds,
        ),
        NodeKind::Loop(l) => loop_registered(l, kinds),
        NodeKind::ControlFlow(cf) => chain_registered(cf, kinds),
        NodeKind::View => true,
    }
}

/// See [`nodes_registered`].
pub open spec fn loop_registered(l: LoopNode, kinds: Seq<Seq<char>>) -> bool
    decreases l,
{
    forall|k: int|
        0 <= k < l.iterations.len() ==> nodes_registered(#[trigger] l.iterations[k], kinds)
}

/// See [`nodes_registered`].
pub open spec fn chain_registered(cf: IfElse, kinds: Seq<Seq<char>>) -> bool
    decreases cf,
{
    forall|j: int|
        0 <= j < cf.arms.len() ==> nodes_registered((#[trigger] cf.arms[j]).body, kinds)
}

/// The body instances of a loop after a step, by their ids: the instances
/// that were there keep their ids, and each new instance has the id of
/// the loop with the next number of the loop behind it, one after the
/// other.
pub open spec fn numbered_on(before: LoopNode, after: LoopNode, id: Seq<usize>) -> bool {
    &&& before.iterations.len() <= after.iterations.len()
    &&& after.next_index == before.next_index + (after.iterations.len()
        - before.iterations.len())
    &&& forall|k: int|
        0 <= k < after.iterations.len() ==> (#[trigger] after.iterations[k]).parent@ == if k
            < before.iterations.len() {
            before.iterations[k].parent@
        } else {
            id.push((before.next_index + (k - before.iterations.len())) as usize)
        }
}

/// The kind that a failed step names as not registered.
pub open spec fn failed_name(r: Option<Result<(), Error>>) -> Seq<char> {
    match r {
        Some(Err(Error::UnregisteredWidget(name))) => name@,
        _ => Seq::empty(),
    }
}

/// Why a step fails. It names a kind as not registered only where the
/// kind is not among `kinds` and the templates name it, which `is_named`
/// says. It says that there are too many nodes only where a loop has run
/// out of numbers for its body instances, which `room` denies. And it
/// says that the nodes are not those of the templates only where they are
/// not, which `fits` denies.
pub open spec fn failure(
    r: Option<Result<(), Error>>,
    kinds: Seq<Seq<char>>,
    fits: bool,
    room: bool,
    is_named: bool,
) -> bool {
    match r {
        Some(Err(e)) => {
            ||| e is UnregisteredWidget && !kinds.contains(e->UnregisteredWidget_0@) && is_named
            ||| e is TooManyNodes && !room
            ||| e is OptimizerInvariant && !fits
        },
        _ => true,
    }
}

/// What a step leaves: a widget more where it made one, the same number
/// where it made none.
pub open spec fn stepped(before: nat, after: nat, r: Option<Result<(), Error>>) -> bool {
    match r {
        Some(Ok(())) => after == before + 1,
        _ => after == before,
    }
}

} // verus!
