//! A tree that is true to its templates: its nodes show what the templates
//! say under a state.
use vstd::prelude::*;
use crate::nodes::{
    arm_truth, collection_spec, lemma_resolved_same, lemma_truth_same, resolved_upto, IfElse,
    LoopNode, Node, NodeKind, Nodes,
};
use crate::path::PathView;
use crate::resolver::{same_values, text_spec};
use crate::scope::{element, Bound};
use crate::state::State;
use crate::template::{Arm, TextView, Tpl};
use crate::updates::lemma_pieces_same;
use crate::widget::attributes_view;

verus! {

/// The names that the body instance of an element sees: those of the
/// loop, and in a frame of its own the name of the loop bound to the
/// element.
pub open spec fn instance_frames(
    frames: Seq<Seq<(PathView, Bound)>>,
    binding: PathView,
    bound: Option<Bound>,
) -> Seq<Seq<(PathView, Bound)>> {
    match bound {
        Some(value) => frames.push(seq![(binding, value)]),
        None => frames.push(Seq::empty()),
    }
}

/// The nodes of the level are true to `templates` under `state`; see
/// [`node_true`].
pub open spec fn nodes_true<S: State>(nodes: Nodes, templates: Seq<Tpl>, state: S) -> bool
    decreases nodes,
{
    forall|i: int|
        0 <= i < nodes.inner.len() && i < templates.len() ==> node_true(
            #[trigger] nodes.inner[i],
            templates[i],
            nodes.scope@,
            state,
        )
}

/// The node shows what `template` says under `state`, seen from the names
/// `frames`:
///
/// * a widget has the text and the attributes that those of the template
///   resolve to, and its children see the names of the widget and are
///   true to the children of the template;
/// * a loop runs over the collection that the data of the template
///   resolves to, and the body instance at `k` sees the name of the loop
///   bound to the element at `k` and is true to the body;
/// * each arm of a chain is as true as its condition, and its nodes see
///   the names of the chain and are true to the body of the arm.
pub open spec fn node_true<S: State>(
    node: Node,
    template: Tpl,
    frames: Seq<Seq<(PathView, Bound)>>,
    state: S,
) -> bool
    decreases node,
{
    match (node.kind, template) {
        (NodeKind::Single(s), Tpl::Node { ident, attributes, text, children }) => {
            &&& s.widget.text@ == text_spec(text, frames, state)
            &&& attributes_view(s.widget.attributes@) == resolved_upto(
                attributes,
                attributes.len() as int,
                frames,
                state,
            )
            &&& s.children.scope@ == frames.push(Seq::empty())
            &&& nodes_true(s.children, children, state)
        },
        (NodeKind::Loop(l), Tpl::Loop { binding, data, body }) => {
            &&& l.collection@ == collection_spec(data, frames, state)
            &&& runs_bound(l, frames)
            &&& runs_true(l, body, state)
        },
        (NodeKind::ControlFlow(cf), Tpl::ControlFlow(arms)) => {
            &&& arms_tied(cf, arms, frames, state)
            &&& arms_true(cf, arms, state)
        },
        _ => true,
    }
}

/// Each body instance of the loop sees the names `frames` of the loop and
/// the name of the loop bound to its element.
pub open spec fn runs_bound(l: LoopNode, frames: Seq<Seq<(PathView, Bound)>>) -> bool {
    forall|k: int|
        0 <= k < l.iterations.len() ==> (#[trigger] l.iterations[k]).scope@ == instance_frames(
            frames,
            l.binding@,
            element(l.collection@, k as usize),
        )
}

/// Each body instance of the loop is true to `body`.
pub open spec fn runs_true<S: State>(l: LoopNode, body: Seq<Tpl>, state: S) -> bool
    decreases l,
{
    forall|k: int|
        0 <= k < l.iterations.len() ==> nodes_true(#[trigger] l.iterations[k], body, state)
}

/// Each arm of the chain is as true as its condition under `state`, and
/// its nodes see the names of the chain.
pub open spec fn arms_tied<S: State>(
    cf: IfElse,
    arms: Seq<Arm>,
    frames: Seq<Seq<(PathView, Bound)>>,
    state: S,
) -> bool {
    forall|j: int|
        0 <= j < cf.arms.len() && j < arms.len() ==> {
            &&& (#[trigger] cf.arms[j]).truth == arm_truth(arms[j].cond, frames, state)
            &&& cf.arms[j].body.scope@ == frames.push(Seq::empty())
        }
}

/// The nodes of each arm are true to the body of the arm.
pub open spec fn arms_true<S: State>(cf: IfElse, arms: Seq<Arm>, state: S) -> bool
    decreases cf,
{
    forall|j: int|
        0 <= j < cf.arms.len() && j < arms.len() ==> nodes_true(
            (#[trigger] cf.arms[j]).body,
            arms[j].body,
            state,
        )
}

/// A level is as true under one state as under another that holds the
/// same values.
pub proof fn lemma_nodes_true_same<S: State>(nodes: Nodes, templates: Seq<Tpl>, a: S, b: S)
    requires
        same_values(a, b),
    ensures
        nodes_true(nodes, templates, a) == nodes_true(nodes, templates, b),
    decreases nodes,
{
    assert forall|i: int| 0 <= i < nodes.inner.len() && i < templates.len() implies node_true(
        #[trigger] nodes.inner[i],
        templates[i],
        nodes.scope@,
        a,
    ) == node_true(nodes.inner[i], templates[i], nodes.scope@, b) by {
        lemma_node_true_same(nodes.inner[i], templates[i], nodes.scope@, a, b);
    }
}

/// See [`lemma_nodes_true_same`].
pub proof fn lemma_node_true_same<S: State>(
    node: Node,
    template: Tpl,
    frames: Seq<Seq<(PathView, Bound)>>,
    a: S,
    b: S,
)
    requires
        same_values(a, b),
    ensures
        node_true(node, template, frames, a) == node_true(node, template, frames, b),
    decreases node,
{
    match (node.kind, template) {
        (NodeKind::Single(s), Tpl::Node { ident, attributes, text, children }) => {
            lemma_resolved_same(attributes, attributes.len() as int, frames, a, b);
            match text {
                Some(TextView::Fragments(pieces)) => {
                    lemma_pieces_same(pieces, pieces.len() as int, frames, a, b);
                },
                _ => {},
            }
            lemma_nodes_true_same(s.children, children, a, b);
        },
        (NodeKind::Loop(l), Tpl::Loop { binding, data, body }) => {
            lemma_runs_true_same(l, body, a, b);
        },
        (NodeKind::ControlFlow(cf), Tpl::ControlFlow(arms)) => {
            lemma_arms_true_same(cf, arms, a, b);
            assert forall|j: int| 0 <= j < cf.arms.len() && j < arms.len() implies arm_truth(
                arms[j].cond,
                frames,
                a,
            ) == arm_truth(arms[j].cond, frames, b) by {
                lemma_truth_same(arms[j].cond, frames, a, b);
            }
            assert(arms_tied(cf, arms, frames, a) == arms_tied(cf, arms, frames, b));
        },
        _ => {},
    }
}

/// See [`lemma_nodes_true_same`].
pub proof fn lemma_runs_true_same<S: State>(l: LoopNode, body: Seq<Tpl>, a: S, b: S)
    requires
        same_values(a, b),
    ensures
        runs_true(l, body, a) == runs_true(l, body, b),
    decreases l,
{
    assert forall|k: int| 0 <= k < l.iterations.len() implies nodes_true(
        #[trigger] l.iterations[k],
        body,
        a,
    ) == nodes_true(l.iterations[k], body, b) by {
        lemma_nodes_true_same(l.iterations[k], body, a, b);
    }
}

/// See [`lemma_nodes_true_same`].
pub proof fn lemma_arms_true_same<S: State>(cf: IfElse, arms: Seq<Arm>, a: S, b: S)
    requires
        same_values(a, b),
    ensures
        arms_true(cf, arms, a) == arms_true(cf, arms, b),
    decreases cf,
{
    assert forall|j: int| 0 <= j < cf.arms.len() && j < arms.len() implies nodes_true(
        (#[trigger] cf.arms[j]).body,
        arms[j].body,
        a,
    ) == nodes_true(cf.arms[j].body, arms[j].body, b) by {
        lemma_nodes_true_same(cf.arms[j].body, arms[j].body, a, b);
    }
}

} // verus!
