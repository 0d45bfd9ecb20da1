//! What a change does to the tree of nodes: the tree after the change,
//! told from the tree before it, and what is noted as removed.
use vstd::prelude::*;
use crate::node_id::is_prefix;
use crate::nodes::{
    active_arm, arm_truth, collection_spec, first_true, lemma_resolved_same, lemma_truth_same,
    loop_moved, noted_by_change, noted_by_choice, resolved_upto,
    runs_backward, truths, IfElse, LoopNode, Node, NodeKind, Nodes, Single,
};
use crate::path::PathView;
use crate::resolver::{lemma_resolve_same, pieces_text, same_values, text_spec};
use crate::scope::{run_changed, run_len, Bound};
use crate::state::{Change, State};
use crate::template::{Arm, Piece, TextView, Tpl};
use crate::tree_laws::lesser;
use crate::value::Term;
use crate::widget::attributes_view;

verus! {

/// A widget after it took a change in: its text and its attributes are
/// resolved anew and it is marked dirty; all else is as it was.
pub open spec fn refreshed<S: State>(
    before: Single,
    after: Single,
    attributes: Seq<(Seq<char>, Term)>,
    text: Option<TextView>,
    frames: Seq<Seq<(PathView, Bound)>>,
    state: S,
) -> bool {
    &&& after.children == before.children
    &&& after.widget.node_id == before.widget.node_id
    &&& after.widget.kind == before.widget.kind
    &&& after.widget.name == before.widget.name
    &&& after.widget.display == before.widget.display
    &&& after.widget.padding == before.widget.padding
    &&& after.widget.pos == before.widget.pos
    &&& after.widget.size == before.widget.size
    &&& after.widget.dirty
    &&& after.widget.text@ == text_spec(text, frames, state)
    &&& attributes_view(after.widget.attributes@) == resolved_upto(
        attributes,
        attributes.len() as int,
        frames,
        state,
    )
}

/// A loop with the id `id` after it took a change of its collection in.
/// Where the collection was modified as a whole, it is read anew and no
/// body instance is left. Else the instances move with their elements;
/// see [`loop_moved`].
pub open spec fn loop_changed<S: State>(
    before: LoopNode,
    after: LoopNode,
    data: Term,
    id: Seq<usize>,
    frames: Seq<Seq<(PathView, Bound)>>,
    change: Change,
    state: S,
) -> bool {
    if change is Modified {
        &&& after.binding@ == before.binding@
        &&& after.next_index == before.next_index
        &&& after.collection@ == collection_spec(data, frames, state)
        &&& after.iterations.len() == 0
    } else {
        loop_moved(before, after, id, frames, change)
    }
}

/// A chain after the arm at `index` was evaluated anew and found to be
/// `truth`: the arm that is shown now keeps its nodes if it was shown
/// before, and every other arm is empty.
pub open spec fn chain_refreshed(before: IfElse, after: IfElse, index: int, truth: bool) -> bool {
    &&& after.arms.len() == before.arms.len()
    &&& truths(after.arms@) == truths(before.arms@).update(index, truth)
    &&& forall|j: int|
        0 <= j < after.arms.len() ==> {
            &&& (#[trigger] after.arms[j]).body.parent@ == before.arms[j].body.parent@
            &&& after.arms[j].body.scope@ == before.arms[j].body.scope@
            &&& if active_arm(after) == Some(j) {
                after.arms[j].body == before.arms[j].body
            } else {
                after.arms[j].body.inner.len() == 0
            }
        }
}

/// The arm of a chain with the id `id` that `target` is or lies under,
/// among the first `n` arms.
pub open spec fn matching_arm(id: Seq<usize>, target: Seq<usize>, n: int) -> Option<int> {
    if is_prefix(id, target) && target.len() > id.len() && target[id.len() as int] < n {
        Some(target[id.len() as int] as int)
    } else {
        None
    }
}

/// A level after a change for the node `target` was taken in: the nodes
/// that the target is or lies under took it in, see [`node_updated`]; the
/// others are as they were.
pub open spec fn nodes_updated<S: State>(
    before: Nodes,
    after: Nodes,
    templates: Seq<Tpl>,
    target: Seq<usize>,
    change: Change,
    state: S,
) -> bool
    decreases before,
{
    &&& after.parent@ == before.parent@
    &&& after.scope@ == before.scope@
    &&& after.inner.len() == before.inner.len()
    &&& forall|i: int|
        0 <= i < before.inner.len() ==> if i < templates.len() && is_prefix(
            before.inner[i].node_id@,
            target,
        ) {
            node_updated(
                before.inner[i],
                #[trigger] after.inner[i],
                templates[i],
                before.scope@,
                target,
                change,
                state,
            )
        } else {
            after.inner[i] == before.inner[i]
        }
}

/// A node after a change for the node `target` was taken in.
///
/// * A widget that is the target is refreshed, see [`refreshed`]; of
///   another widget the children took the change in.
/// * A loop that is the target took the change of its collection in, see
///   [`loop_changed`]; of another loop the body instances took it in.
/// * A chain took it in as [`chain_updated`] says.
/// * A node that is not the node of the template is as it was.
pub open spec fn node_updated<S: State>(
    before: Node,
    after: Node,
    template: Tpl,
    frames: Seq<Seq<(PathView, Bound)>>,
    target: Seq<usize>,
    change: Change,
    state: S,
) -> bool
    decreases before,
{
    &&& after.node_id@ == before.node_id@
    &&& match (before.kind, template) {
        (NodeKind::Single(s), Tpl::Node { ident, attributes, text, children }) => {
            &&& after.kind is Single
            &&& if before.node_id@ == target {
                refreshed(s, after.kind->Single_0, attributes, text, frames, state)
            } else {
                &&& after.kind->Single_0.widget == s.widget
                &&& nodes_updated(
                    s.children,
                    after.kind->Single_0.children,
                    children,
                    target,
                    change,
                    state,
                )
            }
        },
        (NodeKind::Loop(l), Tpl::Loop { binding, data, body }) => {
            &&& after.kind is Loop
            &&& if before.node_id@ == target {
                loop_changed(
                    l,
                    after.kind->Loop_0,
                    data,
                    before.node_id@,
                    frames,
                    change,
                    state,
                )
            } else {
                runs_updated(l, after.kind->Loop_0, body, target, change, state)
            }
        },
        (NodeKind::ControlFlow(cf), Tpl::ControlFlow(arms)) => {
            &&& after.kind is ControlFlow
            &&& chain_updated(
                cf,
                after.kind->ControlFlow_0,
                arms,
                frames,
                before.node_id@,
                target,
                change,
                state,
            )
        },
        _ => after == before,
    }
}

/// A loop after a change for a node under it was taken in: the body
/// instances that the target lies under took it in, the others are as
/// they were.
pub open spec fn runs_updated<S: State>(
    before: LoopNode,
    after: LoopNode,
    body: Seq<Tpl>,
    target: Seq<usize>,
    change: Change,
    state: S,
) -> bool
    decreases before,
{
    &&& after.collection@ == before.collection@
    &&& after.binding@ == before.binding@
    &&& after.next_index == before.next_index
    &&& after.iterations.len() == before.iterations.len()
    &&& forall|k: int|
        0 <= k < before.iterations.len() ==> if is_prefix(before.iterations[k].parent@, target) {
            nodes_updated(
                before.iterations[k],
                #[trigger] after.iterations[k],
                body,
                target,
                change,
                state,
            )
        } else {
            after.iterations[k] == before.iterations[k]
        }
}

/// A chain with the id `id` after a change for the node `target` was
/// taken in. Where the target is an arm of the chain, that arm was
/// evaluated anew, see [`chain_refreshed`]; where it lies under an arm,
/// the nodes of that arm took the change in; every other arm is as it
/// was.
pub open spec fn chain_updated<S: State>(
    before: IfElse,
    after: IfElse,
    arms: Seq<Arm>,
    frames: Seq<Seq<(PathView, Bound)>>,
    id: Seq<usize>,
    target: Seq<usize>,
    change: Change,
    state: S,
) -> bool
    decreases before,
{
    &&& after.arms.len() == before.arms.len()
    &&& match matching_arm(id, target, lesser(before.arms.len() as int, arms.len() as int)) {
        Some(m) => if 0 <= m < before.arms.len() && m < arms.len() {
            if target.len() == id.len() + 1 {
                chain_refreshed(before, after, m, arm_truth(arms[m].cond, frames, state))
            } else {
                &&& after.arms[m].truth == before.arms[m].truth
                &&& nodes_updated(
                    before.arms[m].body,
                    after.arms[m].body,
                    arms[m].body,
                    target,
                    change,
                    state,
                )
                &&& forall|j: int|
                    0 <= j < before.arms.len() && j != m ==> #[trigger] after.arms[j]
                        == before.arms[j]
            }
        } else {
            forall|j: int| 0 <= j < before.arms.len() ==> #[trigger] after.arms[j] == before.arms[j]
        },
        None => forall|j: int|
            0 <= j < before.arms.len() ==> #[trigger] after.arms[j] == before.arms[j],
    }
}

/// What a level notes as removed when a change for `target` is taken in:
/// what its nodes note, in order.
pub open spec fn nodes_notes<S: State>(
    nodes: Nodes,
    templates: Seq<Tpl>,
    target: Seq<usize>,
    change: Change,
    state: S,
) -> Seq<Seq<usize>>
    decreases nodes, 0int,
{
    level_notes(
        nodes.inner@,
        templates,
        nodes.scope@,
        target,
        change,
        state,
        lesser(nodes.inner.len() as int, templates.len() as int),
    )
}

/// What the first `n` nodes of a level note as removed.
pub open spec fn level_notes<S: State>(
    nodes: Seq<Node>,
    templates: Seq<Tpl>,
    frames: Seq<Seq<(PathView, Bound)>>,
    target: Seq<usize>,
    change: Change,
    state: S,
    n: int,
) -> Seq<Seq<usize>>
    decreases nodes, n,
{
    if n <= 0 || n > nodes.len() || n > templates.len() {
        Seq::empty()
    } else {
        level_notes(nodes, templates, frames, target, change, state, n - 1) + if is_prefix(
            nodes[n - 1].node_id@,
            target,
        ) {
            node_notes(nodes[n - 1], templates[n - 1], frames, target, change, state)
        } else {
            Seq::empty()
        }
    }
}

/// What a node notes as removed when a change for `target` is taken in:
/// a loop that is the target the body instances that go or are emptied,
/// a chain the nodes of the arm that is shown no longer, and every other
/// node what the nodes under it note.
pub open spec fn node_notes<S: State>(
    node: Node,
    template: Tpl,
    frames: Seq<Seq<(PathView, Bound)>>,
    target: Seq<usize>,
    change: Change,
    state: S,
) -> Seq<Seq<usize>>
    decreases node, 0int,
{
    match (node.kind, template) {
        (NodeKind::Single(s), Tpl::Node { ident, attributes, text, children }) => {
            if node.node_id@ == target {
                Seq::empty()
            } else {
                nodes_notes(s.children, children, target, change, state)
            }
        },
        (NodeKind::Loop(l), Tpl::Loop { binding, data, body }) => {
            if node.node_id@ == target {
                if change is Modified {
                    runs_backward(l.iterations@, 0)
                } else {
                    noted_by_change(
                        l.iterations@,
                        change,
                        run_len(run_changed(l.collection@, change)) as nat,
                        node.node_id@,
                        l.next_index,
                    )
                }
            } else {
                runs_notes(
                    l.iterations@,
                    body,
                    target,
                    change,
                    state,
                    l.iterations.len() as int,
                )
            }
        },
        (NodeKind::ControlFlow(cf), Tpl::ControlFlow(arms)) => chain_notes(
            cf,
            arms,
            frames,
            node.node_id@,
            target,
            change,
            state,
        ),
        _ => Seq::empty(),
    }
}

/// What the first `n` body instances of a loop note as removed.
pub open spec fn runs_notes<S: State>(
    iterations: Seq<Nodes>,
    body: Seq<Tpl>,
    target: Seq<usize>,
    change: Change,
    state: S,
    n: int,
) -> Seq<Seq<usize>>
    decreases iterations, n,
{
    if n <= 0 || n > iterations.len() {
        Seq::empty()
    } else {
        runs_notes(iterations, body, target, change, state, n - 1) + if is_prefix(
            iterations[n - 1].parent@,
            target,
        ) {
            nodes_notes(iterations[n - 1], body, target, change, state)
        } else {
            Seq::empty()
        }
    }
}

/// What a chain notes as removed: where an arm is evaluated anew, the
/// nodes of the arm that was shown if another is shown now; where the
/// target lies under an arm, what the nodes of that arm note.
pub open spec fn chain_notes<S: State>(
    cf: IfElse,
    arms: Seq<Arm>,
    frames: Seq<Seq<(PathView, Bound)>>,
    id: Seq<usize>,
    target: Seq<usize>,
    change: Change,
    state: S,
) -> Seq<Seq<usize>>
    decreases cf, 0int,
{
    match matching_arm(id, target, lesser(cf.arms.len() as int, arms.len() as int)) {
        Some(m) => if 0 <= m < cf.arms.len() && m < arms.len() {
            if target.len() == id.len() + 1 {
                noted_by_choice(
                    cf,
                    first_true(
                        truths(cf.arms@).update(m, arm_truth(arms[m].cond, frames, state)),
                    ),
                )
            } else {
                nodes_notes(cf.arms[m].body, arms[m].body, target, change, state)
            }
        } else {
            Seq::empty()
        },
        None => Seq::empty(),
    }
}

/// The pieces of a text read the same in two states that hold the same
/// values.
pub proof fn lemma_pieces_same<S: State>(
    pieces: Seq<Piece>,
    n: int,
    frames: Seq<Seq<(PathView, Bound)>>,
    a: S,
    b: S,
)
    requires
        same_values(a, b),
    ensures
        pieces_text(pieces, n, frames, a) == pieces_text(pieces, n, frames, b),
    decreases n,
{
    if 0 < n <= pieces.len() {
        lemma_pieces_same(pieces, n - 1, frames, a, b);
        match pieces[n - 1] {
            Piece::Data(term) => lemma_resolve_same(term, frames, a, b),
            _ => {},
        }
    }
}

/// What a change does to a level is the same in two states that hold the
/// same values.
pub proof fn lemma_nodes_updated_same<S: State>(
    before: Nodes,
    after: Nodes,
    templates: Seq<Tpl>,
    target: Seq<usize>,
    change: Change,
    a: S,
    b: S,
)
    requires
        same_values(a, b),
        nodes_updated(before, after, templates, target, change, b),
    ensures
        nodes_updated(before, after, templates, target, change, a),
    decreases before,
{
    assert forall|i: int| 0 <= i < before.inner.len() implies if i < templates.len() && is_prefix(
        before.inner[i].node_id@,
        target,
    ) {
        node_updated(
            before.inner[i],
            #[trigger] after.inner[i],
            templates[i],
            before.scope@,
            target,
            change,
            a,
        )
    } else {
        after.inner[i] == before.inner[i]
    } by {
        if i < templates.len() && is_prefix(before.inner[i].node_id@, target) {
            lemma_node_updated_same(
                before.inner[i],
                after.inner[i],
                templates[i],
                before.scope@,
                target,
                change,
                a,
                b,
            );
        }
    }
}

/// See [`lemma_nodes_updated_same`].
pub proof fn lemma_node_updated_same<S: State>(
    before: Node,
    after: Node,
    template: Tpl,
    frames: Seq<Seq<(PathView, Bound)>>,
    target: Seq<usize>,
    change: Change,
    a: S,
    b: S,
)
    requires
        same_values(a, b),
        node_updated(before, after, template, frames, target, change, b),
    ensures
        node_updated(before, after, template, frames, target, change, a),
    decreases before,
{
    match (before.kind, template) {
        (NodeKind::Single(s), Tpl::Node { ident, attributes, text, children }) => {
            if before.node_id@ == target {
                lemma_resolved_same(attributes, attributes.len() as int, frames, a, b);
                match text {
                    Some(TextView::Fragments(pieces)) => {
                        lemma_pieces_same(pieces, pieces.len() as int, frames, a, b);
                    },
                    _ => {},
                }
            } else {
                lemma_nodes_updated_same(
                    s.children,
                    after.kind->Single_0.children,
                    children,
                    target,
                    change,
                    a,
                    b,
                );
            }
        },
        (NodeKind::Loop(l), Tpl::Loop { binding, data, body }) => {
            if before.node_id@ == target {
            } else {
                lemma_runs_updated_same(l, after.kind->Loop_0, body, target, change, a, b);
            }
        },
        (NodeKind::ControlFlow(cf), Tpl::ControlFlow(arms)) => {
            lemma_chain_updated_same(
                cf,
                after.kind->ControlFlow_0,
                arms,
                frames,
                before.node_id@,
                target,
                change,
                a,
                b,
            );
        },
        _ => {},
    }
}

/// See [`lemma_nodes_updated_same`].
pub proof fn lemma_runs_updated_same<S: State>(
    before: LoopNode,
    after: LoopNode,
    body: Seq<Tpl>,
    target: Seq<usize>,
    change: Change,
    a: S,
    b: S,
)
    requires
        same_values(a, b),
        runs_updated(before, after, body, target, change, b),
    ensures
        runs_updated(before, after, body, target, change, a),
    decreases before,
{
    assert forall|k: int| 0 <= k < before.iterations.len() implies if is_prefix(
        before.iterations[k].parent@,
        target,
    ) {
        nodes_updated(
            before.iterations[k],
            #[trigger] after.iterations[k],
            body,
            target,
            change,
            a,
        )
    } else {
        after.iterations[k] == before.iterations[k]
    } by {
        if is_prefix(before.iterations[k].parent@, target) {
            lemma_nodes_updated_same(
                before.iterations[k],
                after.iterations[k],
                body,
                target,
                change,
                a,
                b,
            );
        }
    }
}

/// See [`lemma_nodes_updated_same`].
pub proof fn lemma_chain_updated_same<S: State>(
    before: IfElse,
    after: IfElse,
    arms: Seq<Arm>,
    frames: Seq<Seq<(PathView, Bound)>>,
    id: Seq<usize>,
    target: Seq<usize>,
    change: Change,
    a: S,
    b: S,
)
    requires
        same_values(a, b),
        chain_updated(before, after, arms, frames, id, target, change, b),
    ensures
        chain_updated(before, after, arms, frames, id, target, change, a),
    decreases before,
{
    match matching_arm(id, target, lesser(before.arms.len() as int, arms.len() as int)) {
        Some(m) => {
            if 0 <= m < before.arms.len() && m < arms.len() {
                if target.len() == id.len() + 1 {
                    lemma_truth_same(arms[m].cond, frames, a, b);
                } else {
                    lemma_nodes_updated_same(
                        before.arms[m].body,
                        after.arms[m].body,
                        arms[m].body,
                        target,
                        change,
                        a,
                        b,
                    );
                }
            }
        },
        None => {},
    }
}

/// What a level notes as removed is the same in two states that hold the
/// same values.
pub proof fn lemma_nodes_notes_same<S: State>(
    nodes: Nodes,
    templates: Seq<Tpl>,
    target: Seq<usize>,
    change: Change,
    a: S,
    b: S,
)
    requires
        same_values(a, b),
    ensures
        nodes_notes(nodes, templates, target, change, a) == nodes_notes(
            nodes,
            templates,
            target,
            change,
            b,
        ),
    decreases nodes, 0int,
{
    lemma_level_notes_same(
        nodes.inner@,
        templates,
        nodes.scope@,
        target,
        change,
        a,
        b,
        lesser(nodes.inner.len() as int, templates.len() as int),
    );
}

/// See [`lemma_nodes_notes_same`].
pub proof fn lemma_level_notes_same<S: State>(
    nodes: Seq<Node>,
    templates: Seq<Tpl>,
    frames: Seq<Seq<(PathView, Bound)>>,
    target: Seq<usize>,
    change: Change,
    a: S,
    b: S,
    n: int,
)
    requires
        same_values(a, b),
    ensures
        level_notes(nodes, templates, frames, target, change, a, n) == level_notes(
            nodes,
            templates,
            frames,
            target,
            change,
            b,
            n,
        ),
    decreases nodes, n,
{
    if !(n <= 0 || n > nodes.len() || n > templates.len()) {
        lemma_level_notes_same(nodes, templates, frames, target, change, a, b, n - 1);
        if is_prefix(nodes[n - 1].node_id@, target) {
            lemma_node_notes_same(nodes[n - 1], templates[n - 1], frames, target, change, a, b);
        }
    }
}

/// See [`lemma_nodes_notes_same`].
pub proof fn lemma_node_notes_same<S: State>(
    node: Node,
    template: Tpl,
    frames: Seq<Seq<(PathView, Bound)>>,
    target: Seq<usize>,
    change: Change,
    a: S,
    b: S,
)
    requires
        same_values(a, b),
    ensures
        node_notes(node, template, frames, target, change, a) == node_notes(
            node,
            template,
            frames,
            target,
            change,
            b,
        ),
    decreases node, 0int,
{
    match (node.kind, template) {
        (NodeKind::Single(s), Tpl::Node { ident, attributes, text, children }) => {
            if node.node_id@ != target {
                lemma_nodes_notes_same(s.children, children, target, change, a, b);
            }
        },
        (NodeKind::Loop(l), Tpl::Loop { binding, data, body }) => {
            if node.node_id@ != target {
                lemma_runs_notes_same(
                    l.iterations@,
                    body,
                    target,
                    change,
                    a,
                    b,
                    l.iterations.len() as int,
                );
            }
        },
        (NodeKind::ControlFlow(cf), Tpl::ControlFlow(arms)) => {
            match matching_arm(
                node.node_id@,
                target,
                lesser(cf.arms.len() as int, arms.len() as int),
            ) {
                Some(m) => {
                    if 0 <= m < cf.arms.len() && m < arms.len() {
                        if target.len() == node.node_id@.len() + 1 {
                            lemma_truth_same(arms[m].cond, frames, a, b);
                        } else {
                            lemma_nodes_notes_same(
                                cf.arms[m].body,
                                arms[m].body,
                                target,
                                change,
                                a,
                                b,
                            );
                        }
                    }
                },
                None => {},
            }
        },
        _ => {},
    }
}

/// See [`lemma_nodes_notes_same`].
pub proof fn lemma_runs_notes_same<S: State>(
    iterations: Seq<Nodes>,
    body: Seq<Tpl>,
    target: Seq<usize>,
    change: Change,
    a: S,
    b: S,
    n: int,
)
    requires
        same_values(a, b),
    ensures
        runs_notes(iterations, body, target, change, a, n) == runs_notes(
            iterations,
            body,
            target,
            change,
            b,
            n,
        ),
    decreases iterations, n,
{
    if !(n <= 0 || n > iterations.len()) {
        lemma_runs_notes_same(iterations, body, target, change, a, b, n - 1);
        if is_prefix(iterations[n - 1].parent@, target) {
            lemma_nodes_notes_same(iterations[n - 1], body, target, change, a, b);
        }
    }
}

/// An id that lies under `p` and goes on with `i` lies under `p` with
/// `i` behind it.
pub proof fn lemma_prefix_pushed(p: Seq<usize>, i: usize, x: Seq<usize>)
    requires
        is_prefix(p, x),
        x.len() > p.len(),
        x[p.len() as int] == i,
    ensures
        is_prefix(p.push(i), x),
{
    let q = p.push(i);
    assert(x.subrange(0, q.len() as int) =~= q) by {
        assert forall|k: int| 0 <= k < q.len() implies x[k] == q[k] by {
            if k < p.len() {
                assert(x.subrange(0, p.len() as int)[k] == p[k]);
            }
        }
    }
}

/// The levels `steps` and the notes `notes` tell how a level took the
/// changes `changes` in, one after the other: each level took the change
/// at its place in and became the next, see [`nodes_updated`], and what it
/// noted then as removed stands behind the notes before, see
/// [`nodes_notes`].
pub open spec fn chained<S: State>(
    steps: Seq<Nodes>,
    notes: Seq<Seq<Seq<usize>>>,
    templates: Seq<Tpl>,
    changes: Seq<(Seq<usize>, Change)>,
    state: S,
) -> bool {
    &&& steps.len() == changes.len() + 1
    &&& notes.len() == changes.len() + 1
    &&& forall|i: int|
        0 <= i < changes.len() ==> {
            &&& nodes_updated(
                #[trigger] steps[i],
                steps[i + 1],
                templates,
                changes[i].0,
                changes[i].1,
                state,
            )
            &&& notes[i + 1] == notes[i] + nodes_notes(
                steps[i],
                templates,
                changes[i].0,
                changes[i].1,
                state,
            )
        }
}

/// A level after the changes `changes` were taken in, one after the
/// other, and the notes of what was removed then: there is a chain of
/// levels from `before` to `after`, and of notes from `noted` to
/// `removed`, as [`chained`] says. With no change the level and the notes
/// are as they were.
pub open spec fn all_updated<S: State>(
    before: Nodes,
    after: Nodes,
    noted: Seq<Seq<usize>>,
    removed: Seq<Seq<usize>>,
    templates: Seq<Tpl>,
    changes: Seq<(Seq<usize>, Change)>,
    state: S,
) -> bool {
    exists|steps: Seq<Nodes>, notes: Seq<Seq<Seq<usize>>>|
        {
            &&& #[trigger] chained(steps, notes, templates, changes, state)
            &&& steps[0] == before
            &&& steps[changes.len() as int] == after
            &&& notes[0] == noted
            &&& notes[changes.len() as int] == removed
        }
}

/// A chain of levels and notes is a chain in every state that holds the
/// same values.
pub proof fn lemma_chained_same<S: State>(
    steps: Seq<Nodes>,
    notes: Seq<Seq<Seq<usize>>>,
    templates: Seq<Tpl>,
    changes: Seq<(Seq<usize>, Change)>,
    a: S,
    b: S,
)
    requires
        same_values(a, b),
        chained(steps, notes, templates, changes, b),
    ensures
        chained(steps, notes, templates, changes, a),
{
    assert forall|i: int| 0 <= i < changes.len() implies {
        &&& nodes_updated(
            #[trigger] steps[i],
            steps[i + 1],
            templates,
            changes[i].0,
            changes[i].1,
            a,
        )
        &&& notes[i + 1] == notes[i] + nodes_notes(
            steps[i],
            templates,
            changes[i].0,
            changes[i].1,
            a,
        )
    } by {
        lemma_nodes_updated_same(
            steps[i],
            steps[i + 1],
            templates,
            changes[i].0,
            changes[i].1,
            a,
            b,
        );
        lemma_nodes_notes_same(steps[i], templates, changes[i].0, changes[i].1, a, b);
    }
}

/// A level after the changes `changes` were taken in, one after the
/// other, whatever was noted as removed then; see [`all_updated`].
pub open spec fn taken_in<S: State>(
    before: Nodes,
    after: Nodes,
    templates: Seq<Tpl>,
    changes: Seq<(Seq<usize>, Change)>,
    state: S,
) -> bool {
    exists|steps: Seq<Nodes>, notes: Seq<Seq<Seq<usize>>>|
        {
            &&& #[trigger] chained(steps, notes, templates, changes, state)
            &&& steps[0] == before
            &&& steps[changes.len() as int] == after
        }
}

} // verus!
