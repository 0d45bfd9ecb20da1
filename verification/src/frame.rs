//! Expansion run to its end: a level, or the whole tree below it, within
//! a budget of widgets.
use vstd::prelude::*;
use crate::error::Error;
use crate::nodes::{
    arms_named, chain_room, failed_name, known, lemma_arms_named, lemma_named, loop_room, named,
    node_room, nodes_room, tpl_named, level_fails, chain_registered, loop_registered,
    node_registered, nodes_registered, active_arm, arms_conform, arms_height, chain_wf, failure, height, heights, lemma_arms_height,
    lemma_first_true, lemma_heights, loop_wf, node_conforms, node_done, node_wf, nodes_conform,
    nodes_done, nodes_level, nodes_wf, runs_conform, truths, IfElse, LoopNode,
    Node, NodeKind, Nodes,
};
use crate::faithful::{
    arms_true, lemma_node_true_same, lemma_nodes_true_same, node_true, nodes_true, runs_true,
};
use crate::resolver::{lemma_same_values_chain, same_values};
use crate::scope::{element, lookup_spec, run_len};
use crate::node_id::is_prefix;
use crate::path::PathView;
use crate::state::{dirties_view, ids_view, under_any, Change, Dirty, DirtyQueue, State};
use crate::updates::{
    all_updated, chained, lemma_chained_same, taken_in, lemma_nodes_notes_same, lemma_nodes_updated_same, nodes_notes,
    nodes_updated,
};
use crate::store::Store;
use crate::tree_laws::{
    covered, lemma_covered_chain, lemma_covered_later, lemma_covered_same,
    lemma_gone_node_is_released, nodes_ids,
};
use crate::template::{arms_view, templates_view, Arm, ControlFlow, Template, Tpl};
use crate::tree::{arms_shape, node_view, nodes_view, runs_view};
use crate::widget::Factory;

verus! {

impl Nodes {
    /// Makes steps until the level is done, or until `budget` widgets are
    /// made, or until a step fails. Each widget that is made takes one
    /// from the budget. Returns whether the level is done; `Ok(false)`
    /// says that the budget is used up, and no more.
    pub fn expand<S: State>(
        &mut self,
        templates: &Vec<Template>,
        state: &mut S,
        factory: &Factory,
        budget: &mut usize,
    ) -> (r: Result<bool, Error>)
        requires
            nodes_wf(*old(self)),
        ensures
            nodes_wf(*final(self)),
            final(self).parent@ == old(self).parent@,
            final(self).scope@ == old(self).scope@,
            same_values(*old(state), *final(state)),
            final(state).pending() == old(state).pending(),
            nodes_conform(*old(self), templates_view(templates@)) ==> nodes_conform(
                *final(self),
                templates_view(templates@),
            ),
            nodes_level(*final(self)) + *final(budget) == nodes_level(*old(self)) + *old(budget),
            *final(budget) <= *old(budget),
            match r {
                Ok(done) => if done {
                    nodes_done(*final(self), templates_view(templates@))
                } else {
                    *final(budget) == 0
                },
                Err(e) => failure(
                    Some(Err(e)),
                    factory@,
                    nodes_conform(*old(self), templates_view(templates@)),
                    nodes_room(*old(self)),
                    named(templates_view(templates@), failed_name(Some(Err(e)))),
                ) && level_fails(*final(self), templates_view(templates@), factory@, e),
            },
            nodes_room(*old(self)) ==> nodes_room(*final(self)),
            nodes_registered(*old(self), factory@) ==> nodes_registered(*final(self), factory@),
            nodes_conform(*old(self), templates_view(templates@)) && nodes_room(*old(self))
                && known(templates_view(templates@), factory@) ==> r is Ok,
            nodes_true(*old(self), templates_view(templates@), *old(state)) ==> nodes_true(
                *final(self),
                templates_view(templates@),
                *old(state),
            ),
            nodes_done(*old(self), templates_view(templates@)) && *old(budget) > 0 ==> r is Ok
                && r->Ok_0 && final(self)@ == old(self)@ && *final(budget) == *old(budget),
    {
        let ghost views = templates_view(templates@);
        let ghost fits = nodes_conform(*self, views);
        let ghost roomy = nodes_room(*self);
        let ghost listed = nodes_registered(*self, factory@);
        let ghost honest = nodes_true(*self, views, *state);
        let ghost finished = nodes_done(*self, views);
        while *budget > 0
            invariant
                nodes_wf(*self),
                self.parent@ == old(self).parent@,
                self.scope@ == old(self).scope@,
                same_values(*old(state), *state),
                state.pending() == old(state).pending(),
                views == templates_view(templates@),
                fits == nodes_conform(*old(self), views),
                fits ==> nodes_conform(*self, views),
                roomy == nodes_room(*old(self)),
                roomy ==> nodes_room(*self),
                listed == nodes_registered(*old(self), factory@),
                listed ==> nodes_registered(*self, factory@),
                honest == nodes_true(*old(self), views, *old(state)),
                honest ==> nodes_true(*self, views, *old(state)),
                finished == nodes_done(*old(self), views),
                finished ==> self@ == old(self)@ && *budget == *old(budget) && nodes_done(
                    *self,
                    views,
                ),
                nodes_level(*self) + *budget == nodes_level(*old(self)) + *old(budget),
                *budget <= *old(budget),
            decreases *budget,
        {
            let ghost middle = *state;
            let ghost before = *self;
            let step = self.next(templates, state, factory);
            proof {
                lemma_same_values_chain(*old(state), middle, *state);
                lemma_nodes_true_same(before, views, *old(state), middle);
                lemma_nodes_true_same(*self, views, *old(state), middle);
            }
            match step {
                Some(Ok(())) => {
                    *budget = *budget - 1;
                },
                Some(Err(e)) => {
                    return Err(e);
                },
                None => {
                    return Ok(true);
                },
            }
        }
        Ok(false)
    }
}

/// Everything is expanded: the level is done, and so is all that lies
/// below each of its nodes.
pub open spec fn tree_done(nodes: Nodes, templates: Seq<Tpl>) -> bool
    decreases nodes,
{
    &&& nodes.inner.len() == templates.len()
    &&& forall|i: int|
        0 <= i < nodes.inner.len() ==> node_tree_done(#[trigger] nodes.inner[i], templates[i])
}

/// All that lies below the node is expanded: the children of a widget,
/// every body instance of a loop, of which there is one for each element
/// of the collection, and the arm of a chain that is shown.
pub open spec fn node_tree_done(node: Node, template: Tpl) -> bool
    decreases node,
{
    match (node.kind, template) {
        (NodeKind::Single(s), Tpl::Node { ident, attributes, text, children }) => tree_done(
            s.children,
            children,
        ),
        (NodeKind::Loop(l), Tpl::Loop { binding, data, body }) => loop_tree_done(l, body),
        (NodeKind::ControlFlow(cf), Tpl::ControlFlow(arms)) => chain_tree_done(cf, arms),
        _ => true,
    }
}

pub open spec fn loop_tree_done(l: LoopNode, body: Seq<Tpl>) -> bool
    decreases l,
{
    &&& l.iterations.len() == run_len(l.collection@)
    &&& forall|k: int|
        0 <= k < l.iterations.len() ==> tree_done(#[trigger] l.iterations[k], body)
}

pub open spec fn chain_tree_done(cf: IfElse, arms: Seq<Arm>) -> bool
    decreases cf,
{
    match active_arm(cf) {
        Some(a) => 0 <= a < cf.arms.len() && a < arms.len() ==> tree_done(
            cf.arms[a].body,
            arms[a].body,
        ),
        None => true,
    }
}

/// A tree in which everything is expanded has a level that is done.
pub proof fn lemma_tree_done_level(nodes: Nodes, templates: Seq<Tpl>)
    requires
        tree_done(nodes, templates),
    ensures
        nodes_done(nodes, templates),
    decreases nodes,
{
    assert forall|i: int| 0 <= i < nodes.inner.len() implies node_done(
        #[trigger] nodes.inner[i],
        templates[i],
    ) by {
        lemma_node_tree_done_level(nodes.inner[i], templates[i]);
    }
}

/// A node below which everything is expanded is done.
pub proof fn lemma_node_tree_done_level(node: Node, template: Tpl)
    requires
        node_tree_done(node, template),
    ensures
        node_done(node, template),
    decreases node,
{
    match (node.kind, template) {
        (NodeKind::Loop(l), Tpl::Loop { binding, data, body }) => {
            assert forall|k: int| 0 <= k < l.iterations.len() implies nodes_done(
                #[trigger] l.iterations[k],
                body,
            ) by {
                lemma_tree_done_level(l.iterations[k], body);
            }
        },
        (NodeKind::ControlFlow(cf), Tpl::ControlFlow(arms)) => {
            match active_arm(cf) {
                Some(a) => {
                    if 0 <= a < cf.arms.len() && a < arms.len() {
                        lemma_tree_done_level(cf.arms[a].body, arms[a].body);
                    }
                },
                None => {},
            }
        },
        _ => {},
    }
}

/// Whether everything is expanded depends on what a tree holds, not on
/// how it is stored.
pub proof fn lemma_tree_done_same(a: Nodes, b: Nodes, templates: Seq<Tpl>)
    requires
        a@ == b@,
        tree_done(a, templates),
    ensures
        tree_done(b, templates),
    decreases a,
{
    assert(nodes_view(a).nodes.len() == a.inner.len());
    assert(nodes_view(b).nodes.len() == b.inner.len());
    assert(a.inner.len() == b.inner.len());
    assert forall|i: int| 0 <= i < b.inner.len() implies node_tree_done(
        #[trigger] b.inner[i],
        templates[i],
    ) by {
        assert(nodes_view(a).nodes[i] == node_view(a.inner[i]));
        assert(nodes_view(b).nodes[i] == node_view(b.inner[i]));
        assert(node_tree_done(a.inner[i], templates[i]));
        lemma_node_tree_done_same(a.inner[i], b.inner[i], templates[i]);
    }
}

/// See [`lemma_tree_done_same`].
pub proof fn lemma_node_tree_done_same(a: Node, b: Node, template: Tpl)
    requires
        a@ == b@,
        node_tree_done(a, template),
    ensures
        node_tree_done(b, template),
    decreases a,
{
    match (a.kind, b.kind, template) {
        (
            NodeKind::Single(x),
            NodeKind::Single(y),
            Tpl::Node { ident, attributes, text, children },
        ) => {
            lemma_tree_done_same(x.children, y.children, children);
        },
        (NodeKind::Loop(x), NodeKind::Loop(y), Tpl::Loop { binding, data, body }) => {
            assert(runs_view(x).len() == x.iterations.len());
            assert(runs_view(y).len() == y.iterations.len());
            assert forall|k: int| 0 <= k < y.iterations.len() implies tree_done(
                #[trigger] y.iterations[k],
                body,
            ) by {
                assert(runs_view(x)[k] == nodes_view(x.iterations[k]));
                assert(runs_view(y)[k] == nodes_view(y.iterations[k]));
                assert(tree_done(x.iterations[k], body));
                lemma_tree_done_same(x.iterations[k], y.iterations[k], body);
            }
        },
        (NodeKind::ControlFlow(x), NodeKind::ControlFlow(y), Tpl::ControlFlow(arms)) => {
            assert(arms_shape(x).len() == x.arms.len());
            assert(arms_shape(y).len() == y.arms.len());
            assert(truths(x.arms@) =~= truths(y.arms@)) by {
                assert forall|j: int| 0 <= j < x.arms.len() implies x.arms[j].truth
                    == y.arms[j].truth by {
                    assert(arms_shape(x)[j].truth == x.arms[j].truth);
                    assert(arms_shape(y)[j].truth == y.arms[j].truth);
                }
            }
            match active_arm(x) {
                Some(active) => {
                    if 0 <= active < x.arms.len() && active < arms.len() {
                        assert(arms_shape(x)[active].body == nodes_view(x.arms[active].body));
                        assert(arms_shape(y)[active].body == nodes_view(y.arms[active].body));
                        lemma_tree_done_same(
                            x.arms[active].body,
                            y.arms[active].body,
                            arms[active].body,
                        );
                    }
                },
                None => {},
            }
        },
        _ => {},
    }
}

/// Whether an expansion that failed with `e` failed where work was due:
/// at the level itself, see [`level_fails`]; or below the first of its
/// nodes below which not everything is expanded.
pub open spec fn tree_fails(
    nodes: Nodes,
    templates: Seq<Tpl>,
    kinds: Seq<Seq<char>>,
    e: Error,
) -> bool
    decreases nodes, 0int,
{
    level_fails(nodes, templates, kinds, e) || below_fails_from(
        nodes.inner@,
        templates,
        kinds,
        e,
        0,
    )
}

/// See [`tree_fails`]: the expansion failed below one of the nodes from
/// the one at `i` on, and everything is expanded below those in front of
/// it.
pub open spec fn below_fails_from(
    nodes: Seq<Node>,
    templates: Seq<Tpl>,
    kinds: Seq<Seq<char>>,
    e: Error,
    i: int,
) -> bool
    decreases nodes, nodes.len() - i,
{
    if 0 <= i < nodes.len() && i < templates.len() {
        node_below_fails(nodes[i], templates[i], kinds, e) || (node_tree_done(
            nodes[i],
            templates[i],
        ) && below_fails_from(nodes, templates, kinds, e, i + 1))
    } else {
        false
    }
}

/// Whether an expansion failed below the node: among the children of a
/// widget, in a body instance of a loop or in the arm that a chain shows.
pub open spec fn node_below_fails(
    node: Node,
    template: Tpl,
    kinds: Seq<Seq<char>>,
    e: Error,
) -> bool
    decreases node, 0int,
{
    match (node.kind, template) {
        (NodeKind::Single(s), Tpl::Node { ident, attributes, text, children }) => tree_fails(
            s.children,
            children,
            kinds,
            e,
        ),
        (NodeKind::Loop(l), Tpl::Loop { binding, data, body }) => runs_below_fail_from(
            l.iterations@,
            body,
            kinds,
            e,
            0,
        ),
        (NodeKind::ControlFlow(cf), Tpl::ControlFlow(arms)) => match active_arm(cf) {
            Some(a) => 0 <= a < cf.arms.len() && a < arms.len() && tree_fails(
                cf.arms[a].body,
                arms[a].body,
                kinds,
                e,
            ),
            None => false,
        },
        _ => false,
    }
}

/// Whether an expansion failed below one of the body instances from the
/// one at `k` on, everything being expanded below those in front of it.
pub open spec fn runs_below_fail_from(
    iterations: Seq<Nodes>,
    body: Seq<Tpl>,
    kinds: Seq<Seq<char>>,
    e: Error,
    k: int,
) -> bool
    decreases iterations, iterations.len() - k,
{
    if 0 <= k < iterations.len() {
        tree_fails(iterations[k], body, kinds, e) || (tree_done(iterations[k], body)
            && runs_below_fail_from(iterations, body, kinds, e, k + 1))
    } else {
        false
    }
}

/// Where everything is expanded below the nodes in front of the one at
/// `i`, a failure below a node from there on is a failure below the
/// level.
pub proof fn lemma_below_fails_from(
    nodes: Seq<Node>,
    templates: Seq<Tpl>,
    kinds: Seq<Seq<char>>,
    e: Error,
    i: int,
)
    requires
        0 <= i <= nodes.len(),
        i <= templates.len(),
        forall|j: int| 0 <= j < i ==> node_tree_done(#[trigger] nodes[j], templates[j]),
        below_fails_from(nodes, templates, kinds, e, i),
    ensures
        below_fails_from(nodes, templates, kinds, e, 0),
    decreases i,
{
    if i > 0 {
        assert(node_tree_done(nodes[i - 1], templates[i - 1]));
        assert(below_fails_from(nodes, templates, kinds, e, i - 1));
        lemma_below_fails_from(nodes, templates, kinds, e, i - 1);
    }
}

/// See [`lemma_below_fails_from`].
pub proof fn lemma_runs_below_fail_from(
    iterations: Seq<Nodes>,
    body: Seq<Tpl>,
    kinds: Seq<Seq<char>>,
    e: Error,
    k: int,
)
    requires
        0 <= k <= iterations.len(),
        forall|j: int| 0 <= j < k ==> tree_done(#[trigger] iterations[j], body),
        runs_below_fail_from(iterations, body, kinds, e, k),
    ensures
        runs_below_fail_from(iterations, body, kinds, e, 0),
    decreases k,
{
    if k > 0 {
        assert(tree_done(iterations[k - 1], body));
        assert(runs_below_fail_from(iterations, body, kinds, e, k - 1));
        lemma_runs_below_fail_from(iterations, body, kinds, e, k - 1);
    }
}

/// What a run of steps says of itself: that all is expanded, or that the
/// budget is used up, or why it failed.
pub open spec fn ran(
    r: Result<bool, Error>,
    done: bool,
    budget: usize,
    kinds: Seq<Seq<char>>,
    fits: bool,
    room: bool,
    is_named: bool,
) -> bool {
    match r {
        Ok(finished) => if finished {
            done
        } else {
            budget == 0
        },
        Err(e) => failure(Some(Err(e)), kinds, fits, room, is_named),
    }
}

/// The step that a failed run failed at.
pub open spec fn failed_step(r: Result<bool, Error>) -> Option<Result<(), Error>> {
    match r {
        Ok(_) => None,
        Err(e) => Some(Err(e)),
    }
}

impl Nodes {
    /// Expands the level and all that lies below it: the children of its
    /// widgets, and theirs. Stops when everything is expanded, when
    /// `budget` widgets are made, or when a step fails. Each widget that
    /// is made takes one from the budget. Returns whether everything is
    /// expanded.
    pub fn expand_tree<S: State>(
        &mut self,
        templates: &Vec<Template>,
        state: &mut S,
        factory: &Factory,
        budget: &mut usize,
    ) -> (r: Result<bool, Error>)
        requires
            nodes_wf(*old(self)),
        ensures
            nodes_wf(*final(self)),
            final(self).parent@ == old(self).parent@,
            final(self).scope@ == old(self).scope@,
            same_values(*old(state), *final(state)),
            final(state).pending() == old(state).pending(),
            nodes_conform(*old(self), templates_view(templates@)) ==> nodes_conform(
                *final(self),
                templates_view(templates@),
            ),
            *final(budget) <= *old(budget),
            ran(
                r,
                tree_done(*final(self), templates_view(templates@)),
                *final(budget),
                factory@,
                nodes_conform(*old(self), templates_view(templates@)),
                nodes_room(*old(self)),
                named(templates_view(templates@), failed_name(failed_step(r))),
            ),
            nodes_room(*old(self)) ==> nodes_room(*final(self)),
            nodes_registered(*old(self), factory@) ==> nodes_registered(*final(self), factory@),
            nodes_conform(*old(self), templates_view(templates@)) && nodes_room(*old(self))
                && known(templates_view(templates@), factory@) ==> r is Ok,
            nodes_true(*old(self), templates_view(templates@), *old(state)) ==> nodes_true(
                *final(self),
                templates_view(templates@),
                *old(state),
            ),
            r is Err ==> tree_fails(
                *final(self),
                templates_view(templates@),
                factory@,
                r->Err_0,
            ),
            tree_done(*old(self), templates_view(templates@)) && *old(budget) > 0 ==> r is Ok
                && r->Ok_0 && final(self)@ == old(self)@ && *final(budget) == *old(budget),
        decreases heights(templates_view(templates@)), 2int,
    {
        let ghost views = templates_view(templates@);
        let ghost fits = nodes_conform(*self, views);
        let ghost roomy = nodes_room(*self);
        let ghost listed = nodes_registered(*self, factory@);
        let ghost honest = nodes_true(*self, views, *state);
        let ghost finished = tree_done(*self, views) && *budget > 0;
        proof {
            if finished {
                lemma_tree_done_level(*self, views);
            }
        }
        match self.expand(templates, state, factory, budget) {
            Ok(true) => {},
            Ok(false) => {
                return Ok(false);
            },
            Err(e) => {
                return Err(e);
            },
        }
        proof {
            if finished {
                lemma_tree_done_same(*old(self), *self, views);
            }
        }
        let mut i: usize = 0;
        while i < self.inner.len()
            invariant
                i <= self.inner.len(),
                self.inner.len() == templates.len(),
                nodes_wf(*self),
                self.parent@ == old(self).parent@,
                self.scope@ == old(self).scope@,
                same_values(*old(state), *state),
                state.pending() == old(state).pending(),
                views == templates_view(templates@),
                fits == nodes_conform(*old(self), views),
                fits ==> nodes_conform(*self, views),
                roomy == nodes_room(*old(self)),
                roomy ==> nodes_room(*self),
                listed == nodes_registered(*old(self), factory@),
                listed ==> nodes_registered(*self, factory@),
                honest == nodes_true(*old(self), views, *old(state)),
                honest ==> nodes_true(*self, views, *old(state)),
                finished == (tree_done(*old(self), views) && *old(budget) > 0),
                finished ==> self@ == old(self)@ && *budget == *old(budget) && tree_done(
                    *self,
                    views,
                ),
                *budget <= *old(budget),
                forall|j: int|
                    i <= j < self.inner.len() ==> node_done(#[trigger] self.inner[j], views[j]),
                forall|j: int|
                    0 <= j < i ==> node_tree_done(#[trigger] self.inner[j], views[j]),
            decreases self.inner.len() - i,
        {
            let ghost before = self.inner@;
            let ghost middle = *state;
            let mut node = self.inner.remove(i);
            proof {
                lemma_heights(views, i as int);
                assert(views[i as int] == templates[i as int]@);
                assert(node == before[i as int]);
                assert(node_done(before[i as int], views[i as int]));
            }
            let r = node.expand_below(&templates[i], &self.scope, state, factory, budget);
            self.inner.insert(i, node);
            proof {
                lemma_named(views, i as int, failed_name(failed_step(r)));
                assert(self.inner@ =~= before.update(i as int, node));
                if r is Err {
                    let e = r->Err_0;
                    assert forall|j: int| 0 <= j < i implies node_tree_done(
                        #[trigger] self.inner@[j],
                        views[j],
                    ) by {
                        assert(self.inner@[j] == before[j]);
                    }
                    assert(below_fails_from(self.inner@, views, factory@, e, i as int));
                    lemma_below_fails_from(self.inner@, views, factory@, e, i as int);
                }
                assert(self.inner@ =~= before.update(i as int, node));
                lemma_same_values_chain(*old(state), middle, *state);
                assert forall|j: int| 0 <= j < self.inner.len() implies (
                #[trigger] self.inner[j]).node_id@ == self.parent@.push(j as usize) && node_wf(
                    self.inner[j],
                ) by {
                    if j != i {
                        assert(self.inner[j] == before[j]);
                    }
                }
                assert forall|j: int| i < j < self.inner.len() implies node_done(
                    #[trigger] self.inner[j],
                    views[j],
                ) by {
                    assert(self.inner[j] == before[j]);
                }
                assert forall|j: int| 0 <= j < i implies node_tree_done(
                    #[trigger] self.inner[j],
                    views[j],
                ) by {
                    assert(self.inner[j] == before[j]);
                }
                if fits {
                    assert forall|j: int| 0 <= j < self.inner.len() implies node_conforms(
                        #[trigger] self.inner[j],
                        views[j],
                    ) by {
                        if j != i {
                            assert(self.inner[j] == before[j]);
                        }
                    }
                }
                if roomy {
                    assert forall|j: int| 0 <= j < self.inner.len() implies node_room(
                        #[trigger] self.inner[j],
                    ) by {
                        if j != i {
                            assert(self.inner[j] == before[j]);
                        }
                    }
                }
                if listed {
                    assert forall|j: int| 0 <= j < self.inner.len() implies node_registered(
                        #[trigger] self.inner[j],
                        factory@,
                    ) by {
                        if j != i {
                            assert(self.inner[j] == before[j]);
                        }
                    }
                }
                lemma_node_true_same(before[i as int], views[i as int], self.scope@, *old(state), middle);
                lemma_node_true_same(node, views[i as int], self.scope@, *old(state), middle);
                if honest {
                    assert forall|j: int| 0 <= j < self.inner.len() && j < views.len() implies node_true(
#[trigger] self.inner[j],
views[j],
self.scope@,
*old(state),
) by {
                        if j != i {
                            assert(self.inner[j] == before[j]);
                        }
                    }
                }
                if finished {
                    assert(node_tree_done(before[i as int], views[i as int]));
                    assert forall|j: int| 0 <= j < self.inner.len() implies node_tree_done(
                        #[trigger] self.inner[j],
                        views[j],
                    ) by {
                        if j != i {
                            assert(self.inner[j] == before[j]);
                        }
                    }
                    assert(self@.nodes =~= old(self)@.nodes) by {
                        assert forall|j: int| 0 <= j < self.inner.len() implies node_view(
                            self.inner[j],
                        ) == node_view(before[j]) by {
                            if j != i {
                                assert(self.inner[j] == before[j]);
                            }
                        }
                    }
                }
            }
            match r {
                Ok(true) => {},
                Ok(false) => {
                    return Ok(false);
                },
                Err(e) => {
                    return Err(e);
                },
            }
            assert(self.inner[i as int] == node);
            i += 1;
        }
        Ok(true)
    }
}

impl Node {
    /// Expands all that lies below a node that is done itself.
    fn expand_below<S: State>(
        &mut self,
        template: &Template,
        scope: &crate::scope::Scope,
        state: &mut S,
        factory: &Factory,
        budget: &mut usize,
    ) -> (r: Result<bool, Error>)
        requires
            node_wf(*old(self)),
            node_done(*old(self), template@),
        ensures
            node_wf(*final(self)),
            final(self).node_id@ == old(self).node_id@,
            same_values(*old(state), *final(state)),
            final(state).pending() == old(state).pending(),
            node_conforms(*old(self), template@) ==> node_conforms(*final(self), template@),
            *final(budget) <= *old(budget),
            ran(
                r,
                node_tree_done(*final(self), template@),
                *final(budget),
                factory@,
                node_conforms(*old(self), template@),
                node_room(*old(self)),
                tpl_named(template@, failed_name(failed_step(r))),
            ),
            r is Err ==> node_below_fails(*final(self), template@, factory@, r->Err_0),
            node_room(*old(self)) ==> node_room(*final(self)),
            node_registered(*old(self), factory@) ==> node_registered(*final(self), factory@),
            node_true(*old(self), template@, scope@, *old(state)) ==> node_true(
                *final(self),
                template@,
                scope@,
                *old(state),
            ),
            node_tree_done(*old(self), template@) && *old(budget) > 0 ==> r is Ok && r->Ok_0
                && final(self)@ == old(self)@ && *final(budget) == *old(budget),
        decreases height(template@), 1int,
    {
        match (&mut self.kind, template) {
            (NodeKind::Single(single), Template::Node { ident, attributes, text, children }) => {
                proof {
                    crate::template::lemma_node_view(*ident, *attributes, *text, *children);
                }
                single.children.expand_tree(children, state, factory, budget)
            },
            (NodeKind::Loop(l), Template::Loop { binding, data, body }) => {
                proof {
                    crate::template::lemma_loop_view(*binding, *data, *body);
                }
                let ghost before = *l;
                let r = l.expand_below(body, &self.node_id, state, factory, budget);
                proof {
                    assert forall|k: int| 0 <= k < l.iterations.len() implies (
                    #[trigger] l.iterations[k]).scope@ == before.iterations[k].scope@ by {}
                }
                r
            },
            (NodeKind::ControlFlow(cf), Template::ControlFlow(arms)) => {
                proof {
                    crate::template::lemma_control_flow_view(*arms);
                }
                let ghost before = *cf;
                let r = cf.expand_below(arms, &self.node_id, state, factory, budget);
                proof {
                    assert forall|j: int| 0 <= j < cf.arms.len() implies (
                    #[trigger] cf.arms[j]).truth == before.arms[j].truth by {
                        assert(truths(cf.arms@)[j] == truths(before.arms@)[j]);
                    }
                }
                r
            },
            _ => Ok(true),
        }
    }
}

impl LoopNode {
    /// Expands all that lies below the body instances of a loop that is
    /// done itself.
    fn expand_below<S: State>(
        &mut self,
        body: &Vec<Template>,
        loop_id: &crate::node_id::NodeId,
        state: &mut S,
        factory: &Factory,
        budget: &mut usize,
    ) -> (r: Result<bool, Error>)
        requires
            loop_wf(*old(self), loop_id@),
            crate::nodes::loop_done(*old(self), templates_view(body@)),
        ensures
            loop_wf(*final(self), loop_id@),
            final(self).collection@ == old(self).collection@,
            final(self).binding@ == old(self).binding@,
            final(self).next_index == old(self).next_index,
            same_values(*old(state), *final(state)),
            final(state).pending() == old(state).pending(),
            runs_conform(*old(self), templates_view(body@)) ==> runs_conform(
                *final(self),
                templates_view(body@),
            ),
            *final(budget) <= *old(budget),
            ran(
                r,
                loop_tree_done(*final(self), templates_view(body@)),
                *final(budget),
                factory@,
                runs_conform(*old(self), templates_view(body@)),
                loop_room(*old(self)),
                named(templates_view(body@), failed_name(failed_step(r))),
            ),
            r is Err ==> runs_below_fail_from(
                final(self).iterations@,
                templates_view(body@),
                factory@,
                r->Err_0,
                0,
            ),
            loop_room(*old(self)) ==> loop_room(*final(self)),
            loop_registered(*old(self), factory@) ==> loop_registered(*final(self), factory@),
            runs_true(*old(self), templates_view(body@), *old(state)) ==> runs_true(
                *final(self),
                templates_view(body@),
                *old(state),
            ),
            final(self).iterations.len() == old(self).iterations.len(),
            forall|k: int|
                0 <= k < final(self).iterations.len() ==> (#[trigger] final(self).iterations[k]).scope@
                    == old(self).iterations[k].scope@,
            loop_tree_done(*old(self), templates_view(body@)) && *old(budget) > 0 ==> r is Ok
                && r->Ok_0 && runs_view(*final(self)) == runs_view(*old(self)) && *final(budget)
                == *old(budget),
        decreases heights(templates_view(body@)), 3int,
    {
        let ghost views = templates_view(body@);
        let ghost fits = runs_conform(*self, views);
        let ghost roomy = loop_room(*self);
        let ghost listed = loop_registered(*self, factory@);
        let ghost honest = runs_true(*self, views, *state);
        let ghost finished = loop_tree_done(*self, views) && *budget > 0;
        let mut k: usize = 0;
        while k < self.iterations.len()
            invariant
                k <= self.iterations.len(),
                loop_wf(*self, loop_id@),
                self.iterations.len() == run_len(self.collection@),
                self.iterations.len() == old(self).iterations.len(),
                forall|j: int|
                    0 <= j < self.iterations.len() ==> (#[trigger] self.iterations[j]).scope@
                        == old(self).iterations[j].scope@,
                views == templates_view(body@),
                self.collection@ == old(self).collection@,
                self.binding@ == old(self).binding@,
                self.next_index == old(self).next_index,
                same_values(*old(state), *state),
                state.pending() == old(state).pending(),
                fits == runs_conform(*old(self), views),
                fits ==> runs_conform(*self, views),
                roomy == loop_room(*old(self)),
                roomy ==> loop_room(*self),
                listed == loop_registered(*old(self), factory@),
                listed ==> loop_registered(*self, factory@),
                honest == runs_true(*old(self), views, *old(state)),
                honest ==> runs_true(*self, views, *old(state)),
                finished == (loop_tree_done(*old(self), views) && *old(budget) > 0),
                finished ==> runs_view(*self) == runs_view(*old(self)) && *budget == *old(budget)
                    && loop_tree_done(*self, views),
                *budget <= *old(budget),
                forall|j: int| 0 <= j < k ==> tree_done(#[trigger] self.iterations[j], views),
            decreases self.iterations.len() - k,
        {
            let ghost before = self.iterations@;
            let ghost middle = *state;
            let mut iteration = self.iterations.remove(k);
            assert(iteration == before[k as int]);
            let r = iteration.expand_tree(body, state, factory, budget);
            self.iterations.insert(k, iteration);
            proof {
                assert(self.iterations@ =~= before.update(k as int, iteration));
                if r is Err {
                    let e = r->Err_0;
                    assert forall|j: int| 0 <= j < k implies tree_done(
                        #[trigger] self.iterations@[j],
                        views,
                    ) by {
                        assert(self.iterations@[j] == before[j]);
                    }
                    assert(self.iterations@[k as int] == iteration);
                    assert(runs_below_fail_from(self.iterations@, views, factory@, e, k as int));
                    lemma_runs_below_fail_from(self.iterations@, views, factory@, e, k as int);
                }
                lemma_same_values_chain(*old(state), middle, *state);
                match r {
                    Ok(true) => {
                        lemma_tree_done_level(iteration, views);
                    },
                    _ => {},
                }
                assert forall|j: int| 0 <= j < self.iterations.len() implies {
                    &&& (#[trigger] self.iterations[j]).parent@.len() == loop_id@.len() + 1
                    &&& self.iterations[j].parent@.drop_last() == loop_id@
                    &&& self.iterations[j].parent@.last() < self.next_index
                    &&& nodes_wf(self.iterations[j])
                    &&& lookup_spec(self.iterations[j].scope@, self.binding@) == element(
                        self.collection@,
                        j as usize,
                    )
                } by {
                    if j != k {
                        assert(self.iterations[j] == before[j]);
                    } else {
                        assert(self.iterations[j].scope@ == before[j].scope@);
                    }
                }
                assert forall|a: int, b: int|
                    0 <= a < b < self.iterations.len() implies (
                #[trigger] self.iterations[a]).parent@.last() != (
                #[trigger] self.iterations[b]).parent@.last() by {
                    assert(self.iterations[a].parent@ == before[a].parent@);
                    assert(self.iterations[b].parent@ == before[b].parent@);
                }
                assert forall|j: int| 0 <= j < k implies tree_done(
                    #[trigger] self.iterations[j],
                    views,
                ) by {
                    assert(self.iterations[j] == before[j]);
                }
                if fits {
                    assert forall|j: int| 0 <= j < self.iterations.len() implies nodes_conform(
                        #[trigger] self.iterations[j],
                        views,
                    ) by {
                        if j != k {
                            assert(self.iterations[j] == before[j]);
                        }
                    }
                }
                if roomy {
                    assert forall|j: int| 0 <= j < self.iterations.len() implies nodes_room(
                        #[trigger] self.iterations[j],
                    ) by {
                        if j != k {
                            assert(self.iterations[j] == before[j]);
                        }
                    }
                }
                if listed {
                    assert forall|j: int| 0 <= j < self.iterations.len() implies nodes_registered(
                        #[trigger] self.iterations[j],
                        factory@,
                    ) by {
                        if j != k {
                            assert(self.iterations[j] == before[j]);
                        }
                    }
                }
                lemma_nodes_true_same(before[k as int], views, *old(state), middle);
                lemma_nodes_true_same(iteration, views, *old(state), middle);
                if honest {
                    assert forall|j: int| 0 <= j < self.iterations.len() implies nodes_true(
#[trigger] self.iterations[j],
views,
*old(state),
) by {
                        if j != k {
                            assert(self.iterations[j] == before[j]);
                        }
                    }
                }
                if finished {
                    assert(tree_done(before[k as int], views));
                    assert forall|j: int| 0 <= j < self.iterations.len() implies tree_done(
                        #[trigger] self.iterations[j],
                        views,
                    ) by {
                        if j != k {
                            assert(self.iterations[j] == before[j]);
                        }
                    }
                    assert(runs_view(*self) =~= runs_view(*old(self))) by {
                        assert forall|j: int| 0 <= j < self.iterations.len() implies nodes_view(
                            self.iterations[j],
                        ) == nodes_view(before[j]) by {
                            if j != k {
                                assert(self.iterations[j] == before[j]);
                            }
                        }
                    }
                }
            }
            match r {
                Ok(true) => {},
                Ok(false) => {
                    return Ok(false);
                },
                Err(e) => {
                    return Err(e);
                },
            }
            assert(self.iterations[k as int] == iteration);
            k += 1;
        }
        Ok(true)
    }
}

impl IfElse {
    /// Expands all that lies below the arm that the chain shows.
    fn expand_below<S: State>(
        &mut self,
        arms: &Vec<ControlFlow>,
        chain_id: &crate::node_id::NodeId,
        state: &mut S,
        factory: &Factory,
        budget: &mut usize,
    ) -> (r: Result<bool, Error>)
        requires
            chain_wf(*old(self), chain_id@),
        ensures
            chain_wf(*final(self), chain_id@),
            truths(final(self).arms@) == truths(old(self).arms@),
            same_values(*old(state), *final(state)),
            final(state).pending() == old(state).pending(),
            arms_conform(*old(self), arms_view(arms@)) ==> arms_conform(
                *final(self),
                arms_view(arms@),
            ),
            *final(budget) <= *old(budget),
            ran(
                r,
                chain_tree_done(*final(self), arms_view(arms@)),
                *final(budget),
                factory@,
                arms_conform(*old(self), arms_view(arms@)),
                chain_room(*old(self)),
                arms_named(arms_view(arms@), failed_name(failed_step(r))),
            ),
            r is Err ==> match active_arm(*final(self)) {
                Some(a) => 0 <= a < final(self).arms.len() && a < arms.len() && tree_fails(
                    final(self).arms[a].body,
                    arms_view(arms@)[a].body,
                    factory@,
                    r->Err_0,
                ),
                None => false,
            },
            chain_room(*old(self)) ==> chain_room(*final(self)),
            chain_registered(*old(self), factory@) ==> chain_registered(*final(self), factory@),
            arms_true(*old(self), arms_view(arms@), *old(state)) ==> arms_true(
                *final(self),
                arms_view(arms@),
                *old(state),
            ),
            final(self).arms.len() == old(self).arms.len(),
            forall|j: int|
                0 <= j < final(self).arms.len() ==> (#[trigger] final(self).arms[j]).body.scope@
                    == old(self).arms[j].body.scope@,
            chain_tree_done(*old(self), arms_view(arms@)) && *old(budget) > 0 ==> r is Ok
                && r->Ok_0 && arms_shape(*final(self)) == arms_shape(*old(self)) && *final(budget)
                == *old(budget),
        decreases arms_height(arms_view(arms@)), 3int,
    {
        let ghost views = arms_view(arms@);
        let ghost fits = arms_conform(*self, views);
        let ghost roomy = chain_room(*self);
        let ghost listed = chain_registered(*self, factory@);
        let ghost honest = arms_true(*self, views, *state);
        let active = match self.active() {
            Some(active) => active,
            None => {
                return Ok(true);
            },
        };
        proof {
            lemma_first_true(truths(self.arms@));
        }
        if active >= arms.len() {
            return Ok(true);
        }
        let ghost before = self.arms@;
        let mut arm = self.arms.remove(active);
        proof {
            assert(arm == before[active as int]);
            lemma_arms_height(views, active as int);
            crate::template::lemma_arm_view(arms[active as int].cond, arms[active as int].body);
            assert(views[active as int] == arms[active as int]@);
        }
        let r = arm.body.expand_tree(&arms[active].body, state, factory, budget);
        self.arms.insert(active, arm);
        proof {
            lemma_arms_named(views, active as int, failed_name(failed_step(r)));
            assert(self.arms@ =~= before.update(active as int, arm));
            assert(truths(self.arms@) =~= truths(before));
            assert forall|j: int| 0 <= j < self.arms.len() implies {
                &&& (#[trigger] self.arms[j]).body.parent@ == chain_id@.push(j as usize)
                &&& nodes_wf(self.arms[j].body)
                &&& (active_arm(*self) != Some(j) ==> self.arms[j].body.inner.len() == 0)
            } by {
                if j != active {
                    assert(self.arms[j] == before[j]);
                }
            }
            if fits {
                assert forall|j: int| 0 <= j < self.arms.len() implies nodes_conform(
                    (#[trigger] self.arms[j]).body,
                    views[j].body,
                ) by {
                    if j != active {
                        assert(self.arms[j] == before[j]);
                    }
                }
            }
            if roomy {
                assert forall|j: int| 0 <= j < self.arms.len() implies nodes_room(
                    (#[trigger] self.arms[j]).body,
                ) by {
                    if j != active {
                        assert(self.arms[j] == before[j]);
                    }
                }
            }
            if listed {
                assert forall|j: int| 0 <= j < self.arms.len() implies nodes_registered(
                    (#[trigger] self.arms[j]).body,
                    factory@,
                ) by {
                    if j != active {
                        assert(self.arms[j] == before[j]);
                    }
                }
            }
            if honest {
                assert forall|j: int| 0 <= j < self.arms.len() && j < views.len() implies nodes_true(
(#[trigger] self.arms[j]).body,
views[j].body,
*old(state),
) by {
                    if j != active {
                        assert(self.arms[j] == before[j]);
                    }
                }
            }
            if chain_tree_done(*old(self), views) && *old(budget) > 0 {
                assert(tree_done(before[active as int].body, views[active as int].body));
                assert(arms_shape(*self) =~= arms_shape(*old(self))) by {
                    assert forall|j: int| 0 <= j < self.arms.len() implies nodes_view(
                        self.arms[j].body,
                    ) == nodes_view(before[j].body) && self.arms[j].truth == before[j].truth by {
                        if j != active {
                            assert(self.arms[j] == before[j]);
                        }
                    }
                }
            }
        }
        r
    }
}

impl Nodes {
    /// Takes in the changes that were reported since the last frame, in
    /// the order in which they were reported. What goes from the tree is
    /// noted as removed in `queue`: every id that the tree held is still
    /// in it afterwards, or is covered by what the queue notes.
    /// What the level is afterwards, and what is noted, says
    /// [`all_updated`](crate::updates::all_updated).
    pub fn update_all<S: State>(
        &mut self,
        templates: &Vec<Template>,
        changes: &Vec<Dirty>,
        state: &mut S,
        queue: &mut DirtyQueue,
    )
        requires
            nodes_wf(*old(self)),
        ensures
            nodes_wf(*final(self)),
            final(self).parent@ == old(self).parent@,
            final(self).scope@ == old(self).scope@,
            final(self).inner.len() == old(self).inner.len(),
            same_values(*old(state), *final(state)),
            final(state).pending() == old(state).pending(),
            nodes_conform(*old(self), templates_view(templates@)) ==> nodes_conform(
                *final(self),
                templates_view(templates@),
            ),
            final(queue).dirty() == old(queue).dirty(),
            old(queue).removed().is_prefix_of(final(queue).removed()),
            covered(nodes_ids(*old(self)), nodes_ids(*final(self)), final(queue).removed()),
            changes.len() == 0 ==> *final(self) == *old(self) && final(queue).removed() == old(
                queue,
            ).removed(),
            all_updated(
                *old(self),
                *final(self),
                old(queue).removed(),
                final(queue).removed(),
                templates_view(templates@),
                dirties_view(changes@),
                *old(state),
            ),
    {
        let ghost views = templates_view(templates@);
        let ghost fits = nodes_conform(*self, views);
        let ghost all = dirties_view(changes@);
        let ghost mut steps = seq![*self];
        let ghost mut notes = seq![queue.removed()];
        proof {
            lemma_covered_same(nodes_ids(*self), queue.removed());
        }
        let mut i: usize = 0;
        while i < changes.len()
            invariant
                all == dirties_view(changes@),
                all.len() == changes.len(),
                chained(steps, notes, views, all.take(i as int), *old(state)),
                steps[0] == *old(self),
                steps[i as int] == *self,
                notes[0] == old(queue).removed(),
                notes[i as int] == queue.removed(),
                i <= changes.len(),
                nodes_wf(*self),
                self.parent@ == old(self).parent@,
                self.scope@ == old(self).scope@,
                self.inner.len() == old(self).inner.len(),
                same_values(*old(state), *state),
                state.pending() == old(state).pending(),
                views == templates_view(templates@),
                fits == nodes_conform(*old(self), views),
                fits ==> nodes_conform(*self, views),
                queue.dirty() == old(queue).dirty(),
                old(queue).removed().is_prefix_of(queue.removed()),
                covered(nodes_ids(*old(self)), nodes_ids(*self), queue.removed()),
                changes.len() == 0 ==> *self == *old(self) && queue.removed() == old(
                    queue,
                ).removed(),
            decreases changes.len() - i,
        {
            let ghost before = *self;
            let ghost middle = *state;
            let ghost noted = queue.removed();
            self.update(templates, &changes[i].node, changes[i].change, state, queue);
            proof {
                let ghost taken = all.take(i + 1);
                let ghost earlier = all.take(i as int);
                let ghost steps_before = steps;
                let ghost notes_before = notes;
                assert(all[i as int] == crate::state::dirty_view(changes[i as int]));
                assert(taken[i as int] == (changes[i as int].node@, changes[i as int].change));
                lemma_nodes_updated_same(
                    before,
                    *self,
                    views,
                    changes[i as int].node@,
                    changes[i as int].change,
                    *old(state),
                    middle,
                );
                lemma_nodes_notes_same(
                    before,
                    views,
                    changes[i as int].node@,
                    changes[i as int].change,
                    *old(state),
                    middle,
                );
                steps = steps.push(*self);
                notes = notes.push(queue.removed());
                assert forall|k: int| 0 <= k < taken.len() implies {
                    &&& nodes_updated(
                        #[trigger] steps[k],
                        steps[k + 1],
                        views,
                        taken[k].0,
                        taken[k].1,
                        *old(state),
                    )
                    &&& notes[k + 1] == notes[k] + nodes_notes(
                        steps[k],
                        views,
                        taken[k].0,
                        taken[k].1,
                        *old(state),
                    )
                } by {
                    if k < i {
                        assert(steps[k] == steps_before[k]);
                        assert(steps[k + 1] == steps_before[k + 1]);
                        assert(notes[k] == notes_before[k]);
                        assert(notes[k + 1] == notes_before[k + 1]);
                        assert(taken[k] == earlier[k]);
                    } else {
                        assert(steps[k] == before);
                        assert(steps[k + 1] == *self);
                        assert(notes[k] == noted);
                    }
                }
                assert(chained(steps, notes, views, taken, *old(state)));
                lemma_same_values_chain(*old(state), middle, *state);
                lemma_covered_later(
                    nodes_ids(*old(self)),
                    nodes_ids(before),
                    noted,
                    queue.removed(),
                );
                lemma_covered_chain(
                    nodes_ids(*old(self)),
                    nodes_ids(before),
                    nodes_ids(*self),
                    queue.removed(),
                );
            }
            i += 1;
        }
        assert(all.take(changes.len() as int) =~= all);
        assert(chained(steps, notes, views, all, *old(state)));
    }
}

/// What is covered by some notes is covered by these notes behind others.
pub proof fn lemma_covered_behind(
    before: Seq<Seq<usize>>,
    after: Seq<Seq<usize>>,
    removed: Seq<Seq<usize>>,
    earlier: Seq<Seq<usize>>,
)
    requires
        covered(before, after, removed),
    ensures
        covered(before, after, earlier + removed),
{
    let all = earlier + removed;
    assert forall|i: int| 0 <= i < before.len() implies after.contains(#[trigger] before[i])
        || under_any(all, before[i]) by {
        if !after.contains(before[i]) {
            let k = choose|k: int| 0 <= k < removed.len() && is_prefix(#[trigger] removed[k], before[i]);
            assert(all[earlier.len() + k] == removed[k]);
        }
    }
}

/// Begins a frame: takes the changes that the store has gathered into the
/// tree, in order, and releases what the nodes that went were subscribed
/// to. Afterwards no subscription is left of a node that went from the
/// tree, nor of a node under one.
pub fn begin_frame(nodes: &mut Nodes, templates: &Vec<Template>, store: &mut Store)
    requires
        nodes_wf(*old(nodes)),
    ensures
        nodes_wf(*final(nodes)),
        final(nodes).parent@ == old(nodes).parent@,
        final(nodes).scope@ == old(nodes).scope@,
        final(nodes).inner.len() == old(nodes).inner.len(),
        nodes_conform(*old(nodes), templates_view(templates@)) ==> nodes_conform(
            *final(nodes),
            templates_view(templates@),
        ),
        same_values(*old(store), *final(store)),
        final(store).removed() == Seq::<Seq<usize>>::empty(),
        final(store).dirty() == Seq::<(Seq<usize>, Change)>::empty(),
        taken_in(
            *old(nodes),
            *final(nodes),
            templates_view(templates@),
            old(store).dirty(),
            *old(store),
        ),
        forall|node: Seq<usize>, s: (PathView, Seq<usize>)|
            nodes_ids(*old(nodes)).contains(node) && !nodes_ids(*final(nodes)).contains(node)
                && #[trigger] final(store).readers().contains(s) ==> !#[trigger] is_prefix(
                node,
                s.1,
            ),
        old(store).dirty().len() == 0 ==> *final(nodes) == *old(nodes),
{
    let changes = store.drain_dirty_nodes();
    assert(changes@.len() == old(store).dirty().len()) by {
        assert(crate::state::dirties_view(changes@).len() == changes@.len());
    }
    let ghost drained = *store;
    let mut queue = DirtyQueue::new();
    nodes.update_all(templates, &changes, store, &mut queue);
    let ghost updated = *store;
    proof {
        assert(same_values(*old(store), drained));
        lemma_same_values_chain(*old(store), drained, updated);
        let views = templates_view(templates@);
        let all = crate::state::dirties_view(changes@);
        let (steps, notes) = choose|steps: Seq<Nodes>, notes: Seq<Seq<Seq<usize>>>|
            {
                &&& #[trigger] chained(steps, notes, views, all, drained)
                &&& steps[0] == *old(nodes)
                &&& steps[all.len() as int] == *nodes
                &&& notes[0] == Seq::<Seq<usize>>::empty()
                &&& notes[all.len() as int] == queue.removed()
            };
        lemma_chained_same(steps, notes, views, all, *old(store), drained);
        assert(updated.pending() == drained.pending());
        assert(updated.dirty() == Seq::<(Seq<usize>, Change)>::empty());
        assert(taken_in(*old(nodes), *nodes, views, old(store).dirty(), *old(store)));
    }
    let ghost noted = queue.removed();
    assert(noted =~= Seq::<Seq<usize>>::empty() + noted);
    let removed = queue.drain_removed();
    let ghost earlier = store.removed();
    let ghost data = store.data();
    let mut i: usize = 0;
    while i < removed.len()
        invariant
            i <= removed.len(),
            ids_view(removed@) == noted,
            store.removed() == earlier + noted.take(i as int),
            store.data() == data,
            data == updated.data(),
            store.dirty() == Seq::<(Seq<usize>, Change)>::empty(),
        decreases removed.len() - i,
    {
        store.remove_node(removed[i].duplicate());
        assert(store.removed() =~= earlier + noted.take(i + 1)) by {
            assert(ids_view(removed@)[i as int] == removed[i as int]@);
        }
        i += 1;
    }
    assert(noted.take(removed.len() as int) =~= noted);
    let ghost readers = store.readers();
    store.release_removed();
    proof {
        assert(same_values(updated, *store));
        lemma_same_values_chain(*old(store), updated, *store);
        lemma_covered_behind(nodes_ids(*old(nodes)), nodes_ids(*nodes), noted, earlier);
        assert forall|node: Seq<usize>, s: (PathView, Seq<usize>)|
            nodes_ids(*old(nodes)).contains(node) && !nodes_ids(*nodes).contains(node)
                && #[trigger] store.readers().contains(s) implies !#[trigger] is_prefix(
            node,
            s.1,
        ) by {
            lemma_gone_node_is_released(
                nodes_ids(*old(nodes)),
                nodes_ids(*nodes),
                earlier + noted,
                readers,
                node,
            );
        }
    }
}

} // verus!
