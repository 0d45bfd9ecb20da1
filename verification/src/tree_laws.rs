//! What holds of every well formed tree of nodes.
use vstd::prelude::*;
use vstd::seq_lib::lemma_no_dup_in_concat;
use crate::node_id::is_prefix;
use crate::nodes::{
    active_arm, chain_wf, ids_backward, ids_forward, lemma_first_true, loop_done, loop_moved,
    loop_wf, node_wf, nodes_wf, noted_by_change, noted_by_choice, noted_by_move, origins,
    parent_of, placed, runs_backward, truths, ArmNode, IfElse, LoopNode, Node, NodeKind, Nodes,
    Origin,
};
use crate::scope::Bound;
use crate::state::Change;
use crate::scope::{element, lookup_spec, run_len};
use crate::path::PathView;
use crate::state::{lemma_release, release, under_any};
use crate::template::Tpl;

verus! {

/// The ids in a node: its own, and those under it.
pub open spec fn node_ids(node: Node) -> Seq<Seq<usize>>
    decreases node, 0int,
{
    seq![node.node_id@] + match node.kind {
        NodeKind::Single(s) => nodes_ids(s.children),
        NodeKind::Loop(l) => runs_ids(l.iterations@, l.iterations.len() as int),
        NodeKind::ControlFlow(cf) => arms_ids(cf.arms@, cf.arms.len() as int),
        NodeKind::View => Seq::empty(),
    }
}

/// The ids in the first `n` of `nodes`.
pub open spec fn ids_upto(nodes: Seq<Node>, n: int) -> Seq<Seq<usize>>
    decreases nodes, n,
{
    if n <= 0 || n > nodes.len() {
        Seq::empty()
    } else {
        ids_upto(nodes, n - 1) + node_ids(nodes[n - 1])
    }
}

/// The ids in the first `n` body instances.
pub open spec fn runs_ids(iterations: Seq<Nodes>, n: int) -> Seq<Seq<usize>>
    decreases iterations, n,
{
    if n <= 0 || n > iterations.len() {
        Seq::empty()
    } else {
        runs_ids(iterations, n - 1) + nodes_ids(iterations[n - 1])
    }
}

/// The ids in the first `n` arms: of each arm its own, under which its
/// condition is read, and those of its nodes.
pub open spec fn arms_ids(arms: Seq<ArmNode>, n: int) -> Seq<Seq<usize>>
    decreases arms, n,
{
    if n <= 0 || n > arms.len() {
        Seq::empty()
    } else {
        arms_ids(arms, n - 1) + (seq![arms[n - 1].body.parent@] + nodes_ids(arms[n - 1].body))
    }
}

/// The ids of all the nodes of a level, and of all that is under them.
pub open spec fn nodes_ids(nodes: Nodes) -> Seq<Seq<usize>>
    decreases nodes, 0int,
{
    ids_upto(nodes.inner@, nodes.inner.len() as int)
}

/// Every id in `ids` is that of a node under `p`.
pub open spec fn below(ids: Seq<Seq<usize>>, p: Seq<usize>) -> bool {
    forall|i: int| 0 <= i < ids.len() ==> is_prefix(p, #[trigger] ids[i]) && ids[i].len() > p.len()
}

/// Every id in `ids` is that of the node `p` or of a node under it.
pub open spec fn within(ids: Seq<Seq<usize>>, p: Seq<usize>) -> bool {
    forall|i: int| 0 <= i < ids.len() ==> is_prefix(p, #[trigger] ids[i])
}

/// An id that lies under `p` with `i` behind it lies under `p` and goes
/// on with `i`.
pub proof fn lemma_prefix_push(p: Seq<usize>, i: usize, x: Seq<usize>)
    requires
        is_prefix(p.push(i), x),
    ensures
        is_prefix(p, x),
        x.len() > p.len(),
        x[p.len() as int] == i,
{
    let q = p.push(i);
    assert(x.subrange(0, q.len() as int)[p.len() as int] == q[p.len() as int]);
    assert(x.subrange(0, p.len() as int) =~= p) by {
        assert forall|k: int| 0 <= k < p.len() implies x[k] == p[k] by {
            assert(x.subrange(0, q.len() as int)[k] == q[k]);
        }
    }
}

proof fn lemma_within_below(ids: Seq<Seq<usize>>, p: Seq<usize>, i: usize)
    requires
        within(ids, p.push(i)),
    ensures
        below(ids, p),
        forall|k: int| 0 <= k < ids.len() ==> (#[trigger] ids[k])[p.len() as int] == i,
{
    assert forall|k: int| 0 <= k < ids.len() implies is_prefix(p, #[trigger] ids[k])
        && ids[k].len() > p.len() && ids[k][p.len() as int] == i by {
        lemma_prefix_push(p, i, ids[k]);
    }
}

proof fn lemma_below_within(ids: Seq<Seq<usize>>, p: Seq<usize>)
    requires
        below(ids, p),
    ensures
        within(seq![p] + ids, p),
        ids.no_duplicates() ==> (seq![p] + ids).no_duplicates(),
{
    let all = seq![p] + ids;
    assert(p.subrange(0, p.len() as int) =~= p);
    assert forall|i: int| 0 <= i < all.len() implies is_prefix(p, #[trigger] all[i]) by {
        if i > 0 {
            assert(all[i] == ids[i - 1]);
        }
    }
    if ids.no_duplicates() {
        assert(seq![p].no_duplicates());
        assert forall|i: int, j: int| 0 <= i < 1 && 0 <= j < ids.len() implies seq![p][i]
            != ids[j] by {
            assert(ids[j].len() > p.len());
        }
        lemma_no_dup_in_concat(seq![p], ids);
    }
}

/// In a well formed node no id stands twice, and all ids are that of the
/// node or lie under it.
pub proof fn lemma_node_ids(node: Node)
    requires
        node_wf(node),
    ensures
        within(node_ids(node), node.node_id@),
        node_ids(node).no_duplicates(),
    decreases node, 0int,
{
    let id = node.node_id@;
    match node.kind {
        NodeKind::Single(s) => {
            lemma_nodes_ids(s.children);
            lemma_below_within(nodes_ids(s.children), id);
        },
        NodeKind::Loop(l) => {
            lemma_runs_ids(l, id, l.iterations.len() as int);
            lemma_below_within(runs_ids(l.iterations@, l.iterations.len() as int), id);
        },
        NodeKind::ControlFlow(cf) => {
            lemma_arms_ids(cf, id, cf.arms.len() as int);
            lemma_below_within(arms_ids(cf.arms@, cf.arms.len() as int), id);
        },
        NodeKind::View => {
            lemma_below_within(Seq::empty(), id);
        },
    }
}

proof fn lemma_ids_upto(nodes: Nodes, n: int)
    requires
        nodes_wf(nodes),
        0 <= n <= nodes.inner.len(),
    ensures
        below(ids_upto(nodes.inner@, n), nodes.parent@),
        ids_upto(nodes.inner@, n).no_duplicates(),
        forall|k: int|
            0 <= k < ids_upto(nodes.inner@, n).len() ==> (#[trigger] ids_upto(
                nodes.inner@,
                n,
            )[k])[nodes.parent@.len() as int] < n,
    decreases nodes, n,
{
    let p = nodes.parent@;
    if n > 0 {
        let front = ids_upto(nodes.inner@, n - 1);
        let node = nodes.inner[n - 1];
        let last = node_ids(node);
        lemma_ids_upto(nodes, n - 1);
        lemma_node_ids(node);
        assert(node.node_id@ == p.push((n - 1) as usize));
        lemma_within_below(last, p, (n - 1) as usize);
        assert forall|i: int, j: int| 0 <= i < front.len() && 0 <= j < last.len() implies front[i]
            != last[j] by {
            assert(front[i][p.len() as int] < n - 1);
            assert(last[j][p.len() as int] == n - 1);
        }
        lemma_no_dup_in_concat(front, last);
        let all = front + last;
        assert forall|k: int| 0 <= k < all.len() implies is_prefix(p, #[trigger] all[k])
            && all[k].len() > p.len() && all[k][p.len() as int] < n by {
            if k < front.len() {
                assert(all[k] == front[k]);
            } else {
                assert(all[k] == last[k - front.len()]);
            }
        }
    }
}

/// In a well formed level no id stands twice, and all ids lie under the
/// parent of the level.
pub proof fn lemma_nodes_ids(nodes: Nodes)
    requires
        nodes_wf(nodes),
    ensures
        below(nodes_ids(nodes), nodes.parent@),
        nodes_ids(nodes).no_duplicates(),
    decreases nodes, nodes.inner.len() + 1,
{
    lemma_ids_upto(nodes, nodes.inner.len() as int);
}

proof fn lemma_runs_ids(l: LoopNode, id: Seq<usize>, n: int)
    requires
        loop_wf(l, id),
        0 <= n <= l.iterations.len(),
    ensures
        below(runs_ids(l.iterations@, n), id),
        runs_ids(l.iterations@, n).no_duplicates(),
        forall|k: int, later: int|
            0 <= k < runs_ids(l.iterations@, n).len() && n <= later < l.iterations.len() ==> (
            #[trigger] runs_ids(l.iterations@, n)[k])[id.len() as int] != (
            #[trigger] l.iterations[later]).parent@.last(),
    decreases l, n,
{
    if n > 0 {
        let front = runs_ids(l.iterations@, n - 1);
        let run = l.iterations[n - 1];
        let last = nodes_ids(run);
        lemma_runs_ids(l, id, n - 1);
        lemma_nodes_ids(run);
        let number = run.parent@.last();
        assert(run.parent@ =~= id.push(number));
        assert forall|j: int| 0 <= j < last.len() implies is_prefix(id, #[trigger] last[j])
            && last[j].len() > id.len() && last[j][id.len() as int] == number by {
            lemma_prefix_push(id, number, last[j]);
        }
        assert forall|i: int, j: int| 0 <= i < front.len() && 0 <= j < last.len() implies front[i]
            != last[j] by {
            assert(front[i][id.len() as int] != l.iterations[n - 1].parent@.last());
        }
        lemma_no_dup_in_concat(front, last);
        let all = front + last;
        assert forall|k: int| 0 <= k < all.len() implies is_prefix(id, #[trigger] all[k])
            && all[k].len() > id.len() by {
            if k < front.len() {
                assert(all[k] == front[k]);
            } else {
                assert(all[k] == last[k - front.len()]);
            }
        }
        assert forall|k: int, later: int|
            0 <= k < all.len() && n <= later < l.iterations.len() implies (
        #[trigger] all[k])[id.len() as int] != (#[trigger] l.iterations[later]).parent@.last() by {
            if k < front.len() {
                assert(all[k] == front[k]);
            } else {
                assert(all[k] == last[k - front.len()]);
                assert(l.iterations[n - 1].parent@.last() != l.iterations[later].parent@.last());
            }
        }
    }
}

proof fn lemma_arms_ids(cf: IfElse, id: Seq<usize>, n: int)
    requires
        chain_wf(cf, id),
        0 <= n <= cf.arms.len(),
    ensures
        below(arms_ids(cf.arms@, n), id),
        arms_ids(cf.arms@, n).no_duplicates(),
        forall|k: int|
            0 <= k < arms_ids(cf.arms@, n).len() ==> (#[trigger] arms_ids(
                cf.arms@,
                n,
            )[k])[id.len() as int] < n,
    decreases cf, n,
{
    if n > 0 {
        let front = arms_ids(cf.arms@, n - 1);
        let arm = cf.arms[n - 1];
        let arm_id = arm.body.parent@;
        let last = seq![arm_id] + nodes_ids(arm.body);
        lemma_arms_ids(cf, id, n - 1);
        lemma_nodes_ids(arm.body);
        lemma_below_within(nodes_ids(arm.body), arm_id);
        assert(arm_id == id.push((n - 1) as usize));
        lemma_within_below(last, id, (n - 1) as usize);
        assert forall|i: int, j: int| 0 <= i < front.len() && 0 <= j < last.len() implies front[i]
            != last[j] by {
            assert(front[i][id.len() as int] < n - 1);
            assert(last[j][id.len() as int] == n - 1);
        }
        lemma_no_dup_in_concat(front, last);
        let all = front + last;
        assert forall|k: int| 0 <= k < all.len() implies is_prefix(id, #[trigger] all[k])
            && all[k].len() > id.len() && all[k][id.len() as int] < n by {
            if k < front.len() {
                assert(all[k] == front[k]);
            } else {
                assert(all[k] == last[k - front.len()]);
            }
        }
    }
}

/// No two nodes of a well formed tree have the same id.
pub proof fn lemma_node_ids_are_unique(nodes: Nodes)
    requires
        nodes_wf(nodes),
    ensures
        nodes_ids(nodes).no_duplicates(),
{
    lemma_nodes_ids(nodes);
}

/// A loop that is done has one body instance for each element of its
/// collection, and in the instance at `k` the name of the loop is bound to
/// the element at `k`.
pub proof fn lemma_loop_length(l: LoopNode, id: Seq<usize>, body: Seq<Tpl>)
    requires
        loop_wf(l, id),
        loop_done(l, body),
    ensures
        l.iterations.len() == run_len(l.collection@),
        forall|k: int|
            0 <= k < l.iterations.len() ==> lookup_spec(
                (#[trigger] l.iterations[k]).scope@,
                l.binding@,
            ) == element(l.collection@, k as usize),
{
}

/// In a chain at most one arm has nodes: the first arm that is true, if
/// one is. No two arms are shown at once.
pub proof fn lemma_one_arm_is_shown(cf: IfElse, id: Seq<usize>)
    requires
        chain_wf(cf, id),
    ensures
        forall|i: int, j: int|
            0 <= i < cf.arms.len() && 0 <= j < cf.arms.len() && (
            #[trigger] cf.arms[i]).body.inner.len() > 0 && (#[trigger] cf.arms[j]).body.inner.len()
                > 0 ==> i == j,
        forall|i: int|
            0 <= i < cf.arms.len() && (#[trigger] cf.arms[i]).body.inner.len() > 0 ==> cf.arms[i].truth
                && forall|j: int| 0 <= j < i ==> !cf.arms[j].truth,
{
    lemma_first_true(truths(cf.arms@));
    assert forall|i: int|
        0 <= i < cf.arms.len() && (#[trigger] cf.arms[i]).body.inner.len() > 0 implies cf.arms[i].truth
        && forall|j: int| 0 <= j < i ==> !cf.arms[j].truth by {
        assert(active_arm(cf) == Some(i));
        assert(truths(cf.arms@)[i] == cf.arms[i].truth);
        assert forall|j: int| 0 <= j < i implies !cf.arms[j].truth by {
            assert(truths(cf.arms@)[j] == cf.arms[j].truth);
        }
    }
}

/// Of the ids in `before`, each is still among `after`, or is the id of a
/// node that `removed` notes or of a node under one.
pub open spec fn covered(
    before: Seq<Seq<usize>>,
    after: Seq<Seq<usize>>,
    removed: Seq<Seq<usize>>,
) -> bool {
    forall|i: int|
        0 <= i < before.len() ==> after.contains(#[trigger] before[i]) || under_any(
            removed,
            before[i],
        )
}

/// Ids that stay are covered.
pub proof fn lemma_covered_same(ids: Seq<Seq<usize>>, removed: Seq<Seq<usize>>)
    ensures
        covered(ids, ids, removed),
{
    assert forall|i: int| 0 <= i < ids.len() implies ids.contains(#[trigger] ids[i]) by {}
}

/// What is covered stays covered when more is noted as removed.
pub proof fn lemma_covered_later(
    before: Seq<Seq<usize>>,
    after: Seq<Seq<usize>>,
    removed: Seq<Seq<usize>>,
    later: Seq<Seq<usize>>,
)
    requires
        covered(before, after, removed),
        removed.is_prefix_of(later),
    ensures
        covered(before, after, later),
{
    assert forall|i: int| 0 <= i < before.len() implies after.contains(#[trigger] before[i])
        || under_any(later, before[i]) by {
        if !after.contains(before[i]) {
            let k = choose|k: int| 0 <= k < removed.len() && is_prefix(#[trigger] removed[k], before[i]);
            assert(later[k] == removed[k]);
        }
    }
}

/// What is covered in two steps is covered.
pub proof fn lemma_covered_chain(
    first: Seq<Seq<usize>>,
    second: Seq<Seq<usize>>,
    third: Seq<Seq<usize>>,
    removed: Seq<Seq<usize>>,
)
    requires
        covered(first, second, removed),
        covered(second, third, removed),
    ensures
        covered(first, third, removed),
{
    assert forall|i: int| 0 <= i < first.len() implies third.contains(#[trigger] first[i])
        || under_any(removed, first[i]) by {
        if second.contains(first[i]) {
            let k = choose|k: int| 0 <= k < second.len() && second[k] == first[i];
            assert(third.contains(second[k]) || under_any(removed, second[k]));
        }
    }
}

/// Two lists that are covered are covered one behind the other.
pub proof fn lemma_covered_concat(
    a: Seq<Seq<usize>>,
    b: Seq<Seq<usize>>,
    c: Seq<Seq<usize>>,
    d: Seq<Seq<usize>>,
    removed: Seq<Seq<usize>>,
)
    requires
        covered(a, c, removed),
        covered(b, d, removed),
    ensures
        covered(a + b, c + d, removed),
{
    let from = a + b;
    let to = c + d;
    assert forall|i: int| 0 <= i < from.len() implies to.contains(#[trigger] from[i])
        || under_any(removed, from[i]) by {
        if i < a.len() {
            assert(from[i] == a[i]);
            if c.contains(a[i]) {
                let k = choose|k: int| 0 <= k < c.len() && c[k] == a[i];
                assert(to[k] == c[k]);
            }
        } else {
            assert(from[i] == b[i - a.len()]);
            if d.contains(b[i - a.len()]) {
                let k = choose|k: int| 0 <= k < d.len() && d[k] == b[i - a.len()];
                assert(to[c.len() + k] == d[k]);
            }
        }
    }
}

/// Ids of a node that is noted as removed, and of the nodes under it, are
/// covered.
pub proof fn lemma_covered_under(
    ids: Seq<Seq<usize>>,
    after: Seq<Seq<usize>>,
    node: Seq<usize>,
    removed: Seq<Seq<usize>>,
)
    requires
        within(ids, node),
        removed.contains(node),
    ensures
        covered(ids, after, removed),
{
    let k = choose|k: int| 0 <= k < removed.len() && removed[k] == node;
    assert forall|i: int| 0 <= i < ids.len() implies under_any(removed, #[trigger] ids[i]) by {
        assert(is_prefix(removed[k], ids[i]));
    }
}

/// Where each of the first `n` nodes of a level is covered by the node in
/// its place, the ids of the first `n` nodes are covered.
pub proof fn lemma_level_covered(
    before: Seq<Node>,
    after: Seq<Node>,
    n: int,
    removed: Seq<Seq<usize>>,
)
    requires
        0 <= n <= before.len(),
        before.len() == after.len(),
        forall|j: int|
            0 <= j < n ==> covered(
                node_ids(#[trigger] before[j]),
                node_ids(after[j]),
                removed,
            ),
    ensures
        covered(ids_upto(before, n), ids_upto(after, n), removed),
    decreases n,
{
    if n > 0 {
        lemma_level_covered(before, after, n - 1, removed);
        assert(covered(node_ids(before[n - 1]), node_ids(after[n - 1]), removed));
        lemma_covered_concat(
            ids_upto(before, n - 1),
            node_ids(before[n - 1]),
            ids_upto(after, n - 1),
            node_ids(after[n - 1]),
            removed,
        );
    }
}

/// The ids of the first `n` nodes of a level are covered where each of
/// these nodes is noted as removed.
pub proof fn lemma_level_noted(
    nodes: Seq<Node>,
    n: int,
    after: Seq<Seq<usize>>,
    removed: Seq<Seq<usize>>,
)
    requires
        0 <= n <= nodes.len(),
        forall|j: int|
            0 <= j < n ==> node_wf(#[trigger] nodes[j]) && removed.contains(nodes[j].node_id@),
    ensures
        covered(ids_upto(nodes, n), after, removed),
    decreases n,
{
    if n > 0 {
        lemma_level_noted(nodes, n - 1, after, removed);
        let node = nodes[n - 1];
        assert(node_wf(node) && removed.contains(node.node_id@));
        lemma_node_ids(node);
        lemma_covered_under(node_ids(node), Seq::empty(), node.node_id@, removed);
        lemma_covered_concat(
            ids_upto(nodes, n - 1),
            node_ids(node),
            after,
            Seq::empty(),
            removed,
        );
        assert(after + Seq::<Seq<usize>>::empty() =~= after);
    }
}

/// The ids in the body instance at `j`, and none where there is no such
/// instance.
pub open spec fn run_ids_at(iterations: Seq<Nodes>, j: int) -> Seq<Seq<usize>> {
    if 0 <= j < iterations.len() {
        nodes_ids(iterations[j])
    } else {
        Seq::empty()
    }
}

/// The lesser of two numbers.
pub open spec fn lesser(a: int, b: int) -> int {
    if a < b {
        a
    } else {
        b
    }
}

/// Where each of the first `n` body instances of a loop is covered by the
/// instance in its place, or by nothing where the loop has fewer instances
/// now, the ids of the first `n` instances are covered.
pub proof fn lemma_runs_covered(
    before: Seq<Nodes>,
    after: Seq<Nodes>,
    n: int,
    removed: Seq<Seq<usize>>,
)
    requires
        0 <= n <= before.len(),
        after.len() <= before.len(),
        forall|j: int|
            0 <= j < n ==> covered(
                nodes_ids(#[trigger] before[j]),
                run_ids_at(after, j),
                removed,
            ),
    ensures
        covered(runs_ids(before, n), runs_ids(after, lesser(n, after.len() as int)), removed),
    decreases n,
{
    if n > 0 {
        lemma_runs_covered(before, after, n - 1, removed);
        assert(covered(nodes_ids(before[n - 1]), run_ids_at(after, n - 1), removed));
        lemma_covered_concat(
            runs_ids(before, n - 1),
            nodes_ids(before[n - 1]),
            runs_ids(after, lesser(n - 1, after.len() as int)),
            run_ids_at(after, n - 1),
            removed,
        );
        assert(runs_ids(after, lesser(n - 1, after.len() as int)) + run_ids_at(after, n - 1)
            =~= runs_ids(after, lesser(n, after.len() as int)));
    }
}

/// Where each of the first `n` arms of a chain kept its id and is covered
/// by the arm in its place, the ids of the first `n` arms are covered.
pub proof fn lemma_arms_covered(
    before: Seq<ArmNode>,
    after: Seq<ArmNode>,
    n: int,
    removed: Seq<Seq<usize>>,
)
    requires
        0 <= n <= before.len(),
        before.len() == after.len(),
        forall|j: int|
            0 <= j < n ==> (#[trigger] before[j]).body.parent@ == after[j].body.parent@ && covered(
                nodes_ids(before[j].body),
                nodes_ids(after[j].body),
                removed,
            ),
    ensures
        covered(arms_ids(before, n), arms_ids(after, n), removed),
    decreases n,
{
    if n > 0 {
        lemma_arms_covered(before, after, n - 1, removed);
        let id = before[n - 1].body.parent@;
        assert(id == after[n - 1].body.parent@);
        lemma_covered_same(seq![id], removed);
        lemma_covered_concat(
            seq![id],
            nodes_ids(before[n - 1].body),
            seq![id],
            nodes_ids(after[n - 1].body),
            removed,
        );
        lemma_covered_concat(
            arms_ids(before, n - 1),
            seq![id] + nodes_ids(before[n - 1].body),
            arms_ids(after, n - 1),
            seq![id] + nodes_ids(after[n - 1].body),
            removed,
        );
    }
}

/// The ids in a body instance that is noted as removed are covered.
pub proof fn lemma_run_noted(run: Nodes, after: Seq<Seq<usize>>, removed: Seq<Seq<usize>>)
    requires
        nodes_wf(run),
        removed.contains(run.parent@),
    ensures
        covered(nodes_ids(run), after, removed),
{
    lemma_nodes_ids(run);
    lemma_covered_under(nodes_ids(run), after, run.parent@, removed);
}

/// The ids in a body instance are among the ids of all the instances.
pub proof fn lemma_run_ids_held(iterations: Seq<Nodes>, k: int, n: int)
    requires
        0 <= k < n <= iterations.len(),
    ensures
        forall|i: int|
            0 <= i < nodes_ids(iterations[k]).len() ==> runs_ids(iterations, n).contains(
                #[trigger] nodes_ids(iterations[k])[i],
            ),
    decreases n,
{
    let all = runs_ids(iterations, n);
    let front = runs_ids(iterations, n - 1);
    let last = nodes_ids(iterations[n - 1]);
    if k < n - 1 {
        lemma_run_ids_held(iterations, k, n - 1);
        assert forall|i: int| 0 <= i < nodes_ids(iterations[k]).len() implies all.contains(
            #[trigger] nodes_ids(iterations[k])[i],
        ) by {
            let x = nodes_ids(iterations[k])[i];
            let at = choose|at: int| 0 <= at < front.len() && front[at] == x;
            assert(all[at] == x);
        }
    } else {
        assert forall|i: int| 0 <= i < last.len() implies all.contains(#[trigger] last[i]) by {
            assert(all[front.len() + i] == last[i]);
        }
    }
}

/// Where the ids of each of the first `n` instances are covered, the ids
/// of all of them are.
pub proof fn lemma_runs_each_covered(
    before: Seq<Nodes>,
    n: int,
    after: Seq<Seq<usize>>,
    removed: Seq<Seq<usize>>,
)
    requires
        0 <= n <= before.len(),
        forall|j: int| 0 <= j < n ==> covered(nodes_ids(#[trigger] before[j]), after, removed),
    ensures
        covered(runs_ids(before, n), after, removed),
    decreases n,
{
    if n > 0 {
        lemma_runs_each_covered(before, n - 1, after, removed);
        let front = runs_ids(before, n - 1);
        let last = nodes_ids(before[n - 1]);
        let all = front + last;
        assert(covered(last, after, removed));
        assert forall|i: int| 0 <= i < all.len() implies after.contains(#[trigger] all[i])
            || under_any(removed, all[i]) by {
            if i < front.len() {
                assert(all[i] == front[i]);
            } else {
                assert(all[i] == last[i - front.len()]);
            }
        }
    }
}

/// Where the instance that stood at `j` stands after a change, if it is
/// still there with its nodes.
pub open spec fn new_place(change: Change, n: int, room: bool, j: int) -> int {
    match change {
        Change::Remove(i) => if i < n {
            if j < i {
                j
            } else if j == i {
                -1
            } else {
                j - 1
            }
        } else {
            j
        },
        Change::Insert(i) => if i < n {
            if !room {
                -1
            } else if j < i {
                j
            } else {
                j + 1
            }
        } else {
            j
        },
        Change::Swap(a, b) => if a < n && b < n {
            if j == a {
                b as int
            } else if j == b {
                a as int
            } else {
                j
            }
        } else if a < n {
            if j == a {
                -1
            } else {
                j
            }
        } else if b < n {
            if j == b {
                -1
            } else {
                j
            }
        } else {
            j
        },
        _ => j,
    }
}

/// A change of the collection of a loop notes every body instance that
/// goes or is emptied: the ids that the loop held are still there or
/// covered.
pub proof fn lemma_change_covers(
    before: LoopNode,
    after: LoopNode,
    id: Seq<usize>,
    frames: Seq<Seq<(PathView, Bound)>>,
    change: Change,
    noted: Seq<Seq<usize>>,
    removed: Seq<Seq<usize>>,
)
    requires
        loop_wf(before, id),
        loop_moved(before, after, id, frames, change),
        removed == noted + noted_by_change(
            before.iterations@,
            change,
            run_len(after.collection@) as nat,
            id,
            before.next_index,
        ),
    ensures
        covered(
            runs_ids(before.iterations@, before.iterations.len() as int),
            runs_ids(after.iterations@, after.iterations.len() as int),
            removed,
        ),
{
    let runs = before.iterations@;
    let n = runs.len() as int;
    let room = before.next_index < usize::MAX;
    let shape = origins(change, n, room);
    let kept = after.iterations.len() as int;
    let moved = noted_by_move(runs, change, room);
    let behind = Seq::new(
        (shape.len() - kept) as nat,
        |t: int| parent_of(runs, shape[shape.len() - 1 - t], id, before.next_index),
    );
    let target = runs_ids(after.iterations@, kept);
    assert(removed =~= noted + moved + behind);
    assert forall|j: int| 0 <= j < n implies covered(
        nodes_ids(#[trigger] runs[j]),
        target,
        removed,
    ) by {
        let p = new_place(change, n, room, j);
        if p < 0 {
            // the instance went, or lost its nodes, when the instances moved
            let at = if change is Insert {
                n - 1 - j
            } else {
                0
            };
            assert(moved[at] == runs[j].parent@);
            assert(removed[noted.len() + at] == runs[j].parent@);
            lemma_run_noted(runs[j], target, removed);
        } else if p < kept {
            assert(shape[p] == Origin::Kept(j));
            assert(placed(after.iterations[p], runs, shape[p], id, before.next_index));
            assert(nodes_ids(after.iterations[p]) =~= nodes_ids(runs[j]));
            lemma_run_ids_held(after.iterations@, p, kept);
            assert forall|i: int| 0 <= i < nodes_ids(runs[j]).len() implies target.contains(
                #[trigger] nodes_ids(runs[j])[i],
            ) by {
                assert(nodes_ids(runs[j])[i] == nodes_ids(after.iterations[p])[i]);
            }
        } else {
            // the instance stood behind the end of the collection
            assert(shape[p] == Origin::Kept(j));
            assert(behind[shape.len() - 1 - p] == runs[j].parent@);
            assert(removed[noted.len() + moved.len() + (shape.len() - 1 - p)] == runs[j].parent@);
            lemma_run_noted(runs[j], target, removed);
        }
    }
    lemma_runs_each_covered(runs, n, target, removed);
}

/// A loop that reads its collection anew notes every body instance: the
/// ids that it held are covered.
pub proof fn lemma_reload_covers(
    before: LoopNode,
    id: Seq<usize>,
    noted: Seq<Seq<usize>>,
    removed: Seq<Seq<usize>>,
)
    requires
        loop_wf(before, id),
        removed == noted + runs_backward(before.iterations@, 0),
    ensures
        covered(
            runs_ids(before.iterations@, before.iterations.len() as int),
            Seq::empty(),
            removed,
        ),
{
    let runs = before.iterations@;
    let none = Seq::<Nodes>::empty();
    assert forall|j: int| 0 <= j < runs.len() implies covered(
        nodes_ids(#[trigger] runs[j]),
        run_ids_at(none, j),
        removed,
    ) by {
        assert(runs_backward(runs, 0)[runs.len() - 1 - j] == runs[j].parent@);
        assert(removed[noted.len() + (runs.len() - 1 - j)] == runs[j].parent@);
        lemma_run_noted(runs[j], run_ids_at(none, j), removed);
    }
    lemma_runs_covered(runs, none, runs.len() as int, removed);
    assert(runs_ids(none, 0) =~= Seq::<Seq<usize>>::empty());
}

/// A chain that shows another arm notes the nodes of the arm that it
/// showed: the ids that the chain held are still there or covered.
pub proof fn lemma_choice_covers(
    before: IfElse,
    after: IfElse,
    id: Seq<usize>,
    noted: Seq<Seq<usize>>,
    removed: Seq<Seq<usize>>,
)
    requires
        chain_wf(before, id),
        chain_wf(after, id),
        after.arms.len() == before.arms.len(),
        forall|j: int|
            0 <= j < after.arms.len() ==> if active_arm(after) == Some(j) {
                (#[trigger] after.arms[j]).body == before.arms[j].body
            } else {
                after.arms[j].body.inner.len() == 0
            },
        removed == noted + noted_by_choice(before, active_arm(after)),
    ensures
        covered(
            arms_ids(before.arms@, before.arms.len() as int),
            arms_ids(after.arms@, after.arms.len() as int),
            removed,
        ),
{
    let n = before.arms.len() as int;
    assert forall|j: int| 0 <= j < n implies (#[trigger] before.arms@[j]).body.parent@
        == after.arms@[j].body.parent@ && covered(
        nodes_ids(before.arms@[j].body),
        nodes_ids(after.arms@[j].body),
        removed,
    ) by {
        let body = before.arms[j].body;
        assert(after.arms[j].body.parent@ == id.push(j as usize));
        if active_arm(after) == Some(j) {
            assert(after.arms[j].body == body);
            lemma_covered_same(nodes_ids(body), removed);
        } else if active_arm(before) == Some(j) {
            let tops = ids_forward(body.inner@);
            assert(noted_by_choice(before, active_arm(after)) == tops);
            assert forall|i: int| 0 <= i < body.inner.len() implies node_wf(
                #[trigger] body.inner@[i],
            ) && removed.contains(body.inner@[i].node_id@) by {
                assert(tops[i] == body.inner@[i].node_id@);
                assert(removed[noted.len() + i] == tops[i]);
            }
            lemma_level_noted(
                body.inner@,
                body.inner.len() as int,
                nodes_ids(after.arms[j].body),
                removed,
            );
        } else {
            assert(body.inner.len() == 0);
            assert(nodes_ids(body) =~= Seq::<Seq<usize>>::empty());
        }
    }
    lemma_arms_covered(before.arms@, after.arms@, n, removed);
}

/// A level that forgets its nodes notes each of them: the ids that it
/// held are covered.
pub proof fn lemma_reset_covers(before: Nodes, noted: Seq<Seq<usize>>, removed: Seq<Seq<usize>>)
    requires
        nodes_wf(before),
        removed == noted + ids_backward(before.inner@),
    ensures
        covered(nodes_ids(before), Seq::empty(), removed),
{
    let nodes = before.inner@;
    assert forall|j: int| 0 <= j < nodes.len() implies node_wf(#[trigger] nodes[j])
        && removed.contains(nodes[j].node_id@) by {
        assert(ids_backward(nodes)[nodes.len() - 1 - j] == nodes[j].node_id@);
        assert(removed[noted.len() + (nodes.len() - 1 - j)] == nodes[j].node_id@);
    }
    lemma_level_noted(nodes, nodes.len() as int, Seq::empty(), removed);
}

/// A node that lies under a second, which lies under a third, lies under
/// the third.
pub proof fn lemma_prefix_chain(a: Seq<usize>, b: Seq<usize>, c: Seq<usize>)
    requires
        is_prefix(a, b),
        is_prefix(b, c),
    ensures
        is_prefix(a, c),
{
    assert(c.subrange(0, a.len() as int) =~= a) by {
        assert forall|k: int| 0 <= k < a.len() implies c[k] == a[k] by {
            assert(b.subrange(0, a.len() as int)[k] == a[k]);
            assert(c.subrange(0, b.len() as int)[k] == b[k]);
        }
    }
}

/// A node that has left the tree loses its subscriptions, and so does
/// every node under it. Where the ids `before` became the ids `after` and
/// every id that went is covered by what `removed` notes: once the removed
/// nodes are released, no subscription is left of `node`, which went, nor
/// of a node under it.
pub proof fn lemma_gone_node_is_released(
    before: Seq<Seq<usize>>,
    after: Seq<Seq<usize>>,
    removed: Seq<Seq<usize>>,
    subscriptions: Seq<(PathView, Seq<usize>)>,
    node: Seq<usize>,
)
    requires
        covered(before, after, removed),
        before.contains(node),
        !after.contains(node),
    ensures
        forall|s: (PathView, Seq<usize>)| #[trigger]
            release(subscriptions, removed).contains(s) ==> !is_prefix(node, s.1),
{
    let i = choose|i: int| 0 <= i < before.len() && before[i] == node;
    assert(after.contains(before[i]) || under_any(removed, before[i]));
    let k = choose|k: int| 0 <= k < removed.len() && is_prefix(#[trigger] removed[k], node);
    lemma_release(subscriptions, removed);
    assert forall|s: (PathView, Seq<usize>)| #[trigger]
        release(subscriptions, removed).contains(s) implies !is_prefix(node, s.1) by {
        if is_prefix(node, s.1) {
            lemma_prefix_chain(removed[k], node, s.1);
            assert(under_any(removed, s.1));
        }
    }
}

} // verus!
