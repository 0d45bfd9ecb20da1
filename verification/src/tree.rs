//! The tree of nodes as a value: what a tree holds, apart from how it is
//! stored.
use vstd::prelude::*;
use crate::layout::Padding;
use crate::nodes::{IfElse, LoopNode, Node, NodeKind, Nodes};
use crate::path::PathView;
use crate::scope::{Bound, Run};
use crate::state::Seen;
use crate::widget::{attributes_view, Display, Pos, Size, WidgetContainer};

verus! {

/// What a widget holds.
pub struct WidgetView {
    pub name: Seq<char>,
    pub kind: Seq<char>,
    pub node_id: Seq<usize>,
    pub text: Seq<char>,
    pub attributes: Seq<(Seq<char>, Option<Seen>)>,
    pub display: Display,
    pub padding: Padding,
    pub pos: Pos,
    pub size: Size,
    pub dirty: bool,
}

/// What a level of nodes holds: where it stands, the names that it sees,
/// and its nodes in order.
pub struct Level {
    pub parent: Seq<usize>,
    pub scope: Seq<Seq<(PathView, Bound)>>,
    pub nodes: Seq<Shape>,
}

/// What an arm of a chain holds.
pub struct ArmShape {
    pub truth: bool,
    pub body: Level,
}

/// What a node holds.
pub enum Shape {
    Widget { id: Seq<usize>, widget: WidgetView, children: Level },
    Loop {
        id: Seq<usize>,
        binding: PathView,
        collection: Run,
        iterations: Seq<Level>,
        next_index: usize,
    },
    Chain { id: Seq<usize>, arms: Seq<ArmShape> },
    View { id: Seq<usize> },
}

pub open spec fn widget_view(w: WidgetContainer) -> WidgetView {
    WidgetView {
        name: w.name@,
        kind: w.kind@,
        node_id: w.node_id@,
        text: w.text@,
        attributes: attributes_view(w.attributes@),
        display: w.display,
        padding: w.padding,
        pos: w.pos,
        size: w.size,
        dirty: w.dirty,
    }
}

/// A level that holds nothing and stands nowhere.
pub open spec fn no_level() -> Level {
    Level { parent: Seq::empty(), scope: Seq::empty(), nodes: Seq::empty() }
}

pub open spec fn nodes_view(nodes: Nodes) -> Level
    decreases nodes,
{
    Level {
        parent: nodes.parent@,
        scope: nodes.scope@,
        nodes: Seq::new(
            nodes.inner.len() as nat,
            |i: int|
                if 0 <= i < nodes.inner.len() {
                    node_view(nodes.inner[i])
                } else {
                    Shape::View { id: Seq::empty() }
                },
        ),
    }
}

pub open spec fn node_view(node: Node) -> Shape
    decreases node,
{
    match node.kind {
        NodeKind::Single(s) => Shape::Widget {
            id: node.node_id@,
            widget: widget_view(s.widget),
            children: nodes_view(s.children),
        },
        NodeKind::Loop(l) => Shape::Loop {
            id: node.node_id@,
            binding: l.binding@,
            collection: l.collection@,
            iterations: runs_view(l),
            next_index: l.next_index,
        },
        NodeKind::ControlFlow(cf) => Shape::Chain { id: node.node_id@, arms: arms_shape(cf) },
        NodeKind::View => Shape::View { id: node.node_id@ },
    }
}

/// What the body instances of a loop hold.
pub open spec fn runs_view(l: LoopNode) -> Seq<Level>
    decreases l,
{
    Seq::new(
        l.iterations.len() as nat,
        |k: int|
            if 0 <= k < l.iterations.len() {
                nodes_view(l.iterations[k])
            } else {
                no_level()
            },
    )
}

/// What the arms of a chain hold.
pub open spec fn arms_shape(cf: IfElse) -> Seq<ArmShape>
    decreases cf,
{
    Seq::new(
        cf.arms.len() as nat,
        |j: int|
            if 0 <= j < cf.arms.len() {
                ArmShape { truth: cf.arms[j].truth, body: nodes_view(cf.arms[j].body) }
            } else {
                ArmShape { truth: false, body: no_level() }
            },
    )
}

impl View for Nodes {
    type V = Level;

    open spec fn view(&self) -> Level {
        nodes_view(*self)
    }
}

impl View for Node {
    type V = Shape;

    open spec fn view(&self) -> Shape {
        node_view(*self)
    }
}

} // verus!
