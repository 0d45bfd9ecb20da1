use anathema::compiler::compile;
use anathema::frame::begin_frame;
use anathema::node_id::NodeId;
use anathema::nodes::{Node, NodeKind, Nodes};
use anathema::scope::Scope;
use anathema::state::{Change, DirtyQueue, State};
use anathema::store::{Store, Value};
use anathema::template::Template;
use anathema::value::{Num, Owned};
use anathema::widget::Factory;

fn factory() -> Factory {
    let mut factory = Factory::new();
    for kind in ["a", "b", "c", "text", "span", "vstack", "border"] {
        factory.register(kind).unwrap();
    }
    factory
}

fn expand(nodes: &mut Nodes, templates: &Vec<Template>, state: &mut impl State, factory: &Factory) {
    let mut steps = 0;
    while let Some(result) = nodes.next(templates, state, factory) {
        result.unwrap();
        steps += 1;
        assert!(steps < 10_000);
    }
}

/// The widgets of a level, in order: kind, text and id.
fn widgets(nodes: &Nodes) -> Vec<(String, String, Vec<usize>)> {
    let mut out = vec![];
    for node in &nodes.inner {
        collect(node, &mut out);
    }
    out
}

fn collect(node: &Node, out: &mut Vec<(String, String, Vec<usize>)>) {
    match &node.kind {
        NodeKind::Single(single) => out.push((
            single.widget.kind.clone(),
            single.widget.text.clone(),
            single.widget.node_id.0.clone(),
        )),
        NodeKind::Loop(l) => {
            for iteration in &l.iterations {
                out.extend(widgets(iteration));
            }
        }
        NodeKind::ControlFlow(cf) => {
            if let Some(active) = cf.active() {
                out.extend(widgets(&cf.arms[active].body));
            }
        }
        NodeKind::View => {}
    }
}

fn kinds(nodes: &Nodes) -> Vec<String> {
    widgets(nodes).into_iter().map(|w| w.0).collect()
}

fn texts(nodes: &Nodes) -> Vec<String> {
    widgets(nodes).into_iter().map(|w| w.1).collect()
}

/// One frame: the changes are drained and taken in, what the removed
/// nodes subscribed to is released, and the tree is expanded.
fn frame(nodes: &mut Nodes, templates: &Vec<Template>, store: &mut Store, factory: &Factory) {
    let changes = store.drain_dirty_nodes();
    let mut removed = DirtyQueue::new();
    for dirty in changes {
        nodes.update(templates, &dirty.node, dirty.change, store, &mut removed);
    }
    for node in removed.drain_removed() {
        store.remove_node(node);
    }
    store.release_removed();
    expand(nodes, templates, store, factory);
}

#[test]
fn if_else_selection() {
    let templates = compile("if {{ x }}\n    a\nelse\n    b\n").unwrap();
    let factory = factory();
    let mut store = Store::new();
    store.insert("x", Value::Owned(Owned::Bool(true)));
    let mut nodes = Nodes::new(NodeId::root(), Scope::new());

    frame(&mut nodes, &templates, &mut store, &factory);
    assert_eq!(kinds(&nodes), vec!["a"]);
    assert_eq!(nodes.count(), 1);

    store.insert("x", Value::Owned(Owned::Bool(false)));
    frame(&mut nodes, &templates, &mut store, &factory);
    assert_eq!(kinds(&nodes), vec!["b"]);
    assert_eq!(nodes.count(), 1);

    store.insert("x", Value::Owned(Owned::Bool(true)));
    frame(&mut nodes, &templates, &mut store, &factory);
    assert_eq!(kinds(&nodes), vec!["a"]);
}

#[test]
fn no_arm_is_shown_when_none_is_true() {
    let templates = compile("if x\n    a\nelse if y\n    b\nc\n").unwrap();
    let factory = factory();
    let mut store = Store::new();
    let mut nodes = Nodes::new(NodeId::root(), Scope::new());
    frame(&mut nodes, &templates, &mut store, &factory);
    assert_eq!(kinds(&nodes), vec!["c"]);
    // the chain takes the id 0 all the same
    assert_eq!(widgets(&nodes)[0].2, vec![1]);

    store.insert("y", Value::Str("yes".to_string()));
    frame(&mut nodes, &templates, &mut store, &factory);
    assert_eq!(kinds(&nodes), vec!["b", "c"]);

    store.insert("x", Value::Owned(Owned::Num(Num::Unsigned(1))));
    frame(&mut nodes, &templates, &mut store, &factory);
    assert_eq!(kinds(&nodes), vec!["a", "c"]);
}

#[test]
fn for_over_static_list() {
    let templates = compile("for item in [1, 2, 3]\n    text \"{{ item }}\"\n").unwrap();
    let factory = factory();
    let mut state = ();
    let mut nodes = Nodes::new(NodeId::root(), Scope::new());
    expand(&mut nodes, &templates, &mut state, &factory);
    assert_eq!(kinds(&nodes), vec!["text", "text", "text"]);
    assert_eq!(texts(&nodes), vec!["1", "2", "3"]);
}

#[test]
fn incremental_update_on_list_mutation() {
    let templates = compile("for n in names\n    text \"{{ n }}\"\n").unwrap();
    let factory = factory();
    let mut store = Store::new();
    store.insert(
        "names",
        Value::List(vec![Value::Str("x".to_string()), Value::Str("y".to_string())]),
    );
    let mut nodes = Nodes::new(NodeId::root(), Scope::new());
    frame(&mut nodes, &templates, &mut store, &factory);
    assert_eq!(texts(&nodes), vec!["x", "y"]);
    let before = widgets(&nodes);

    assert!(store.push("names", Value::Str("z".to_string())));
    frame(&mut nodes, &templates, &mut store, &factory);
    let after = widgets(&nodes);
    assert_eq!(texts(&nodes), vec!["x", "y", "z"]);
    assert_eq!(after[0].2, before[0].2);
    assert_eq!(after[1].2, before[1].2);
    assert!(after[2].2 != after[0].2 && after[2].2 != after[1].2);

    // the instances move up with their elements: they keep their widgets
    // and their ids
    assert!(store.remove("names", 0));
    frame(&mut nodes, &templates, &mut store, &factory);
    assert_eq!(texts(&nodes), vec!["y", "z"]);
    assert_eq!(kinds(&nodes), vec!["text", "text"]);
    assert_eq!(widgets(&nodes)[0].2, after[1].2);
    assert_eq!(widgets(&nodes)[1].2, after[2].2);
    assert_eq!(nodes.count(), 2);
}

#[test]
fn one_step_makes_one_widget() {
    let templates = compile("a\nfor i in [1, 2]\n    b\n    c\nc\n").unwrap();
    let factory = factory();
    let mut state = ();
    let mut nodes = Nodes::new(NodeId::root(), Scope::new());
    let mut seen = vec![];
    while let Some(result) = nodes.next(&templates, &mut state, &factory) {
        result.unwrap();
        seen.push(kinds(&nodes).len());
    }
    assert_eq!(seen, vec![1, 2, 3, 4, 5, 6]);
    assert_eq!(kinds(&nodes), vec!["a", "b", "c", "b", "c", "c"]);
    assert!(nodes.next(&templates, &mut state, &factory).is_none());
}

#[test]
fn an_unregistered_kind_fails_and_keeps_the_siblings() {
    let templates = compile("a\nnobody\nb\n").unwrap();
    let factory = factory();
    let mut state = ();
    let mut nodes = Nodes::new(NodeId::root(), Scope::new());
    assert!(matches!(nodes.next(&templates, &mut state, &factory), Some(Ok(()))));
    match nodes.next(&templates, &mut state, &factory) {
        Some(Err(anathema::error::Error::UnregisteredWidget(name))) => assert_eq!(name, "nobody"),
        _ => panic!("the step should fail"),
    }
    assert_eq!(kinds(&nodes), vec!["a"]);
}

#[test]
fn ids_are_paths_from_the_root() {
    let templates = compile("a\n    b\n    b\nfor i in [1, 2]\n    c\n").unwrap();
    let factory = factory();
    let mut state = ();
    let mut nodes = Nodes::new(NodeId::root(), Scope::new());
    expand(&mut nodes, &templates, &mut state, &factory);
    let top = widgets(&nodes);
    assert_eq!(top[0].2, vec![0]);
    assert_eq!(top[1].2, vec![1, 0, 0]);
    assert_eq!(top[2].2, vec![1, 1, 0]);
    match &mut nodes.inner[0].kind {
        NodeKind::Single(single) => {
            let children = match &templates[0] {
                Template::Node { children, .. } => children,
                _ => panic!(),
            };
            expand(&mut single.children, children, &mut state, &factory);
            let ids: Vec<_> = widgets(&single.children).into_iter().map(|w| w.2).collect();
            assert_eq!(ids, vec![vec![0, 0], vec![0, 1]]);
        }
        _ => panic!(),
    }
    assert_eq!(nodes.count(), 5);
}

#[test]
fn attributes_and_text_are_resolved() {
    let templates = compile("text [width: w + 1, name: who] \"hi {{ who }}!\"\n").unwrap();
    let factory = factory();
    let mut store = Store::new();
    store.insert("w", Value::Owned(Owned::Num(Num::Unsigned(4))));
    store.insert("who", Value::Str("you".to_string()));
    let mut nodes = Nodes::new(NodeId::root(), Scope::new());
    frame(&mut nodes, &templates, &mut store, &factory);
    assert_eq!(texts(&nodes), vec!["hi you!"]);
    match &nodes.inner[0].kind {
        NodeKind::Single(single) => {
            let width = single.widget.attribute(&"width".to_string()).unwrap();
            assert!(width.equals(&anathema::state::ValueRef::Owned(Owned::Num(Num::Unsigned(5)))));
            assert!(!single.widget.dirty);
        }
        _ => panic!(),
    }

    store.insert("who", Value::Str("me".to_string()));
    frame(&mut nodes, &templates, &mut store, &factory);
    assert_eq!(texts(&nodes), vec!["hi me!"]);
    match &nodes.inner[0].kind {
        NodeKind::Single(single) => assert!(single.widget.dirty),
        _ => panic!(),
    }
}

#[test]
fn reset_starts_from_scratch() {
    let templates = compile("a\nb\n").unwrap();
    let factory = factory();
    let mut state = ();
    let mut nodes = Nodes::new(NodeId::root(), Scope::new());
    expand(&mut nodes, &templates, &mut state, &factory);
    assert_eq!(nodes.count(), 2);
    let mut queue = DirtyQueue::new();
    nodes.reset(&mut queue);
    assert_eq!(nodes.count(), 0);
    assert_eq!(queue.drain_removed().len(), 2);
    expand(&mut nodes, &templates, &mut state, &factory);
    assert_eq!(kinds(&nodes), vec!["a", "b"]);
}

#[test]
fn a_change_is_one_of_six() {
    let all = [
        Change::Modified,
        Change::Insert(0),
        Change::Remove(0),
        Change::Swap(0, 1),
        Change::Push,
        Change::Clear,
    ];
    assert_eq!(all.len(), 6);
}

#[test]
fn eval_for() {
    let body = compile("test\n").unwrap();
    let template = Template::Loop {
        binding: "item".to_string(),
        data: *anathema::testing::list(vec![
            *anathema::testing::unum(1),
            *anathema::testing::unum(2),
            *anathema::testing::unum(3),
        ]),
        body,
    };
    let mut factory = Factory::new();
    factory.register("test").unwrap();
    let mut state = ();
    let node =
        Node::create(&template, NodeId::root().child(0), &Scope::new(), &mut state, &factory)
            .unwrap();
    assert!(matches!(node, Node { kind: NodeKind::Loop { .. }, .. }));
    match node.kind {
        NodeKind::Loop(l) => assert_eq!(l.collection.len(), 3),
        _ => panic!(),
    }
}

/// Takes the changes of the store in and hands out what the tree noted
/// as removed.
fn removed_by_changes(
    nodes: &mut Nodes,
    templates: &Vec<Template>,
    store: &mut Store,
) -> Vec<Vec<usize>> {
    let mut queue = DirtyQueue::new();
    for dirty in store.drain_dirty_nodes() {
        nodes.update(templates, &dirty.node, dirty.change, store, &mut queue);
    }
    queue.drain_removed().into_iter().map(|id| id.0).collect()
}

#[test]
fn a_chain_that_shows_another_arm_notes_the_nodes_that_go() {
    let templates = compile("if {{ x }}\n    a\n    b\nelse\n    c\n").unwrap();
    let factory = factory();
    let mut store = Store::new();
    store.insert("x", Value::Owned(Owned::Bool(true)));
    let mut nodes = Nodes::new(NodeId::root(), Scope::new());
    frame(&mut nodes, &templates, &mut store, &factory);
    assert_eq!(kinds(&nodes), vec!["a", "b"]);

    // the same arm is shown: nothing goes
    store.insert("x", Value::Owned(Owned::Num(Num::Unsigned(7))));
    assert_eq!(removed_by_changes(&mut nodes, &templates, &mut store), Vec::<Vec<usize>>::new());
    assert_eq!(kinds(&nodes), vec!["a", "b"]);

    // the chain is the node 0, its first arm 0.0, the nodes of the arm
    // 0.0.0 and 0.0.1
    store.insert("x", Value::Owned(Owned::Bool(false)));
    assert_eq!(
        removed_by_changes(&mut nodes, &templates, &mut store),
        vec![vec![0, 0, 0], vec![0, 0, 1]]
    );
    assert_eq!(nodes.count(), 0);
    expand(&mut nodes, &templates, &mut store, &factory);
    assert_eq!(kinds(&nodes), vec!["c"]);
}

#[test]
fn a_loop_that_loses_an_element_notes_the_instances_that_go() {
    let templates = compile("for n in names\n    text \"{{ n }}\"\n").unwrap();
    let factory = factory();
    let mut store = Store::new();
    store.insert(
        "names",
        Value::List(vec![
            Value::Str("x".to_string()),
            Value::Str("y".to_string()),
            Value::Str("z".to_string()),
        ]),
    );
    let mut nodes = Nodes::new(NodeId::root(), Scope::new());
    frame(&mut nodes, &templates, &mut store, &factory);
    assert_eq!(texts(&nodes), vec!["x", "y", "z"]);

    // the instance of the element goes; the others keep their widgets
    assert!(store.remove("names", 1));
    assert_eq!(removed_by_changes(&mut nodes, &templates, &mut store), vec![vec![0, 1]]);
    assert_eq!(texts(&nodes), vec!["x", "z"]);
    expand(&mut nodes, &templates, &mut store, &factory);
    assert_eq!(texts(&nodes), vec!["x", "z"]);

    // a new element touches no instance
    assert!(store.push("names", Value::Str("w".to_string())));
    assert_eq!(removed_by_changes(&mut nodes, &templates, &mut store), Vec::<Vec<usize>>::new());
    expand(&mut nodes, &templates, &mut store, &factory);
    assert_eq!(texts(&nodes), vec!["x", "z", "w"]);
}

#[test]
fn the_nodes_are_those_of_their_templates() {
    let templates = compile("a\nfor i in [1, 2]\n    b\nif yes\n    c\nelse\n    a\nview main\n").unwrap();
    let factory = factory();
    let mut store = Store::new();
    let mut nodes = Nodes::new(NodeId::root(), Scope::new());
    frame(&mut nodes, &templates, &mut store, &factory);
    assert_eq!(nodes.inner.len(), templates.len());
    for (node, template) in nodes.inner.iter().zip(&templates) {
        match (&node.kind, template) {
            (NodeKind::Single(single), Template::Node { ident, .. }) => {
                assert_eq!(&single.widget.kind, ident)
            }
            (NodeKind::Loop(l), Template::Loop { .. }) => assert_eq!(l.iterations.len(), 2),
            (NodeKind::ControlFlow(cf), Template::ControlFlow(arms)) => {
                assert_eq!(cf.arms.len(), arms.len());
                assert_eq!(cf.active(), Some(1));
            }
            (NodeKind::View, Template::View(_)) => {}
            _ => panic!("a node of another template"),
        }
    }
    assert_eq!(kinds(&nodes), vec!["a", "b", "b", "a"]);
}

#[test]
fn a_level_is_expanded_within_its_budget() {
    let templates = compile("a\nfor i in [1, 2, 3]\n    b\nc\n").unwrap();
    let factory = factory();
    let mut state = ();
    let mut nodes = Nodes::new(NodeId::root(), Scope::new());

    let mut budget = 2;
    assert_eq!(nodes.expand(&templates, &mut state, &factory, &mut budget).unwrap(), false);
    assert_eq!(budget, 0);
    assert_eq!(kinds(&nodes), vec!["a", "b"]);

    // nothing is made without a budget
    assert_eq!(nodes.expand(&templates, &mut state, &factory, &mut budget).unwrap(), false);
    assert_eq!(kinds(&nodes), vec!["a", "b"]);

    let mut budget = 10;
    assert_eq!(nodes.expand(&templates, &mut state, &factory, &mut budget).unwrap(), true);
    assert_eq!(budget, 7);
    assert_eq!(kinds(&nodes), vec!["a", "b", "b", "b", "c"]);

    // a level that is done stays as it is
    assert_eq!(nodes.expand(&templates, &mut state, &factory, &mut budget).unwrap(), true);
    assert_eq!(budget, 7);
    assert_eq!(kinds(&nodes), vec!["a", "b", "b", "b", "c"]);
}

/// The kinds of all widgets of a tree, children behind their parents.
fn all_kinds(nodes: &Nodes, out: &mut Vec<String>) {
    for node in &nodes.inner {
        match &node.kind {
            NodeKind::Single(single) => {
                out.push(single.widget.kind.clone());
                all_kinds(&single.children, out);
            }
            NodeKind::Loop(l) => l.iterations.iter().for_each(|i| all_kinds(i, out)),
            NodeKind::ControlFlow(cf) => {
                if let Some(active) = cf.active() {
                    all_kinds(&cf.arms[active].body, out);
                }
            }
            NodeKind::View => {}
        }
    }
}

#[test]
fn a_tree_is_expanded_with_all_that_lies_below() {
    let source = "vstack\n    border\n        text \"a\"\n    for i in [1, 2]\n        border\n            span \"b\"\nif yes\n    a\nelse\n    b\n        c\n";
    let templates = compile(source).unwrap();
    let factory = factory();
    let mut state = ();
    let mut nodes = Nodes::new(NodeId::root(), Scope::new());

    let mut budget = 4;
    assert_eq!(nodes.expand_tree(&templates, &mut state, &factory, &mut budget).unwrap(), false);
    assert_eq!(budget, 0);
    let mut seen = vec![];
    all_kinds(&nodes, &mut seen);
    assert_eq!(seen.len(), 4);

    let mut budget = 100;
    assert_eq!(nodes.expand_tree(&templates, &mut state, &factory, &mut budget).unwrap(), true);
    assert_eq!(budget, 95);
    let mut seen = vec![];
    all_kinds(&nodes, &mut seen);
    assert_eq!(
        seen,
        vec!["vstack", "border", "text", "border", "span", "border", "span", "b", "c"]
    );
    assert_eq!(nodes.count(), 9);

    // a tree in which everything is expanded stays as it is
    assert_eq!(nodes.expand_tree(&templates, &mut state, &factory, &mut budget).unwrap(), true);
    assert_eq!(budget, 95);
    assert_eq!(nodes.count(), 9);
}

#[test]
fn a_failing_step_ends_the_expansion() {
    let templates = compile("a\n    nobody\nb\n").unwrap();
    let factory = factory();
    let mut state = ();
    let mut nodes = Nodes::new(NodeId::root(), Scope::new());
    let mut budget = 100;
    match nodes.expand_tree(&templates, &mut state, &factory, &mut budget) {
        Err(anathema::error::Error::UnregisteredWidget(name)) => assert_eq!(name, "nobody"),
        _ => panic!("the expansion should fail"),
    }
    // the level was done before its children were begun
    assert_eq!(kinds(&nodes), vec!["a", "b"]);
    assert_eq!(budget, 98);
}

#[test]
fn changes_are_taken_in_in_order() {
    let templates = compile("for n in names\n    text \"{{ n }}\"\nif on\n    a\n").unwrap();
    let factory = factory();
    let mut store = Store::new();
    store.insert("on", Value::Owned(Owned::Bool(true)));
    store.insert(
        "names",
        Value::List(vec![Value::Str("x".to_string()), Value::Str("y".to_string())]),
    );
    let mut nodes = Nodes::new(NodeId::root(), Scope::new());
    frame(&mut nodes, &templates, &mut store, &factory);
    assert_eq!(kinds(&nodes), vec!["text", "text", "a"]);

    assert!(store.remove("names", 0));
    store.insert("on", Value::Owned(Owned::Bool(false)));
    let changes = store.drain_dirty_nodes();
    assert_eq!(changes.len(), 2);
    let mut queue = DirtyQueue::new();
    nodes.update_all(&templates, &changes, &mut store, &mut queue);
    let removed: Vec<Vec<usize>> = queue.drain_removed().into_iter().map(|id| id.0).collect();
    assert_eq!(removed, vec![vec![0, 0], vec![1, 0, 0]]);
    assert_eq!(nodes.count(), 1);

    // without changes nothing happens
    let mut queue = DirtyQueue::new();
    nodes.update_all(&templates, &vec![], &mut store, &mut queue);
    assert!(queue.drain_removed().is_empty());
    let mut budget = 10;
    assert!(nodes.expand_tree(&templates, &mut store, &factory, &mut budget).unwrap());
    assert_eq!(texts(&nodes), vec!["y"]);
}

#[test]
fn a_node_that_went_is_told_of_no_change() {
    let templates = compile("if {{ x }}\n    text \"{{ y }}\"\nelse\n    b\n").unwrap();
    let factory = factory();
    let mut store = Store::new();
    store.insert("x", Value::Owned(Owned::Bool(true)));
    store.insert("y", Value::Str("why".to_string()));
    let mut nodes = Nodes::new(NodeId::root(), Scope::new());
    let mut budget = 100;

    begin_frame(&mut nodes, &templates, &mut store);
    assert!(nodes.expand_tree(&templates, &mut store, &factory, &mut budget).unwrap());
    assert_eq!(texts(&nodes), vec!["why"]);

    // the text reads `y`: a change of `y` is reported for it
    store.insert("y", Value::Str("because".to_string()));
    let changes = store.drain_dirty_nodes();
    assert_eq!(changes.len(), 1);
    assert_eq!(changes[0].node.0, vec![0, 0, 0]);

    // the other arm is shown: the text goes, and with it what it reads
    store.insert("x", Value::Owned(Owned::Bool(false)));
    begin_frame(&mut nodes, &templates, &mut store);
    assert_eq!(nodes.count(), 0);
    store.insert("y", Value::Str("never mind".to_string()));
    assert!(store.drain_dirty_nodes().is_empty());
    assert!(nodes.expand_tree(&templates, &mut store, &factory, &mut budget).unwrap());
    assert_eq!(kinds(&nodes), vec!["b"]);

    // a frame without changes leaves the tree as it is
    let before = widgets(&nodes);
    begin_frame(&mut nodes, &templates, &mut store);
    assert!(nodes.expand_tree(&templates, &mut store, &factory, &mut budget).unwrap());
    assert_eq!(widgets(&nodes), before);
}

#[test]
fn instances_change_places_with_their_elements() {
    let templates = compile("for n in names\n    text \"{{ n }}\"\n").unwrap();
    let factory = factory();
    let mut store = Store::new();
    store.insert(
        "names",
        Value::List(vec![
            Value::Str("x".to_string()),
            Value::Str("y".to_string()),
            Value::Str("z".to_string()),
        ]),
    );
    let mut nodes = Nodes::new(NodeId::root(), Scope::new());
    frame(&mut nodes, &templates, &mut store, &factory);
    let before = widgets(&nodes);
    assert_eq!(texts(&nodes), vec!["x", "y", "z"]);

    let mut queue = DirtyQueue::new();
    let the_loop = NodeId::root().child(0);
    nodes.update(&templates, &the_loop, Change::Swap(0, 2), &mut store, &mut queue);
    assert!(queue.drain_removed().is_empty());
    let after = widgets(&nodes);
    assert_eq!(after, vec![before[2].clone(), before[1].clone(), before[0].clone()]);

    // a new element in the middle gets an empty instance with a number of
    // its own; the instances behind it keep their widgets
    nodes.update(&templates, &the_loop, Change::Insert(1), &mut store, &mut queue);
    assert!(queue.drain_removed().is_empty());
    assert_eq!(widgets(&nodes), after);
    match &nodes.inner[0].kind {
        NodeKind::Loop(l) => {
            assert_eq!(l.iterations.len(), 4);
            assert!(l.iterations[1].inner.is_empty());
            assert_eq!(l.iterations[1].parent.0, vec![0, 3]);
            assert_eq!(l.collection.len(), 4);
        }
        _ => panic!(),
    }

    // an element that changes places with one that has no instance yet
    // loses its nodes
    nodes.update(&templates, &the_loop, Change::Swap(0, 9), &mut store, &mut queue);
    let removed: Vec<Vec<usize>> = queue.drain_removed().into_iter().map(|id| id.0).collect();
    assert_eq!(removed, vec![before[2].2[..2].to_vec()]);
    assert_eq!(nodes.count(), 2);

    // a collection that is cleared leaves no instance
    nodes.update(&templates, &the_loop, Change::Clear, &mut store, &mut queue);
    assert_eq!(queue.drain_removed().len(), 4);
    assert_eq!(nodes.count(), 0);
}

#[test]
fn eval_node() {
    let templates = compile("test\n").unwrap();
    let mut factory = Factory::new();
    factory.register_as("test", "text").unwrap();
    let mut state = ();
    let node =
        Node::create(&templates[0], NodeId::root().child(0), &Scope::new(), &mut state, &factory)
            .unwrap();
    match node.kind {
        NodeKind::Single(single) => {
            assert_eq!("text", single.widget.kind);
            assert_eq!("test", single.widget.name);
        }
        _ => panic!("a node template makes a widget"),
    }
}

#[test]
fn each_arm_reads_its_condition_under_its_own_id() {
    let templates = compile("if x\n    a\nelse if y\n    b\n").unwrap();
    let factory = factory();
    let mut store = Store::new();
    store.insert("y", Value::Owned(Owned::Bool(true)));
    let mut nodes = Nodes::new(NodeId::root(), Scope::new());
    frame(&mut nodes, &templates, &mut store, &factory);
    assert_eq!(kinds(&nodes), vec!["b"]);

    // a change of `x` is reported for the first arm, a change of `y` for
    // the second
    store.insert("x", Value::Owned(Owned::Bool(true)));
    let changes = store.drain_dirty_nodes();
    assert_eq!(changes.len(), 1);
    assert_eq!(changes[0].node.0, vec![0, 0]);
    store.insert("y", Value::Owned(Owned::Bool(false)));
    let changes = store.drain_dirty_nodes();
    assert_eq!(changes.len(), 1);
    assert_eq!(changes[0].node.0, vec![0, 1]);
}
