use anathema::compiler::compile;
use anathema::constants::{CondId, Conditions};
use anathema::error::Error;
use anathema::node_id::NodeId;
use anathema::nodes::{select, Node, NodeKind, Nodes};
use anathema::path::Path;
use anathema::resolver::{apply, path_of, resolve};
use anathema::scope::{Collection, Scope, ScopeValue};
use anathema::state::{
    drain_notifications, Change, DirtyQueue, RequestedChange, State, ValueRef,
};
use anathema::store::{Store, Value};
use anathema::template::Template;
use anathema::testing::{
    add, and, boolean, div, dot, eq, ident, index, inum, list, modulo, mul, neg, not, or, strlit,
    sub, unum, Inner,
};
use anathema::token::{Kind, Operator, Token, Tokens};
use anathema::value::{BinaryOp, Num, Owned, UnaryOp, ValueExpr};
use anathema::widget::{Factory, LocalPos, Pos, Size, WidgetContainer};

fn unsigned(n: u64) -> ValueRef {
    ValueRef::Owned(Owned::Num(Num::Unsigned(n)))
}

fn signed(n: i64) -> ValueRef {
    ValueRef::Owned(Owned::Num(Num::Signed(n)))
}

fn truth(b: bool) -> ValueRef {
    ValueRef::Owned(Owned::Bool(b))
}

#[test]
fn scope_value() {
    let mut root = Scope::new();
    root.scope(Path::key("value"), ScopeValue::Static("hello world".to_string()));

    let mut inner = root.from_self();
    let value = inner.lookup_parent(&Path::key("value")).unwrap().duplicate();
    inner.scope(Path::key("shadow"), value);

    let ScopeValue::Static(lhs) = inner.lookup(&Path::key("shadow")).unwrap() else { panic!() };
    let ScopeValue::Static(rhs) = inner.lookup(&Path::key("value")).unwrap() else { panic!() };
    assert_eq!(lhs, rhs);
}

#[test]
fn inner_frames_hide_and_never_change_outer_ones() {
    let mut root = Scope::new();
    root.scope(Path::key("x"), ScopeValue::Static("outer".to_string()));
    let mut inner = root.from_self();
    inner.scope(Path::key("x"), ScopeValue::Static("inner".to_string()));
    inner.scope(Path::key("x"), ScopeValue::Static("latest".to_string()));

    let ScopeValue::Static(seen) = inner.lookup(&Path::key("x")).unwrap() else { panic!() };
    assert_eq!(seen, "latest");
    let ScopeValue::Static(above) = inner.lookup_parent(&Path::key("x")).unwrap() else {
        panic!()
    };
    assert_eq!(above, "outer");
    let ScopeValue::Static(kept) = root.lookup(&Path::key("x")).unwrap() else { panic!() };
    assert_eq!(kept, "outer");
    assert!(root.lookup(&Path::key("y")).is_none());
    assert!(root.lookup_parent(&Path::key("x")).is_none());
}

#[test]
fn scope_lists_and_collections() {
    let mut scope = Scope::new();
    let items = vec![ScopeValue::Static("a".to_string()), ScopeValue::Static("b".to_string())];
    scope.scope(Path::key("items"), ScopeValue::List(items));
    assert_eq!(scope.lookup_list(&Path::key("items")).unwrap().len(), 2);
    assert!(scope.lookup_list(&Path::key("nothing")).is_none());

    let fixed = Collection::Static(vec![ScopeValue::Static("1".to_string())]);
    assert_eq!(fixed.len(), 1);
    scope.scope_collection(Path::key("it"), &fixed, 0);
    let ScopeValue::Static(bound) = scope.lookup(&Path::key("it")).unwrap() else { panic!() };
    assert_eq!(bound, "1");
    assert!(fixed.get(1).is_none());

    let mut names = Collection::State { path: Path::key("names"), len: 2 };
    scope.scope_collection(Path::key("n"), &names, 1);
    let ScopeValue::Dyn(path) = scope.lookup(&Path::key("n")).unwrap() else { panic!() };
    assert!(path.same(&Path::key("names").compose(1)));
    names.apply(Change::Push);
    assert_eq!(names.len(), 3);
    // an element that is gone makes the collection shorter, wherever it
    // stood
    names.apply(Change::Remove(5));
    assert_eq!(names.len(), 2);
    names.apply(Change::Remove(0));
    assert_eq!(names.len(), 1);
    // a new element counts where it stands within the collection or at
    // its end
    names.apply(Change::Insert(2));
    assert_eq!(names.len(), 1);
    names.apply(Change::Insert(1));
    assert_eq!(names.len(), 2);
    names.apply(Change::Swap(0, 1));
    names.apply(Change::Modified);
    assert_eq!(names.len(), 2);
    names.apply(Change::Remove(0));
    names.apply(Change::Remove(0));
    names.apply(Change::Remove(0));
    assert_eq!(names.len(), 0);
    names.apply(Change::Push);
    names.apply(Change::Push);
    names.apply(Change::Clear);
    assert_eq!(names.len(), 0);
    assert_eq!(Collection::Empty.len(), 0);
}

#[test]
fn node_ids() {
    let root = NodeId::root();
    assert!(root.0.is_empty());
    let child = root.child(2);
    assert_eq!(child.0, vec![2]);
    // a new node under a node gets the number that the counter holds
    let mut counter = 7;
    assert_eq!(child.next(&mut counter).0, vec![2, 7]);
    assert_eq!(NodeId::root().next(&mut counter).0, vec![8]);
    assert_eq!(counter, 9);
    let mut counter = usize::MAX;
    assert_eq!(child.next(&mut counter).0, vec![2, usize::MAX]);
    assert_eq!(counter, 0);
    assert!(root.contains(&child));
    assert!(child.contains(&child));
    assert!(child.contains(&child.child(7)));
    assert!(!child.contains(&root));
    assert!(!child.contains(&root.child(3).child(2)));
    assert!(child.same(&root.child(2)));
    assert!(!child.same(&root.child(1)));
}

#[test]
fn node_ids_are_ordered_by_place() {
    let id = |parts: &[usize]| NodeId(parts.to_vec());
    assert!(id(&[]).precedes(&id(&[0])));
    assert!(id(&[0]).precedes(&id(&[0, 0])));
    assert!(id(&[0, 9]).precedes(&id(&[1])));
    assert!(id(&[1, 2]).precedes(&id(&[1, 3])));
    assert!(!id(&[1]).precedes(&id(&[1])));
    assert!(!id(&[2]).precedes(&id(&[1, 5])));
    assert!(!id(&[0]).precedes(&id(&[])));
}

#[test]
fn paths_compose() {
    let path = Path::key("a").compose(3);
    match &path {
        Path::Composite(first, second) => {
            assert!(first.same(&Path::key("a")));
            assert!(second.same(&Path::Index(3)));
        }
        _ => panic!(),
    }
    assert!(path.duplicate().same(&path));
    assert!(!path.same(&Path::key("a").compose(4)));
    assert!(!Path::key("a").same(&Path::Index(0)));
}

#[test]
fn expressions_write_paths() {
    let expr = index(dot(ident("a"), ident("b")), unum(0));
    let expected = Path::Composite(
        Box::new(Path::Composite(Box::new(Path::key("a")), Box::new(Path::key("b")))),
        Box::new(Path::Index(0)),
    );
    assert!(path_of(&expr).unwrap().same(&expected));
    let by_key = index(ident("map"), strlit("key"));
    assert!(path_of(&by_key).unwrap().same(&Path::Composite(
        Box::new(Path::key("map")),
        Box::new(Path::key("key"))
    )));
    assert!(path_of(&add(unum(1), unum(2))).is_none());
    assert!(path_of(&index(ident("a"), ident("i"))).is_none());
}

#[test]
fn builders_build_what_they_say() {
    let one = || unum(1);
    let two = || unum(2);
    let binary = |op, e: Box<ValueExpr>| match *e {
        ValueExpr::Binary(found, l, r) => found == op && l.same(&unum(1)) && r.same(&unum(2)),
        _ => false,
    };
    assert!(binary(BinaryOp::Add, add(one(), two())));
    assert!(binary(BinaryOp::Sub, sub(one(), two())));
    assert!(binary(BinaryOp::Mul, mul(one(), two())));
    assert!(binary(BinaryOp::Div, div(one(), two())));
    assert!(binary(BinaryOp::Mod, modulo(one(), two())));
    assert!(binary(BinaryOp::Equality, eq(one(), two())));
    assert!(binary(BinaryOp::And, and(one(), two())));
    assert!(binary(BinaryOp::Or, or(one(), two())));
    assert!(matches!(*neg(one()), ValueExpr::Unary(UnaryOp::Negative, e) if e.same(&unum(1))));
    assert!(matches!(*not(one()), ValueExpr::Unary(UnaryOp::Not, e) if e.same(&unum(1))));
    assert!(matches!(*inum(-3), ValueExpr::Owned(Owned::Num(Num::Signed(-3)))));
    assert!(matches!(*boolean(true), ValueExpr::Owned(Owned::Bool(true))));
    assert!(matches!(*strlit("s"), ValueExpr::String(s) if s == "s"));
    assert!(matches!(*ident("i"), ValueExpr::Ident(s) if s == "i"));
    assert!(matches!(*dot(one(), two()), ValueExpr::Dot(l, r) if l.same(&unum(1)) && r.same(&unum(2))));
    assert!(
        matches!(*index(one(), two()), ValueExpr::Index(l, r) if l.same(&unum(1)) && r.same(&unum(2)))
    );
    match *list(vec![*one(), *two()]) {
        ValueExpr::List(items) => {
            assert_eq!(items.len(), 2);
            assert!(items[1].same(&unum(2)));
        }
        _ => panic!(),
    }
    let copy = add(one(), list(vec![*two()])).duplicate();
    assert!(copy.same(&add(one(), list(vec![*two()]))));
    assert!(!copy.same(&add(one(), list(vec![]))));
}

#[test]
fn arithmetic_and_logic() {
    let check = |op, a: &ValueRef, b: &ValueRef, expected: Option<ValueRef>| {
        match (apply(op, a, b), expected) {
            (Some(found), Some(expected)) => assert!(found.equals(&expected), "{:?}", found),
            (None, None) => {}
            (found, expected) => panic!("{:?} is not {:?}", found, expected),
        }
    };
    check(BinaryOp::Add, &unsigned(2), &unsigned(3), Some(unsigned(5)));
    check(BinaryOp::Add, &unsigned(u64::MAX), &unsigned(1), None);
    check(BinaryOp::Sub, &unsigned(2), &unsigned(3), None);
    check(BinaryOp::Sub, &signed(2), &signed(3), Some(signed(-1)));
    check(BinaryOp::Sub, &signed(i64::MIN), &signed(1), None);
    check(BinaryOp::Mul, &unsigned(6), &unsigned(7), Some(unsigned(42)));
    check(BinaryOp::Mul, &signed(i64::MAX), &signed(2), None);
    check(BinaryOp::Div, &unsigned(7), &unsigned(2), Some(unsigned(3)));
    check(BinaryOp::Div, &unsigned(7), &unsigned(0), None);
    check(BinaryOp::Mod, &unsigned(7), &unsigned(4), Some(unsigned(3)));
    check(BinaryOp::Mod, &signed(7), &signed(4), Some(signed(3)));
    check(BinaryOp::Div, &signed(-7), &signed(2), None);
    check(BinaryOp::Add, &unsigned(1), &signed(1), None);
    check(BinaryOp::Add, &ValueRef::Str("a".into()), &unsigned(1), None);
    check(BinaryOp::Less, &unsigned(1), &unsigned(2), Some(truth(true)));
    check(BinaryOp::LessEqual, &signed(2), &signed(2), Some(truth(true)));
    check(BinaryOp::Greater, &signed(-1), &signed(2), Some(truth(false)));
    check(BinaryOp::GreaterEqual, &unsigned(1), &unsigned(2), Some(truth(false)));
    check(BinaryOp::Equality, &unsigned(1), &signed(1), Some(truth(false)));
    check(BinaryOp::Equality, &ValueRef::Str("a".into()), &ValueRef::Str("a".into()), Some(truth(true)));
    check(BinaryOp::And, &truth(true), &ValueRef::Str(String::new()), Some(truth(false)));
    check(BinaryOp::Or, &truth(false), &unsigned(3), Some(truth(true)));
}

#[test]
fn expressions_resolve_against_scope_and_state() {
    let mut state = Inner::new();
    let mut scope = Scope::new();
    scope.scope(Path::key("greeting"), ScopeValue::Static("hi".to_string()));
    scope.scope(Path::key("person"), ScopeValue::Dyn(Path::key("names").compose(1)));
    let node = NodeId::root().child(0);
    let mut get = |e: Box<ValueExpr>| resolve(&e, &scope, &mut state, Some(&node));

    assert!(get(ident("greeting")).unwrap().equals(&ValueRef::Str("hi".into())));
    assert!(get(ident("name")).unwrap().equals(&ValueRef::Str("Fiddle McStick".into())));
    assert!(get(ident("person")).unwrap().equals(&ValueRef::Str("bobby".into())));
    assert!(get(index(ident("names"), unum(0))).unwrap().equals(&ValueRef::Str("arthur".into())));
    assert!(matches!(get(ident("names")), Some(ValueRef::List(2))));
    assert!(get(ident("nobody")).is_none());
    assert!(get(index(ident("names"), unum(2))).is_none());
    assert!(get(add(unum(1), mul(unum(2), unum(3)))).unwrap().equals(&unsigned(7)));
    assert!(get(neg(unum(3))).unwrap().equals(&signed(-3)));
    assert!(get(neg(inum(i64::MIN))).is_none());
    assert!(get(not(ident("name"))).unwrap().equals(&truth(false)));
    assert!(get(eq(ident("greeting"), strlit("hi"))).unwrap().equals(&truth(true)));
    assert!(get(and(ident("greeting"), boolean(false))).unwrap().equals(&truth(false)));
    assert!(matches!(get(list(vec![*unum(1)])), Some(ValueRef::Expressions(e)) if e.len() == 1));
}

#[test]
fn the_registry_of_kinds() {
    let mut factory = Factory::new();
    assert!(factory.register("text").is_ok());
    assert!(matches!(factory.register("text"), Err(Error::ExistingName(name)) if name == "text"));
    assert!(matches!(factory.register("for"), Err(Error::ReservedName(name)) if name == "for"));
    assert!(matches!(factory.register("view"), Err(Error::ReservedName(_))));
    assert!(factory.knows(&"text".to_string()));
    assert!(!factory.knows(&"border".to_string()));
    let widget = factory
        .exec(&"text".to_string(), NodeId::root().child(1), "hi".to_string(), vec![])
        .unwrap();
    assert_eq!(widget.kind, "text");
    assert_eq!(widget.text, "hi");
    assert_eq!(widget.node_id.0, vec![1]);
    assert!(matches!(
        factory.exec(&"border".to_string(), NodeId::root(), String::new(), vec![]),
        Err(Error::UnregisteredWidget(name)) if name == "border"
    ));
}

#[test]
fn widget_sizes_and_places() {
    let mut widget =
        WidgetContainer::new("w".to_string(), NodeId::root(), String::new(), vec![]);
    widget.size = Size::new(10, 4);
    widget.padding.left = 1;
    widget.padding.right = 2;
    widget.padding.top = 3;
    widget.padding.bottom = 3;
    assert_eq!(widget.outer_size(), Size::new(10, 4));
    assert_eq!(widget.inner_size(), Size::new(7, 0));
    widget.pos = Pos::new(2, 1);
    assert_eq!(widget.pos(), Pos::new(2, 1));
    assert_eq!(widget.screen_to_local(5, 1), Some(LocalPos { x: 3, y: 0 }));
    assert_eq!(widget.screen_to_local(1, 1), None);
    widget.pos = Pos::new(-1, 0);
    assert_eq!(widget.screen_to_local(5, 1), None);
}

#[test]
fn the_token_cursor() {
    let tokens = vec![
        Token(Kind::Indent(2), 0),
        Kind::Newline.to_token(2),
        Kind::Newline.to_token(3),
        Token(Kind::Op(Operator::Plus), 4),
    ];
    let mut cursor = Tokens::new(tokens, 5);
    assert_eq!(cursor.peek(), Token(Kind::Indent(2), 0));
    assert_eq!(cursor.peek_skip_indent(), Token(Kind::Newline, 2));
    cursor.consume_newlines();
    assert_eq!(cursor.next(), Token(Kind::Op(Operator::Plus), 4));
    assert_eq!(cursor.next(), Token(Kind::Eof, 5));
    assert_eq!(cursor.next_no_indent(), Token(Kind::Eof, 5));
    cursor.consume();
    cursor.consume_indent();
    assert_eq!(cursor.peek(), Token(Kind::Eof, 5));
}

#[test]
fn the_first_true_arm_is_chosen() {
    assert_eq!(select(&vec![false, true, true]), Some(1));
    assert_eq!(select(&vec![false, false]), None);
    assert_eq!(select(&vec![]), None);
}

fn expand(nodes: &mut Nodes, templates: &Vec<Template>, state: &mut impl State, factory: &Factory) {
    while let Some(result) = nodes.next(templates, state, factory) {
        result.unwrap();
    }
}

fn all_ids(nodes: &Nodes, out: &mut Vec<Vec<usize>>) {
    for node in &nodes.inner {
        ids_of(node, out);
    }
}

fn ids_of(node: &Node, out: &mut Vec<Vec<usize>>) {
    out.push(node.node_id.0.clone());
    match &node.kind {
        NodeKind::Single(single) => all_ids(&single.children, out),
        NodeKind::Loop(l) => l.iterations.iter().for_each(|run| all_ids(run, out)),
        NodeKind::ControlFlow(cf) => cf.arms.iter().for_each(|arm| {
            out.push(arm.body.parent.0.clone());
            all_ids(&arm.body, out)
        }),
        NodeKind::View => {}
    }
}

#[test]
fn no_id_stands_twice_and_loops_are_as_long_as_their_lists() {
    let source = "for a in [1, 2]\n    for b in names\n        x\n    if a\n        y\n    else\n        z\nx\n";
    let templates = compile(source).unwrap();
    let mut factory = Factory::new();
    for kind in ["x", "y", "z"] {
        factory.register(kind).unwrap();
    }
    let mut store = Store::new();
    store.insert("names", Value::List(vec![Value::Str("n".into()), Value::Str("m".into())]));
    let mut nodes = Nodes::new(NodeId::root(), Scope::new());
    expand(&mut nodes, &templates, &mut store, &factory);

    let mut ids = vec![];
    all_ids(&nodes, &mut ids);
    let mut unique = ids.clone();
    unique.sort();
    unique.dedup();
    assert_eq!(unique.len(), ids.len());
    assert_eq!(nodes.count(), 2 * (2 + 1) + 1);

    match &nodes.inner[0].kind {
        NodeKind::Loop(outer) => {
            assert_eq!(outer.iterations.len(), outer.collection.len());
            for run in &outer.iterations {
                match &run.inner[0].kind {
                    NodeKind::Loop(inner) => {
                        assert_eq!(inner.iterations.len(), 2);
                        for (k, instance) in inner.iterations.iter().enumerate() {
                            let ScopeValue::Dyn(bound) =
                                instance.scope.lookup(&Path::key("b")).unwrap()
                            else {
                                panic!()
                            };
                            assert!(bound.same(&Path::key("names").compose(k)));
                        }
                    }
                    _ => panic!(),
                }
                match &run.inner[1].kind {
                    NodeKind::ControlFlow(cf) => {
                        let shown = cf.arms.iter().filter(|arm| !arm.body.inner.is_empty()).count();
                        assert_eq!(shown, 1);
                        assert_eq!(cf.active(), Some(0));
                    }
                    _ => panic!(),
                }
            }
        }
        _ => panic!(),
    }
}

#[test]
fn a_loop_that_ran_out_of_numbers_fails() {
    let templates = compile("for a in [1, 2]\n    x\n").unwrap();
    let mut factory = Factory::new();
    factory.register("x").unwrap();
    let mut state = ();
    let mut nodes = Nodes::new(NodeId::root(), Scope::new());
    assert!(matches!(nodes.next(&templates, &mut state, &factory), Some(Ok(()))));
    match &mut nodes.inner[0].kind {
        NodeKind::Loop(l) => l.next_index = usize::MAX,
        _ => panic!(),
    }
    assert!(matches!(
        nodes.next(&templates, &mut state, &factory),
        Some(Err(Error::TooManyNodes))
    ));
    assert_eq!(nodes.count(), 1);
}

#[test]
fn conditions_are_interned_by_value() {
    let mut conditions = Conditions::empty();
    let first = conditions.push(*anathema::testing::ident("x"));
    let second = conditions.push(*anathema::testing::eq(
        anathema::testing::ident("x"),
        anathema::testing::unum(1),
    ));
    let again = conditions.push(*anathema::testing::ident("x"));
    assert_eq!(first, CondId(0));
    assert_eq!(second, CondId(1));
    assert_eq!(again, first);
    assert!(conditions.get(first).unwrap().same(&anathema::testing::ident("x")));
    assert!(conditions.get(CondId(2)).is_none());
}

#[test]
fn notifications_come_out_in_the_order_of_the_changes() {
    let mut queue = DirtyQueue::new();
    assert!(drain_notifications(&mut queue).is_empty());
    let root = NodeId::root();
    queue.push(root.child(0), Change::Modified);
    queue.push(root.child(1), Change::Push);
    queue.push(root.child(0), Change::Remove(3));
    let drained = drain_notifications(&mut queue);
    let pairs: Vec<(Change, Vec<usize>)> =
        drained.into_iter().map(|(change, node)| (change, node.0)).collect();
    assert_eq!(
        pairs,
        vec![
            (Change::Modified, vec![0]),
            (Change::Push, vec![1]),
            (Change::Remove(3), vec![0]),
        ]
    );
    assert!(drain_notifications(&mut queue).is_empty());

    let RequestedChange::Path(path) = RequestedChange::Path(Path::Key("a".to_string()));
    assert!(path.same(&Path::Key("a".to_string())));
}
