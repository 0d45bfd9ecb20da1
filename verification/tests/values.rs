use anathema::node_id::NodeId;
use anathema::path::Path;
use anathema::state::{
    drain_dirty_nodes, remove_node, Change, DirtyQueue, State, Subscriptions, ValueRef,
};
use anathema::store::{Store, Value};
use anathema::value::{Num, Owned};

fn key(name: &str) -> Path {
    Path::key(name)
}

fn composite(a: Path, b: Path) -> Path {
    Path::Composite(Box::new(a), Box::new(b))
}

fn as_string(value: Option<ValueRef>) -> String {
    match value {
        Some(ValueRef::Str(s)) => s,
        other => panic!("not a string: {:?}", other),
    }
}

#[test]
fn store_from_map() {
    let mut store = Store::new();
    store.insert("name", Value::Str("Fin".to_string()));

    let expected = "Fin";
    let actual = as_string(store.get(&key("name"), None));
    assert_eq!(expected, actual);
    assert!(store.get(&key("age"), None).is_none());
}

#[test]
fn store_from_nested_maps() {
    let mut store = Store::new();
    let fin = Value::Dict(vec![("name".to_string(), Value::Str("Fin".to_string()))]);
    let people = Value::Dict(vec![("fin".to_string(), fin)]);
    store.insert("people", people);

    let path = composite(composite(key("people"), key("fin")), key("name"));
    assert_eq!(as_string(store.get(&path, None)), "Fin");

    match store.get(&key("people"), None) {
        Some(ValueRef::Dict(1)) => {}
        other => panic!("{:?}", other),
    }
    let missing = composite(key("people"), key("bob"));
    assert!(store.get(&missing, None).is_none());
}

#[test]
fn add_to_collection() {
    let mut store = Store::new();
    store.insert("list", Value::List(vec![]));
    let root = NodeId::root();
    assert!(store.get(&key("list"), Some(&root)).is_some());
    assert!(store.drain_dirty_nodes().is_empty());

    assert!(store.push("list", Value::Owned(Owned::Num(Num::Unsigned(1)))));
    let mut notifications = store.drain_dirty_nodes();
    assert_eq!(notifications.len(), 1);
    let first = notifications.remove(0);
    assert_eq!(first.change, Change::Push);
    assert!(first.node.same(&root));
    assert!(store.drain_dirty_nodes().is_empty());

    match store.get(&key("list"), None) {
        Some(ValueRef::List(1)) => {}
        other => panic!("{:?}", other),
    }
}

#[test]
fn remove_from_collection() {
    let mut store = Store::new();
    store.insert(
        "names",
        Value::List(vec![Value::Str("x".to_string()), Value::Str("y".to_string())]),
    );
    let reader = NodeId::root().child(0);
    store.get(&key("names"), Some(&reader));
    assert!(!store.remove("names", 2));
    assert!(!store.remove("nobody", 0));
    assert!(store.drain_dirty_nodes().is_empty());
    assert!(store.remove("names", 0));
    let changes = store.drain_dirty_nodes();
    assert_eq!(changes.len(), 1);
    assert_eq!(changes[0].change, Change::Remove(0));
    let first = composite(key("names"), Path::Index(0));
    assert_eq!(as_string(store.get(&first, None)), "y");
}

#[test]
fn a_change_is_reported_once_to_each_reader() {
    let mut store = Store::new();
    store.insert("counter", Value::Owned(Owned::Num(Num::Unsigned(0))));
    let a = NodeId::root().child(0);
    let b = NodeId::root().child(1);
    store.get(&key("counter"), Some(&a));
    store.get(&key("counter"), Some(&a));
    store.get(&key("counter"), Some(&b));
    store.insert("counter", Value::Owned(Owned::Num(Num::Unsigned(1))));
    let changes = store.drain_dirty_nodes();
    assert_eq!(changes.len(), 2);
    assert!(changes[0].node.same(&a));
    assert!(changes[1].node.same(&b));
    assert_eq!(changes[0].change, Change::Modified);
}

#[test]
fn removed_nodes_lose_their_subscriptions() {
    let mut store = Store::new();
    store.insert("x", Value::Owned(Owned::Bool(true)));
    let kept = NodeId::root().child(1);
    let removed = NodeId::root().child(0);
    let under = removed.child(3);
    store.get(&key("x"), Some(&kept));
    store.get(&key("x"), Some(&removed));
    store.get(&key("x"), Some(&under));

    store.remove_node(removed.duplicate());
    store.release_removed();

    store.insert("x", Value::Owned(Owned::Bool(false)));
    let changes = store.drain_dirty_nodes();
    assert_eq!(changes.len(), 1);
    assert!(changes[0].node.same(&kept));
}

#[test]
fn the_queue_hands_out_what_was_pushed_in_order() {
    let mut queue = DirtyQueue::new();
    queue.push(NodeId::root().child(2), Change::Push);
    queue.push(NodeId::root().child(1), Change::Remove(4));
    remove_node(&mut queue, NodeId::root().child(9));
    let drained = drain_dirty_nodes(&mut queue);
    assert_eq!(drained.len(), 2);
    assert!(drained[0].node.same(&NodeId::root().child(2)));
    assert_eq!(drained[1].change, Change::Remove(4));
    assert!(drain_dirty_nodes(&mut queue).is_empty());
    let removed = queue.drain_removed();
    assert_eq!(removed.len(), 1);
}

#[test]
fn truthiness() {
    assert!(ValueRef::Str("a".to_string()).is_true());
    assert!(!ValueRef::Str(String::new()).is_true());
    assert!(ValueRef::Owned(Owned::Bool(true)).is_true());
    assert!(!ValueRef::Owned(Owned::Bool(false)).is_true());
    assert!(ValueRef::Owned(Owned::Num(Num::Signed(-1))).is_true());
    assert!(!ValueRef::Owned(Owned::Num(Num::Unsigned(0))).is_true());
    assert!(!ValueRef::List(3).is_true());
}

#[test]
fn values_of_different_shapes_are_unequal() {
    let one = ValueRef::Owned(Owned::Num(Num::Unsigned(1)));
    assert!(one.equals(&ValueRef::Owned(Owned::Num(Num::Unsigned(1)))));
    assert!(!one.equals(&ValueRef::Str("1".to_string())));
    assert!(!ValueRef::List(1).equals(&ValueRef::List(1)));
    assert!(ValueRef::Str("a".to_string()).equals(&ValueRef::Str("a".to_string())));
}

#[test]
fn the_unit_state_holds_nothing() {
    let mut state = ();
    assert!(state.get(&key("anything"), None).is_none());
}

#[test]
fn register_change() {
    let mut store = Store::new();
    store.insert("value", Value::Owned(Owned::Num(Num::Signed(1))));
    let root = NodeId::root();
    let mut counter = 0;
    let next = root.next(&mut counter);
    store.get(&key("value"), Some(&root));
    store.get(&key("value"), Some(&next));
    assert!(store.drain_dirty_nodes().is_empty());
    store.insert("value", Value::Owned(Owned::Num(Num::Signed(2))));
    let mut notifications = store.drain_dirty_nodes();
    let first = notifications.remove(0);
    assert_eq!(first.change, Change::Modified);
    assert!(first.node.same(&root));
    let second = notifications.remove(0);
    assert_eq!(second.change, Change::Modified);
    assert!(second.node.same(&next));
}

#[test]
fn changes_are_reported_in_the_order_of_the_nodes() {
    let mut subscriptions = Subscriptions::new();
    let path = Path::Key("names".to_string());
    let root = NodeId::root();
    // subscribed in no order
    subscriptions.subscribe(&path, &root.child(2));
    subscriptions.subscribe(&path, &root.child(0).child(1));
    subscriptions.subscribe(&path, &root.child(0));
    subscriptions.subscribe(&path, &root.child(0).child(1));
    subscriptions.subscribe(&Path::Key("other".to_string()), &root.child(1));
    assert_eq!(subscriptions.len(), 4);

    let mut queue = DirtyQueue::new();
    subscriptions.notify(&path, Change::Push, &mut queue);
    let nodes: Vec<Vec<usize>> =
        drain_dirty_nodes(&mut queue).into_iter().map(|dirty| dirty.node.0).collect();
    assert_eq!(nodes, vec![vec![0], vec![0, 1], vec![2]]);
}
