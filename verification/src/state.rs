//! What the engine needs of the application's state: values by path,
//! subscriptions of nodes to paths, and the queue of changes.
use vstd::prelude::*;
use crate::node_id::{before, is_prefix, lemma_before_chain, NodeId};
use crate::path::{Path, PathView};
use crate::value::{terms_of, Num, Owned, Term, ValueExpr};

verus! {

/// What happened to a value, or to the collection that a node reads.
#[derive(Debug, Copy, Clone, PartialEq, Eq, Structural)]
pub enum Change {
    Modified,
    Insert(usize),
    Remove(usize),
    Swap(usize, usize),
    Push,
    Clear,
}

/// A value as the engine sees it: a string, a scalar, a list of expressions
/// that a template wrote, or a collection of the state, of which the
/// length is known and the elements are reached by path.
#[derive(Debug)]
pub enum ValueRef {
    Str(String),
    Owned(Owned),
    Expressions(Vec<ValueExpr>),
    List(usize),
    Dict(usize),
}

/// The mathematical form of a [`ValueRef`].
pub enum Seen {
    Str(Seq<char>),
    Owned(Owned),
    Expressions(Seq<Term>),
    List(usize),
    Dict(usize),
}

impl View for ValueRef {
    type V = Seen;

    open spec fn view(&self) -> Seen {
        match self {
            ValueRef::Str(s) => Seen::Str(s@),
            ValueRef::Owned(o) => Seen::Owned(*o),
            ValueRef::Expressions(e) => Seen::Expressions(terms_of(e@)),
            ValueRef::List(n) => Seen::List(*n),
            ValueRef::Dict(n) => Seen::Dict(*n),
        }
    }
}

/// A string that is not empty, `true`, and a number that is not zero are
/// true; everything else is false.
pub open spec fn truthy(v: Seen) -> bool {
    match v {
        Seen::Str(s) => s.len() > 0,
        Seen::Owned(Owned::Bool(b)) => b,
        Seen::Owned(Owned::Num(Num::Signed(n))) => n != 0,
        Seen::Owned(Owned::Num(Num::Unsigned(n))) => n != 0,
        _ => false,
    }
}

/// Two values of the same shape are equal when they hold the same: strings
/// and scalars by value, lists of expressions by how they are written.
/// Values of different shapes are unequal, and so are two collections of
/// the state, whose elements a value does not hold.
pub open spec fn equal(a: Seen, b: Seen) -> bool {
    match (a, b) {
        (Seen::Str(x), Seen::Str(y)) => x == y,
        (Seen::Owned(x), Seen::Owned(y)) => x == y,
        (Seen::Expressions(x), Seen::Expressions(y)) => x == y,
        _ => false,
    }
}

impl ValueRef {
    pub fn is_true(&self) -> (b: bool)
        ensures
            b == truthy(self@),
    {
        match self {
            ValueRef::Str(s) => !s.as_str().is_empty(),
            ValueRef::Owned(Owned::Bool(b)) => *b,
            ValueRef::Owned(Owned::Num(Num::Signed(n))) => *n != 0,
            ValueRef::Owned(Owned::Num(Num::Unsigned(n))) => *n != 0,
            _ => false,
        }
    }

    /// Whether two values are equal; see [`equal`].
    pub fn equals(&self, other: &ValueRef) -> (b: bool)
        ensures
            b == equal(self@, other@),
    {
        match (self, other) {
            (ValueRef::Str(a), ValueRef::Str(b)) => *a == *b,
            (ValueRef::Owned(a), ValueRef::Owned(b)) => *a == *b,
            (ValueRef::Expressions(a), ValueRef::Expressions(b)) => same_expressions(a, b),
            _ => false,
        }
    }

    /// The number of elements, of a list or a map; zero of everything else.
    pub fn len(&self) -> (n: usize)
        ensures
            n == count(self@),
    {
        match self {
            ValueRef::Expressions(e) => e.len(),
            ValueRef::List(n) => *n,
            ValueRef::Dict(n) => *n,
            _ => 0,
        }
    }
}

/// The number of elements of a value.
pub open spec fn count(v: Seen) -> nat {
    match v {
        Seen::Expressions(e) => e.len(),
        Seen::List(n) => n as nat,
        Seen::Dict(n) => n as nat,
        _ => 0,
    }
}

fn same_expressions(a: &Vec<ValueExpr>, b: &Vec<ValueExpr>) -> (r: bool)
    ensures
        r == (terms_of(a@) == terms_of(b@)),
{
    if a.len() != b.len() {
        assert(terms_of(a@).len() != terms_of(b@).len());
        return false;
    }
    let mut i: usize = 0;
    while i < a.len()
        invariant
            i <= a.len(),
            a.len() == b.len(),
            forall|j: int| 0 <= j < i ==> a[j]@ == b[j]@,
        decreases a.len() - i,
    {
        if !a[i].same(&b[i]) {
            assert(terms_of(a@)[i as int] == a[i as int]@);
            assert(terms_of(b@)[i as int] == b[i as int]@);
            return false;
        }
        i += 1;
    }
    assert(terms_of(a@) =~= terms_of(b@));
    true
}

pub open spec fn seen_view(v: Option<ValueRef>) -> Option<Seen> {
    match v {
        Some(v) => Some(v@),
        None => None,
    }
}

/// The state of the application, as the engine reads it. A state that is
/// asked for a value on behalf of a node records that the node reads the
/// path, so that a later change of the value is reported for the node.
/// Reading changes no value.
pub trait State {
    /// The value that the state holds at `key`, as the engine sees it.
    spec fn value(&self, key: PathView) -> Option<Seen>;

    /// The changes that the state has reported and that wait to be taken
    /// in.
    spec fn pending(&self) -> Seq<(Seq<usize>, Change)>;

    /// The subscriptions that the state has recorded: which node reads
    /// which path.
    spec fn subscribed(&self) -> Seq<(PathView, Seq<usize>)>;

    /// The subscriptions after `node` has read `key`, when they were
    /// `readers` before.
    spec fn with_reader(
        readers: Seq<(PathView, Seq<usize>)>,
        key: PathView,
        node: Seq<usize>,
    ) -> Seq<(PathView, Seq<usize>)>;

    fn get(&mut self, key: &Path, node_id: Option<&NodeId>) -> (r: Option<ValueRef>)
        ensures
            seen_view(r) == old(self).value(key@),
            forall|k: PathView| #[trigger] final(self).value(k) == old(self).value(k),
            final(self).pending() == old(self).pending(),
            final(self).subscribed() == match node_id {
                Some(id) => Self::with_reader(old(self).subscribed(), key@, id@),
                None => old(self).subscribed(),
            },
    ;
}

/// The view of the id of the node that a value is read for, if it is read
/// for one.
pub open spec fn id_view(node_id: Option<&NodeId>) -> Option<Seq<usize>> {
    match node_id {
        Some(id) => Some(id@),
        None => None,
    }
}

/// The subscriptions after `node` has read the paths `paths`, one after
/// the other.
pub open spec fn record_all<S: State>(
    readers: Seq<(PathView, Seq<usize>)>,
    paths: Seq<PathView>,
    node: Seq<usize>,
) -> Seq<(PathView, Seq<usize>)>
    decreases paths.len(),
{
    if paths.len() == 0 {
        readers
    } else {
        S::with_reader(record_all::<S>(readers, paths.drop_last(), node), paths.last(), node)
    }
}

/// The subscriptions after the paths `paths` were read, for `node` if
/// they were read for a node.
pub open spec fn record_for<S: State>(
    readers: Seq<(PathView, Seq<usize>)>,
    paths: Seq<PathView>,
    node: Option<Seq<usize>>,
) -> Seq<(PathView, Seq<usize>)> {
    match node {
        Some(id) => record_all::<S>(readers, paths, id),
        None => readers,
    }
}

/// To read some paths and then some more is to read them all in a row.
pub proof fn lemma_record_concat<S: State>(
    readers: Seq<(PathView, Seq<usize>)>,
    first: Seq<PathView>,
    second: Seq<PathView>,
    node: Seq<usize>,
)
    ensures
        record_all::<S>(readers, first + second, node) == record_all::<S>(
            record_all::<S>(readers, first, node),
            second,
            node,
        ),
    decreases second.len(),
{
    if second.len() == 0 {
        assert(first + second =~= first);
    } else {
        lemma_record_concat::<S>(readers, first, second.drop_last(), node);
        assert((first + second).drop_last() =~= first + second.drop_last());
        assert((first + second).last() == second.last());
    }
}

/// A state that holds nothing.
impl State for () {
    open spec fn value(&self, key: PathView) -> Option<Seen> {
        None
    }

    open spec fn pending(&self) -> Seq<(Seq<usize>, Change)> {
        Seq::empty()
    }

    open spec fn subscribed(&self) -> Seq<(PathView, Seq<usize>)> {
        Seq::empty()
    }

    /// Nothing ever changes in a state that holds nothing, so it records
    /// no reader.
    open spec fn with_reader(
        readers: Seq<(PathView, Seq<usize>)>,
        key: PathView,
        node: Seq<usize>,
    ) -> Seq<(PathView, Seq<usize>)> {
        Seq::empty()
    }

    fn get(&mut self, key: &Path, node_id: Option<&NodeId>) -> (r: Option<ValueRef>) {
        None
    }
}

/// One pair of the queue of changes: the node, and what happened.
pub struct Dirty {
    pub node: NodeId,
    pub change: Change,
}

pub open spec fn dirty_view(d: Dirty) -> (Seq<usize>, Change) {
    (d.node@, d.change)
}

/// The changes since the last frame, in the order in which they happened,
/// and the nodes that were removed since then.
pub struct DirtyQueue {
    dirty: Vec<Dirty>,
    removed: Vec<NodeId>,
}

impl DirtyQueue {
    /// The pairs of node and change that wait to be drained.
    pub closed spec fn dirty(&self) -> Seq<(Seq<usize>, Change)> {
        Seq::new(self.dirty.len() as nat, |i: int| dirty_view(self.dirty[i]))
    }

    /// The nodes that were removed and whose subscriptions are still to be
    /// released.
    pub closed spec fn removed(&self) -> Seq<Seq<usize>> {
        Seq::new(self.removed.len() as nat, |i: int| self.removed[i]@)
    }

    pub fn new() -> (q: Self)
        ensures
            q.dirty() == Seq::<(Seq<usize>, Change)>::empty(),
            q.removed() == Seq::<Seq<usize>>::empty(),
    {
        let q = Self { dirty: Vec::new(), removed: Vec::new() };
        assert(q.dirty() =~= Seq::<(Seq<usize>, Change)>::empty());
        assert(q.removed() =~= Seq::<Seq<usize>>::empty());
        q
    }

    /// Reports a change for a node.
    pub fn push(&mut self, node: NodeId, change: Change)
        ensures
            final(self).dirty() == old(self).dirty().push((node@, change)),
            final(self).removed() == old(self).removed(),
    {
        self.dirty.push(Dirty { node, change });
        assert(self.dirty() =~= old(self).dirty().push((node@, change)));
        assert(self.removed() =~= old(self).removed());
    }

    /// The nodes that were removed, handed out; none is left behind.
    pub fn drain_removed(&mut self) -> (r: Vec<NodeId>)
        ensures
            ids_view(r@) == old(self).removed(),
            final(self).removed() == Seq::<Seq<usize>>::empty(),
            final(self).dirty() == old(self).dirty(),
    {
        let mut removed: Vec<NodeId> = Vec::new();
        std::mem::swap(&mut removed, &mut self.removed);
        assert(ids_view(removed@) =~= old(self).removed());
        assert(self.removed() =~= Seq::<Seq<usize>>::empty());
        assert(self.dirty() =~= old(self).dirty());
        removed
    }
}

/// The views of a list of ids.
pub open spec fn ids_view(ids: Seq<NodeId>) -> Seq<Seq<usize>> {
    Seq::new(ids.len(), |i: int| ids[i]@)
}

/// The views of a list of pairs of the queue.
pub open spec fn dirties_view(pairs: Seq<Dirty>) -> Seq<(Seq<usize>, Change)> {
    Seq::new(pairs.len(), |i: int| dirty_view(pairs[i]))
}

/// Hands out the changes that wait, in the order in which they were
/// reported, and leaves none behind.
pub fn drain_dirty_nodes(queue: &mut DirtyQueue) -> (r: Vec<Dirty>)
    ensures
        dirties_view(r@) == old(queue).dirty(),
        final(queue).dirty() == Seq::<(Seq<usize>, Change)>::empty(),
        final(queue).removed() == old(queue).removed(),
{
    let mut dirty: Vec<Dirty> = Vec::new();
    std::mem::swap(&mut dirty, &mut queue.dirty);
    assert(dirties_view(dirty@) =~= old(queue).dirty());
    assert(queue.dirty() =~= Seq::<(Seq<usize>, Change)>::empty());
    assert(queue.removed() =~= old(queue).removed());
    dirty
}

/// The changes of a list of pairs, each as the change and the node that
/// it is for.
pub open spec fn notifications_view(pairs: Seq<(Change, NodeId)>) -> Seq<(Seq<usize>, Change)> {
    Seq::new(pairs.len(), |i: int| (pairs[i].1@, pairs[i].0))
}

/// Hands out the changes that wait as pairs of the change and its node,
/// in the order in which they were reported, and leaves none behind.
pub fn drain_notifications(queue: &mut DirtyQueue) -> (r: Vec<(Change, NodeId)>)
    ensures
        notifications_view(r@) == old(queue).dirty(),
        final(queue).dirty() == Seq::<(Seq<usize>, Change)>::empty(),
        final(queue).removed() == old(queue).removed(),
{
    let mut dirty = drain_dirty_nodes(queue);
    let ghost all = dirties_view(dirty@);
    let mut out: Vec<(Change, NodeId)> = Vec::new();
    // taken from the back, the pairs come out in reverse: they are put
    // in order again below
    let mut back: Vec<(Change, NodeId)> = Vec::new();
    while dirty.len() > 0
        invariant
            dirty.len() + back.len() == all.len(),
            dirties_view(dirty@) == all.take(dirty.len() as int),
            forall|i: int|
                0 <= i < back.len() ==> ((#[trigger] back[i]).1@, back[i].0) == all[all.len() - 1
                    - i],
        decreases dirty.len(),
    {
        let ghost before = dirty@;
        let last = dirty.pop().unwrap();
        assert(dirty_view(last) == all[dirty.len() as int]) by {
            assert(dirties_view(before)[before.len() - 1] == dirty_view(before[before.len() - 1]));
        }
        assert(dirties_view(dirty@) =~= all.take(dirty.len() as int));
        back.push((last.change, last.node));
    }
    while back.len() > 0
        invariant
            out.len() + back.len() == all.len(),
            notifications_view(out@) == all.take(out.len() as int),
            forall|i: int|
                0 <= i < back.len() ==> ((#[trigger] back[i]).1@, back[i].0) == all[all.len() - 1
                    - i],
        decreases back.len(),
    {
        let ghost index = back.len() - 1;
        let pair = back.pop().unwrap();
        assert((pair.1@, pair.0) == all[all.len() - 1 - index]);
        out.push(pair);
        assert(notifications_view(out@) =~= all.take(out.len() as int));
    }
    assert(all.take(all.len() as int) =~= all);
    out
}

/// A change that was asked for: of the value at a path.
#[derive(Debug)]
pub enum RequestedChange {
    Path(Path),
}

/// Notes that a node was removed, so that what it and the nodes under it
/// subscribed to is released before the next frame.
pub fn remove_node(queue: &mut DirtyQueue, node: NodeId)
    ensures
        final(queue).removed() == old(queue).removed().push(node@),
        final(queue).dirty() == old(queue).dirty(),
{
    queue.removed.push(node);
    assert(queue.removed() =~= old(queue).removed().push(node@));
    assert(queue.dirty() =~= old(queue).dirty());
}

/// One subscription: the node `node` reads the value at `path`.
pub struct Subscription {
    pub path: Path,
    pub node: NodeId,
}

pub open spec fn subscription_view(s: Subscription) -> (PathView, Seq<usize>) {
    (s.path@, s.node@)
}

/// `node` is one of `removed`, or lies under one of them.
pub open spec fn under_any(removed: Seq<Seq<usize>>, node: Seq<usize>) -> bool {
    exists|i: int| 0 <= i < removed.len() && is_prefix(#[trigger] removed[i], node)
}

/// The place where a new subscription of `node` goes: in front of the
/// first subscription of a node that comes after it, and to the end where
/// there is none.
pub open spec fn place(readers: Seq<(PathView, Seq<usize>)>, node: Seq<usize>) -> int
    decreases readers.len(),
{
    if readers.len() == 0 {
        0
    } else {
        let front = place(readers.drop_last(), node);
        if front < readers.len() - 1 {
            front
        } else if before(node, readers.last().1) {
            readers.len() - 1
        } else {
            readers.len() as int
        }
    }
}

/// The place of a new subscription lies behind every subscription of a
/// node that does not come after the new one, and in front of one that
/// does.
pub proof fn lemma_place(readers: Seq<(PathView, Seq<usize>)>, node: Seq<usize>)
    ensures
        0 <= place(readers, node) <= readers.len(),
        forall|j: int| 0 <= j < place(readers, node) ==> !before(node, (#[trigger] readers[j]).1),
        place(readers, node) < readers.len() ==> before(node, readers[place(readers, node)].1),
    decreases readers.len(),
{
    if readers.len() > 0 {
        let front = readers.drop_last();
        lemma_place(front, node);
        assert forall|j: int| 0 <= j < front.len() implies front[j] == readers[j] by {}
    }
}

/// The subscriptions after `node` has subscribed to `path`: as they were
/// where it had already; else with the new subscription at its place in
/// the order of the nodes, see [`place`].
pub open spec fn subscribed_with(
    readers: Seq<(PathView, Seq<usize>)>,
    path: PathView,
    node: Seq<usize>,
) -> Seq<(PathView, Seq<usize>)> {
    if readers.contains((path, node)) {
        readers
    } else {
        readers.insert(place(readers, node), (path, node))
    }
}

/// The subscriptions stand in the order of the ids of their nodes: none
/// stands behind a subscription of a node that comes after its own.
pub open spec fn in_order(readers: Seq<(PathView, Seq<usize>)>) -> bool {
    forall|i: int, j: int|
        0 <= i < j < readers.len() ==> !before((#[trigger] readers[j]).1, (#[trigger] readers[i]).1)
}

/// Subscriptions that stand in order stay in order when a node
/// subscribes.
pub proof fn lemma_subscribed_in_order(
    readers: Seq<(PathView, Seq<usize>)>,
    path: PathView,
    node: Seq<usize>,
)
    requires
        in_order(readers),
    ensures
        in_order(subscribed_with(readers, path, node)),
{
    let after = subscribed_with(readers, path, node);
    let p = place(readers, node);
    lemma_place(readers, node);
    if !readers.contains((path, node)) {
        assert forall|i: int, j: int| 0 <= i < j < after.len() implies !before(
            (#[trigger] after[j]).1,
            (#[trigger] after[i]).1,
        ) by {
            if j < p {
                assert(after[i] == readers[i]);
                assert(after[j] == readers[j]);
            } else if j == p {
                assert(after[i] == readers[i]);
                assert(!before(node, readers[i].1));
            } else if i < p {
                assert(after[i] == readers[i]);
                assert(after[j] == readers[j - 1]);
            } else if i == p {
                assert(after[j] == readers[j - 1]);
                if before(readers[j - 1].1, node) {
                    lemma_before_chain(readers[j - 1].1, node, readers[p].1);
                    if j - 1 > p {
                        assert(!before(readers[j - 1].1, readers[p].1));
                    }
                    lemma_before_irreflexive(readers[p].1);
                }
            } else {
                assert(after[i] == readers[i - 1]);
                assert(after[j] == readers[j - 1]);
            }
        }
    }
}

/// No id comes before itself.
pub proof fn lemma_before_irreflexive(a: Seq<usize>)
    ensures
        !before(a, a),
    decreases a.len(),
{
    if a.len() > 0 {
        lemma_before_irreflexive(a.drop_first());
    }
}

/// The subscriptions that are left when the nodes in `removed` and all
/// that lie under them are gone.
pub open spec fn release(
    subscriptions: Seq<(PathView, Seq<usize>)>,
    removed: Seq<Seq<usize>>,
) -> Seq<(PathView, Seq<usize>)>
    decreases subscriptions.len(),
{
    if subscriptions.len() == 0 {
        subscriptions
    } else if under_any(removed, subscriptions.last().1) {
        release(subscriptions.drop_last(), removed)
    } else {
        release(subscriptions.drop_last(), removed).push(subscriptions.last())
    }
}

/// The changes that a change of the value at `path` reports, one for each
/// subscription to the path, in the order of the subscriptions.
pub open spec fn notices(
    subscriptions: Seq<(PathView, Seq<usize>)>,
    path: PathView,
    change: Change,
) -> Seq<(Seq<usize>, Change)>
    decreases subscriptions.len(),
{
    if subscriptions.len() == 0 {
        Seq::empty()
    } else if subscriptions.last().0 == path {
        notices(subscriptions.drop_last(), path, change).push((subscriptions.last().1, change))
    } else {
        notices(subscriptions.drop_last(), path, change)
    }
}

/// The registry of subscriptions, kept on the side of the state.
pub struct Subscriptions {
    entries: Vec<Subscription>,
}

impl View for Subscriptions {
    type V = Seq<(PathView, Seq<usize>)>;

    closed spec fn view(&self) -> Seq<(PathView, Seq<usize>)> {
        Seq::new(self.entries.len() as nat, |i: int| subscription_view(self.entries[i]))
    }
}

impl Subscriptions {
    pub fn new() -> (s: Self)
        ensures
            s@ == Seq::<(PathView, Seq<usize>)>::empty(),
    {
        let s = Self { entries: Vec::new() };
        assert(s@ =~= Seq::<(PathView, Seq<usize>)>::empty());
        s
    }

    pub fn len(&self) -> (n: usize)
        ensures
            n == self@.len(),
    {
        self.entries.len()
    }

    /// Whether `node` is subscribed to `path`.
    pub fn holds(&self, path: &Path, node: &NodeId) -> (b: bool)
        ensures
            b == self@.contains((path@, node@)),
    {
        let mut i: usize = 0;
        while i < self.entries.len()
            invariant
                i <= self.entries.len(),
                forall|j: int| 0 <= j < i ==> self@[j] != (path@, node@),
            decreases self.entries.len() - i,
        {
            if self.entries[i].path.same(path) && self.entries[i].node.same(node) {
                assert(self@[i as int] == (path@, node@));
                return true;
            }
            i += 1;
        }
        false
    }

    /// Records that `node` reads the value at `path`. A subscription that
    /// is there already is not recorded twice, and a new one goes to its
    /// place in the order of the nodes; see [`subscribed_with`]. So the
    /// subscriptions stay in the order of the ids of their nodes, and
    /// changes are reported in that order.
    pub fn subscribe(&mut self, path: &Path, node: &NodeId)
        ensures
            final(self)@ == subscribed_with(old(self)@, path@, node@),
            in_order(old(self)@) ==> in_order(final(self)@),
    {
        proof {
            lemma_place(self@, node@);
            if in_order(self@) {
                lemma_subscribed_in_order(self@, path@, node@);
            }
        }
        if !self.holds(path, node) {
            let mut i: usize = 0;
            while i < self.entries.len() && !node.precedes(&self.entries[i].node)
                invariant
                    i <= self.entries.len(),
                    forall|j: int| 0 <= j < i ==> !before(node@, (#[trigger] self@[j]).1),
                decreases self.entries.len() - i,
            {
                assert(self@[i as int].1 == self.entries[i as int].node@);
                i += 1;
            }
            proof {
                if i < self.entries.len() {
                    assert(self@[i as int].1 == self.entries[i as int].node@);
                }
                assert(i == place(self@, node@));
            }
            self.entries.insert(
                i,
                Subscription { path: path.duplicate(), node: node.duplicate() },
            );
            assert(self@ =~= old(self)@.insert(i as int, (path@, node@)));
        }
    }

    /// Reports `change` for every node that is subscribed to `path`.
    pub fn notify(&self, path: &Path, change: Change, queue: &mut DirtyQueue)
        ensures
            final(queue).dirty() == old(queue).dirty() + notices(self@, path@, change),
            final(queue).removed() == old(queue).removed(),
    {
        let ghost all = self@;
        let mut i: usize = 0;
        assert(all.take(0) =~= Seq::<(PathView, Seq<usize>)>::empty());
        assert(old(queue).dirty() + Seq::<(Seq<usize>, Change)>::empty() =~= old(queue).dirty());
        while i < self.entries.len()
            invariant
                i <= self.entries.len(),
                all == self@,
                queue.dirty() == old(queue).dirty() + notices(all.take(i as int), path@, change),
                queue.removed() == old(queue).removed(),
            decreases self.entries.len() - i,
        {
            assert(all.take(i + 1).drop_last() =~= all.take(i as int));
            assert(all.take(i + 1).last() == all[i as int]);
            if self.entries[i].path.same(path) {
                queue.push(self.entries[i].node.duplicate(), change);
                assert(queue.dirty() =~= old(queue).dirty() + notices(
                    all.take(i + 1),
                    path@,
                    change,
                ));
            }
            i += 1;
        }
        assert(all.take(self.entries.len() as int) =~= all);
    }

    /// Releases every subscription of the nodes that were removed and of
    /// the nodes under them, and forgets the removed nodes.
    pub fn release_removed(&mut self, queue: &mut DirtyQueue)
        ensures
            final(self)@ == release(old(self)@, old(queue).removed()),
            final(queue).removed() == Seq::<Seq<usize>>::empty(),
            final(queue).dirty() == old(queue).dirty(),
    {
        let removed = queue.drain_removed();
        let ghost gone = ids_view(removed@);
        let ghost all = self@;
        let mut kept: Vec<Subscription> = Vec::new();
        let mut entries: Vec<Subscription> = Vec::new();
        std::mem::swap(&mut entries, &mut self.entries);
        let ghost n = entries.len();
        assert(all.take(0) =~= Seq::<(PathView, Seq<usize>)>::empty());
        let mut taken: Vec<Subscription> = Vec::new();
        let mut i: usize = 0;
        // The entries are moved over one by one, from the first on.
        let mut rest = entries;
        while i < rest.len()
            invariant
                i <= rest.len(),
                rest.len() == all.len(),
                gone == ids_view(removed@),
                forall|j: int| i <= j < rest.len() ==> subscription_view(rest[j]) == all[j],
                Seq::new(kept.len() as nat, |j: int| subscription_view(kept[j])) == release(
                    all.take(i as int),
                    gone,
                ),
            decreases rest.len() - i,
        {
            assert(all.take(i + 1).drop_last() =~= all.take(i as int));
            assert(all.take(i + 1).last() == all[i as int]);
            let entry = Subscription {
                path: rest[i].path.duplicate(),
                node: rest[i].node.duplicate(),
            };
            let ghost before = Seq::new(kept.len() as nat, |j: int| subscription_view(kept[j]));
            if !lies_under_any(&removed, &entry.node) {
                kept.push(entry);
                assert(Seq::new(kept.len() as nat, |j: int| subscription_view(kept[j]))
                    =~= before.push(all[i as int]));
            }
            i += 1;
        }
        assert(all.take(rest.len() as int) =~= all);
        self.entries = kept;
        assert(self@ =~= release(all, gone));
    }
}

/// Whether `node` is one of `removed` or lies under one of them.
pub fn lies_under_any(removed: &Vec<NodeId>, node: &NodeId) -> (b: bool)
    ensures
        b == under_any(ids_view(removed@), node@),
{
    let mut i: usize = 0;
    while i < removed.len()
        invariant
            i <= removed.len(),
            forall|j: int| 0 <= j < i ==> !is_prefix(#[trigger] ids_view(removed@)[j], node@),
        decreases removed.len() - i,
    {
        if removed[i].contains(node) {
            assert(is_prefix(ids_view(removed@)[i as int], node@));
            return true;
        }
        i += 1;
    }
    false
}

/// Once the removed nodes are released, no subscription is left of a node
/// that was removed or that lies under a removed node; and every other
/// subscription is still there.
pub proof fn lemma_release(
    subscriptions: Seq<(PathView, Seq<usize>)>,
    removed: Seq<Seq<usize>>,
)
    ensures
        forall|s: (PathView, Seq<usize>)| #[trigger]
            release(subscriptions, removed).contains(s) <==> subscriptions.contains(s)
                && !under_any(removed, s.1),
    decreases subscriptions.len(),
{
    let left = release(subscriptions, removed);
    if subscriptions.len() > 0 {
        let front = subscriptions.drop_last();
        let last = subscriptions.last();
        let kept = release(front, removed);
        lemma_release(front, removed);
        assert forall|s: (PathView, Seq<usize>)| #[trigger]
            left.contains(s) <==> subscriptions.contains(s) && !under_any(removed, s.1) by {
            if left.contains(s) {
                let i = choose|i: int| 0 <= i < left.len() && left[i] == s;
                if i < kept.len() {
                    assert(kept[i] == s);
                    assert(kept.contains(s));
                    assert(front.contains(s));
                    let k = choose|k: int| 0 <= k < front.len() && front[k] == s;
                    assert(subscriptions[k] == s);
                } else {
                    assert(s == last);
                    assert(subscriptions[subscriptions.len() - 1] == s);
                }
            }
            if subscriptions.contains(s) && !under_any(removed, s.1) {
                let k = choose|k: int| 0 <= k < subscriptions.len() && subscriptions[k] == s;
                if k < subscriptions.len() - 1 {
                    assert(front[k] == s);
                    assert(front.contains(s));
                    assert(kept.contains(s));
                    let i = choose|i: int| 0 <= i < kept.len() && kept[i] == s;
                    assert(left[i] == s);
                } else {
                    assert(s == last);
                    assert(left[left.len() - 1] == s);
                }
            }
        }
    }
}

/// A node that is removed loses its subscriptions, and so does every node
/// under it: once the removed nodes are released, none of them is
/// subscribed to anything.
pub proof fn lemma_removed_node_is_released(
    subscriptions: Seq<(PathView, Seq<usize>)>,
    removed: Seq<Seq<usize>>,
    node: Seq<usize>,
)
    ensures
        forall|s: (PathView, Seq<usize>)| #[trigger]
            release(subscriptions, removed.push(node)).contains(s) ==> !is_prefix(node, s.1),
{
    let all = removed.push(node);
    lemma_release(subscriptions, all);
    assert forall|s: (PathView, Seq<usize>)| #[trigger]
        release(subscriptions, all).contains(s) implies !is_prefix(node, s.1) by {
        if is_prefix(node, s.1) {
            assert(is_prefix(all[all.len() - 1], s.1));
            assert(under_any(all, s.1));
        }
    }
}

} // verus!
