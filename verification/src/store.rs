//! A state that holds its values as a tree, records who reads them and
//! reports what happens to them.
use vstd::prelude::*;
use crate::node_id::NodeId;
use crate::path::{Path, PathView};
use crate::state::{in_order, subscribed_with, 
    dirties_view, drain_dirty_nodes, notices, remove_node, seen_view, Change, Dirty, DirtyQueue,
    Seen, State, Subscriptions, ValueRef,
};
use crate::value::Owned;

verus! {

/// A value of the state: a scalar, a string, a list or a map.
#[derive(Debug)]
pub enum Value {
    Owned(Owned),
    Str(String),
    List(Vec<Value>),
    Dict(Vec<(String, Value)>),
}

/// The mathematical form of a [`Value`].
pub enum Data {
    Owned(Owned),
    Str(Seq<char>),
    List(Seq<Data>),
    Dict(Seq<(Seq<char>, Data)>),
}

pub open spec fn data_of(v: Value) -> Data
    decreases v,
{
    match v {
        Value::Owned(o) => Data::Owned(o),
        Value::Str(s) => Data::Str(s@),
        Value::List(items) => Data::List(
            Seq::new(
                items.len() as nat,
                |i: int|
                    if 0 <= i < items.len() {
                        data_of(items[i])
                    } else {
                        Data::List(Seq::empty())
                    },
            ),
        ),
        Value::Dict(entries) => Data::Dict(
            Seq::new(
                entries.len() as nat,
                |i: int|
                    if 0 <= i < entries.len() {
                        (entries[i].0@, data_of(entries[i].1))
                    } else {
                        (Seq::empty(), Data::List(Seq::empty()))
                    },
            ),
        ),
    }
}

impl View for Value {
    type V = Data;

    open spec fn view(&self) -> Data {
        data_of(*self)
    }
}

/// The views of a list of values.
pub open spec fn list_view(items: Seq<Value>) -> Seq<Data> {
    Seq::new(items.len(), |i: int| items[i]@)
}

/// The views of the entries of a map.
pub open spec fn entries_view(entries: Seq<(String, Value)>) -> Seq<(Seq<char>, Data)> {
    Seq::new(entries.len(), |i: int| (entries[i].0@, entries[i].1@))
}

pub proof fn lemma_list_view(items: Vec<Value>)
    ensures
        Value::List(items)@ == Data::List(list_view(items@)),
{
    assert(Value::List(items)@->List_0 =~= list_view(items@));
}

pub proof fn lemma_dict_view(entries: Vec<(String, Value)>)
    ensures
        Value::Dict(entries)@ == Data::Dict(entries_view(entries@)),
{
    assert(Value::Dict(entries)@->Dict_0 =~= entries_view(entries@));
}

/// The first entry of a map with the key `key`.
pub open spec fn entry_index(entries: Seq<(Seq<char>, Data)>, key: Seq<char>) -> Option<int>
    decreases entries.len(),
{
    if entries.len() == 0 {
        None
    } else {
        match entry_index(entries.drop_last(), key) {
            Some(i) => Some(i),
            None => if entries.last().0 == key {
                Some(entries.len() - 1)
            } else {
                None
            },
        }
    }
}

pub proof fn lemma_entry_index(entries: Seq<(Seq<char>, Data)>, key: Seq<char>)
    ensures
        match entry_index(entries, key) {
            Some(i) => 0 <= i < entries.len() && entries[i].0 == key && forall|j: int|
                0 <= j < i ==> entries[j].0 != key,
            None => forall|j: int| 0 <= j < entries.len() ==> entries[j].0 != key,
        },
    decreases entries.len(),
{
    if entries.len() > 0 {
        let front = entries.drop_last();
        lemma_entry_index(front, key);
        assert forall|j: int| 0 <= j < front.len() implies front[j] == entries[j] by {}
        match entry_index(front, key) {
            Some(i) => {},
            None => {
                assert forall|j: int| 0 <= j < entries.len() - 1 implies entries[j].0 != key by {
                    assert(front[j].0 != key);
                }
            },
        }
    }
}

/// The value that lies at `path` under `data`: a key picks the entry of a
/// map, an index the element of a list, and of two paths the second goes
/// on from where the first leads.
pub open spec fn at(data: Data, path: PathView) -> Option<Data>
    decreases path,
{
    match path {
        PathView::Key(key) => match data {
            Data::Dict(entries) => match entry_index(entries, key) {
                Some(i) => Some(entries[i].1),
                None => None,
            },
            _ => None,
        },
        PathView::Index(index) => match data {
            Data::List(items) => if index < items.len() {
                Some(items[index as int])
            } else {
                None
            },
            _ => None,
        },
        PathView::Composite(first, second) => match at(data, *first) {
            Some(inner) => at(inner, *second),
            None => None,
        },
    }
}

/// What the engine sees of a value: scalars and strings as they are, of
/// lists and maps the length.
pub open spec fn seen_of(data: Data) -> Seen {
    match data {
        Data::Owned(o) => Seen::Owned(o),
        Data::Str(s) => Seen::Str(s),
        Data::List(items) => Seen::List(items.len() as usize),
        Data::Dict(entries) => Seen::Dict(entries.len() as usize),
    }
}

pub open spec fn seen_at(data: Data, path: PathView) -> Option<Seen> {
    match at(data, path) {
        Some(found) => Some(seen_of(found)),
        None => None,
    }
}

pub open spec fn data_view(v: Option<&Value>) -> Option<Data> {
    match v {
        Some(v) => Some(v@),
        None => None,
    }
}

fn find_entry(entries: &Vec<(String, Value)>, key: &String) -> (r: Option<usize>)
    ensures
        match r {
            Some(i) => entry_index(entries_view(entries@), key@) == Some(i as int) && i
                < entries.len(),
            None => entry_index(entries_view(entries@), key@) is None,
        },
{
    let ghost views = entries_view(entries@);
    let mut i: usize = 0;
    while i < entries.len()
        invariant
            i <= entries.len(),
            views == entries_view(entries@),
            forall|j: int| 0 <= j < i ==> views[j].0 != key@,
        decreases entries.len() - i,
    {
        if entries[i].0 == *key {
            proof {
                lemma_entry_index(views, key@);
                assert(views[i as int].0 == key@);
                match entry_index(views, key@) {
                    Some(k) => {
                        if k < i {
                            assert(views[k].0 != key@);
                        }
                    },
                    None => {},
                }
            }
            return Some(i);
        }
        i += 1;
    }
    proof {
        lemma_entry_index(views, key@);
    }
    None
}

impl Value {
    /// The value that lies at `path` under this one; see [`at`].
    pub fn lookup(&self, path: &Path) -> (r: Option<&Value>)
        ensures
            data_view(r) == at(self@, path@),
        decreases path,
    {
        match path {
            Path::Key(key) => match self {
                Value::Dict(entries) => {
                    proof {
                        lemma_dict_view(*entries);
                    }
                    match find_entry(entries, key) {
                        Some(i) => Some(&entries[i].1),
                        None => None,
                    }
                },
                _ => None,
            },
            Path::Index(index) => match self {
                Value::List(items) => {
                    proof {
                        lemma_list_view(*items);
                    }
                    if *index < items.len() {
                        Some(&items[*index])
                    } else {
                        None
                    }
                },
                _ => None,
            },
            Path::Composite(first, second) => match self.lookup(first) {
                Some(inner) => inner.lookup(second),
                None => None,
            },
        }
    }

    /// What the engine sees of the value; see [`seen_of`].
    pub fn snapshot(&self) -> (r: ValueRef)
        ensures
            r@ == seen_of(self@),
    {
        match self {
            Value::Owned(o) => ValueRef::Owned(*o),
            Value::Str(s) => ValueRef::Str(s.clone()),
            Value::List(items) => {
                proof {
                    lemma_list_view(*items);
                }
                ValueRef::List(items.len())
            },
            Value::Dict(entries) => {
                proof {
                    lemma_dict_view(*entries);
                }
                ValueRef::Dict(entries.len())
            },
        }
    }
}

/// A state that holds named values, the subscriptions of the nodes that
/// read them, and the queue of their changes.
pub struct Store {
    root: Vec<(String, Value)>,
    subscriptions: Subscriptions,
    queue: DirtyQueue,
}

/// The entries `entries` with `key` bound to `value`: a key that is there
/// keeps its place, a new one goes to the end.
pub open spec fn with_entry(
    entries: Seq<(Seq<char>, Data)>,
    key: Seq<char>,
    value: Data,
) -> Seq<(Seq<char>, Data)> {
    match entry_index(entries, key) {
        Some(i) => entries.update(i, (key, value)),
        None => entries.push((key, value)),
    }
}

/// No key stands twice in `entries`.
pub open spec fn keys_apart(entries: Seq<(Seq<char>, Data)>) -> bool {
    forall|i: int, j: int|
        0 <= i < j < entries.len() ==> (#[trigger] entries[i]).0 != (#[trigger] entries[j]).0
}

/// Entries in which no key stands twice stay so when a key is bound.
pub proof fn lemma_with_entry(entries: Seq<(Seq<char>, Data)>, key: Seq<char>, value: Data)
    requires
        keys_apart(entries),
    ensures
        keys_apart(with_entry(entries, key, value)),
{
    lemma_entry_index(entries, key);
    let after = with_entry(entries, key, value);
    assert forall|i: int, j: int| 0 <= i < j < after.len() implies (#[trigger] after[i]).0 != (
    #[trigger] after[j]).0 by {
        match entry_index(entries, key) {
            Some(k) => {
                assert(after[i].0 == entries[i].0);
                assert(after[j].0 == entries[j].0);
            },
            None => {
                if j < entries.len() {
                    assert(after[i] == entries[i]);
                    assert(after[j] == entries[j]);
                } else {
                    assert(after[i] == entries[i]);
                }
            },
        }
    }
}

impl Store {
    /// The values of the store, as one map.
    pub closed spec fn data(&self) -> Data {
        Data::Dict(entries_view(self.root@))
    }

    /// The entries of the store.
    pub closed spec fn entries(&self) -> Seq<(Seq<char>, Data)> {
        entries_view(self.root@)
    }

    /// Who reads what: the subscriptions.
    pub closed spec fn readers(&self) -> Seq<(PathView, Seq<usize>)> {
        self.subscriptions@
    }

    /// The changes that wait to be drained.
    pub closed spec fn dirty(&self) -> Seq<(Seq<usize>, Change)> {
        self.queue.dirty()
    }

    /// The removed nodes whose subscriptions are still to be released.
    pub closed spec fn removed(&self) -> Seq<Seq<usize>> {
        self.queue.removed()
    }

    pub fn new() -> (s: Self)
        ensures
            s.entries() == Seq::<(Seq<char>, Data)>::empty(),
            keys_apart(s.entries()),
            s.data() == Data::Dict(Seq::empty()),
            s.readers().len() == 0,
            s.dirty().len() == 0,
            s.removed().len() == 0,
    {
        let s = Self {
            root: Vec::new(),
            subscriptions: Subscriptions::new(),
            queue: DirtyQueue::new(),
        };
        assert(s.entries() =~= Seq::<(Seq<char>, Data)>::empty());
        s
    }

    /// Binds `key` to `value`, and reports to the nodes that read `key` that
    /// the value was modified.
    pub fn insert(&mut self, key: &str, value: Value)
        ensures
            final(self).entries() == with_entry(old(self).entries(), key@, value@),
            keys_apart(old(self).entries()) ==> keys_apart(final(self).entries()),
            final(self).data() == Data::Dict(final(self).entries()),
            final(self).readers() == old(self).readers(),
            final(self).dirty() == old(self).dirty() + notices(
                old(self).readers(),
                PathView::Key(key@),
                Change::Modified,
            ),
            final(self).removed() == old(self).removed(),
    {
        let name = key.to_owned();
        let path = Path::Key(key.to_owned());
        proof {
            if keys_apart(self.entries()) {
                lemma_with_entry(self.entries(), key@, value@);
            }
        }
        match find_entry(&self.root, &name) {
            Some(i) => {
                self.root[i] = (name, value);
                assert(self.entries() =~= old(self).entries().update(i as int, (key@, value@)));
            },
            None => {
                self.root.push((name, value));
                assert(self.entries() =~= old(self).entries().push((key@, value@)));
            },
        }
        self.subscriptions.notify(&path, Change::Modified, &mut self.queue);
    }

    /// The value at `path`.
    pub fn value(&self, path: &Path) -> (r: Option<&Value>)
        ensures
            data_view(r) == at(self.data(), path@),
        decreases path,
    {
        match path {
            Path::Key(key) => match find_entry(&self.root, key) {
                Some(i) => Some(&self.root[i].1),
                None => None,
            },
            Path::Index(_) => None,
            Path::Composite(first, second) => match self.value(first) {
                Some(inner) => inner.lookup(second),
                None => None,
            },
        }
    }

    /// Reads the value at `key` on behalf of `node_id`, which is recorded as
    /// a reader of `key` where it is given.
    pub fn read(&mut self, key: &Path, node_id: Option<&NodeId>) -> (r: Option<ValueRef>)
        ensures
            seen_view(r) == seen_at(old(self).data(), key@),
            final(self).data() == old(self).data(),
            final(self).entries() == old(self).entries(),
            final(self).dirty() == old(self).dirty(),
            final(self).removed() == old(self).removed(),
            final(self).readers() == match node_id {
                Some(id) => subscribed_with(old(self).readers(), key@, id@),
                None => old(self).readers(),
            },
            in_order(old(self).readers()) ==> in_order(final(self).readers()),
    {
        match node_id {
            Some(id) => {
                self.subscriptions.subscribe(key, id);
            },
            None => {},
        }
        match self.value(key) {
            Some(value) => Some(value.snapshot()),
            None => None,
        }
    }

    /// Releases what the removed nodes were subscribed to.
    pub fn release_removed(&mut self)
        ensures
            final(self).readers() == crate::state::release(old(self).readers(), old(self).removed()),
            final(self).removed() == Seq::<Seq<usize>>::empty(),
            final(self).dirty() == old(self).dirty(),
            final(self).data() == old(self).data(),
            final(self).entries() == old(self).entries(),
    {
        self.subscriptions.release_removed(&mut self.queue);
    }

    /// Hands out the changes that wait, and leaves none behind.
    pub fn drain_dirty_nodes(&mut self) -> (r: Vec<Dirty>)
        ensures
            dirties_view(r@) == old(self).dirty(),
            final(self).dirty() == Seq::<(Seq<usize>, Change)>::empty(),
            final(self).removed() == old(self).removed(),
            final(self).readers() == old(self).readers(),
            final(self).data() == old(self).data(),
            final(self).entries() == old(self).entries(),
    {
        drain_dirty_nodes(&mut self.queue)
    }

    /// Notes that a node was removed.
    pub fn remove_node(&mut self, node: NodeId)
        ensures
            final(self).removed() == old(self).removed().push(node@),
            final(self).dirty() == old(self).dirty(),
            final(self).readers() == old(self).readers(),
            final(self).data() == old(self).data(),
            final(self).entries() == old(self).entries(),
    {
        remove_node(&mut self.queue, node)
    }
}

/// The list that `key` is bound to, if it is bound to one.
pub open spec fn list_at(entries: Seq<(Seq<char>, Data)>, key: Seq<char>) -> Option<Seq<Data>> {
    match entry_index(entries, key) {
        Some(i) => match entries[i].1 {
            Data::List(items) => Some(items),
            _ => None,
        },
        None => None,
    }
}

/// What a change of the list at `key` leaves: the list is replaced by
/// `items`, and the change is reported to the readers of `key`.
pub open spec fn list_changed(
    before: Store,
    after: Store,
    key: Seq<char>,
    items: Seq<Data>,
    change: Change,
) -> bool {
    &&& after.entries() == with_entry(before.entries(), key, Data::List(items))
    &&& after.data() == Data::Dict(after.entries())
    &&& after.readers() == before.readers()
    &&& after.removed() == before.removed()
    &&& after.dirty() == before.dirty() + notices(before.readers(), PathView::Key(key), change)
}

/// Nothing of the store has changed.
pub open spec fn unchanged(before: Store, after: Store) -> bool {
    &&& after.entries() == before.entries()
    &&& after.data() == before.data()
    &&& after.readers() == before.readers()
    &&& after.removed() == before.removed()
    &&& after.dirty() == before.dirty()
}

impl Store {
    /// Takes the list at `key` out of the store, leaving an empty list in
    /// its place; `None` if `key` is not bound to a list.
    fn take_list(&mut self, name: &String) -> (r: Option<(usize, Vec<Value>)>)
        ensures
            final(self).subscriptions == old(self).subscriptions,
            final(self).queue == old(self).queue,
            match list_at(old(self).entries(), name@) {
                Some(items) => r is Some && list_view(r->Some_0.1@) == items && entry_index(
                    old(self).entries(),
                    name@,
                ) == Some(r->Some_0.0 as int) && r->Some_0.0 < final(self).root.len()
                    && final(self).root.len() == old(self).root.len()
                    && final(self).root@[r->Some_0.0 as int].0@ == name@
                    && final(self).entries() == old(self).entries().update(
                    r->Some_0.0 as int,
                    (name@, Data::List(Seq::empty())),
                ),
                None => r is None && final(self).root == old(self).root,
            },
    {
        let i = match find_entry(&self.root, name) {
            Some(i) => i,
            None => {
                return None;
            },
        };
        proof {
            lemma_entry_index(self.entries(), name@);
        }
        if !matches!(self.root[i].1, Value::List(_)) {
            return None;
        }
        let empty: Vec<Value> = Vec::new();
        proof {
            lemma_list_view(empty);
            assert(list_view(empty@) =~= Seq::<Data>::empty());
        }
        let entry = (name.clone(), Value::List(empty));
        let slot = self.root.remove(i);
        self.root.insert(i, entry);
        assert(self.entries() =~= old(self).entries().update(
            i as int,
            (name@, Data::List(Seq::empty())),
        ));
        match slot.1 {
            Value::List(items) => {
                proof {
                    lemma_list_view(items);
                }
                Some((i, items))
            },
            _ => None,
        }
    }

    /// Puts `items` in place as the list at the entry `i`, whose key is
    /// `name`, and reports `change` to the readers of the key.
    fn put_list(&mut self, i: usize, name: String, items: Vec<Value>, change: Change)
        requires
            i < old(self).root.len(),
            old(self).root@[i as int].0@ == name@,
        ensures
            final(self).root.len() == old(self).root.len(),
            final(self).entries() == old(self).entries().update(
                i as int,
                (name@, Data::List(list_view(items@))),
            ),
            final(self).data() == Data::Dict(final(self).entries()),
            final(self).readers() == old(self).readers(),
            final(self).removed() == old(self).removed(),
            final(self).dirty() == old(self).dirty() + notices(
                old(self).readers(),
                PathView::Key(name@),
                change,
            ),
    {
        proof {
            lemma_list_view(items);
        }
        let path = Path::Key(name.clone());
        self.root[i] = (name, Value::List(items));
        assert(self.entries() =~= old(self).entries().update(
            i as int,
            (name@, Data::List(list_view(items@))),
        ));
        self.subscriptions.notify(&path, change, &mut self.queue);
    }

    /// Appends `value` to the list at `key`. Returns whether `key` is bound
    /// to a list; nothing happens where it is not.
    pub fn push(&mut self, key: &str, value: Value) -> (ok: bool)
        ensures
            match list_at(old(self).entries(), key@) {
                Some(items) => ok && list_changed(
                    *old(self),
                    *final(self),
                    key@,
                    items.push(value@),
                    Change::Push,
                ),
                None => !ok && unchanged(*old(self), *final(self)),
            },
    {
        let name = key.to_owned();
        let ghost before = self.entries();
        match self.take_list(&name) {
            Some((i, mut items)) => {
                let ghost old_items = list_view(items@);
                items.push(value);
                assert(list_view(items@) =~= old_items.push(value@));
                self.put_list(i, name, items, Change::Push);
                assert(self.entries() =~= before.update(
                    i as int,
                    (key@, Data::List(old_items.push(value@))),
                ));
                true
            },
            None => false,
        }
    }

    /// Takes the element at `index` out of the list at `key`. Returns
    /// whether there is such an element; nothing happens where there is
    /// none.
    pub fn remove(&mut self, key: &str, index: usize) -> (ok: bool)
        ensures
            match list_at(old(self).entries(), key@) {
                Some(items) => if index < items.len() {
                    ok && list_changed(
                        *old(self),
                        *final(self),
                        key@,
                        items.remove(index as int),
                        Change::Remove(index),
                    )
                } else {
                    !ok && unchanged(*old(self), *final(self))
                },
                None => !ok && unchanged(*old(self), *final(self)),
            },
    {
        let name = key.to_owned();
        let ghost before = self.entries();
        let i = match find_entry(&self.root, &name) {
            Some(i) => i,
            None => {
                return false;
            },
        };
        proof {
            lemma_entry_index(before, name@);
        }
        let in_range = match &self.root[i].1 {
            Value::List(items) => {
                proof {
                    lemma_list_view(*items);
                }
                index < items.len()
            },
            _ => false,
        };
        if !in_range {
            return false;
        }
        match self.take_list(&name) {
            Some((i, mut items)) => {
                let ghost old_items = list_view(items@);
                items.remove(index);
                assert(list_view(items@) =~= old_items.remove(index as int));
                self.put_list(i, name, items, Change::Remove(index));
                assert(self.entries() =~= before.update(
                    i as int,
                    (key@, Data::List(old_items.remove(index as int))),
                ));
                true
            },
            None => false,
        }
    }
}

impl State for Store {
    open spec fn value(&self, key: PathView) -> Option<Seen> {
        seen_at(self.data(), key)
    }

    open spec fn pending(&self) -> Seq<(Seq<usize>, Change)> {
        self.dirty()
    }

    open spec fn subscribed(&self) -> Seq<(PathView, Seq<usize>)> {
        self.readers()
    }

    /// A reader is recorded once, at its place in the order of the
    /// nodes; see [`subscribed_with`].
    open spec fn with_reader(
        readers: Seq<(PathView, Seq<usize>)>,
        key: PathView,
        node: Seq<usize>,
    ) -> Seq<(PathView, Seq<usize>)> {
        subscribed_with(readers, key, node)
    }

    fn get(&mut self, key: &Path, node_id: Option<&NodeId>) -> (r: Option<ValueRef>) {
        self.read(key, node_id)
    }
}

} // verus!
