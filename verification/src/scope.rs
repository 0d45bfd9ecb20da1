//! Scopes: the names that loops bind, frame over frame.
use vstd::prelude::*;
use crate::path::{Path, PathView};

verus! {

/// What a name is bound to: a string, a list of such values, or the path
/// of a value in the state.
#[derive(Debug)]
pub enum ScopeValue {
    Static(String),
    List(Vec<ScopeValue>),
    Dyn(Path),
}

/// The mathematical form of a [`ScopeValue`].
pub enum Bound {
    Static(Seq<char>),
    List(Seq<Bound>),
    Dyn(PathView),
}

pub open spec fn bound_of(v: ScopeValue) -> Bound
    decreases v,
{
    match v {
        ScopeValue::Static(s) => Bound::Static(s@),
        ScopeValue::List(items) => Bound::List(
            Seq::new(
                items.len() as nat,
                |i: int|
                    if 0 <= i < items.len() {
                        bound_of(items[i])
                    } else {
                        Bound::List(Seq::empty())
                    },
            ),
        ),
        ScopeValue::Dyn(p) => Bound::Dyn(p@),
    }
}

impl View for ScopeValue {
    type V = Bound;

    open spec fn view(&self) -> Bound {
        bound_of(*self)
    }
}

/// The views of a list of scope values.
pub open spec fn bounds_of(items: Seq<ScopeValue>) -> Seq<Bound> {
    Seq::new(items.len(), |i: int| items[i]@)
}

pub proof fn lemma_bound_list(items: Vec<ScopeValue>)
    ensures
        ScopeValue::List(items)@ == Bound::List(bounds_of(items@)),
{
    assert(ScopeValue::List(items)@->List_0 =~= bounds_of(items@));
}

fn copy_values(items: &Vec<ScopeValue>) -> (r: Vec<ScopeValue>)
    ensures
        bounds_of(r@) == bounds_of(items@),
    decreases items, 1int,
{
    let mut out: Vec<ScopeValue> = Vec::new();
    let mut i: usize = 0;
    while i < items.len()
        invariant
            i <= items.len(),
            out.len() == i,
            forall|j: int| 0 <= j < i ==> out[j]@ == items[j]@,
        decreases items.len() - i,
    {
        out.push(items[i].duplicate());
        i += 1;
    }
    assert(bounds_of(out@) =~= bounds_of(items@));
    out
}

impl ScopeValue {
    pub fn duplicate(&self) -> (r: ScopeValue)
        ensures
            r@ == self@,
        decreases self, 0int,
    {
        match self {
            ScopeValue::Static(s) => ScopeValue::Static(s.clone()),
            ScopeValue::List(items) => {
                let copy = copy_values(items);
                proof {
                    lemma_bound_list(*items);
                    lemma_bound_list(copy);
                }
                ScopeValue::List(copy)
            },
            ScopeValue::Dyn(p) => ScopeValue::Dyn(p.duplicate()),
        }
    }
}

/// What a loop runs over: a list that the template wrote, or a collection
/// of the state, known by its path and its length.
#[derive(Debug)]
pub enum Collection {
    Static(Vec<ScopeValue>),
    State { path: Path, len: usize },
    Empty,
}

/// The mathematical form of a [`Collection`].
pub enum Run {
    Static(Seq<Bound>),
    State { path: PathView, len: usize },
    Empty,
}

impl View for Collection {
    type V = Run;

    open spec fn view(&self) -> Run {
        match self {
            Collection::Static(items) => Run::Static(bounds_of(items@)),
            Collection::State { path, len } => Run::State { path: path@, len: *len },
            Collection::Empty => Run::Empty,
        }
    }
}

/// The number of elements of a collection.
pub open spec fn run_len(run: Run) -> nat {
    match run {
        Run::Static(items) => items.len(),
        Run::State { path, len } => len as nat,
        Run::Empty => 0,
    }
}

/// What the name of a loop is bound to in the body at `index`: the element
/// of a written list, or the path of the element of a collection of the
/// state.
pub open spec fn element(run: Run, index: usize) -> Option<Bound> {
    match run {
        Run::Static(items) => if index < items.len() {
            Some(items[index as int])
        } else {
            None
        },
        Run::State { path, len } => Some(
            Bound::Dyn(PathView::Composite(Box::new(path), Box::new(PathView::Index(index)))),
        ),
        Run::Empty => None,
    }
}

/// The collection after a change: a collection of the state grows and
/// shrinks with what is reported of it, by one element for each element
/// that is reported as new or as gone, and never below nothing; a written
/// list never changes.
pub open spec fn run_changed(run: Run, change: crate::state::Change) -> Run {
    match run {
        Run::State { path, len } => match change {
            crate::state::Change::Push => if len < usize::MAX {
                Run::State { path, len: (len + 1) as usize }
            } else {
                run
            },
            crate::state::Change::Insert(index) => if index <= len && len < usize::MAX {
                Run::State { path, len: (len + 1) as usize }
            } else {
                run
            },
            crate::state::Change::Remove(index) => if len > 0 {
                Run::State { path, len: (len - 1) as usize }
            } else {
                run
            },
            crate::state::Change::Clear => Run::State { path, len: 0 },
            _ => run,
        },
        _ => run,
    }
}

impl Collection {
    pub fn len(&self) -> (n: usize)
        ensures
            n == run_len(self@),
    {
        match self {
            Self::Empty => 0,
            Self::Static(col) => col.len(),
            Self::State { len, .. } => *len,
        }
    }

    pub fn duplicate(&self) -> (r: Collection)
        ensures
            r@ == self@,
    {
        match self {
            Self::Empty => Self::Empty,
            Self::Static(col) => Self::Static(copy_values(col)),
            Self::State { path, len } => Self::State { path: path.duplicate(), len: *len },
        }
    }

    /// What the name of a loop is bound to in the body at `index`.
    pub fn get(&self, index: usize) -> (r: Option<ScopeValue>)
        ensures
            bound_view(r) == element(self@, index),
    {
        match self {
            Self::Static(list) => if index < list.len() {
                Some(list[index].duplicate())
            } else {
                None
            },
            Self::State { path, .. } => Some(ScopeValue::Dyn(path.compose(index))),
            Self::Empty => None,
        }
    }

    /// Takes in what was reported of the collection; see [`run_changed`].
    pub fn apply(&mut self, change: crate::state::Change)
        ensures
            final(self)@ == run_changed(old(self)@, change),
    {
        match self {
            Self::State { path, len } => {
                let n = *len;
                match change {
                    crate::state::Change::Push => {
                        if n < usize::MAX {
                            *len = n + 1;
                        }
                    },
                    crate::state::Change::Insert(index) => {
                        if index <= n && n < usize::MAX {
                            *len = n + 1;
                        }
                    },
                    crate::state::Change::Remove(index) => {
                        if n > 0 {
                            *len = n - 1;
                        }
                    },
                    crate::state::Change::Clear => {
                        *len = 0;
                    },
                    _ => {},
                }
            },
            _ => {},
        }
    }
}

pub open spec fn bound_view(v: Option<ScopeValue>) -> Option<Bound> {
    match v {
        Some(v) => Some(v@),
        None => None,
    }
}

pub open spec fn bound_ref_view(v: Option<&ScopeValue>) -> Option<Bound> {
    match v {
        Some(v) => Some(v@),
        None => None,
    }
}

/// One binding: a name, given as a path, and its value.
pub struct Binding {
    pub path: Path,
    pub value: ScopeValue,
}

pub open spec fn binding_view(b: Binding) -> (PathView, Bound) {
    (b.path@, b.value@)
}

/// The views of the bindings of a frame.
pub open spec fn frame_view(frame: Seq<Binding>) -> Seq<(PathView, Bound)> {
    Seq::new(frame.len(), |i: int| binding_view(frame[i]))
}

/// The last binding of `path` in `frame`.
pub open spec fn frame_lookup(frame: Seq<(PathView, Bound)>, path: PathView) -> Option<Bound>
    decreases frame.len(),
{
    if frame.len() == 0 {
        None
    } else if frame.last().0 == path {
        Some(frame.last().1)
    } else {
        frame_lookup(frame.drop_last(), path)
    }
}

/// What `path` is bound to in the innermost frame that binds it.
pub open spec fn lookup_spec(frames: Seq<Seq<(PathView, Bound)>>, path: PathView) -> Option<
    Bound,
>
    decreases frames.len(),
{
    if frames.len() == 0 {
        None
    } else {
        match frame_lookup(frames.last(), path) {
            Some(value) => Some(value),
            None => lookup_spec(frames.drop_last(), path),
        }
    }
}

/// A stack of frames. A name is looked up in the innermost frame first,
/// then in the frames around it. A new binding goes into the innermost
/// frame and hides, but never changes, the bindings of the frames around.
pub struct Scope {
    frames: Vec<Vec<Binding>>,
}

impl View for Scope {
    type V = Seq<Seq<(PathView, Bound)>>;

    closed spec fn view(&self) -> Seq<Seq<(PathView, Bound)>> {
        Seq::new(self.frames.len() as nat, |i: int| frame_view(self.frames[i]@))
    }
}

fn copy_frame(frame: &Vec<Binding>) -> (r: Vec<Binding>)
    ensures
        frame_view(r@) == frame_view(frame@),
{
    let mut out: Vec<Binding> = Vec::new();
    let mut i: usize = 0;
    while i < frame.len()
        invariant
            i <= frame.len(),
            out.len() == i,
            forall|j: int| 0 <= j < i ==> binding_view(out[j]) == binding_view(frame[j]),
        decreases frame.len() - i,
    {
        out.push(Binding { path: frame[i].path.duplicate(), value: frame[i].value.duplicate() });
        i += 1;
    }
    assert(frame_view(out@) =~= frame_view(frame@));
    out
}

fn find_in_frame<'a>(frame: &'a Vec<Binding>, path: &Path) -> (r: Option<&'a ScopeValue>)
    ensures
        bound_ref_view(r) == frame_lookup(frame_view(frame@), path@),
{
    let ghost views = frame_view(frame@);
    let mut i = frame.len();
    assert(views.take(i as int) =~= views);
    while i > 0
        invariant
            i <= frame.len(),
            views == frame_view(frame@),
            frame_lookup(views.take(i as int), path@) == frame_lookup(views, path@),
        decreases i,
    {
        i -= 1;
        assert(views.take(i + 1).last() == views[i as int]);
        assert(views.take(i + 1).drop_last() =~= views.take(i as int));
        if frame[i].path.same(path) {
            return Some(&frame[i].value);
        }
    }
    None
}

impl Scope {
    /// A scope with one frame, which binds nothing.
    pub fn new() -> (s: Self)
        ensures
            s@ == seq![Seq::<(PathView, Bound)>::empty()],
    {
        let mut frames: Vec<Vec<Binding>> = Vec::new();
        frames.push(Vec::new());
        let s = Self { frames };
        assert(s@ =~= seq![Seq::<(PathView, Bound)>::empty()]) by {
            assert(frame_view(s.frames[0]@) =~= Seq::<(PathView, Bound)>::empty());
        }
        s
    }

    /// Binds `path` to `value` in the innermost frame.
    pub fn scope(&mut self, path: Path, value: ScopeValue)
        requires
            old(self)@.len() > 0,
        ensures
            final(self)@ == old(self)@.update(
                old(self)@.len() - 1,
                old(self)@.last().push((path@, value@)),
            ),
    {
        let last = self.frames.len() - 1;
        let mut frame = self.frames.pop().unwrap();
        let ghost before = frame_view(frame@);
        frame.push(Binding { path, value });
        assert(frame_view(frame@) =~= before.push((path@, value@)));
        self.frames.push(frame);
        assert(self@ =~= old(self)@.update(
            old(self)@.len() - 1,
            old(self)@.last().push((path@, value@)),
        ));
    }

    /// Binds `binding` to the element at `value_index` of `collection`, if
    /// it has one.
    pub fn scope_collection(
        &mut self,
        binding: Path,
        collection: &Collection,
        value_index: usize,
    )
        requires
            old(self)@.len() > 0,
        ensures
            final(self)@ == match element(collection@, value_index) {
                Some(value) => old(self)@.update(
                    old(self)@.len() - 1,
                    old(self)@.last().push((binding@, value)),
                ),
                None => old(self)@,
            },
    {
        match collection.get(value_index) {
            Some(value) => self.scope(binding, value),
            None => {},
        }
    }

    /// What `path` is bound to.
    pub fn lookup(&self, path: &Path) -> (r: Option<&ScopeValue>)
        ensures
            bound_ref_view(r) == lookup_spec(self@, path@),
    {
        let ghost views = self@;
        let mut i = self.frames.len();
        assert(views.take(i as int) =~= views);
        while i > 0
            invariant
                i <= self.frames.len(),
                views == self@,
                lookup_spec(views.take(i as int), path@) == lookup_spec(views, path@),
            decreases i,
        {
            i -= 1;
            assert(views.take(i + 1).last() == views[i as int]);
            assert(views.take(i + 1).drop_last() =~= views.take(i as int));
            match find_in_frame(&self.frames[i], path) {
                Some(value) => {
                    return Some(value);
                },
                None => {},
            }
        }
        None
    }

    /// What `path` is bound to in the frames around the innermost.
    pub fn lookup_parent(&self, path: &Path) -> (r: Option<&ScopeValue>)
        ensures
            bound_ref_view(r) == if self@.len() == 0 {
                None
            } else {
                lookup_spec(self@.drop_last(), path@)
            },
    {
        let ghost views = self@;
        if self.frames.len() == 0 {
            return None;
        }
        let mut i = self.frames.len() - 1;
        assert(views.take(i as int) =~= views.drop_last());
        while i > 0
            invariant
                i < self.frames.len(),
                views == self@,
                lookup_spec(views.take(i as int), path@) == lookup_spec(views.drop_last(), path@),
            decreases i,
        {
            i -= 1;
            assert(views.take(i + 1).last() == views[i as int]);
            assert(views.take(i + 1).drop_last() =~= views.take(i as int));
            match find_in_frame(&self.frames[i], path) {
                Some(value) => {
                    return Some(value);
                },
                None => {},
            }
        }
        None
    }

    /// The list that `path` is bound to, if it is bound to one.
    pub fn lookup_list(&self, path: &Path) -> (r: Option<&Vec<ScopeValue>>)
        ensures
            match lookup_spec(self@, path@) {
                Some(Bound::List(items)) => r is Some && bounds_of(r->Some_0@) == items,
                _ => r is None,
            },
    {
        match self.lookup(path) {
            Some(ScopeValue::List(value)) => {
                proof {
                    lemma_bound_list(*value);
                }
                Some(value)
            },
            _ => None,
        }
    }

    /// A scope around this one: the same frames, and a new, empty one as
    /// the innermost.
    pub fn from_self(&self) -> (r: Scope)
        ensures
            r@ == self@.push(Seq::empty()),
    {
        let mut frames: Vec<Vec<Binding>> = Vec::new();
        let mut i: usize = 0;
        while i < self.frames.len()
            invariant
                i <= self.frames.len(),
                frames.len() == i,
                forall|j: int| 0 <= j < i ==> frame_view(frames[j]@) == frame_view(self.frames[j]@),
            decreases self.frames.len() - i,
        {
            frames.push(copy_frame(&self.frames[i]));
            i += 1;
        }
        let empty: Vec<Binding> = Vec::new();
        assert(frame_view(empty@) =~= Seq::<(PathView, Bound)>::empty());
        frames.push(empty);
        let r = Scope { frames };
        assert(r@ =~= self@.push(Seq::empty()));
        r
    }

    /// A copy of the scope.
    pub fn duplicate(&self) -> (r: Scope)
        ensures
            r@ == self@,
    {
        let mut frames: Vec<Vec<Binding>> = Vec::new();
        let mut i: usize = 0;
        while i < self.frames.len()
            invariant
                i <= self.frames.len(),
                frames.len() == i,
                forall|j: int| 0 <= j < i ==> frame_view(frames[j]@) == frame_view(self.frames[j]@),
            decreases self.frames.len() - i,
        {
            frames.push(copy_frame(&self.frames[i]));
            i += 1;
        }
        let r = Scope { frames };
        assert(r@ =~= self@);
        r
    }
}

/// Binding a name in a scope around another never changes what the frames
/// of the other bind: the bindings of the frames below the innermost are
/// as they were.
pub proof fn lemma_parents_untouched(
    frames: Seq<Seq<(PathView, Bound)>>,
    path: PathView,
    value: Bound,
)
    requires
        frames.len() > 0,
    ensures
        frames.update(frames.len() - 1, frames.last().push((path, value))).drop_last()
            == frames.drop_last(),
        lookup_spec(frames.update(frames.len() - 1, frames.last().push((path, value))), path)
            == Some(value),
{
    let after = frames.update(frames.len() - 1, frames.last().push((path, value)));
    assert(after.drop_last() =~= frames.drop_last());
    assert(after.last().last() == (path, value));
}

} // verus!
