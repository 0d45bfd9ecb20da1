//! The ids of widget nodes: the path of child indices from the root.
use vstd::prelude::*;

verus! {

/// The id of a node: the index of the node among its siblings behind the
/// id of its parent. The root has the empty id.
#[derive(Debug)]
pub struct NodeId(pub Vec<usize>);

impl View for NodeId {
    type V = Seq<usize>;

    open spec fn view(&self) -> Seq<usize> {
        self.0@
    }
}

/// `a` is `b`, or the id of a node that `b` lies under.
pub open spec fn is_prefix(a: Seq<usize>, b: Seq<usize>) -> bool {
    a.len() <= b.len() && b.subrange(0, a.len() as int) == a
}

/// `a` comes before `b` when nodes are put in order: at the first place
/// where they differ `a` is smaller, or `a` ends there and `b` goes on.
pub open spec fn before(a: Seq<usize>, b: Seq<usize>) -> bool
    decreases a.len(),
{
    if b.len() == 0 {
        false
    } else if a.len() == 0 {
        true
    } else if a[0] != b[0] {
        a[0] < b[0]
    } else {
        before(a.drop_first(), b.drop_first())
    }
}

/// An id that comes before a second, which comes before a third, comes
/// before the third.
pub proof fn lemma_before_chain(a: Seq<usize>, b: Seq<usize>, c: Seq<usize>)
    requires
        before(a, b),
        before(b, c),
    ensures
        before(a, c),
    decreases a.len(),
{
    if c.len() > 0 && a.len() > 0 {
        assert(b.len() > 0);
        if a[0] == b[0] && b[0] == c[0] {
            lemma_before_chain(a.drop_first(), b.drop_first(), c.drop_first());
        }
    }
}

impl NodeId {
    /// The id of the root.
    pub fn root() -> (id: NodeId)
        ensures
            id@ == Seq::<usize>::empty(),
    {
        NodeId(Vec::new())
    }

    pub fn duplicate(&self) -> (id: NodeId)
        ensures
            id@ == self@,
    {
        let mut inner: Vec<usize> = Vec::new();
        let mut i: usize = 0;
        while i < self.0.len()
            invariant
                i <= self.0.len(),
                inner@ == self@.take(i as int),
            decreases self.0.len() - i,
        {
            inner.push(self.0[i]);
            assert(self@.take(i + 1) =~= self@.take(i as int).push(self@[i as int]));
            i += 1;
        }
        assert(self@.take(self.0.len() as int) =~= self@);
        NodeId(inner)
    }

    /// The id of the child with the index `index`.
    pub fn child(&self, index: usize) -> (id: NodeId)
        ensures
            id@ == self@.push(index),
    {
        let mut id = self.duplicate();
        id.0.push(index);
        id
    }

    /// The id of a new node under this one: this id with the number that
    /// `counter` holds behind it. The counter then holds the next number,
    /// and begins anew behind the greatest.
    pub fn next(&self, counter: &mut usize) -> (id: NodeId)
        ensures
            id@ == self@.push(*old(counter)),
            *final(counter) == if *old(counter) == usize::MAX {
                0
            } else {
                (*old(counter) + 1) as usize
            },
    {
        let id = self.child(*counter);
        if *counter == usize::MAX {
            *counter = 0;
        } else {
            *counter = *counter + 1;
        }
        id
    }

    /// Whether two ids are the same.
    pub fn same(&self, other: &NodeId) -> (r: bool)
        ensures
            r == (self@ == other@),
    {
        if self.0.len() != other.0.len() {
            return false;
        }
        let mut i: usize = 0;
        while i < self.0.len()
            invariant
                i <= self.0.len(),
                self.0.len() == other.0.len(),
                forall|j: int| 0 <= j < i ==> self@[j] == other@[j],
            decreases self.0.len() - i,
        {
            if self.0[i] != other.0[i] {
                return false;
            }
            i += 1;
        }
        assert(self@ =~= other@);
        true
    }

    /// Whether `other` is this node or lies under it.
    pub fn contains(&self, other: &NodeId) -> (r: bool)
        ensures
            r == is_prefix(self@, other@),
    {
        if self.0.len() > other.0.len() {
            return false;
        }
        let mut i: usize = 0;
        while i < self.0.len()
            invariant
                i <= self.0.len() <= other.0.len(),
                forall|j: int| 0 <= j < i ==> self@[j] == other@[j],
            decreases self.0.len() - i,
        {
            if self.0[i] != other.0[i] {
                assert(other@.subrange(0, self@.len() as int)[i as int] != self@[i as int]);
                return false;
            }
            i += 1;
        }
        assert(other@.subrange(0, self@.len() as int) =~= self@);
        true
    }

    /// Whether this id comes before `other`.
    pub fn precedes(&self, other: &NodeId) -> (r: bool)
        ensures
            r == before(self@, other@),
    {
        let mut i: usize = 0;
        assert(self@.skip(0) =~= self@);
        assert(other@.skip(0) =~= other@);
        while i < self.0.len() && i < other.0.len()
            invariant
                i <= self.0.len(),
                i <= other.0.len(),
                before(self@.skip(i as int), other@.skip(i as int)) == before(self@, other@),
            decreases self.0.len() - i,
        {
            if self.0[i] != other.0[i] {
                assert(self@.skip(i as int)[0] == self@[i as int]);
                assert(other@.skip(i as int)[0] == other@[i as int]);
                return self.0[i] < other.0[i];
            }
            assert(self@.skip(i as int)[0] == self@[i as int]);
            assert(other@.skip(i as int)[0] == other@[i as int]);
            assert(self@.skip(i as int).drop_first() =~= self@.skip(i + 1));
            assert(other@.skip(i as int).drop_first() =~= other@.skip(i + 1));
            i += 1;
        }
        i < other.0.len()
    }
}

} // verus!
