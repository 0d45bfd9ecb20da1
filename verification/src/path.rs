//! Paths: where a value lies in the state.
use vstd::prelude::*;

verus! {

/// A key, an index, or one path followed by another: `a.b[0]` is
/// `Composite(Composite(Key("a"), Key("b")), Index(0))`.
#[derive(Debug)]
pub enum Path {
    Key(String),
    Index(usize),
    Composite(Box<Path>, Box<Path>),
}

/// The mathematical form of a [`Path`].
pub enum PathView {
    Key(Seq<char>),
    Index(usize),
    Composite(Box<PathView>, Box<PathView>),
}

pub open spec fn path_view(p: Path) -> PathView
    decreases p,
{
    match p {
        Path::Key(k) => PathView::Key(k@),
        Path::Index(i) => PathView::Index(i),
        Path::Composite(a, b) => PathView::Composite(
            Box::new(path_view(*a)),
            Box::new(path_view(*b)),
        ),
    }
}

impl View for Path {
    type V = PathView;

    open spec fn view(&self) -> PathView {
        path_view(*self)
    }
}

impl Path {
    pub fn key(name: &str) -> (p: Path)
        ensures
            p@ == PathView::Key(name@),
    {
        Path::Key(name.to_owned())
    }

    /// Whether two paths are the same, part by part.
    pub fn same(&self, other: &Path) -> (r: bool)
        ensures
            r == (self@ == other@),
        decreases self,
    {
        match (self, other) {
            (Path::Key(a), Path::Key(b)) => *a == *b,
            (Path::Index(a), Path::Index(b)) => *a == *b,
            (Path::Composite(a1, a2), Path::Composite(b1, b2)) => a1.same(b1) && a2.same(b2),
            _ => false,
        }
    }

    pub fn duplicate(&self) -> (r: Path)
        ensures
            r@ == self@,
        decreases self,
    {
        match self {
            Path::Key(k) => Path::Key(k.clone()),
            Path::Index(i) => Path::Index(*i),
            Path::Composite(a, b) => Path::Composite(
                Box::new(a.duplicate()),
                Box::new(b.duplicate()),
            ),
        }
    }

    /// The path of the element at `index` of the collection at this path.
    pub fn compose(&self, index: usize) -> (r: Path)
        ensures
            r@ == PathView::Composite(Box::new(self@), Box::new(PathView::Index(index))),
    {
        let path = Path::Composite(Box::new(self.duplicate()), Box::new(Path::Index(index)));
        assert(Path::Index(index)@ == PathView::Index(index));
        assert(path@ == PathView::Composite(
            Box::new(path->Composite_0@),
            Box::new(path->Composite_1@),
        ));
        path
    }
}

} // verus!
