//! Widgets as the engine holds them, and the registry of widget kinds.
use vstd::prelude::*;
use crate::attributes::{value_of, ValuesAttributes};
use crate::error::Error;
use crate::strings::{index_of, lemma_index_of};
use crate::layout::Padding;
use crate::node_id::NodeId;
use crate::state::{Seen, ValueRef};
use crate::widgets::{forward, moved};

verus! {

/// A width and a height, in cells.
#[derive(Debug, Copy, Clone, PartialEq, Eq, Structural)]
pub struct Size {
    pub width: usize,
    pub height: usize,
}

impl Size {
    pub fn new(width: usize, height: usize) -> (s: Self)
        ensures
            s == (Size { width, height }),
    {
        Self { width, height }
    }

    pub fn zero() -> (s: Self)
        ensures
            s == (Size { width: 0, height: 0 }),
    {
        Self { width: 0, height: 0 }
    }
}

/// A place on the screen; it may lie outside of it.
#[derive(Debug, Copy, Clone, PartialEq, Eq, Structural)]
pub struct Pos {
    pub x: i32,
    pub y: i32,
}

impl Pos {
    pub fn new(x: i32, y: i32) -> (p: Self)
        ensures
            p == (Pos { x, y }),
    {
        Self { x, y }
    }

    pub fn zero() -> (p: Self)
        ensures
            p == (Pos { x: 0, y: 0 }),
    {
        Self { x: 0, y: 0 }
    }
}

/// A place inside a widget.
#[derive(Debug, Copy, Clone, PartialEq, Eq, Structural)]
pub struct LocalPos {
    pub x: usize,
    pub y: usize,
}

/// How a widget takes part in layout and painting.
#[derive(Debug, Copy, Clone, PartialEq, Eq, Structural)]
pub enum Display {
    /// Laid out and painted.
    Show,
    /// Laid out, not painted.
    Hide,
    /// Neither laid out nor painted.
    Exclude,
}

/// One attribute of a widget: its name, and the value that its expression
/// resolved to, if it resolved to one.
#[derive(Debug)]
pub struct Attribute {
    pub name: String,
    pub value: Option<ValueRef>,
}

pub open spec fn attribute_view(a: Attribute) -> (Seq<char>, Option<Seen>) {
    (a.name@, crate::state::seen_view(a.value))
}

/// The views of a list of attributes.
pub open spec fn attributes_view(attributes: Seq<Attribute>) -> Seq<(Seq<char>, Option<Seen>)> {
    Seq::new(attributes.len(), |i: int| attribute_view(attributes[i]))
}

/// A widget with what every widget has: its kind, its id, its resolved
/// text and attributes, and where layout put it.
#[derive(Debug)]
pub struct WidgetContainer {
    /// The name that the template gave the widget.
    pub name: String,
    /// The kind of widget that the registry makes of that name.
    pub kind: String,
    pub node_id: NodeId,
    pub text: String,
    pub attributes: Vec<Attribute>,
    pub display: Display,
    pub padding: Padding,
    pub pos: Pos,
    pub size: Size,
    /// Whether a value that the widget shows has changed since it was laid
    /// out.
    pub dirty: bool,
}

/// A part of the screen: from its upper left corner up to, and without,
/// its lower right corner.
#[derive(Debug, Copy, Clone, PartialEq, Eq, Structural)]
pub struct Region {
    pub from: Pos,
    pub to: Pos,
}

/// A number of cells with some more; the greatest number where the sum is
/// beyond it.
pub open spec fn with_more(n: usize, more: int) -> usize {
    if n + more > usize::MAX {
        usize::MAX
    } else {
        (n + more) as usize
    }
}

/// The size of a container around a widget of the size `inner`: nothing
/// where the widget is excluded, else the size with the padding.
pub open spec fn outer_size_spec(display: Display, inner: Size, padding: Padding) -> Size {
    if display is Exclude {
        Size { width: 0, height: 0 }
    } else {
        Size {
            width: with_more(inner.width, with_more(padding.left, padding.right as int) as int),
            height: with_more(inner.height, with_more(padding.top, padding.bottom as int) as int),
        }
    }
}

/// Where a widget stands inside a container at `pos`.
pub open spec fn padded_position(pos: Pos, padding: Padding) -> Pos {
    Pos { x: moved(pos.x, padding.left as int), y: moved(pos.y, padding.top as int) }
}

/// The size without the padding; no less than nothing.
pub open spec fn inner_size_spec(size: Size, padding: Padding) -> Size {
    Size {
        width: if size.width >= padding.left + padding.right {
            (size.width - (padding.left + padding.right)) as usize
        } else {
            0
        },
        height: if size.height >= padding.top + padding.bottom {
            (size.height - (padding.top + padding.bottom)) as usize
        } else {
            0
        },
    }
}

/// Where a place on the screen lies inside a widget that stands at `pos`;
/// nowhere if it lies to the left of the widget or above it, or if the
/// widget itself lies to the left of the screen or above it.
pub open spec fn to_local(pos: Pos, x: u16, y: u16) -> Option<LocalPos> {
    if 0 <= pos.x <= x && 0 <= pos.y <= y {
        Some(LocalPos { x: (x - pos.x) as usize, y: (y - pos.y) as usize })
    } else {
        None
    }
}

impl WidgetContainer {
    /// A widget of the kind `kind`, which a template named by its kind.
    pub fn new(kind: String, node_id: NodeId, text: String, attributes: Vec<Attribute>) -> (w:
        Self)
        ensures
            w.name@ == kind@,
            w.kind@ == kind@,
            w.node_id@ == node_id@,
            w.text@ == text@,
            w.attributes == attributes,
            w.display == Display::Show,
            w.padding == (Padding { top: 0, right: 0, bottom: 0, left: 0 }),
            w.pos == (Pos { x: 0, y: 0 }),
            w.size == (Size { width: 0, height: 0 }),
            !w.dirty,
    {
        Self::named(kind.clone(), kind, node_id, text, attributes)
    }

    /// A widget of the kind `kind`, which a template named `name`.
    pub fn named(
        name: String,
        kind: String,
        node_id: NodeId,
        text: String,
        attributes: Vec<Attribute>,
    ) -> (w: Self)
        ensures
            w.name@ == name@,
            w.kind@ == kind@,
            w.node_id@ == node_id@,
            w.text@ == text@,
            w.attributes == attributes,
            w.display == Display::Show,
            w.padding == (Padding { top: 0, right: 0, bottom: 0, left: 0 }),
            w.pos == (Pos { x: 0, y: 0 }),
            w.size == (Size { width: 0, height: 0 }),
            !w.dirty,
    {
        Self {
            name,
            kind,
            node_id,
            text,
            attributes,
            display: Display::Show,
            padding: Padding::zero(),
            pos: Pos::zero(),
            size: Size::zero(),
            dirty: false,
        }
    }

    pub fn pos(&self) -> (p: Pos)
        ensures
            p == self.pos,
    {
        self.pos
    }

    pub fn outer_size(&self) -> (s: Size)
        ensures
            s == self.size,
    {
        self.size
    }

    /// The size without the padding.
    pub fn inner_size(&self) -> (s: Size)
        ensures
            s == inner_size_spec(self.size, self.padding),
    {
        let horizontal = self.padding.left.saturating_add(self.padding.right);
        let vertical = self.padding.top.saturating_add(self.padding.bottom);
        Size::new(
            self.size.width.saturating_sub(horizontal),
            self.size.height.saturating_sub(vertical),
        )
    }

    /// Where a place on the screen lies inside the widget.
    pub fn screen_to_local(&self, x: u16, y: u16) -> (r: Option<LocalPos>)
        ensures
            r == to_local(self.pos, x, y),
    {
        let pos = self.pos;
        if pos.x < 0 || pos.y < 0 || pos.x > x as i32 || pos.y > y as i32 {
            return None;
        }
        Some(LocalPos { x: (x as i32 - pos.x) as usize, y: (y as i32 - pos.y) as usize })
    }

    /// The value of the attribute `name`: that of the first attribute of
    /// the name that has a value.
    pub fn attribute(&self, name: &String) -> (r: Option<&ValueRef>)
        ensures
            match r {
                Some(value) => value_of(attributes_view(self.attributes@), name@) == Some(value@),
                None => value_of(attributes_view(self.attributes@), name@) is None,
            },
    {
        self.values().get_attrib(name.as_str())
    }

    /// Takes in the size that the widget itself laid out: the size of the
    /// container is that size with the padding around it, and nothing
    /// where the widget is excluded.
    pub fn layout(&mut self, inner: Size) -> (size: Size)
        ensures
            size == outer_size_spec(old(self).display, inner, old(self).padding),
            *final(self) == (WidgetContainer { size, ..*old(self) }),
    {
        match self.display {
            Display::Exclude => {
                self.size = Size::zero();
            },
            _ => {
                let horizontal = self.padding.left.saturating_add(self.padding.right);
                let vertical = self.padding.top.saturating_add(self.padding.bottom);
                self.size = Size::new(
                    inner.width.saturating_add(horizontal),
                    inner.height.saturating_add(vertical),
                );
            },
        }
        self.size
    }

    /// Puts the container at `pos` and returns where the widget itself
    /// stands: behind the padding on the left and below the padding at the
    /// top.
    pub fn position(&mut self, pos: Pos) -> (inner: Pos)
        ensures
            inner == padded_position(pos, old(self).padding),
            *final(self) == (WidgetContainer { pos, ..*old(self) }),
    {
        self.pos = pos;
        Pos::new(forward(pos.x, self.padding.left), forward(pos.y, self.padding.top))
    }

    /// Whether the widget is painted: one that is hidden or excluded is
    /// not.
    pub fn is_painted(&self) -> (b: bool)
        ensures
            b == (self.display is Show),
    {
        match self.display {
            Display::Show => true,
            _ => false,
        }
    }

    /// The part of the screen that the container takes.
    pub fn region(&self) -> (r: Region)
        ensures
            r == (Region {
                from: self.pos,
                to: Pos {
                    x: moved(self.pos.x, self.size.width as int),
                    y: moved(self.pos.y, self.size.height as int),
                },
            }),
    {
        Region {
            from: self.pos,
            to: Pos::new(
                forward(self.pos.x, self.size.width),
                forward(self.pos.y, self.size.height),
            ),
        }
    }

    /// The attributes of the widget, to be read as the values that the
    /// widget expects.
    pub fn values(&self) -> (r: ValuesAttributes<'_>)
        ensures
            r@ == attributes_view(self.attributes@),
    {
        ValuesAttributes::new(&self.attributes)
    }
}

/// A name that the template language keeps for itself.
pub open spec fn is_reserved(name: Seq<char>) -> bool {
    name == "for"@ || name == "in"@ || name == "if"@ || name == "else"@ || name == "view"@
}

/// The registry of widget kinds: the names that a template may use for a
/// node, and the kind of widget that is made of each.
pub struct Factory {
    entries: Vec<(String, String)>,
}

impl View for Factory {
    type V = Seq<Seq<char>>;

    /// The names that are registered, in the order in which they were.
    closed spec fn view(&self) -> Seq<Seq<char>> {
        Seq::new(self.entries.len() as nat, |i: int| self.entries[i].0@)
    }
}

impl Factory {
    /// The kind of widget that is made of the name `name`: the kind that
    /// it was registered for; the name itself of a name that is not
    /// registered.
    pub closed spec fn kind_of(&self, name: Seq<char>) -> Seq<char> {
        match index_of(self@, name) {
            Some(i) => if 0 <= i < self.entries.len() {
                self.entries[i].1@
            } else {
                name
            },
            None => name,
        }
    }

    /// A registry that knows no kind.
    pub fn new() -> (f: Self)
        ensures
            f@ == Seq::<Seq<char>>::empty(),
            f@.no_duplicates(),
            forall|name: Seq<char>| #[trigger] f.kind_of(name) == name,
    {
        let f = Self { entries: Vec::new() };
        assert(f@ =~= Seq::<Seq<char>>::empty());
        assert forall|name: Seq<char>| #[trigger] f.kind_of(name) == name by {
            lemma_index_of(f@, name);
        }
        f
    }

    /// The place of the name `ident` in the registry, if it is registered.
    fn find(&self, ident: &String) -> (r: Option<usize>)
        ensures
            match r {
                Some(i) => index_of(self@, ident@) == Some(i as int) && i < self.entries.len(),
                None => index_of(self@, ident@) is None,
            },
            (r is Some) == self@.contains(ident@),
    {
        proof {
            lemma_index_of(self@, ident@);
        }
        let mut i: usize = 0;
        while i < self.entries.len()
            invariant
                i <= self.entries.len(),
                forall|j: int| 0 <= j < i ==> self@[j] != ident@,
            decreases self.entries.len() - i,
        {
            if self.entries[i].0 == *ident {
                proof {
                    assert(self@[i as int] == ident@);
                    lemma_index_of(self@, ident@);
                }
                return Some(i);
            }
            i += 1;
        }
        proof {
            lemma_index_of(self@, ident@);
        }
        None
    }

    /// Whether the kind `ident` is registered.
    pub fn knows(&self, ident: &String) -> (b: bool)
        ensures
            b == self@.contains(ident@),
    {
        self.find(ident).is_some()
    }

    /// Registers a kind under its own name. A reserved name and a name
    /// that is registered already are refused, and the registry stays as
    /// it is.
    pub fn register(&mut self, ident: &str) -> (r: Result<(), Error>)
        ensures
            old(self)@.no_duplicates() ==> final(self)@.no_duplicates(),
            if is_reserved(ident@) {
                r is Err && r->Err_0 is ReservedName && r->Err_0->ReservedName_0@ == ident@
                    && final(self)@ == old(self)@
            } else if old(self)@.contains(ident@) {
                r is Err && r->Err_0 is ExistingName && r->Err_0->ExistingName_0@ == ident@
                    && final(self)@ == old(self)@
            } else {
                r is Ok && final(self)@ == old(self)@.push(ident@) && final(self).kind_of(ident@)
                    == ident@
            },
            forall|name: Seq<char>|
                name != ident@ || r is Err ==> #[trigger] final(self).kind_of(name) == old(
                    self,
                ).kind_of(name),
    {
        self.register_as(ident, ident)
    }

    /// Registers the name `ident` for widgets of the kind `kind`. A
    /// reserved name and a name that is registered already are refused,
    /// and the registry stays as it is.
    pub fn register_as(&mut self, ident: &str, kind: &str) -> (r: Result<(), Error>)
        ensures
            old(self)@.no_duplicates() ==> final(self)@.no_duplicates(),
            if is_reserved(ident@) {
                r is Err && r->Err_0 is ReservedName && r->Err_0->ReservedName_0@ == ident@
                    && final(self)@ == old(self)@
            } else if old(self)@.contains(ident@) {
                r is Err && r->Err_0 is ExistingName && r->Err_0->ExistingName_0@ == ident@
                    && final(self)@ == old(self)@
            } else {
                r is Ok && final(self)@ == old(self)@.push(ident@) && final(self).kind_of(ident@)
                    == kind@
            },
            forall|name: Seq<char>|
                name != ident@ || r is Err ==> #[trigger] final(self).kind_of(name) == old(
                    self,
                ).kind_of(name),
    {
        let name = ident.to_owned();
        if name == "for".to_owned() || name == "in".to_owned() || name == "if".to_owned() || name
            == "else".to_owned() || name == "view".to_owned() {
            return Err(Error::ReservedName(name));
        }
        if self.knows(&name) {
            return Err(Error::ExistingName(name));
        }
        self.entries.push((name, kind.to_owned()));
        proof {
            assert(self@ =~= old(self)@.push(ident@));
            if old(self)@.no_duplicates() {
                assert forall|i: int, j: int|
                    0 <= i < self@.len() && 0 <= j < self@.len() && i != j implies self@[i]
                    != self@[j] by {
                    if i < old(self)@.len() {
                        assert(self@[i] == old(self)@[i]);
                        assert(old(self)@.contains(old(self)@[i]));
                    }
                    if j < old(self)@.len() {
                        assert(self@[j] == old(self)@[j]);
                        assert(old(self)@.contains(old(self)@[j]));
                    }
                }
            }
            lemma_index_of(self@, ident@);
            lemma_index_of(old(self)@, ident@);
            assert forall|other: Seq<char>| other != ident@ implies #[trigger] self.kind_of(
                other,
            ) == old(self).kind_of(other) by {
                lemma_index_of(self@, other);
                lemma_index_of(old(self)@, other);
                match index_of(old(self)@, other) {
                    Some(k) => {
                        assert(self@[k] == old(self)@[k]);
                        assert(self.entries@[k] == old(self).entries@[k]);
                        assert(index_of(self@, other) == Some(k));
                    },
                    None => {
                        assert(index_of(self@, other) is None) by {
                            assert forall|j: int| 0 <= j < self@.len() implies self@[j]
                                != other by {
                                if j < old(self)@.len() {
                                    assert(self@[j] == old(self)@[j]);
                                }
                            }
                        }
                    },
                }
            }
        }
        Ok(())
    }

    /// Makes the widget of a node: of a registered name a widget of the
    /// kind that the name stands for, with the id, text and attributes
    /// given; of any other name an error that names it.
    pub fn exec(&self, ident: &String, node_id: NodeId, text: String, attributes: Vec<Attribute>) -> (r:
        Result<WidgetContainer, Error>)
        ensures
            if self@.contains(ident@) {
                r is Ok && r->Ok_0.name@ == ident@ && r->Ok_0.kind@ == self.kind_of(ident@)
                    && r->Ok_0.node_id@ == node_id@ && r->Ok_0.text@ == text@
                    && r->Ok_0.attributes == attributes && r->Ok_0.display == Display::Show
                    && !r->Ok_0.dirty
            } else {
                r is Err && r->Err_0 is UnregisteredWidget && r->Err_0->UnregisteredWidget_0@
                    == ident@
            },
    {
        match self.find(ident) {
            Some(i) => {
                let kind = self.entries[i].1.clone();
                Ok(WidgetContainer::named(ident.clone(), kind, node_id, text, attributes))
            },
            None => Err(Error::UnregisteredWidget(ident.clone())),
        }
    }
}

} // verus!
