//! The constant pool of a compiled template: strings, texts and value
//! expressions, each interned by value.
use vstd::prelude::*;
use crate::strings::{intern, lemma_index_of, Strings};
use crate::token::StringId;
use crate::value::{Term, ValueExpr};

verus! {

/// Index of an interned text.
#[derive(Debug, Copy, Clone, PartialEq, Eq, Structural)]
pub struct TextId(pub usize);

/// Index of an interned value expression.
#[derive(Debug, Copy, Clone, PartialEq, Eq, Structural)]
pub struct ValueId(pub usize);

/// One piece of a text: a literal string, or an expression whose value is
/// put in its place.
#[derive(Debug, Copy, Clone, PartialEq, Eq, Structural)]
pub enum TextPart {
    Literal(StringId),
    Path(ValueId),
}

/// A text as the pool holds it: its pieces in order.
#[derive(Debug)]
pub struct TextPath(pub Vec<TextPart>);

impl View for TextPath {
    type V = Seq<TextPart>;

    open spec fn view(&self) -> Seq<TextPart> {
        self.0@
    }
}

impl TextPath {
    pub fn same(&self, other: &TextPath) -> (r: bool)
        ensures
            r == (self@ == other@),
    {
        if self.0.len() != other.0.len() {
            return false;
        }
        let mut i: usize = 0;
        while i < self.0.len()
            invariant
                i <= self.0.len(),
                self.0.len() == other.0.len(),
                forall|j: int| 0 <= j < i ==> self@[j] == other@[j],
            decreases self.0.len() - i,
        {
            if self.0[i] != other.0[i] {
                return false;
            }
            i += 1;
        }
        assert(self@ =~= other@);
        true
    }

    pub fn duplicate(&self) -> (r: TextPath)
        ensures
            r@ == self@,
    {
        let mut parts: Vec<TextPart> = Vec::new();
        let mut i: usize = 0;
        while i < self.0.len()
            invariant
                i <= self.0.len(),
                parts@ == self@.take(i as int),
            decreases self.0.len() - i,
        {
            parts.push(self.0[i]);
            assert(self@.take(i + 1) =~= self@.take(i as int).push(self@[i as int]));
            i += 1;
        }
        assert(self@.take(self.0.len() as int) =~= self@);
        TextPath(parts)
    }
}

/// Texts interned by value.
pub struct Texts {
    inner: Vec<TextPath>,
}

impl View for Texts {
    type V = Seq<Seq<TextPart>>;

    closed spec fn view(&self) -> Seq<Seq<TextPart>> {
        Seq::new(self.inner.len() as nat, |i: int| self.inner[i]@)
    }
}

impl Texts {
    pub fn empty() -> (t: Self)
        ensures
            t@ == Seq::<Seq<TextPart>>::empty(),
    {
        let t = Self { inner: Vec::new() };
        assert(t@ =~= Seq::<Seq<TextPart>>::empty());
        t
    }

    /// Interns `text`: an equal text already in the table keeps its id,
    /// otherwise `text` is appended.
    pub fn push(&mut self, text: TextPath) -> (id: TextId)
        ensures
            final(self)@ == intern(old(self)@, text@).0,
            id.0 == intern(old(self)@, text@).1,
            id.0 < final(self)@.len(),
            final(self)@[id.0 as int] == text@,
    {
        proof {
            lemma_index_of(self@, text@);
        }
        let mut i: usize = 0;
        while i < self.inner.len()
            invariant
                i <= self.inner.len(),
                self.inner == old(self).inner,
                forall|j: int| 0 <= j < i ==> self@[j] != text@,
            decreases self.inner.len() - i,
        {
            if self.inner[i].same(&text) {
                proof {
                    lemma_index_of(self@, text@);
                    assert(self@[i as int] == text@);
                    match crate::strings::index_of(self@, text@) {
                        Some(k) => {
                            if k < i {
                                assert(self@[k] != text@);
                            }
                        },
                        None => {},
                    }
                }
                return TextId(i);
            }
            i += 1;
        }
        let id = self.inner.len();
        self.inner.push(text);
        assert(self@ =~= old(self)@.push(text@));
        TextId(id)
    }

    pub fn get(&self, id: TextId) -> (r: Option<&TextPath>)
        ensures
            match r {
                Some(t) => id.0 < self@.len() && t@ == self@[id.0 as int],
                None => id.0 >= self@.len(),
            },
    {
        if id.0 < self.inner.len() {
            Some(&self.inner[id.0])
        } else {
            None
        }
    }
}

/// Value expressions interned by value.
pub struct Values {
    inner: Vec<ValueExpr>,
}

impl View for Values {
    type V = Seq<Term>;

    closed spec fn view(&self) -> Seq<Term> {
        Seq::new(self.inner.len() as nat, |i: int| self.inner[i]@)
    }
}

impl Values {
    pub fn empty() -> (t: Self)
        ensures
            t@ == Seq::<Term>::empty(),
    {
        let t = Self { inner: Vec::new() };
        assert(t@ =~= Seq::<Term>::empty());
        t
    }

    /// Interns `value`: an equal expression already in the table keeps its
    /// id, otherwise `value` is appended.
    pub fn push(&mut self, value: ValueExpr) -> (id: ValueId)
        ensures
            final(self)@ == intern(old(self)@, value@).0,
            id.0 == intern(old(self)@, value@).1,
            id.0 < final(self)@.len(),
            final(self)@[id.0 as int] == value@,
    {
        proof {
            lemma_index_of(self@, value@);
        }
        let mut i: usize = 0;
        while i < self.inner.len()
            invariant
                i <= self.inner.len(),
                self.inner == old(self).inner,
                forall|j: int| 0 <= j < i ==> self@[j] != value@,
            decreases self.inner.len() - i,
        {
            if self.inner[i].same(&value) {
                proof {
                    lemma_index_of(self@, value@);
                    assert(self@[i as int] == value@);
                    match crate::strings::index_of(self@, value@) {
                        Some(k) => {
                            if k < i {
                                assert(self@[k] != value@);
                            }
                        },
                        None => {},
                    }
                }
                return ValueId(i);
            }
            i += 1;
        }
        let id = self.inner.len();
        self.inner.push(value);
        assert(self@ =~= old(self)@.push(value@));
        ValueId(id)
    }

    pub fn get(&self, id: ValueId) -> (r: Option<&ValueExpr>)
        ensures
            match r {
                Some(v) => id.0 < self@.len() && v@ == self@[id.0 as int],
                None => id.0 >= self@.len(),
            },
    {
        if id.0 < self.inner.len() {
            Some(&self.inner[id.0])
        } else {
            None
        }
    }
}

/// The id of a condition.
#[derive(Debug, Copy, Clone, PartialEq, Eq, Structural)]
pub struct CondId(pub usize);

/// The conditions of `if` and `else`, interned by value.
pub struct Conditions(pub Values);

impl View for Conditions {
    type V = Seq<Term>;

    open spec fn view(&self) -> Seq<Term> {
        self.0@
    }
}

impl Conditions {
    pub fn empty() -> (t: Self)
        ensures
            t@ == Seq::<Term>::empty(),
    {
        Self(Values::empty())
    }

    /// Interns `cond`: an equal condition already in the table keeps its
    /// id, otherwise `cond` is appended.
    pub fn push(&mut self, cond: ValueExpr) -> (id: CondId)
        ensures
            final(self)@ == intern(old(self)@, cond@).0,
            id.0 == intern(old(self)@, cond@).1,
    {
        CondId(self.0.push(cond).0)
    }

    pub fn get(&self, index: CondId) -> (r: Option<&ValueExpr>)
        ensures
            match r {
                Some(v) => index.0 < self@.len() && v@ == self@[index.0 as int],
                None => index.0 >= self@.len(),
            },
    {
        self.0.get(ValueId(index.0))
    }
}

/// What a [`Constants`] pool holds.
pub struct Pool {
    pub strings: Seq<Seq<char>>,
    pub texts: Seq<Seq<TextPart>>,
    pub values: Seq<Term>,
}

/// The constant pool. It only grows: an id, once given, keeps its value.
pub struct Constants {
    pub strings: Strings,
    pub texts: Texts,
    pub values: Values,
}

impl View for Constants {
    type V = Pool;

    open spec fn view(&self) -> Pool {
        Pool { strings: self.strings@, texts: self.texts@, values: self.values@ }
    }
}

impl Constants {
    pub fn new() -> (c: Self)
        ensures
            c@.strings.len() == 0,
            c@.texts.len() == 0,
            c@.values.len() == 0,
    {
        Self { strings: Strings::empty(), texts: Texts::empty(), values: Values::empty() }
    }

    pub fn store_string(&mut self, string: String) -> (id: StringId)
        ensures
            final(self)@.strings == intern(old(self)@.strings, string@).0,
            id.0 == intern(old(self)@.strings, string@).1,
            final(self)@.texts == old(self)@.texts,
            final(self)@.values == old(self)@.values,
    {
        self.strings.push(string)
    }

    pub fn store_text(&mut self, text: TextPath) -> (id: TextId)
        ensures
            final(self)@.texts == intern(old(self)@.texts, text@).0,
            id.0 == intern(old(self)@.texts, text@).1,
            final(self)@.strings == old(self)@.strings,
            final(self)@.values == old(self)@.values,
    {
        self.texts.push(text)
    }

    pub fn store_value(&mut self, value: ValueExpr) -> (id: ValueId)
        ensures
            final(self)@.values == intern(old(self)@.values, value@).0,
            id.0 == intern(old(self)@.values, value@).1,
            final(self)@.strings == old(self)@.strings,
            final(self)@.texts == old(self)@.texts,
    {
        self.values.push(value)
    }

    pub fn lookup_string(&self, id: StringId) -> (r: Option<&String>)
        ensures
            match r {
                Some(s) => id.0 < self@.strings.len() && s@ == self@.strings[id.0 as int],
                None => id.0 >= self@.strings.len(),
            },
    {
        self.strings.get(id)
    }

    pub fn lookup_text(&self, id: TextId) -> (r: Option<&TextPath>)
        ensures
            match r {
                Some(t) => id.0 < self@.texts.len() && t@ == self@.texts[id.0 as int],
                None => id.0 >= self@.texts.len(),
            },
    {
        self.texts.get(id)
    }

    pub fn lookup_value(&self, id: ValueId) -> (r: Option<&ValueExpr>)
        ensures
            match r {
                Some(v) => id.0 < self@.values.len() && v@ == self@.values[id.0 as int],
                None => id.0 >= self@.values.len(),
            },
    {
        self.values.get(id)
    }
}

} // verus!
