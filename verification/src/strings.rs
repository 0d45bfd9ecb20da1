//! Interning, and the table of interned strings.
use vstd::prelude::*;
use crate::token::StringId;

verus! {

/// The first index at which `s` stands in `table`, if any.
pub open spec fn index_of<T>(table: Seq<T>, s: T) -> Option<int>
    decreases table.len(),
{
    if table.len() == 0 {
        None
    } else {
        match index_of(table.drop_last(), s) {
            Some(i) => Some(i),
            None => if table.last() == s {
                Some(table.len() - 1)
            } else {
                None
            },
        }
    }
}

/// What interning `s` into `table` leaves: the table, and the id of `s`.
pub open spec fn intern<T>(table: Seq<T>, s: T) -> (Seq<T>, int) {
    match index_of(table, s) {
        Some(i) => (table, i),
        None => (table.push(s), table.len() as int),
    }
}

pub proof fn lemma_index_of<T>(table: Seq<T>, s: T)
    ensures
        match index_of(table, s) {
            Some(i) => 0 <= i < table.len() && table[i] == s && forall|j: int|
                0 <= j < i ==> table[j] != s,
            None => forall|j: int| 0 <= j < table.len() ==> table[j] != s,
        },
    decreases table.len(),
{
    if table.len() > 0 {
        let front = table.drop_last();
        lemma_index_of(front, s);
        assert forall|j: int| 0 <= j < front.len() implies front[j] == table[j] by {}
        match index_of(front, s) {
            Some(i) => {},
            None => {
                assert forall|j: int| 0 <= j < table.len() - 1 implies table[j] != s by {
                    assert(front[j] != s);
                }
            },
        }
    }
}

/// Strings interned by value: equal strings share one id, and an id, once
/// given, keeps its string.
pub struct Strings {
    inner: Vec<String>,
}

impl View for Strings {
    type V = Seq<Seq<char>>;

    closed spec fn view(&self) -> Seq<Seq<char>> {
        Seq::new(self.inner.len() as nat, |i: int| self.inner[i]@)
    }
}

impl Strings {
    pub fn empty() -> (s: Self)
        ensures
            s@ == Seq::<Seq<char>>::empty(),
    {
        let s = Self { inner: Vec::new() };
        assert(s@ =~= Seq::<Seq<char>>::empty());
        s
    }

    pub fn len(&self) -> (n: usize)
        ensures
            n == self@.len(),
    {
        self.inner.len()
    }

    /// Looks for `s`, scanning from the first entry.
    pub fn find(&self, s: &String) -> (r: Option<usize>)
        ensures
            match r {
                Some(i) => index_of(self@, s@) == Some(i as int),
                None => index_of(self@, s@) is None,
            },
    {
        let mut i: usize = 0;
        while i < self.inner.len()
            invariant
                i <= self.inner.len(),
                forall|j: int| 0 <= j < i ==> self@[j] != s@,
            decreases self.inner.len() - i,
        {
            if self.inner[i] == *s {
                proof {
                    lemma_index_of(self@, s@);
                    assert(self@[i as int] == s@);
                    match index_of(self@, s@) {
                        Some(k) => {
                            if k < i {
                                assert(self@[k] != s@);
                            }
                        },
                        None => {},
                    }
                }
                return Some(i);
            }
            i += 1;
        }
        proof {
            lemma_index_of(self@, s@);
        }
        None
    }

    /// Interns `s`: an equal string already in the table keeps its id,
    /// otherwise `s` is appended.
    pub fn push(&mut self, s: String) -> (id: StringId)
        ensures
            final(self)@ == intern(old(self)@, s@).0,
            id.0 == intern(old(self)@, s@).1,
            id.0 < final(self)@.len(),
            final(self)@[id.0 as int] == s@,
    {
        proof {
            lemma_index_of(self@, s@);
        }
        match self.find(&s) {
            Some(i) => StringId(i),
            None => {
                let id = self.inner.len();
                self.inner.push(s);
                assert(self@ =~= old(self)@.push(s@));
                StringId(id)
            },
        }
    }

    pub fn get(&self, id: StringId) -> (r: Option<&String>)
        ensures
            match r {
                Some(s) => id.0 < self@.len() && s@ == self@[id.0 as int],
                None => id.0 >= self@.len(),
            },
    {
        if id.0 < self.inner.len() {
            Some(&self.inner[id.0])
        } else {
            None
        }
    }
}

/// Interning keeps every earlier id and its string.
pub proof fn lemma_intern_extends<T>(table: Seq<T>, s: T)
    ensures
        table.len() <= intern(table, s).0.len(),
        forall|i: int| 0 <= i < table.len() ==> intern(table, s).0[i] == table[i],
        0 <= intern(table, s).1 < intern(table, s).0.len(),
        intern(table, s).0[intern(table, s).1] == s,
{
    lemma_index_of(table, s);
}

/// Interning the same value again gives the same id and leaves the table as
/// it is.
pub proof fn lemma_intern_idempotent<T>(table: Seq<T>, s: T)
    ensures
        intern(intern(table, s).0, s) == intern(table, s),
{
    lemma_index_of(table, s);
    let t2 = intern(table, s).0;
    lemma_index_of(t2, s);
}

} // verus!
