//! Templates: the tree that a compiled program is.
use vstd::prelude::*;
use crate::value::{Term, ValueExpr};

verus! {

/// A piece of a text: a string, or an expression whose value is put in its
/// place.
#[derive(Debug)]
pub enum Fragment {
    /// A string.
    String(String),
    /// An expression that is looked up when the text is shown.
    Data(ValueExpr),
}

/// The mathematical form of a [`Fragment`].
pub enum Piece {
    String(Seq<char>),
    Data(Term),
}

impl View for Fragment {
    type V = Piece;

    open spec fn view(&self) -> Piece {
        match self {
            Fragment::String(s) => Piece::String(s@),
            Fragment::Data(e) => Piece::Data(e@),
        }
    }
}

impl Fragment {
    /// Is the fragment a string?
    pub fn is_string(&self) -> (b: bool)
        ensures
            b == (self@ is String),
    {
        matches!(self, Fragment::String(_))
    }
}

/// The text of a node: one string, or fragments.
#[derive(Debug)]
pub enum Text {
    String(String),
    Fragments(Vec<Fragment>),
}

/// The mathematical form of a [`Text`].
pub enum TextView {
    String(Seq<char>),
    Fragments(Seq<Piece>),
}

/// The views of a list of fragments.
pub open spec fn pieces_of(fragments: Seq<Fragment>) -> Seq<Piece> {
    Seq::new(fragments.len(), |i: int| fragments[i]@)
}

impl View for Text {
    type V = TextView;

    open spec fn view(&self) -> TextView {
        match self {
            Text::String(s) => TextView::String(s@),
            Text::Fragments(fragments) => TextView::Fragments(pieces_of(fragments@)),
        }
    }
}

/// The first index at which `key` stands as a key in `attributes`, if any.
pub open spec fn key_index(attributes: Seq<(Seq<char>, Term)>, key: Seq<char>) -> Option<int>
    decreases attributes.len(),
{
    if attributes.len() == 0 {
        None
    } else {
        match key_index(attributes.drop_last(), key) {
            Some(i) => Some(i),
            None => if attributes.last().0 == key {
                Some(attributes.len() - 1)
            } else {
                None
            },
        }
    }
}

pub proof fn lemma_key_index(attributes: Seq<(Seq<char>, Term)>, key: Seq<char>)
    ensures
        match key_index(attributes, key) {
            Some(i) => 0 <= i < attributes.len() && attributes[i].0 == key && forall|j: int|
                0 <= j < i ==> attributes[j].0 != key,
            None => forall|j: int| 0 <= j < attributes.len() ==> attributes[j].0 != key,
        },
    decreases attributes.len(),
{
    if attributes.len() > 0 {
        let front = attributes.drop_last();
        lemma_key_index(front, key);
        assert forall|j: int| 0 <= j < front.len() implies front[j] == attributes[j] by {}
        match key_index(front, key) {
            Some(i) => {},
            None => {
                assert forall|j: int| 0 <= j < attributes.len() - 1 implies attributes[j].0
                    != key by {
                    assert(front[j].0 != key);
                }
            },
        }
    }
}

/// `attributes` with `key` bound to `value`: a key that is there keeps its
/// place and gets the new value, a new key goes to the end.
pub open spec fn with_attribute(
    attributes: Seq<(Seq<char>, Term)>,
    key: Seq<char>,
    value: Term,
) -> Seq<(Seq<char>, Term)> {
    match key_index(attributes, key) {
        Some(i) => attributes.update(i, (key, value)),
        None => attributes.push((key, value)),
    }
}

/// The value that `key` is bound to in `attributes`, if any.
pub open spec fn attribute(attributes: Seq<(Seq<char>, Term)>, key: Seq<char>) -> Option<Term> {
    match key_index(attributes, key) {
        Some(i) => Some(attributes[i].1),
        None => None,
    }
}

/// No key stands twice in `attributes`.
pub open spec fn no_key_twice(attributes: Seq<(Seq<char>, Term)>) -> bool {
    forall|i: int, j: int|
        0 <= i < j < attributes.len() ==> (#[trigger] attributes[i]).0 != (
        #[trigger] attributes[j]).0
}

/// Attributes in which no key stands twice stay so when a key is bound.
pub proof fn lemma_with_attribute(attributes: Seq<(Seq<char>, Term)>, key: Seq<char>, value: Term)
    requires
        no_key_twice(attributes),
    ensures
        no_key_twice(with_attribute(attributes, key, value)),
{
    lemma_key_index(attributes, key);
    let after = with_attribute(attributes, key, value);
    assert forall|i: int, j: int| 0 <= i < j < after.len() implies (#[trigger] after[i]).0 != (
    #[trigger] after[j]).0 by {
        match key_index(attributes, key) {
            Some(k) => {
                assert(after[i].0 == attributes[i].0);
                assert(after[j].0 == attributes[j].0);
            },
            None => {
                if j < attributes.len() {
                    assert(after[i] == attributes[i]);
                    assert(after[j] == attributes[j]);
                } else {
                    assert(after[i] == attributes[i]);
                }
            },
        }
    }
}

/// The attributes of a node: a map from keys to expressions. No key stands
/// twice.
#[derive(Debug)]
pub struct Attributes {
    inner: Vec<(String, ValueExpr)>,
}

impl View for Attributes {
    type V = Seq<(Seq<char>, Term)>;

    closed spec fn view(&self) -> Seq<(Seq<char>, Term)> {
        Seq::new(self.inner.len() as nat, |i: int| (self.inner[i].0@, self.inner[i].1@))
    }
}

impl Attributes {
    /// No attributes; and so no key twice.
    pub fn empty() -> (a: Self)
        ensures
            a@ == Seq::<(Seq<char>, Term)>::empty(),
            no_key_twice(a@),
    {
        let a = Self { inner: Vec::new() };
        assert(a@ =~= Seq::<(Seq<char>, Term)>::empty());
        a
    }

    pub fn len(&self) -> (n: usize)
        ensures
            n == self@.len(),
    {
        self.inner.len()
    }

    fn find(&self, key: &String) -> (r: Option<usize>)
        ensures
            match r {
                Some(i) => key_index(self@, key@) == Some(i as int) && i < self.inner.len(),
                None => key_index(self@, key@) is None,
            },
    {
        let mut i: usize = 0;
        while i < self.inner.len()
            invariant
                i <= self.inner.len(),
                forall|j: int| 0 <= j < i ==> self@[j].0 != key@,
            decreases self.inner.len() - i,
        {
            if self.inner[i].0 == *key {
                proof {
                    lemma_key_index(self@, key@);
                    assert(self@[i as int].0 == key@);
                    match key_index(self@, key@) {
                        Some(k) => {
                            if k < i {
                                assert(self@[k].0 != key@);
                            }
                        },
                        None => {},
                    }
                }
                return Some(i);
            }
            i += 1;
        }
        proof {
            lemma_key_index(self@, key@);
        }
        None
    }

    /// Binds `key` to `value`.
    pub fn set(&mut self, key: String, value: ValueExpr)
        ensures
            final(self)@ == with_attribute(old(self)@, key@, value@),
            no_key_twice(old(self)@) ==> no_key_twice(final(self)@),
    {
        proof {
            if no_key_twice(self@) {
                lemma_with_attribute(self@, key@, value@);
            }
        }
        match self.find(&key) {
            Some(i) => {
                self.inner[i] = (key, value);
                assert(self@ =~= old(self)@.update(i as int, (key@, value@)));
            },
            None => {
                self.inner.push((key, value));
                assert(self@ =~= old(self)@.push((key@, value@)));
            },
        }
    }

    /// The key of the attribute at `index`.
    pub fn key_at(&self, index: usize) -> (r: &String)
        requires
            index < self@.len(),
        ensures
            r@ == self@[index as int].0,
    {
        &self.inner[index].0
    }

    /// The expression of the attribute at `index`.
    pub fn value_at(&self, index: usize) -> (r: &ValueExpr)
        requires
            index < self@.len(),
        ensures
            r@ == self@[index as int].1,
    {
        &self.inner[index].1
    }

    /// The expression that `key` is bound to.
    pub fn get(&self, key: &String) -> (r: Option<&ValueExpr>)
        ensures
            match r {
                Some(value) => attribute(self@, key@) == Some(value@),
                None => attribute(self@, key@) is None,
            },
    {
        match self.find(key) {
            Some(i) => Some(&self.inner[i].1),
            None => None,
        }
    }
}

/// The condition of one arm of an `if` / `else` chain.
#[derive(Debug)]
pub enum Cond {
    If(ValueExpr),
    Else(Option<ValueExpr>),
}

/// The mathematical form of a [`Cond`].
pub enum ArmCond {
    If(Term),
    Else(Option<Term>),
}

impl View for Cond {
    type V = ArmCond;

    open spec fn view(&self) -> ArmCond {
        match self {
            Cond::If(e) => ArmCond::If(e@),
            Cond::Else(Some(e)) => ArmCond::Else(Some(e@)),
            Cond::Else(None) => ArmCond::Else(None),
        }
    }
}

/// One arm of an `if` / `else` chain: its condition and its body.
#[derive(Debug)]
pub struct ControlFlow {
    pub cond: Cond,
    pub body: Vec<Template>,
}

#[derive(Debug)]
pub enum Template {
    Node { ident: String, attributes: Attributes, text: Option<Text>, children: Vec<Template> },
    Loop { binding: String, data: ValueExpr, body: Vec<Template> },
    ControlFlow(Vec<ControlFlow>),
    View(ValueExpr),
}

/// The mathematical form of a [`ControlFlow`].
pub struct Arm {
    pub cond: ArmCond,
    pub body: Seq<Tpl>,
}

/// The mathematical form of a [`Template`].
pub enum Tpl {
    Node {
        ident: Seq<char>,
        attributes: Seq<(Seq<char>, Term)>,
        text: Option<TextView>,
        children: Seq<Tpl>,
    },
    Loop { binding: Seq<char>, data: Term, body: Seq<Tpl> },
    ControlFlow(Seq<Arm>),
    View(Term),
}

pub open spec fn text_view(text: Option<Text>) -> Option<TextView> {
    match text {
        Some(t) => Some(t@),
        None => None,
    }
}

pub open spec fn template_view(t: Template) -> Tpl
    decreases t,
{
    match t {
        Template::Node { ident, attributes, text, children } => Tpl::Node {
            ident: ident@,
            attributes: attributes@,
            text: text_view(text),
            children: Seq::new(
                children.len() as nat,
                |i: int|
                    if 0 <= i < children.len() {
                        template_view(children[i])
                    } else {
                        Tpl::ControlFlow(Seq::empty())
                    },
            ),
        },
        Template::Loop { binding, data, body } => Tpl::Loop {
            binding: binding@,
            data: data@,
            body: Seq::new(
                body.len() as nat,
                |i: int|
                    if 0 <= i < body.len() {
                        template_view(body[i])
                    } else {
                        Tpl::ControlFlow(Seq::empty())
                    },
            ),
        },
        Template::ControlFlow(arms) => Tpl::ControlFlow(
            Seq::new(
                arms.len() as nat,
                |i: int|
                    if 0 <= i < arms.len() {
                        arm_view(arms[i])
                    } else {
                        Arm { cond: ArmCond::Else(None), body: Seq::empty() }
                    },
            ),
        ),
        Template::View(e) => Tpl::View(e@),
    }
}

pub open spec fn arm_view(arm: ControlFlow) -> Arm
    decreases arm,
{
    Arm {
        cond: arm.cond@,
        body: Seq::new(
            arm.body.len() as nat,
            |i: int|
                if 0 <= i < arm.body.len() {
                    template_view(arm.body[i])
                } else {
                    Tpl::ControlFlow(Seq::empty())
                },
        ),
    }
}

impl View for Template {
    type V = Tpl;

    open spec fn view(&self) -> Tpl {
        template_view(*self)
    }
}

impl View for ControlFlow {
    type V = Arm;

    open spec fn view(&self) -> Arm {
        arm_view(*self)
    }
}

/// The views of a list of templates.
pub open spec fn templates_view(templates: Seq<Template>) -> Seq<Tpl> {
    Seq::new(templates.len(), |i: int| templates[i]@)
}

/// The views of a list of arms.
pub open spec fn arms_view(arms: Seq<ControlFlow>) -> Seq<Arm> {
    Seq::new(arms.len(), |i: int| arms[i]@)
}

pub proof fn lemma_node_view(
    ident: String,
    attributes: Attributes,
    text: Option<Text>,
    children: Vec<Template>,
)
    ensures
        (Template::Node { ident, attributes, text, children })@ == (Tpl::Node {
            ident: ident@,
            attributes: attributes@,
            text: text_view(text),
            children: templates_view(children@),
        }),
{
    assert((Template::Node { ident, attributes, text, children })@->Node_children
        =~= templates_view(children@));
}

pub proof fn lemma_loop_view(binding: String, data: ValueExpr, body: Vec<Template>)
    ensures
        (Template::Loop { binding, data, body })@ == (Tpl::Loop {
            binding: binding@,
            data: data@,
            body: templates_view(body@),
        }),
{
    assert((Template::Loop { binding, data, body })@->Loop_body =~= templates_view(body@));
}

pub proof fn lemma_control_flow_view(arms: Vec<ControlFlow>)
    ensures
        Template::ControlFlow(arms)@ == Tpl::ControlFlow(arms_view(arms@)),
{
    assert(Template::ControlFlow(arms)@->ControlFlow_0 =~= arms_view(arms@));
}

pub proof fn lemma_arm_view(cond: Cond, body: Vec<Template>)
    ensures
        (ControlFlow { cond, body })@ == (Arm { cond: cond@, body: templates_view(body@) }),
{
    assert((ControlFlow { cond, body })@.body =~= templates_view(body@));
}

} // verus!
