//! Tokens and the cursor the parsers read them through.
use vstd::prelude::*;

verus! {

/// Index of an interned string.
#[derive(Debug, Copy, Clone, PartialEq, Eq, Structural)]
pub struct StringId(pub usize);

#[derive(Debug, Copy, Clone, PartialEq, Eq, Structural)]
pub enum Operator {
    LParen,
    RParen,
    LBracket,
    RBracket,
    LCurly,
    RCurly,
    LDoubleCurly,
    RDoubleCurly,
    Plus,
    Minus,
    Mul,
    Div,
    Mod,
    PlusEqual,
    MinusEqual,
    MulEqual,
    DivEqual,
    ModEqual,
    Equal,
    EqualEqual,
    LessThan,
    LessThanOrEqual,
    GreaterThan,
    GreaterThanOrEqual,
    Not,
    And,
    Or,
    Dot,
    Comma,
    Colon,
}

impl Operator {
    /// The characters that write the operator.
    pub open spec fn symbol(self) -> Seq<char> {
        match self {
            Operator::LParen => "("@,
            Operator::RParen => ")"@,
            Operator::LBracket => "["@,
            Operator::RBracket => "]"@,
            Operator::LCurly => "{"@,
            Operator::RCurly => "}"@,
            Operator::LDoubleCurly => "{{"@,
            Operator::RDoubleCurly => "}}"@,
            Operator::Plus => "+"@,
            Operator::Minus => "-"@,
            Operator::Mul => "*"@,
            Operator::Div => "/"@,
            Operator::Mod => "%"@,
            Operator::PlusEqual => "+="@,
            Operator::MinusEqual => "-="@,
            Operator::MulEqual => "*="@,
            Operator::DivEqual => "/="@,
            Operator::ModEqual => "%="@,
            Operator::Equal => "="@,
            Operator::EqualEqual => "=="@,
            Operator::LessThan => "<"@,
            Operator::LessThanOrEqual => "<="@,
            Operator::GreaterThan => ">"@,
            Operator::GreaterThanOrEqual => ">="@,
            Operator::Not => "!"@,
            Operator::And => "&&"@,
            Operator::Or => "||"@,
            Operator::Dot => "."@,
            Operator::Comma => ","@,
            Operator::Colon => ":"@,
        }
    }

    pub fn as_str(self) -> (s: &'static str)
        ensures
            s@ == self.symbol(),
    {
        match self {
            Operator::LParen => "(",
            Operator::RParen => ")",
            Operator::LBracket => "[",
            Operator::RBracket => "]",
            Operator::LCurly => "{",
            Operator::RCurly => "}",
            Operator::LDoubleCurly => "{{",
            Operator::RDoubleCurly => "}}",
            Operator::Plus => "+",
            Operator::Minus => "-",
            Operator::Mul => "*",
            Operator::Div => "/",
            Operator::Mod => "%",
            Operator::PlusEqual => "+=",
            Operator::MinusEqual => "-=",
            Operator::MulEqual => "*=",
            Operator::DivEqual => "/=",
            Operator::ModEqual => "%=",
            Operator::Equal => "=",
            Operator::EqualEqual => "==",
            Operator::LessThan => "<",
            Operator::LessThanOrEqual => "<=",
            Operator::GreaterThan => ">",
            Operator::GreaterThanOrEqual => ">=",
            Operator::Not => "!",
            Operator::And => "&&",
            Operator::Or => "||",
            Operator::Dot => ".",
            Operator::Comma => ",",
            Operator::Colon => ":",
        }
    }
}

/// A literal value or a name in the token stream.
///
/// A decimal number with a fraction is kept exact: `Float(m, s)` stands for
/// `m / 10^s`.
#[derive(Debug, Copy, Clone, PartialEq, Eq, Structural)]
pub enum Value {
    Hex(u8, u8, u8),
    Index(usize),
    Number(u64),
    Float(u64, u32),
    String(StringId),
    Ident(StringId),
    Bool(bool),
}

#[derive(Debug, Copy, Clone, PartialEq, Eq, Structural)]
pub enum Kind {
    For,
    In,
    If,
    Else,
    View,
    Newline,
    Indent(usize),
    Value(Value),
    Op(Operator),
    Eof,
}

impl Kind {
    pub fn to_token(self, pos: usize) -> (t: Token)
        ensures
            t == Token(self, pos),
    {
        Token(self, pos)
    }
}

/// A token kind and the byte offset at which it starts.
#[derive(Debug, Copy, Clone, PartialEq, Eq, Structural)]
pub struct Token(pub Kind, pub usize);

/// The first position at or after `i` that holds no indent token.
pub open spec fn skip_indent(tokens: Seq<Token>, i: int) -> int
    decreases tokens.len() - i,
{
    if 0 <= i < tokens.len() && tokens[i].0 is Indent {
        skip_indent(tokens, i + 1)
    } else {
        i
    }
}

/// The first position at or after `i` that holds no newline token.
pub open spec fn skip_newlines(tokens: Seq<Token>, i: int) -> int
    decreases tokens.len() - i,
{
    if 0 <= i < tokens.len() && tokens[i].0 is Newline {
        skip_newlines(tokens, i + 1)
    } else {
        i
    }
}

/// The token at `i`, or the end-of-input token once `i` is past the last one.
pub open spec fn token_at(tokens: Seq<Token>, eof: usize, i: int) -> Token {
    if 0 <= i < tokens.len() {
        tokens[i]
    } else {
        Token(Kind::Eof, eof)
    }
}

pub proof fn lemma_skip_indent_bounds(tokens: Seq<Token>, i: int)
    requires
        0 <= i <= tokens.len(),
    ensures
        i <= skip_indent(tokens, i) <= tokens.len(),
        !(token_at(tokens, 0, skip_indent(tokens, i)).0 is Indent),
        forall|j: int| i <= j < skip_indent(tokens, i) ==> tokens[j].0 is Indent,
    decreases tokens.len() - i,
{
    if i < tokens.len() && tokens[i].0 is Indent {
        lemma_skip_indent_bounds(tokens, i + 1);
    }
}

pub proof fn lemma_skip_newlines_bounds(tokens: Seq<Token>, i: int)
    requires
        0 <= i <= tokens.len(),
    ensures
        i <= skip_newlines(tokens, i) <= tokens.len(),
        !(token_at(tokens, 0, skip_newlines(tokens, i)).0 is Newline),
        forall|j: int| i <= j < skip_newlines(tokens, i) ==> tokens[j].0 is Newline,
    decreases tokens.len() - i,
{
    if i < tokens.len() && tokens[i].0 is Newline {
        lemma_skip_newlines_bounds(tokens, i + 1);
    }
}

/// A cursor over a token list. Reading past the last token yields
/// end-of-input tokens without moving.
pub struct Tokens {
    inner: Vec<Token>,
    index: usize,
    eof: usize,
}

impl Tokens {
    /// The tokens the cursor runs over.
    pub closed spec fn tokens(&self) -> Seq<Token> {
        self.inner@
    }

    /// The position of the next token to be read.
    pub closed spec fn pos(&self) -> int {
        self.index as int
    }

    /// The offset reported for end of input.
    pub closed spec fn eof(&self) -> usize {
        self.eof
    }

    /// The cursor never runs past the end of its tokens.
    pub open spec fn wf(&self) -> bool {
        0 <= self.pos() <= self.tokens().len()
    }

    /// The token under the cursor.
    pub open spec fn current(&self) -> Token {
        token_at(self.tokens(), self.eof(), self.pos())
    }

    pub fn new(inner: Vec<Token>, eof: usize) -> (t: Self)
        ensures
            t.wf(),
            t.tokens() == inner@,
            t.pos() == 0,
            t.eof() == eof,
    {
        Self { inner, index: 0, eof }
    }

    pub fn consume(&mut self)
        requires
            old(self).wf(),
        ensures
            final(self).wf(),
            final(self).tokens() == old(self).tokens(),
            final(self).eof() == old(self).eof(),
            final(self).pos() == if old(self).pos() < old(self).tokens().len() {
                old(self).pos() + 1
            } else {
                old(self).pos()
            },
    {
        let _ = self.next();
    }

    pub fn next(&mut self) -> (t: Token)
        requires
            old(self).wf(),
        ensures
            final(self).wf(),
            final(self).tokens() == old(self).tokens(),
            final(self).eof() == old(self).eof(),
            t == old(self).current(),
            final(self).pos() == if old(self).pos() < old(self).tokens().len() {
                old(self).pos() + 1
            } else {
                old(self).pos()
            },
    {
        if self.index < self.inner.len() {
            let token = self.inner[self.index];
            self.index += 1;
            token
        } else {
            Token(Kind::Eof, self.eof)
        }
    }

    /// Reads the next token that is not an indent.
    pub fn next_no_indent(&mut self) -> (t: Token)
        requires
            old(self).wf(),
        ensures
            final(self).wf(),
            final(self).tokens() == old(self).tokens(),
            final(self).eof() == old(self).eof(),
            t == token_at(
                old(self).tokens(),
                old(self).eof(),
                skip_indent(old(self).tokens(), old(self).pos()),
            ),
            final(self).pos() == if skip_indent(old(self).tokens(), old(self).pos()) < old(
                self,
            ).tokens().len() {
                skip_indent(old(self).tokens(), old(self).pos()) + 1
            } else {
                old(self).tokens().len() as int
            },
    {
        proof {
            lemma_skip_indent_bounds(self.inner@, self.index as int);
        }
        self.consume_indent();
        self.next()
    }

    pub fn consume_indent(&mut self)
        requires
            old(self).wf(),
        ensures
            final(self).wf(),
            final(self).tokens() == old(self).tokens(),
            final(self).eof() == old(self).eof(),
            final(self).pos() == skip_indent(old(self).tokens(), old(self).pos()),
    {
        while self.index < self.inner.len() && matches!(self.inner[self.index].0, Kind::Indent(_))
            invariant
                self.index <= self.inner.len(),
                self.inner == old(self).inner,
                self.eof == old(self).eof,
                skip_indent(self.inner@, self.index as int) == skip_indent(
                    old(self).inner@,
                    old(self).index as int,
                ),
            decreases self.inner.len() - self.index,
        {
            self.index += 1;
        }
    }

    pub fn consume_newlines(&mut self)
        requires
            old(self).wf(),
        ensures
            final(self).wf(),
            final(self).tokens() == old(self).tokens(),
            final(self).eof() == old(self).eof(),
            final(self).pos() == skip_newlines(old(self).tokens(), old(self).pos()),
    {
        while self.index < self.inner.len() && matches!(self.inner[self.index].0, Kind::Newline)
            invariant
                self.index <= self.inner.len(),
                self.inner == old(self).inner,
                self.eof == old(self).eof,
                skip_newlines(self.inner@, self.index as int) == skip_newlines(
                    old(self).inner@,
                    old(self).index as int,
                ),
            decreases self.inner.len() - self.index,
        {
            self.index += 1;
        }
    }

    pub fn peek(&self) -> (t: Token)
        requires
            self.wf(),
        ensures
            t == self.current(),
    {
        if self.index < self.inner.len() {
            self.inner[self.index]
        } else {
            Token(Kind::Eof, self.eof)
        }
    }

    /// Skips indents, then looks at the next token without reading it.
    pub fn peek_skip_indent(&mut self) -> (t: Token)
        requires
            old(self).wf(),
        ensures
            final(self).wf(),
            final(self).tokens() == old(self).tokens(),
            final(self).eof() == old(self).eof(),
            final(self).pos() == skip_indent(old(self).tokens(), old(self).pos()),
            t == final(self).current(),
            !(t.0 is Indent),
    {
        proof {
            lemma_skip_indent_bounds(self.inner@, self.index as int);
        }
        self.consume_indent();
        self.peek()
    }
}

} // verus!
