//! The lexer: source text to tokens with byte offsets.
use vstd::prelude::*;
use vstd::string::*;
use vstd::utf8::*;
use crate::strings::{intern, lemma_intern_extends, Strings};
use crate::token::{Kind, Operator, StringId, Token, Value};

verus! {

#[derive(Debug, Copy, Clone, PartialEq, Eq, Structural)]
pub enum LexErrorKind {
    /// A string literal that is still open at the end of the input.
    UnterminatedString,
    /// A backslash in a string literal followed by anything but `\`, `n`,
    /// `t`, `"` or `'`.
    InvalidEscape,
    /// A character that starts no token.
    UnexpectedChar,
    /// A tab where the indent of a line is measured.
    TabIndent,
    /// A number that does not fit in 64 bits.
    InvalidNumber,
    /// A `#` that is not followed by exactly three or six hex digits.
    InvalidHex,
}

/// Why and where (as a byte offset) lexing stopped.
#[derive(Debug, Copy, Clone, PartialEq, Eq, Structural)]
pub struct LexError {
    pub kind: LexErrorKind,
    pub position: usize,
}

/// The number of bytes that the first `i` characters take in UTF-8.
pub open spec fn offset(chars: Seq<char>, i: int) -> nat {
    encode_utf8(chars.take(i)).len()
}

#[derive(Debug, Copy, Clone, PartialEq, Eq, Structural)]
pub enum CharClass {
    Space,
    Digit,
    Hex,
    Ident,
}

pub open spec fn is_digit(c: char) -> bool {
    '0' <= c <= '9'
}

pub open spec fn is_hex(c: char) -> bool {
    is_digit(c) || ('a' <= c <= 'f') || ('A' <= c <= 'F')
}

pub open spec fn is_ident_start(c: char) -> bool {
    ('a' <= c <= 'z') || ('A' <= c <= 'Z') || c == '_'
}

pub open spec fn in_class(class: CharClass, c: char) -> bool {
    match class {
        CharClass::Space => c == ' ',
        CharClass::Digit => is_digit(c),
        CharClass::Hex => is_hex(c),
        CharClass::Ident => is_ident_start(c) || is_digit(c) || c == '-',
    }
}

/// The end of the longest run of characters of `class` that starts at `i`.
pub open spec fn run_end(chars: Seq<char>, i: int, class: CharClass) -> int
    decreases chars.len() - i,
{
    if 0 <= i < chars.len() && in_class(class, chars[i]) {
        run_end(chars, i + 1, class)
    } else {
        i
    }
}

pub proof fn lemma_run_end(chars: Seq<char>, i: int, class: CharClass)
    requires
        0 <= i <= chars.len(),
    ensures
        i <= run_end(chars, i, class) <= chars.len(),
        forall|j: int| i <= j < run_end(chars, i, class) ==> in_class(class, chars[j]),
        run_end(chars, i, class) < chars.len() ==> !in_class(
            class,
            chars[run_end(chars, i, class)],
        ),
    decreases chars.len() - i,
{
    if i < chars.len() && in_class(class, chars[i]) {
        lemma_run_end(chars, i + 1, class);
    }
}

pub open spec fn digit_value(c: char) -> int {
    c as int - '0' as int
}

pub open spec fn hex_value(c: char) -> int {
    if is_digit(c) {
        c as int - '0' as int
    } else if 'a' <= c <= 'f' {
        c as int - 'a' as int + 10
    } else {
        c as int - 'A' as int + 10
    }
}

/// The number read when the decimal digits in `chars[from..to]` are written
/// behind those of `init`.
pub open spec fn number_from(chars: Seq<char>, from: int, to: int, init: int) -> int
    decreases to - from,
{
    if to <= from {
        init
    } else {
        number_from(chars, from, to - 1, init) * 10 + digit_value(chars[to - 1])
    }
}

/// The number that the decimal digits in `chars[from..to]` write.
pub open spec fn number(chars: Seq<char>, from: int, to: int) -> int {
    number_from(chars, from, to, 0)
}

/// Reading more digits never makes the number smaller.
pub proof fn lemma_number_grows(chars: Seq<char>, from: int, mid: int, to: int, init: int)
    requires
        0 <= from <= mid <= to <= chars.len(),
        0 <= init,
        forall|j: int| from <= j < to ==> is_digit(chars[j]),
    ensures
        0 <= number_from(chars, from, mid, init) <= number_from(chars, from, to, init),
    decreases to - from,
{
    if mid < to {
        lemma_number_grows(chars, from, mid, to - 1, init);
    } else if from < mid {
        lemma_number_grows(chars, from, mid - 1, mid - 1, init);
    }
}

/// The keyword or boolean that a word spells, if it is one.
pub open spec fn keyword(word: Seq<char>) -> Option<Kind> {
    if word == seq!['f', 'o', 'r'] {
        Some(Kind::For)
    } else if word == seq!['i', 'n'] {
        Some(Kind::In)
    } else if word == seq!['i', 'f'] {
        Some(Kind::If)
    } else if word == seq!['e', 'l', 's', 'e'] {
        Some(Kind::Else)
    } else if word == seq!['v', 'i', 'e', 'w'] {
        Some(Kind::View)
    } else if word == seq!['t', 'r', 'u', 'e'] {
        Some(Kind::Value(Value::Bool(true)))
    } else if word == seq!['f', 'a', 'l', 's', 'e'] {
        Some(Kind::Value(Value::Bool(false)))
    } else {
        None
    }
}

/// The character that an escape letter stands for.
pub open spec fn unescape(c: char) -> Option<char> {
    if c == '\\' {
        Some('\\')
    } else if c == 'n' {
        Some('\n')
    } else if c == 't' {
        Some('\t')
    } else if c == '"' {
        Some('"')
    } else if c == '\'' {
        Some('\'')
    } else {
        None
    }
}

pub enum StrScan {
    /// The literal closes: its text, and the position after the quote.
    Done { text: Seq<char>, end: int },
    Unterminated,
    /// The position of the backslash of an escape that is not one.
    BadEscape(int),
}

/// Reads the body of a string literal from `i` on, up to the closing `quote`;
/// `acc` holds the text read so far.
pub open spec fn string_body(chars: Seq<char>, i: int, quote: char, acc: Seq<char>) -> StrScan
    decreases chars.len() - i,
{
    if i < 0 || i >= chars.len() {
        StrScan::Unterminated
    } else if chars[i] == quote {
        StrScan::Done { text: acc, end: i + 1 }
    } else if chars[i] == '\\' {
        if i + 1 >= chars.len() {
            StrScan::Unterminated
        } else {
            match unescape(chars[i + 1]) {
                Some(c) => string_body(chars, i + 2, quote, acc.push(c)),
                None => StrScan::BadEscape(i),
            }
        }
    } else {
        string_body(chars, i + 1, quote, acc.push(chars[i]))
    }
}

pub proof fn lemma_string_body(chars: Seq<char>, i: int, quote: char, acc: Seq<char>)
    requires
        0 <= i <= chars.len(),
    ensures
        match string_body(chars, i, quote, acc) {
            StrScan::Done { text, end } => i < end <= chars.len(),
            StrScan::Unterminated => true,
            StrScan::BadEscape(at) => i <= at < chars.len(),
        },
    decreases chars.len() - i,
{
    if i < chars.len() && chars[i] != quote {
        if chars[i] == '\\' {
            if i + 1 < chars.len() {
                match unescape(chars[i + 1]) {
                    Some(c) => lemma_string_body(chars, i + 2, quote, acc.push(c)),
                    None => {},
                }
            }
        } else {
            lemma_string_body(chars, i + 1, quote, acc.push(chars[i]));
        }
    }
}

/// The operator that starts at `i`, the longest that fits, with its length.
pub open spec fn operator_at(chars: Seq<char>, i: int) -> Option<(Operator, int)> {
    let c = chars[i];
    let d = if i + 1 < chars.len() {
        Some(chars[i + 1])
    } else {
        None
    };
    if c == '(' {
        Some((Operator::LParen, 1))
    } else if c == ')' {
        Some((Operator::RParen, 1))
    } else if c == '[' {
        Some((Operator::LBracket, 1))
    } else if c == ']' {
        Some((Operator::RBracket, 1))
    } else if c == '{' {
        if d == Some('{') {
            Some((Operator::LDoubleCurly, 2))
        } else {
            Some((Operator::LCurly, 1))
        }
    } else if c == '}' {
        if d == Some('}') {
            Some((Operator::RDoubleCurly, 2))
        } else {
            Some((Operator::RCurly, 1))
        }
    } else if c == '+' {
        if d == Some('=') {
            Some((Operator::PlusEqual, 2))
        } else {
            Some((Operator::Plus, 1))
        }
    } else if c == '-' {
        if d == Some('=') {
            Some((Operator::MinusEqual, 2))
        } else {
            Some((Operator::Minus, 1))
        }
    } else if c == '*' {
        if d == Some('=') {
            Some((Operator::MulEqual, 2))
        } else {
            Some((Operator::Mul, 1))
        }
    } else if c == '/' {
        if d == Some('=') {
            Some((Operator::DivEqual, 2))
        } else {
            Some((Operator::Div, 1))
        }
    } else if c == '%' {
        if d == Some('=') {
            Some((Operator::ModEqual, 2))
        } else {
            Some((Operator::Mod, 1))
        }
    } else if c == '=' {
        if d == Some('=') {
            Some((Operator::EqualEqual, 2))
        } else {
            Some((Operator::Equal, 1))
        }
    } else if c == '<' {
        if d == Some('=') {
            Some((Operator::LessThanOrEqual, 2))
        } else {
            Some((Operator::LessThan, 1))
        }
    } else if c == '>' {
        if d == Some('=') {
            Some((Operator::GreaterThanOrEqual, 2))
        } else {
            Some((Operator::GreaterThan, 1))
        }
    } else if c == '!' {
        Some((Operator::Not, 1))
    } else if c == '&' {
        if d == Some('&') {
            Some((Operator::And, 2))
        } else {
            None
        }
    } else if c == '|' {
        if d == Some('|') {
            Some((Operator::Or, 2))
        } else {
            None
        }
    } else if c == '.' {
        Some((Operator::Dot, 1))
    } else if c == ',' {
        Some((Operator::Comma, 1))
    } else if c == ':' {
        Some((Operator::Colon, 1))
    } else {
        None
    }
}

/// What stands at one place of the source.
pub enum Lexeme {
    /// Blank space inside a line.
    Skip,
    /// A token that carries no text.
    Token(Kind),
    /// A name.
    Ident(Seq<char>),
    /// A string literal, escapes resolved.
    Str(Seq<char>),
}

pub enum Scan {
    /// A lexeme, and the position after it.
    Item { lexeme: Lexeme, end: int },
    /// An error, and the position it is reported at.
    Error { kind: LexErrorKind, at: int },
}

/// Reads a number, whole or with a fraction, that starts at `i`.
pub open spec fn scan_number(chars: Seq<char>, i: int) -> Scan {
    let whole_end = run_end(chars, i, CharClass::Digit);
    if whole_end + 1 < chars.len() && chars[whole_end] == '.' && is_digit(chars[whole_end + 1]) {
        let end = run_end(chars, whole_end + 1, CharClass::Digit);
        let mantissa = number_from(chars, whole_end + 1, end, number(chars, i, whole_end));
        if mantissa <= u64::MAX && end - whole_end - 1 <= u32::MAX {
            Scan::Item {
                lexeme: Lexeme::Token(
                    Kind::Value(Value::Float(mantissa as u64, (end - whole_end - 1) as u32)),
                ),
                end,
            }
        } else {
            Scan::Error { kind: LexErrorKind::InvalidNumber, at: i }
        }
    } else if number(chars, i, whole_end) <= u64::MAX {
        Scan::Item {
            lexeme: Lexeme::Token(Kind::Value(Value::Number(number(chars, i, whole_end) as u64))),
            end: whole_end,
        }
    } else {
        Scan::Error { kind: LexErrorKind::InvalidNumber, at: i }
    }
}

/// Reads a colour, `#rgb` or `#rrggbb`, whose `#` stands at `i`.
pub open spec fn scan_hex(chars: Seq<char>, i: int) -> Scan {
    let end = run_end(chars, i + 1, CharClass::Hex);
    let h = |k: int| hex_value(chars[i + 1 + k]);
    if end - (i + 1) == 3 {
        Scan::Item {
            lexeme: Lexeme::Token(
                Kind::Value(
                    Value::Hex((h(0) * 17) as u8, (h(1) * 17) as u8, (h(2) * 17) as u8),
                ),
            ),
            end,
        }
    } else if end - (i + 1) == 6 {
        Scan::Item {
            lexeme: Lexeme::Token(
                Kind::Value(
                    Value::Hex(
                        (h(0) * 16 + h(1)) as u8,
                        (h(2) * 16 + h(3)) as u8,
                        (h(4) * 16 + h(5)) as u8,
                    ),
                ),
            ),
            end,
        }
    } else {
        Scan::Error { kind: LexErrorKind::InvalidHex, at: i }
    }
}

/// Reads what stands at `i`, a place inside a line.
pub open spec fn scan(chars: Seq<char>, i: int) -> Scan {
    let c = chars[i];
    if c == ' ' || c == '\t' || c == '\r' {
        Scan::Item { lexeme: Lexeme::Skip, end: i + 1 }
    } else if c == '\n' {
        Scan::Item { lexeme: Lexeme::Token(Kind::Newline), end: i + 1 }
    } else if is_ident_start(c) {
        let end = run_end(chars, i + 1, CharClass::Ident);
        let word = chars.subrange(i, end);
        match keyword(word) {
            Some(kind) => Scan::Item { lexeme: Lexeme::Token(kind), end },
            None => Scan::Item { lexeme: Lexeme::Ident(word), end },
        }
    } else if is_digit(c) {
        scan_number(chars, i)
    } else if c == '#' {
        scan_hex(chars, i)
    } else if c == '"' || c == '\'' {
        match string_body(chars, i + 1, c, Seq::empty()) {
            StrScan::Done { text, end } => Scan::Item { lexeme: Lexeme::Str(text), end },
            StrScan::Unterminated => Scan::Error { kind: LexErrorKind::UnterminatedString, at: i },
            StrScan::BadEscape(at) => Scan::Error { kind: LexErrorKind::InvalidEscape, at },
        }
    } else {
        match operator_at(chars, i) {
            Some((op, len)) => Scan::Item { lexeme: Lexeme::Token(Kind::Op(op)), end: i + len },
            None => Scan::Error { kind: LexErrorKind::UnexpectedChar, at: i },
        }
    }
}

/// Every lexeme is at least one character long and ends inside the source.
pub proof fn lemma_scan(chars: Seq<char>, i: int)
    requires
        0 <= i < chars.len(),
    ensures
        match scan(chars, i) {
            Scan::Item { lexeme, end } => i < end <= chars.len(),
            Scan::Error { kind, at } => i <= at < chars.len(),
        },
{
    lemma_run_end(chars, i + 1, CharClass::Ident);
    lemma_run_end(chars, i, CharClass::Digit);
    lemma_run_end(chars, i + 1, CharClass::Hex);
    lemma_string_body(chars, i + 1, chars[i], Seq::empty());
    let whole_end = run_end(chars, i, CharClass::Digit);
    if whole_end + 1 < chars.len() {
        lemma_run_end(chars, whole_end + 1, CharClass::Digit);
    }
}

/// The tokens of a source, and the string table they refer to.
pub struct Lexed {
    pub tokens: Seq<Token>,
    pub table: Seq<Seq<char>>,
}

/// Lexes `chars` from `i` on. `fresh` says that `i` starts a line, whose
/// indent is measured first. `tokens` and `table` hold what was read so far.
/// The result ends with the end-of-input token.
pub open spec fn lex_from(
    chars: Seq<char>,
    i: int,
    fresh: bool,
    tokens: Seq<Token>,
    table: Seq<Seq<char>>,
) -> Result<Lexed, LexError>
    decreases chars.len() - i, (if fresh { 1int } else { 0int }),
{
    if i < 0 || i >= chars.len() {
        Ok(
            Lexed {
                tokens: tokens.push(Token(Kind::Eof, offset(chars, chars.len() as int) as usize)),
                table,
            },
        )
    } else if fresh {
        let n = run_end(chars, i, CharClass::Space);
        if n < chars.len() && chars[n] == '\t' {
            Err(LexError { kind: LexErrorKind::TabIndent, position: offset(chars, n) as usize })
        } else {
            proof {
                lemma_run_end(chars, i, CharClass::Space);
            }
            lex_from(
                chars,
                n,
                false,
                tokens.push(Token(Kind::Indent((n - i) as usize), offset(chars, i) as usize)),
                table,
            )
        }
    } else {
        proof {
            lemma_scan(chars, i);
        }
        match scan(chars, i) {
            Scan::Error { kind, at } => Err(
                LexError { kind, position: offset(chars, at) as usize },
            ),
            Scan::Item { lexeme, end } => match lexeme {
                Lexeme::Skip => lex_from(chars, end, false, tokens, table),
                Lexeme::Token(kind) => lex_from(
                    chars,
                    end,
                    kind is Newline,
                    tokens.push(Token(kind, offset(chars, i) as usize)),
                    table,
                ),
                Lexeme::Ident(word) => lex_from(
                    chars,
                    end,
                    false,
                    tokens.push(
                        Token(
                            Kind::Value(Value::Ident(StringId(intern(table, word).1 as usize))),
                            offset(chars, i) as usize,
                        ),
                    ),
                    intern(table, word).0,
                ),
                Lexeme::Str(text) => lex_from(
                    chars,
                    end,
                    false,
                    tokens.push(
                        Token(
                            Kind::Value(Value::String(StringId(intern(table, text).1 as usize))),
                            offset(chars, i) as usize,
                        ),
                    ),
                    intern(table, text).0,
                ),
            },
        }
    }
}

/// The tokens of `source`, read with the strings in `table` already interned.
pub open spec fn lex_spec(source: Seq<char>, table: Seq<Seq<char>>) -> Result<Lexed, LexError> {
    lex_from(source, 0, true, Seq::empty(), table)
}

pub assume_specification[ std::string::String::push ](s: &mut std::string::String, ch: char)
    ensures
        final(s)@ == old(s)@.push(ch),
;

proof fn lemma_encode_push(chars: Seq<char>, c: char)
    ensures
        encode_utf8(chars.push(c)) == encode_utf8(chars) + encode_scalar(c as u32),
    decreases chars.len(),
{
    if chars.len() == 0 {
        assert(chars.push(c).drop_first() =~= chars);
        assert(encode_utf8(chars) =~= Seq::<u8>::empty());
        assert(encode_utf8(chars.push(c)) =~= encode_scalar(c as u32) + encode_utf8(chars));
        assert(encode_scalar(c as u32) + Seq::<u8>::empty() =~= encode_scalar(c as u32));
        assert(Seq::<u8>::empty() + encode_scalar(c as u32) =~= encode_scalar(c as u32));
    } else {
        assert(chars.push(c).drop_first() =~= chars.drop_first().push(c));
        lemma_encode_push(chars.drop_first(), c);
        assert(encode_utf8(chars.push(c)) =~= encode_utf8(chars) + encode_scalar(c as u32));
    }
}

/// The offset after a character is the offset before it plus its length
/// in UTF-8, which is between one and four bytes.
pub proof fn lemma_offset_step(chars: Seq<char>, i: int)
    requires
        0 <= i < chars.len(),
    ensures
        offset(chars, i + 1) == offset(chars, i) + encode_scalar(chars[i] as u32).len(),
        1 <= encode_scalar(chars[i] as u32).len() <= 4,
{
    assert(chars.take(i + 1) =~= chars.take(i).push(chars[i]));
    lemma_encode_push(chars.take(i), chars[i]);
}

/// Offsets grow with positions.
pub proof fn lemma_offset_grows(chars: Seq<char>, i: int, j: int)
    requires
        0 <= i <= j <= chars.len(),
    ensures
        offset(chars, i) <= offset(chars, j),
        j - i <= offset(chars, j) - offset(chars, i),
    decreases j - i,
{
    if i < j {
        lemma_offset_grows(chars, i, j - 1);
        lemma_offset_step(chars, j - 1);
    }
}

/// The number of bytes that `c` takes in UTF-8.
fn char_len(c: char) -> (n: usize)
    ensures
        n == encode_scalar(c as u32).len(),
{
    let v = c as u32;
    if v <= 0x7F {
        1
    } else if v <= 0x7FF {
        2
    } else if v <= 0xFFFF {
        3
    } else {
        4
    }
}

/// The offset of `to`, given that of `from`.
fn advance(chars: &Vec<char>, from: usize, to: usize, pos: usize) -> (r: usize)
    requires
        from <= to <= chars.len(),
        pos == offset(chars@, from as int),
        offset(chars@, chars.len() as int) <= usize::MAX,
    ensures
        r == offset(chars@, to as int),
{
    let mut j = from;
    let mut p = pos;
    while j < to
        invariant
            from <= j <= to <= chars.len(),
            p == offset(chars@, j as int),
            offset(chars@, chars.len() as int) <= usize::MAX,
        decreases to - j,
    {
        proof {
            lemma_offset_step(chars@, j as int);
            lemma_offset_grows(chars@, j + 1, chars.len() as int);
        }
        p = p + char_len(chars[j]);
        j += 1;
    }
    p
}

fn has_class(class: CharClass, c: char) -> (b: bool)
    ensures
        b == in_class(class, c),
{
    match class {
        CharClass::Space => c == ' ',
        CharClass::Digit => c >= '0' && c <= '9',
        CharClass::Hex => (c >= '0' && c <= '9') || (c >= 'a' && c <= 'f') || (c >= 'A' && c
            <= 'F'),
        CharClass::Ident => (c >= 'a' && c <= 'z') || (c >= 'A' && c <= 'Z') || c == '_' || (c
            >= '0' && c <= '9') || c == '-',
    }
}

fn find_run_end(chars: &Vec<char>, i: usize, class: CharClass) -> (end: usize)
    requires
        i <= chars.len(),
    ensures
        end == run_end(chars@, i as int, class),
        i <= end <= chars.len(),
{
    let mut j = i;
    while j < chars.len() && has_class(class, chars[j])
        invariant
            i <= j <= chars.len(),
            run_end(chars@, j as int, class) == run_end(chars@, i as int, class),
        decreases chars.len() - j,
    {
        j += 1;
    }
    j
}

/// Reads the digits in `chars[from..to]` behind those of `init`; `None` when
/// the number does not fit.
fn read_digits(chars: &Vec<char>, from: usize, to: usize, init: u64) -> (r: Option<u64>)
    requires
        from <= to <= chars.len(),
        forall|j: int| from <= j < to ==> is_digit(chars@[j]),
    ensures
        match r {
            Some(n) => n == number_from(chars@, from as int, to as int, init as int),
            None => number_from(chars@, from as int, to as int, init as int) > u64::MAX,
        },
{
    let mut acc = init;
    let mut k = from;
    while k < to
        invariant
            from <= k <= to <= chars.len(),
            forall|j: int| from <= j < to ==> is_digit(chars@[j]),
            acc == number_from(chars@, from as int, k as int, init as int),
        decreases to - k,
    {
        let d = (chars[k] as u32 - '0' as u32) as u64;
        assert(d == digit_value(chars@[k as int]));
        if acc > (u64::MAX - d) / 10 {
            proof {
                lemma_number_grows(chars@, from as int, k + 1, to as int, init as int);
            }
            return None;
        }
        acc = acc * 10 + d;
        k += 1;
    }
    Some(acc)
}

fn hex_digit(c: char) -> (v: u8)
    requires
        is_hex(c),
    ensures
        v == hex_value(c),
        v <= 15,
{
    if c >= '0' && c <= '9' {
        (c as u32 - '0' as u32) as u8
    } else if c >= 'a' && c <= 'f' {
        (c as u32 - 'a' as u32 + 10) as u8
    } else {
        (c as u32 - 'A' as u32 + 10) as u8
    }
}

/// What the lexer read at one place: a lexeme with its text owned.
pub enum Item {
    Skip,
    Token(Kind),
    Ident(String),
    Str(String),
}

impl View for Item {
    type V = Lexeme;

    open spec fn view(&self) -> Lexeme {
        match self {
            Item::Skip => Lexeme::Skip,
            Item::Token(kind) => Lexeme::Token(*kind),
            Item::Ident(word) => Lexeme::Ident(word@),
            Item::Str(text) => Lexeme::Str(text@),
        }
    }
}

/// The outcome of reading one place: an item and the position after it, or
/// an error kind and the position it is reported at.
pub open spec fn scan_result(r: Result<(Item, usize), (LexErrorKind, usize)>) -> Scan {
    match r {
        Ok((item, end)) => Scan::Item { lexeme: item@, end: end as int },
        Err((kind, at)) => Scan::Error { kind, at: at as int },
    }
}

/// The characters `chars[from..to]` as a string.
pub fn copy_range(chars: &Vec<char>, from: usize, to: usize) -> (s: String)
    requires
        from <= to <= chars.len(),
    ensures
        s@ == chars@.subrange(from as int, to as int),
{
    let mut s = String::new();
    let mut k = from;
    while k < to
        invariant
            from <= k <= to <= chars.len(),
            s@ == chars@.subrange(from as int, k as int),
        decreases to - k,
    {
        s.push(chars[k]);
        assert(chars@.subrange(from as int, k + 1) =~= chars@.subrange(
            from as int,
            k as int,
        ).push(chars@[k as int]));
        k += 1;
    }
    s
}

fn find_keyword(chars: &Vec<char>, from: usize, to: usize) -> (k: Option<Kind>)
    requires
        from <= to <= chars.len(),
    ensures
        k == keyword(chars@.subrange(from as int, to as int)),
{
    let n = to - from;
    let ghost word = chars@.subrange(from as int, to as int);
    assert(word.len() == n);
    assert(forall|j: int| 0 <= j < n ==> word[j] == chars@[from + j]);
    if n == 2 && chars[from] == 'i' && chars[from + 1] == 'n' {
        assert(word =~= seq!['i', 'n']);
        Some(Kind::In)
    } else if n == 2 && chars[from] == 'i' && chars[from + 1] == 'f' {
        assert(word =~= seq!['i', 'f']);
        Some(Kind::If)
    } else if n == 3 && chars[from] == 'f' && chars[from + 1] == 'o' && chars[from + 2] == 'r' {
        assert(word =~= seq!['f', 'o', 'r']);
        Some(Kind::For)
    } else if n == 4 && chars[from] == 'e' && chars[from + 1] == 'l' && chars[from + 2] == 's'
        && chars[from + 3] == 'e' {
        assert(word =~= seq!['e', 'l', 's', 'e']);
        Some(Kind::Else)
    } else if n == 4 && chars[from] == 'v' && chars[from + 1] == 'i' && chars[from + 2] == 'e'
        && chars[from + 3] == 'w' {
        assert(word =~= seq!['v', 'i', 'e', 'w']);
        Some(Kind::View)
    } else if n == 4 && chars[from] == 't' && chars[from + 1] == 'r' && chars[from + 2] == 'u'
        && chars[from + 3] == 'e' {
        assert(word =~= seq!['t', 'r', 'u', 'e']);
        Some(Kind::Value(Value::Bool(true)))
    } else if n == 5 && chars[from] == 'f' && chars[from + 1] == 'a' && chars[from + 2] == 'l'
        && chars[from + 3] == 's' && chars[from + 4] == 'e' {
        assert(word =~= seq!['f', 'a', 'l', 's', 'e']);
        Some(Kind::Value(Value::Bool(false)))
    } else {
        assert(word != seq!['f', 'o', 'r']) by {
            if word == seq!['f', 'o', 'r'] {
                assert(word[0] == 'f' && word[1] == 'o' && word[2] == 'r');
            }
        }
        assert(word != seq!['i', 'n']) by {
            if word == seq!['i', 'n'] {
                assert(word[0] == 'i' && word[1] == 'n');
            }
        }
        assert(word != seq!['i', 'f']) by {
            if word == seq!['i', 'f'] {
                assert(word[0] == 'i' && word[1] == 'f');
            }
        }
        assert(word != seq!['e', 'l', 's', 'e']) by {
            if word == seq!['e', 'l', 's', 'e'] {
                assert(word[0] == 'e' && word[1] == 'l' && word[2] == 's' && word[3] == 'e');
            }
        }
        assert(word != seq!['v', 'i', 'e', 'w']) by {
            if word == seq!['v', 'i', 'e', 'w'] {
                assert(word[0] == 'v' && word[1] == 'i' && word[2] == 'e' && word[3] == 'w');
            }
        }
        assert(word != seq!['t', 'r', 'u', 'e']) by {
            if word == seq!['t', 'r', 'u', 'e'] {
                assert(word[0] == 't' && word[1] == 'r' && word[2] == 'u' && word[3] == 'e');
            }
        }
        assert(word != seq!['f', 'a', 'l', 's', 'e']) by {
            if word == seq!['f', 'a', 'l', 's', 'e'] {
                assert(word[0] == 'f' && word[1] == 'a' && word[2] == 'l' && word[3] == 's'
                    && word[4] == 'e');
            }
        }
        None
    }
}

fn read_unescape(c: char) -> (r: Option<char>)
    ensures
        r == unescape(c),
{
    if c == '\\' {
        Some('\\')
    } else if c == 'n' {
        Some('\n')
    } else if c == 't' {
        Some('\t')
    } else if c == '"' {
        Some('"')
    } else if c == '\'' {
        Some('\'')
    } else {
        None
    }
}

fn read_string(chars: &Vec<char>, open: usize) -> (r: Result<(Item, usize), (LexErrorKind, usize)>)
    requires
        open < chars.len(),
        chars@[open as int] == '"' || chars@[open as int] == '\'',
    ensures
        scan_result(r) == scan(chars@, open as int),
{
    let quote = chars[open];
    let mut text = String::new();
    let mut j = open + 1;
    loop
        invariant
            open < j <= chars.len(),
            quote == chars@[open as int],
            quote == '"' || quote == '\'',
            string_body(chars@, j as int, quote, text@) == string_body(
                chars@,
                open + 1,
                quote,
                Seq::empty(),
            ),
        decreases chars.len() - j,
    {
        if j >= chars.len() {
            return Err((LexErrorKind::UnterminatedString, open));
        }
        let c = chars[j];
        if c == quote {
            return Ok((Item::Str(text), j + 1));
        }
        if c == '\\' {
            if j + 1 >= chars.len() {
                return Err((LexErrorKind::UnterminatedString, open));
            }
            match read_unescape(chars[j + 1]) {
                Some(e) => {
                    text.push(e);
                    j += 2;
                },
                None => {
                    return Err((LexErrorKind::InvalidEscape, j));
                },
            }
        } else {
            text.push(c);
            j += 1;
        }
    }
}

fn read_number(chars: &Vec<char>, i: usize) -> (r: Result<(Item, usize), (LexErrorKind, usize)>)
    requires
        i < chars.len(),
        is_digit(chars@[i as int]),
    ensures
        scan_result(r) == scan(chars@, i as int),
{
    let whole_end = find_run_end(chars, i, CharClass::Digit);
    proof {
        lemma_run_end(chars@, i as int, CharClass::Digit);
    }
    let whole = read_digits(chars, i, whole_end, 0);
    if whole_end < chars.len() && whole_end + 1 < chars.len() && chars[whole_end] == '.'
        && has_class(CharClass::Digit, chars[whole_end + 1]) {
        let end = find_run_end(chars, whole_end + 1, CharClass::Digit);
        proof {
            lemma_run_end(chars@, whole_end + 1, CharClass::Digit);
        }
        match whole {
            Some(w) => {
                match read_digits(chars, whole_end + 1, end, w) {
                    Some(m) => {
                        if end - whole_end - 1 > 0xffff_ffff {
                            Err((LexErrorKind::InvalidNumber, i))
                        } else {
                            Ok(
                                (
                                    Item::Token(
                                        Kind::Value(
                                            Value::Float(m, (end - whole_end - 1) as u32),
                                        ),
                                    ),
                                    end,
                                ),
                            )
                        }
                    },
                    None => Err((LexErrorKind::InvalidNumber, i)),
                }
            },
            None => {
                proof {
                    lemma_fraction_grows(
                        chars@,
                        whole_end + 1,
                        end as int,
                        number(chars@, i as int, whole_end as int),
                    );
                }
                Err((LexErrorKind::InvalidNumber, i))
            },
        }
    } else {
        match whole {
            Some(w) => Ok((Item::Token(Kind::Value(Value::Number(w))), whole_end)),
            None => Err((LexErrorKind::InvalidNumber, i)),
        }
    }
}

/// Digits written behind a number do not make it smaller.
proof fn lemma_fraction_grows(chars: Seq<char>, from: int, to: int, init: int)
    requires
        0 <= from <= to <= chars.len(),
        0 <= init,
        forall|j: int| from <= j < to ==> is_digit(chars[j]),
    ensures
        init <= number_from(chars, from, to, init),
    decreases to - from,
{
    if from < to {
        lemma_fraction_grows(chars, from, to - 1, init);
    }
}

fn read_hex(chars: &Vec<char>, i: usize) -> (r: Result<(Item, usize), (LexErrorKind, usize)>)
    requires
        i < chars.len(),
        chars@[i as int] == '#',
    ensures
        scan_result(r) == scan(chars@, i as int),
{
    let end = find_run_end(chars, i + 1, CharClass::Hex);
    proof {
        lemma_run_end(chars@, i + 1, CharClass::Hex);
    }
    if end - (i + 1) == 3 {
        let r = hex_digit(chars[i + 1]) * 17;
        let g = hex_digit(chars[i + 2]) * 17;
        let b = hex_digit(chars[i + 3]) * 17;
        Ok((Item::Token(Kind::Value(Value::Hex(r, g, b))), end))
    } else if end - (i + 1) == 6 {
        let r = hex_digit(chars[i + 1]) * 16 + hex_digit(chars[i + 2]);
        let g = hex_digit(chars[i + 3]) * 16 + hex_digit(chars[i + 4]);
        let b = hex_digit(chars[i + 5]) * 16 + hex_digit(chars[i + 6]);
        Ok((Item::Token(Kind::Value(Value::Hex(r, g, b))), end))
    } else {
        Err((LexErrorKind::InvalidHex, i))
    }
}

fn read_operator(chars: &Vec<char>, i: usize) -> (r: Option<(Operator, usize)>)
    requires
        i < chars.len(),
    ensures
        match r {
            Some((op, len)) => operator_at(chars@, i as int) == Some((op, len as int)) && 1 <= len
                <= 2 && i + len <= chars.len(),
            None => operator_at(chars@, i as int) is None,
        },
{
    let c = chars[i];
    let d = if i + 1 < chars.len() {
        Some(chars[i + 1])
    } else {
        None
    };
    if c == '(' {
        Some((Operator::LParen, 1))
    } else if c == ')' {
        Some((Operator::RParen, 1))
    } else if c == '[' {
        Some((Operator::LBracket, 1))
    } else if c == ']' {
        Some((Operator::RBracket, 1))
    } else if c == '{' {
        if d == Some('{') {
            Some((Operator::LDoubleCurly, 2))
        } else {
            Some((Operator::LCurly, 1))
        }
    } else if c == '}' {
        if d == Some('}') {
            Some((Operator::RDoubleCurly, 2))
        } else {
            Some((Operator::RCurly, 1))
        }
    } else if c == '+' {
        if d == Some('=') {
            Some((Operator::PlusEqual, 2))
        } else {
            Some((Operator::Plus, 1))
        }
    } else if c == '-' {
        if d == Some('=') {
            Some((Operator::MinusEqual, 2))
        } else {
            Some((Operator::Minus, 1))
        }
    } else if c == '*' {
        if d == Some('=') {
            Some((Operator::MulEqual, 2))
        } else {
            Some((Operator::Mul, 1))
        }
    } else if c == '/' {
        if d == Some('=') {
            Some((Operator::DivEqual, 2))
        } else {
            Some((Operator::Div, 1))
        }
    } else if c == '%' {
        if d == Some('=') {
            Some((Operator::ModEqual, 2))
        } else {
            Some((Operator::Mod, 1))
        }
    } else if c == '=' {
        if d == Some('=') {
            Some((Operator::EqualEqual, 2))
        } else {
            Some((Operator::Equal, 1))
        }
    } else if c == '<' {
        if d == Some('=') {
            Some((Operator::LessThanOrEqual, 2))
        } else {
            Some((Operator::LessThan, 1))
        }
    } else if c == '>' {
        if d == Some('=') {
            Some((Operator::GreaterThanOrEqual, 2))
        } else {
            Some((Operator::GreaterThan, 1))
        }
    } else if c == '!' {
        Some((Operator::Not, 1))
    } else if c == '&' {
        if d == Some('&') {
            Some((Operator::And, 2))
        } else {
            None
        }
    } else if c == '|' {
        if d == Some('|') {
            Some((Operator::Or, 2))
        } else {
            None
        }
    } else if c == '.' {
        Some((Operator::Dot, 1))
    } else if c == ',' {
        Some((Operator::Comma, 1))
    } else if c == ':' {
        Some((Operator::Colon, 1))
    } else {
        None
    }
}

/// Reads what stands at `i`, a place inside a line.
pub fn scan_at(chars: &Vec<char>, i: usize) -> (r: Result<(Item, usize), (LexErrorKind, usize)>)
    requires
        i < chars.len(),
    ensures
        scan_result(r) == scan(chars@, i as int),
{
    let c = chars[i];
    if c == ' ' || c == '\t' || c == '\r' {
        Ok((Item::Skip, i + 1))
    } else if c == '\n' {
        Ok((Item::Token(Kind::Newline), i + 1))
    } else if (c >= 'a' && c <= 'z') || (c >= 'A' && c <= 'Z') || c == '_' {
        let end = find_run_end(chars, i + 1, CharClass::Ident);
        match find_keyword(chars, i, end) {
            Some(kind) => Ok((Item::Token(kind), end)),
            None => Ok((Item::Ident(copy_range(chars, i, end)), end)),
        }
    } else if c >= '0' && c <= '9' {
        read_number(chars, i)
    } else if c == '#' {
        read_hex(chars, i)
    } else if c == '"' || c == '\'' {
        read_string(chars, i)
    } else {
        match read_operator(chars, i) {
            Some((op, len)) => Ok((Item::Token(Kind::Op(op)), i + len)),
            None => Err((LexErrorKind::UnexpectedChar, i)),
        }
    }
}

/// The characters of a string, one by one.
pub fn to_chars(source: &str) -> (chars: Vec<char>)
    ensures
        chars@ == source@,
{
    let n = source.unicode_len();
    let mut chars: Vec<char> = Vec::new();
    let mut i: usize = 0;
    while i < n
        invariant
            i <= n,
            n == source@.len(),
            chars@ == source@.take(i as int),
        decreases n - i,
    {
        chars.push(source.get_char(i));
        assert(source@.take(i + 1) =~= source@.take(i as int).push(source@[i as int]));
        i += 1;
    }
    assert(source@.take(n as int) =~= source@);
    chars
}

/// Lexes a source given as characters. New names and string literals are
/// interned into `strings`; what it held before keeps its ids.
pub fn lex_chars(chars: &Vec<char>, strings: &mut Strings) -> (r: Result<Vec<Token>, LexError>)
    requires
        offset(chars@, chars.len() as int) <= usize::MAX,
    ensures
        match lex_spec(chars@, old(strings)@) {
            Ok(lexed) => r is Ok && r->Ok_0@ == lexed.tokens && final(strings)@ == lexed.table,
            Err(e) => r == Err::<Vec<Token>, LexError>(e),
        },
        old(strings)@.len() <= final(strings)@.len(),
        forall|k: int| 0 <= k < old(strings)@.len() ==> final(strings)@[k] == old(strings)@[k],
{
    let mut tokens: Vec<Token> = Vec::new();
    let mut i: usize = 0;
    let mut pos: usize = 0;
    let mut fresh = true;
    assert(chars@.take(0) =~= Seq::<char>::empty());
    while i < chars.len()
        invariant
            i <= chars.len(),
            pos == offset(chars@, i as int),
            offset(chars@, chars.len() as int) <= usize::MAX,
            lex_from(chars@, i as int, fresh, tokens@, strings@) == lex_spec(
                chars@,
                old(strings)@,
            ),
            old(strings)@.len() <= strings@.len(),
            forall|k: int| 0 <= k < old(strings)@.len() ==> strings@[k] == old(strings)@[k],
        decreases chars.len() - i, (if fresh { 1int } else { 0int }),
    {
        if fresh {
            let n = find_run_end(chars, i, CharClass::Space);
            if n < chars.len() && chars[n] == '\t' {
                let at = advance(chars, i, n, pos);
                return Err(LexError { kind: LexErrorKind::TabIndent, position: at });
            }
            tokens.push(Token(Kind::Indent(n - i), pos));
            pos = advance(chars, i, n, pos);
            i = n;
            fresh = false;
        } else {
            proof {
                lemma_scan(chars@, i as int);
            }
            match scan_at(chars, i) {
                Err((kind, at)) => {
                    let position = advance(chars, i, at, pos);
                    return Err(LexError { kind, position });
                },
                Ok((item, end)) => {
                    match item {
                        Item::Skip => {},
                        Item::Token(kind) => {
                            tokens.push(Token(kind, pos));
                            fresh = matches!(kind, Kind::Newline);
                        },
                        Item::Ident(word) => {
                            proof {
                                lemma_intern_extends(strings@, word@);
                            }
                            let id = strings.push(word);
                            tokens.push(Token(Kind::Value(Value::Ident(id)), pos));
                        },
                        Item::Str(text) => {
                            proof {
                                lemma_intern_extends(strings@, text@);
                            }
                            let id = strings.push(text);
                            tokens.push(Token(Kind::Value(Value::String(id)), pos));
                        },
                    }
                    pos = advance(chars, i, end, pos);
                    i = end;
                },
            }
        }
    }
    tokens.push(Token(Kind::Eof, pos));
    Ok(tokens)
}

/// Lexes a source text. Positions are byte offsets into `source`; the last
/// token is the end-of-input token, at the length of `source`.
pub fn lex(source: &str, strings: &mut Strings) -> (r: Result<Vec<Token>, LexError>)
    ensures
        match lex_spec(source@, old(strings)@) {
            Ok(lexed) => r is Ok && r->Ok_0@ == lexed.tokens && final(strings)@ == lexed.table,
            Err(e) => r == Err::<Vec<Token>, LexError>(e),
        },
        old(strings)@.len() <= final(strings)@.len(),
        forall|k: int| 0 <= k < old(strings)@.len() ==> final(strings)@[k] == old(strings)@[k],
{
    let chars = to_chars(source);
    let bytes = source.as_bytes();
    let total = bytes.len();
    assert(chars@.take(chars.len() as int) =~= chars@);
    assert(offset(chars@, chars.len() as int) == total);
    lex_chars(&chars, strings)
}

} // verus!
