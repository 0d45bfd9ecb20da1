//! The attributes of a widget, read as the kind of value that the widget
//! expects of them.
use vstd::prelude::*;
use crate::layout::{Align, Axis, Direction, Padding};
use crate::state::{Seen, ValueRef};
use crate::value::{Color, Num, Owned};
use crate::widget::{attributes_view, Attribute, Display};

verus! {

/// The value of the first attribute from the one at `i` on that has the
/// name `name` and a value.
pub open spec fn value_from(
    attributes: Seq<(Seq<char>, Option<Seen>)>,
    name: Seq<char>,
    i: int,
) -> Option<Seen>
    decreases attributes.len() - i,
{
    if i < 0 || i >= attributes.len() {
        None
    } else if attributes[i].0 == name && attributes[i].1 is Some {
        attributes[i].1
    } else {
        value_from(attributes, name, i + 1)
    }
}

/// The value of the attribute `name`: that of the first attribute of the
/// name that has a value.
pub open spec fn value_of(attributes: Seq<(Seq<char>, Option<Seen>)>, name: Seq<char>) -> Option<
    Seen,
> {
    value_from(attributes, name, 0)
}

/// A truth value is a bool; nothing else is.
pub open spec fn as_bool(v: Seen) -> Option<bool> {
    match v {
        Seen::Owned(Owned::Bool(b)) => Some(b),
        _ => None,
    }
}

/// A number that is not negative, as an unsigned number.
pub open spec fn as_int(v: Seen) -> Option<u64> {
    match v {
        Seen::Owned(Owned::Num(Num::Unsigned(n))) => Some(n),
        Seen::Owned(Owned::Num(Num::Signed(n))) => if n >= 0 {
            Some(n as u64)
        } else {
            None
        },
        _ => None,
    }
}

/// A number that a signed number can hold, as a signed number.
pub open spec fn as_signed_int(v: Seen) -> Option<i64> {
    match v {
        Seen::Owned(Owned::Num(Num::Signed(n))) => Some(n),
        Seen::Owned(Owned::Num(Num::Unsigned(n))) => if n <= i64::MAX {
            Some(n as i64)
        } else {
            None
        },
        _ => None,
    }
}

/// A string is a string; nothing else is.
pub open spec fn as_str(v: Seen) -> Option<Seq<char>> {
    match v {
        Seen::Str(s) => Some(s),
        _ => None,
    }
}

pub open spec fn as_color(v: Seen) -> Option<Color> {
    match v {
        Seen::Owned(Owned::Color(c)) => Some(c),
        _ => None,
    }
}

/// An axis is written as the word `horizontal` or `vertical`.
pub open spec fn as_axis(v: Seen) -> Option<Axis> {
    match v {
        Seen::Str(s) => if s == "horizontal"@ {
            Some(Axis::Horizontal)
        } else if s == "vertical"@ {
            Some(Axis::Vertical)
        } else {
            None
        },
        _ => None,
    }
}

/// A direction is written as the word `forward` or `backward`.
pub open spec fn as_direction(v: Seen) -> Option<Direction> {
    match v {
        Seen::Str(s) => if s == "forward"@ {
            Some(Direction::Forward)
        } else if s == "backward"@ {
            Some(Direction::Backward)
        } else {
            None
        },
        _ => None,
    }
}

/// How a widget is displayed is written as the word `show`, `hide` or
/// `exclude`.
pub open spec fn as_display(v: Seen) -> Option<Display> {
    match v {
        Seen::Str(s) => if s == "show"@ {
            Some(Display::Show)
        } else if s == "hide"@ {
            Some(Display::Hide)
        } else if s == "exclude"@ {
            Some(Display::Exclude)
        } else {
            None
        },
        _ => None,
    }
}

/// The alignment that has the name `s`.
pub open spec fn alignment_named(s: Seq<char>) -> Option<Align> {
    if s == Align::Top.name() {
        Some(Align::Top)
    } else if s == Align::TopRight.name() {
        Some(Align::TopRight)
    } else if s == Align::Right.name() {
        Some(Align::Right)
    } else if s == Align::BottomRight.name() {
        Some(Align::BottomRight)
    } else if s == Align::Bottom.name() {
        Some(Align::Bottom)
    } else if s == Align::BottomLeft.name() {
        Some(Align::BottomLeft)
    } else if s == Align::Left.name() {
        Some(Align::Left)
    } else if s == Align::TopLeft.name() {
        Some(Align::TopLeft)
    } else if s == Align::Centre.name() {
        Some(Align::Centre)
    } else {
        None
    }
}

/// An alignment is written as its name.
pub open spec fn as_alignment(v: Seen) -> Option<Align> {
    match v {
        Seen::Str(s) => alignment_named(s),
        _ => None,
    }
}

/// Whether a string is the word `word`.
fn is_word(s: &String, word: &str) -> (b: bool)
    ensures
        b == (s@ == word@),
{
    *s == word.to_owned()
}

impl ValueRef {
    /// The value as an optional bool
    pub fn to_bool(&self) -> (r: Option<bool>)
        ensures
            r == as_bool(self@),
    {
        match self {
            ValueRef::Owned(Owned::Bool(b)) => Some(*b),
            _ => None,
        }
    }

    /// The value as an optional string
    pub fn to_str(&self) -> (r: Option<&String>)
        ensures
            match r {
                Some(s) => as_str(self@) == Some(s@),
                None => as_str(self@) is None,
            },
    {
        match self {
            ValueRef::Str(s) => Some(s),
            _ => None,
        }
    }

    /// The value as an optional signed integer: any number that a signed
    /// integer can hold.
    pub fn to_signed_int(&self) -> (r: Option<i64>)
        ensures
            r == as_signed_int(self@),
    {
        match self {
            ValueRef::Owned(Owned::Num(Num::Signed(n))) => Some(*n),
            ValueRef::Owned(Owned::Num(Num::Unsigned(n))) => {
                if *n <= 0x7fff_ffff_ffff_ffff {
                    Some(*n as i64)
                } else {
                    None
                }
            },
            _ => None,
        }
    }

    /// The value as an optional unsigned integer: any number that is not
    /// negative.
    pub fn to_int(&self) -> (r: Option<u64>)
        ensures
            r == as_int(self@),
    {
        match self {
            ValueRef::Owned(Owned::Num(Num::Unsigned(n))) => Some(*n),
            ValueRef::Owned(Owned::Num(Num::Signed(n))) => {
                if *n >= 0 {
                    Some(*n as u64)
                } else {
                    None
                }
            },
            _ => None,
        }
    }

    /// The value as an optional color
    pub fn to_color(&self) -> (r: Option<Color>)
        ensures
            r == as_color(self@),
    {
        match self {
            ValueRef::Owned(Owned::Color(c)) => Some(*c),
            _ => None,
        }
    }

    /// The value as `Axis`
    pub fn to_axis(&self) -> (r: Option<Axis>)
        ensures
            r == as_axis(self@),
    {
        match self {
            ValueRef::Str(s) => {
                if is_word(s, "horizontal") {
                    Some(Axis::Horizontal)
                } else if is_word(s, "vertical") {
                    Some(Axis::Vertical)
                } else {
                    None
                }
            },
            _ => None,
        }
    }

    /// The value as `Direction`
    pub fn to_direction(&self) -> (r: Option<Direction>)
        ensures
            r == as_direction(self@),
    {
        match self {
            ValueRef::Str(s) => {
                if is_word(s, "forward") {
                    Some(Direction::Forward)
                } else if is_word(s, "backward") {
                    Some(Direction::Backward)
                } else {
                    None
                }
            },
            _ => None,
        }
    }

    /// The value as `Display`
    pub fn to_display(&self) -> (r: Option<Display>)
        ensures
            r == as_display(self@),
    {
        match self {
            ValueRef::Str(s) => {
                if is_word(s, "show") {
                    Some(Display::Show)
                } else if is_word(s, "hide") {
                    Some(Display::Hide)
                } else if is_word(s, "exclude") {
                    Some(Display::Exclude)
                } else {
                    None
                }
            },
            _ => None,
        }
    }

    /// The value as an optional alignment
    pub fn to_alignment(&self) -> (r: Option<Align>)
        ensures
            r == as_alignment(self@),
    {
        match self {
            ValueRef::Str(s) => {
                if is_word(s, Align::Top.as_str()) {
                    Some(Align::Top)
                } else if is_word(s, Align::TopRight.as_str()) {
                    Some(Align::TopRight)
                } else if is_word(s, Align::Right.as_str()) {
                    Some(Align::Right)
                } else if is_word(s, Align::BottomRight.as_str()) {
                    Some(Align::BottomRight)
                } else if is_word(s, Align::Bottom.as_str()) {
                    Some(Align::Bottom)
                } else if is_word(s, Align::BottomLeft.as_str()) {
                    Some(Align::BottomLeft)
                } else if is_word(s, Align::Left.as_str()) {
                    Some(Align::Left)
                } else if is_word(s, Align::TopLeft.as_str()) {
                    Some(Align::TopLeft)
                } else if is_word(s, Align::Centre.as_str()) {
                    Some(Align::Centre)
                } else {
                    None
                }
            },
            _ => None,
        }
    }
}

/// The attributes of a widget, with their values as they resolved.
pub struct ValuesAttributes<'a> {
    pub attributes: &'a Vec<Attribute>,
}

impl<'a> View for ValuesAttributes<'a> {
    type V = Seq<(Seq<char>, Option<Seen>)>;

    open spec fn view(&self) -> Seq<(Seq<char>, Option<Seen>)> {
        attributes_view(self.attributes@)
    }
}

/// The attribute `name` read as a truth value.
pub open spec fn bool_at(attributes: Seq<(Seq<char>, Option<Seen>)>, name: Seq<char>) -> Option<
    bool,
> {
    match value_of(attributes, name) {
        Some(v) => as_bool(v),
        None => None,
    }
}

/// The attribute `name` read as an unsigned number.
pub open spec fn int_at(attributes: Seq<(Seq<char>, Option<Seen>)>, name: Seq<char>) -> Option<
    u64,
> {
    match value_of(attributes, name) {
        Some(v) => as_int(v),
        None => None,
    }
}

/// The attribute `name` read as a signed number.
pub open spec fn signed_int_at(
    attributes: Seq<(Seq<char>, Option<Seen>)>,
    name: Seq<char>,
) -> Option<i64> {
    match value_of(attributes, name) {
        Some(v) => as_signed_int(v),
        None => None,
    }
}

/// The attribute `name` read as a string.
pub open spec fn str_at(attributes: Seq<(Seq<char>, Option<Seen>)>, name: Seq<char>) -> Option<
    Seq<char>,
> {
    match value_of(attributes, name) {
        Some(v) => as_str(v),
        None => None,
    }
}

/// The attribute `name` read as a color.
pub open spec fn color_at(attributes: Seq<(Seq<char>, Option<Seen>)>, name: Seq<char>) -> Option<
    Color,
> {
    match value_of(attributes, name) {
        Some(v) => as_color(v),
        None => None,
    }
}

/// A number of cells: the number itself, or the greatest that can be held
/// where it is greater.
pub open spec fn cells(n: u64) -> usize {
    if n <= usize::MAX {
        n as usize
    } else {
        usize::MAX
    }
}

/// The attribute `name` read as a number of cells.
pub open spec fn size_at(attributes: Seq<(Seq<char>, Option<Seen>)>, name: Seq<char>) -> Option<
    usize,
> {
    match int_at(attributes, name) {
        Some(n) => Some(cells(n)),
        None => None,
    }
}

/// A distance in cells, to either side: the number itself, or the end of
/// the numbers that can be held where it lies beyond.
pub open spec fn distance(n: i64) -> i32 {
    if n > i32::MAX {
        i32::MAX
    } else if n < i32::MIN {
        i32::MIN
    } else {
        n as i32
    }
}

/// The attribute `name` read as a distance.
pub open spec fn distance_at(
    attributes: Seq<(Seq<char>, Option<Seen>)>,
    name: Seq<char>,
) -> Option<i32> {
    match signed_int_at(attributes, name) {
        Some(n) => Some(distance(n)),
        None => None,
    }
}

/// The padding of one side: what the attribute of the side says, else what
/// `padding` says.
pub open spec fn padding_at(attributes: Seq<(Seq<char>, Option<Seen>)>, side: Seq<char>) -> Option<
    usize,
> {
    match size_at(attributes, side) {
        Some(n) => Some(n),
        None => size_at(attributes, "padding"@),
    }
}

/// What a side has where nothing is said of it.
pub open spec fn or_nothing(n: Option<usize>) -> usize {
    match n {
        Some(n) => n,
        None => 0,
    }
}

/// The padding of all four sides, if anything is said of any of them.
pub open spec fn padding_all_at(attributes: Seq<(Seq<char>, Option<Seen>)>) -> Option<Padding> {
    let top = padding_at(attributes, "padding-top"@);
    let right = padding_at(attributes, "padding-right"@);
    let bottom = padding_at(attributes, "padding-bottom"@);
    let left = padding_at(attributes, "padding-left"@);
    if top is None && right is None && bottom is None && left is None {
        None
    } else {
        Some(
            Padding {
                top: or_nothing(top),
                right: or_nothing(right),
                bottom: or_nothing(bottom),
                left: or_nothing(left),
            },
        )
    }
}

/// The first of two readings that says something.
pub open spec fn or_else<T>(first: Option<T>, second: Option<T>) -> Option<T> {
    match first {
        Some(v) => Some(v),
        None => second,
    }
}

/// A switch that is off unless it is set.
pub open spec fn unless_set(b: Option<bool>, otherwise: bool) -> bool {
    match b {
        Some(b) => b,
        None => otherwise,
    }
}

impl<'a> ValuesAttributes<'a> {
    pub fn new(attributes: &'a Vec<Attribute>) -> (v: Self)
        ensures
            v.attributes == attributes,
    {
        Self { attributes }
    }

    /// The value of the attribute `key`, if the widget has it and it
    /// resolved.
    pub fn get_attrib(&self, key: &str) -> (r: Option<&'a ValueRef>)
        ensures
            match r {
                Some(v) => value_of(self@, key@) == Some(v@),
                None => value_of(self@, key@) is None,
            },
    {
        let wanted = key.to_owned();
        let attributes = self.attributes;
        let mut i: usize = 0;
        while i < attributes.len()
            invariant
                i <= attributes.len(),
                attributes == self.attributes,
                wanted@ == key@,
                value_of(self@, key@) == value_from(self@, key@, i as int),
            decreases attributes.len() - i,
        {
            if attributes[i].name == wanted {
                match &attributes[i].value {
                    Some(value) => {
                        return Some(value);
                    },
                    None => {},
                }
            }
            i += 1;
        }
        None
    }

    pub fn get_bool(&self, name: &str) -> (r: Option<bool>)
        ensures
            r == bool_at(self@, name@),
    {
        match self.get_attrib(name) {
            Some(v) => v.to_bool(),
            None => None,
        }
    }

    pub fn get_int(&self, name: &str) -> (r: Option<u64>)
        ensures
            r == int_at(self@, name@),
    {
        match self.get_attrib(name) {
            Some(v) => v.to_int(),
            None => None,
        }
    }

    pub fn get_signed_int(&self, name: &str) -> (r: Option<i64>)
        ensures
            r == signed_int_at(self@, name@),
    {
        match self.get_attrib(name) {
            Some(v) => v.to_signed_int(),
            None => None,
        }
    }

    pub fn get_str(&self, name: &str) -> (r: Option<&'a String>)
        ensures
            match r {
                Some(s) => str_at(self@, name@) == Some(s@),
                None => str_at(self@, name@) is None,
            },
    {
        match self.get_attrib(name) {
            Some(v) => v.to_str(),
            None => None,
        }
    }

    pub fn get_color(&self, name: &str) -> (r: Option<Color>)
        ensures
            r == color_at(self@, name@),
    {
        match self.get_attrib(name) {
            Some(v) => v.to_color(),
            None => None,
        }
    }

    /// The attribute `name` as a number of cells.
    pub fn get_size(&self, name: &str) -> (r: Option<usize>)
        ensures
            r == size_at(self@, name@),
    {
        match self.get_int(name) {
            Some(n) => if n > usize::MAX as u64 {
                Some(usize::MAX)
            } else {
                Some(n as usize)
            },
            None => None,
        }
    }

    /// The attribute `name` as a distance.
    pub fn get_distance(&self, name: &str) -> (r: Option<i32>)
        ensures
            r == distance_at(self@, name@),
    {
        match self.get_signed_int(name) {
            Some(n) => if n > i32::MAX as i64 {
                Some(i32::MAX)
            } else if n < i32::MIN as i64 {
                Some(i32::MIN)
            } else {
                Some(n as i32)
            },
            None => None,
        }
    }

    pub fn height(&self) -> (r: Option<usize>)
        ensures
            r == size_at(self@, "height"@),
    {
        self.get_size("height")
    }

    pub fn width(&self) -> (r: Option<usize>)
        ensures
            r == size_at(self@, "width"@),
    {
        self.get_size("width")
    }

    pub fn min_width(&self) -> (r: Option<usize>)
        ensures
            r == size_at(self@, "min-width"@),
    {
        self.get_size("min-width")
    }

    pub fn min_height(&self) -> (r: Option<usize>)
        ensures
            r == size_at(self@, "min-height"@),
    {
        self.get_size("min-height")
    }

    pub fn max_width(&self) -> (r: Option<usize>)
        ensures
            r == size_at(self@, "max-width"@),
    {
        self.get_size("max-width")
    }

    pub fn max_height(&self) -> (r: Option<usize>)
        ensures
            r == size_at(self@, "max-height"@),
    {
        self.get_size("max-height")
    }

    pub fn factor(&self) -> (r: Option<usize>)
        ensures
            r == size_at(self@, "factor"@),
    {
        self.get_size("factor")
    }

    pub fn max_children(&self) -> (r: Option<usize>)
        ensures
            r == size_at(self@, "max-children"@),
    {
        self.get_size("max-children")
    }

    pub fn offset(&self) -> (r: Option<i32>)
        ensures
            r == distance_at(self@, "offset"@),
    {
        self.get_distance("offset")
    }

    pub fn left(&self) -> (r: Option<i32>)
        ensures
            r == distance_at(self@, "left"@),
    {
        self.get_distance("left")
    }

    pub fn right(&self) -> (r: Option<i32>)
        ensures
            r == distance_at(self@, "right"@),
    {
        self.get_distance("right")
    }

    pub fn top(&self) -> (r: Option<i32>)
        ensures
            r == distance_at(self@, "top"@),
    {
        self.get_distance("top")
    }

    pub fn bottom(&self) -> (r: Option<i32>)
        ensures
            r == distance_at(self@, "bottom"@),
    {
        self.get_distance("bottom")
    }

    pub fn fill(&self) -> (r: Option<&'a String>)
        ensures
            match r {
                Some(s) => str_at(self@, "fill"@) == Some(s@),
                None => str_at(self@, "fill"@) is None,
            },
    {
        self.get_str("fill")
    }

    pub fn id(&self) -> (r: Option<&'a String>)
        ensures
            match r {
                Some(s) => str_at(self@, "id"@) == Some(s@),
                None => str_at(self@, "id"@) is None,
            },
    {
        self.get_str("id")
    }

    pub fn padding(&self) -> (r: Option<usize>)
        ensures
            r == size_at(self@, "padding"@),
    {
        self.get_size("padding")
    }

    fn padding_side(&self, side: &str) -> (r: Option<usize>)
        ensures
            r == padding_at(self@, side@),
    {
        match self.get_size(side) {
            Some(n) => Some(n),
            None => self.padding(),
        }
    }

    pub fn padding_top(&self) -> (r: Option<usize>)
        ensures
            r == padding_at(self@, "padding-top"@),
    {
        self.padding_side("padding-top")
    }

    pub fn padding_right(&self) -> (r: Option<usize>)
        ensures
            r == padding_at(self@, "padding-right"@),
    {
        self.padding_side("padding-right")
    }

    pub fn padding_bottom(&self) -> (r: Option<usize>)
        ensures
            r == padding_at(self@, "padding-bottom"@),
    {
        self.padding_side("padding-bottom")
    }

    pub fn padding_left(&self) -> (r: Option<usize>)
        ensures
            r == padding_at(self@, "padding-left"@),
    {
        self.padding_side("padding-left")
    }

    /// The padding of all four sides, if anything is said of any of them:
    /// of each side what is said of it, else what is said of all, else
    /// nothing.
    pub fn padding_all(&self) -> (r: Option<Padding>)
        ensures
            r == padding_all_at(self@),
    {
        let left = self.padding_left();
        let right = self.padding_right();
        let top = self.padding_top();
        let bottom = self.padding_bottom();
        if left.is_none() && right.is_none() && top.is_none() && bottom.is_none() {
            return None;
        }
        Some(
            Padding {
                top: top.unwrap_or(0),
                right: right.unwrap_or(0),
                bottom: bottom.unwrap_or(0),
                left: left.unwrap_or(0),
            },
        )
    }

    pub fn reverse(&self) -> (r: bool)
        ensures
            r == unless_set(bool_at(self@, "reverse"@), false),
    {
        self.get_bool("reverse").unwrap_or(false)
    }

    pub fn trim_start(&self) -> (r: bool)
        ensures
            r == unless_set(bool_at(self@, "trim-start"@), true),
    {
        self.get_bool("trim-start").unwrap_or(true)
    }

    pub fn trim_end(&self) -> (r: bool)
        ensures
            r == unless_set(bool_at(self@, "trim-end"@), true),
    {
        self.get_bool("trim-end").unwrap_or(true)
    }

    pub fn collapse_spaces(&self) -> (r: bool)
        ensures
            r == unless_set(bool_at(self@, "collapse-spaces"@), true),
    {
        self.get_bool("collapse-spaces").unwrap_or(true)
    }

    pub fn auto_scroll(&self) -> (r: bool)
        ensures
            r == unless_set(bool_at(self@, "auto-scroll"@), false),
    {
        self.get_bool("auto-scroll").unwrap_or(false)
    }

    pub fn axis(&self) -> (r: Option<Axis>)
        ensures
            r == match value_of(self@, "axis"@) {
                Some(v) => as_axis(v),
                None => None,
            },
    {
        match self.get_attrib("axis") {
            Some(v) => v.to_axis(),
            None => None,
        }
    }

    pub fn direction(&self) -> (r: Option<Direction>)
        ensures
            r == match value_of(self@, "direction"@) {
                Some(v) => as_direction(v),
                None => None,
            },
    {
        match self.get_attrib("direction") {
            Some(v) => v.to_direction(),
            None => None,
        }
    }

    pub fn alignment(&self) -> (r: Option<Align>)
        ensures
            r == match value_of(self@, "align"@) {
                Some(v) => as_alignment(v),
                None => None,
            },
    {
        match self.get_attrib("align") {
            Some(v) => v.to_alignment(),
            None => None,
        }
    }

    /// How the widget is displayed: shown, unless the attribute says
    /// otherwise.
    pub fn display(&self) -> (r: Display)
        ensures
            r == match value_of(self@, "display"@) {
                Some(v) => match as_display(v) {
                    Some(d) => d,
                    None => Display::Show,
                },
                None => Display::Show,
            },
    {
        match self.get_attrib("display") {
            Some(v) => match v.to_display() {
                Some(d) => d,
                None => Display::Show,
            },
            None => Display::Show,
        }
    }

    pub fn background(&self) -> (r: Option<Color>)
        ensures
            r == or_else(color_at(self@, "background"@), color_at(self@, "bg"@)),
    {
        match self.get_color("background") {
            Some(c) => Some(c),
            None => self.get_color("bg"),
        }
    }

    pub fn foreground(&self) -> (r: Option<Color>)
        ensures
            r == or_else(color_at(self@, "foreground"@), color_at(self@, "fg"@)),
    {
        match self.get_color("foreground") {
            Some(c) => Some(c),
            None => self.get_color("fg"),
        }
    }
}

/// How a widget draws its characters.
#[derive(Debug, Copy, Clone, PartialEq, Eq, Structural)]
pub struct Style {
    pub fg: Option<Color>,
    pub bg: Option<Color>,
    pub bold: bool,
    pub italic: bool,
    pub dim: bool,
    pub underlined: bool,
    pub overlined: bool,
    pub inverse: bool,
    pub crossed_out: bool,
}

/// The style that the attributes give: the colors, and each switch that
/// is set to true.
pub open spec fn style_at(attributes: Seq<(Seq<char>, Option<Seen>)>) -> Style {
    Style {
        fg: or_else(color_at(attributes, "foreground"@), color_at(attributes, "fg"@)),
        bg: or_else(color_at(attributes, "background"@), color_at(attributes, "bg"@)),
        bold: unless_set(bool_at(attributes, "bold"@), false),
        italic: unless_set(bool_at(attributes, "italic"@), false),
        dim: unless_set(bool_at(attributes, "dim"@), false),
        underlined: unless_set(bool_at(attributes, "underlined"@), false),
        overlined: unless_set(bool_at(attributes, "overlined"@), false),
        inverse: unless_set(bool_at(attributes, "inverse"@), false),
        crossed_out: unless_set(bool_at(attributes, "crossed-out"@), false),
    }
}

impl Style {
    /// The style that changes nothing.
    pub fn new() -> (s: Self)
        ensures
            s == (Style {
                fg: None,
                bg: None,
                bold: false,
                italic: false,
                dim: false,
                underlined: false,
                overlined: false,
                inverse: false,
                crossed_out: false,
            }),
    {
        Style {
            fg: None,
            bg: None,
            bold: false,
            italic: false,
            dim: false,
            underlined: false,
            overlined: false,
            inverse: false,
            crossed_out: false,
        }
    }
}

impl<'a> ValuesAttributes<'a> {
    /// The style that the attributes give; see [`style_at`].
    pub fn style(&self) -> (r: Style)
        ensures
            r == style_at(self@),
    {
        let mut inst = Style::new();
        inst.fg = self.foreground();
        inst.bg = self.background();
        if self.get_bool("bold").unwrap_or(false) {
            inst.bold = true;
        }
        if self.get_bool("italic").unwrap_or(false) {
            inst.italic = true;
        }
        if self.get_bool("dim").unwrap_or(false) {
            inst.dim = true;
        }
        if self.get_bool("underlined").unwrap_or(false) {
            inst.underlined = true;
        }
        if self.get_bool("overlined").unwrap_or(false) {
            inst.overlined = true;
        }
        if self.get_bool("inverse").unwrap_or(false) {
            inst.inverse = true;
        }
        if self.get_bool("crossed-out").unwrap_or(false) {
            inst.crossed_out = true;
        }
        inst
    }
}

} // verus!
