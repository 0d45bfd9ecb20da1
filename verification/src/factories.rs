//! The stock widgets, made of the attributes that a template gave them.
use vstd::prelude::*;
use crate::attributes::{
    as_axis, as_direction, distance_at, size_at, str_at, value_of, ValuesAttributes,
};
use crate::layout::{Axis, Direction};
use crate::layouts::Constraints;
use crate::state::{Seen, ValueRef};
use crate::value::{Term, ValueExpr};
use crate::widget::Size;
use crate::widgets::{style_edges, Border, BorderStyle, HStack, Sides, VStack, Viewport, ZStack};

verus! {

/// The style of a border: thick where the attribute `border-style` is the
/// word `thick`, else thin.
pub open spec fn border_style_at(attributes: Seq<(Seq<char>, Option<Seen>)>) -> BorderStyle {
    if str_at(attributes, "border-style"@) == Some("thick"@) {
        BorderStyle::Thick
    } else {
        BorderStyle::Thin
    }
}

/// No side.
pub open spec fn no_sides() -> Sides {
    Sides { top: false, right: false, bottom: false, left: false }
}

/// `sides` with the side that `word` names; `sides` itself where the word
/// names none.
pub open spec fn with_side(sides: Sides, word: Seq<char>) -> Sides {
    if word == "top"@ {
        Sides { top: true, ..sides }
    } else if word == "right"@ {
        Sides { right: true, ..sides }
    } else if word == "bottom"@ {
        Sides { bottom: true, ..sides }
    } else if word == "left"@ {
        Sides { left: true, ..sides }
    } else {
        sides
    }
}

/// The sides that the first `n` of `items` name; an item that is no
/// string names none.
pub open spec fn sides_upto(items: Seq<Term>, n: int) -> Sides
    decreases n,
{
    if n <= 0 || n > items.len() {
        no_sides()
    } else {
        match items[n - 1] {
            Term::String(word) => with_side(sides_upto(items, n - 1), word),
            _ => sides_upto(items, n - 1),
        }
    }
}

/// The sides of a border: the side that the attribute `sides` names, or
/// the sides that it names as a list; all four where there is no such
/// attribute, or where it is neither a word nor a list.
pub open spec fn sides_at(attributes: Seq<(Seq<char>, Option<Seen>)>) -> Sides {
    match value_of(attributes, "sides"@) {
        Some(Seen::Str(word)) => with_side(no_sides(), word),
        Some(Seen::Expressions(items)) => sides_upto(items, items.len() as int),
        _ => Sides { top: true, right: true, bottom: true, left: true },
    }
}

fn add_side(sides: Sides, word: &String) -> (r: Sides)
    ensures
        r == with_side(sides, word@),
{
    let mut sides = sides;
    if *word == "top".to_owned() {
        sides.top = true;
    } else if *word == "right".to_owned() {
        sides.right = true;
    } else if *word == "bottom".to_owned() {
        sides.bottom = true;
    } else if *word == "left".to_owned() {
        sides.left = true;
    }
    sides
}

impl<'a> ValuesAttributes<'a> {
    /// The style of the border; see [`border_style_at`].
    pub fn border_style(&self) -> (r: BorderStyle)
        ensures
            r == border_style_at(self@),
    {
        match self.get_str("border-style") {
            Some(word) => if *word == "thick".to_owned() {
                BorderStyle::Thick
            } else {
                BorderStyle::Thin
            },
            None => BorderStyle::Thin,
        }
    }

    /// The sides of the border; see [`sides_at`].
    pub fn sides(&self) -> (r: Sides)
        ensures
            r == sides_at(self@),
    {
        match self.get_attrib("sides") {
            Some(ValueRef::Str(word)) => add_side(Sides::empty(), word),
            Some(ValueRef::Expressions(items)) => {
                let ghost terms = crate::value::terms_of(items@);
                let mut sides = Sides::empty();
                let mut i: usize = 0;
                while i < items.len()
                    invariant
                        i <= items.len(),
                        terms == crate::value::terms_of(items@),
                        sides == sides_upto(terms, i as int),
                    decreases items.len() - i,
                {
                    assert(terms[i as int] == items[i as int]@);
                    match &items[i] {
                        ValueExpr::String(word) => {
                            sides = add_side(sides, word);
                        },
                        _ => {},
                    }
                    i += 1;
                }
                sides
            },
            _ => Sides::all(),
        }
    }
}

/// Makes borders.
pub struct BorderFactory;

impl BorderFactory {
    /// The border that the attributes describe: its style, its sides, and
    /// the size that it asks for.
    pub fn make(values: &ValuesAttributes) -> (b: Border)
        ensures
            b.sides == sides_at(values@),
            b.edges@ == style_edges(border_style_at(values@)),
            b.width == size_at(values@, "width"@),
            b.height == size_at(values@, "height"@),
            b.min_width == size_at(values@, "min-width"@),
            b.min_height == size_at(values@, "min-height"@),
    {
        let border_style = values.border_style();
        let sides = values.sides();
        let width = values.width();
        let height = values.height();
        let mut widget = Border::new(&border_style, sides, width, height);
        widget.min_width = values.min_width();
        widget.min_height = values.min_height();
        widget
    }
}

/// Makes horizontal stacks.
pub struct HStackFactory;

impl HStackFactory {
    pub fn make(values: &ValuesAttributes) -> (s: HStack)
        ensures
            s.width == size_at(values@, "width"@),
            s.height == size_at(values@, "height"@),
            s.min_width == size_at(values@, "min-width"@),
            s.min_height == size_at(values@, "min-height"@),
    {
        let width = values.width();
        let height = values.height();
        let mut widget = HStack::new(width, height);
        widget.min_width = values.min_width();
        widget.min_height = values.min_height();
        widget
    }
}

/// Makes vertical stacks.
pub struct VStackFactory;

impl VStackFactory {
    pub fn make(values: &ValuesAttributes) -> (s: VStack)
        ensures
            s.width == size_at(values@, "width"@),
            s.height == size_at(values@, "height"@),
            s.min_width == size_at(values@, "min-width"@),
            s.min_height == size_at(values@, "min-height"@),
    {
        let width = values.width();
        let height = values.height();
        let mut widget = VStack::new(width, height);
        widget.min_width = values.min_width();
        widget.min_height = values.min_height();
        widget
    }
}

/// Makes stacks of widgets on top of each other.
pub struct ZStackFactory;

impl ZStackFactory {
    pub fn make(values: &ValuesAttributes) -> (s: ZStack)
        ensures
            s.width == size_at(values@, "width"@),
            s.height == size_at(values@, "height"@),
            s.min_width == size_at(values@, "min-width"@),
            s.min_height == size_at(values@, "min-height"@),
    {
        let width = values.width();
        let height = values.height();
        let mut widget = ZStack::new(width, height);
        widget.min_width = values.min_width();
        widget.min_height = values.min_height();
        widget
    }
}

/// The direction that the attributes give; forward where they give none.
pub open spec fn direction_at(attributes: Seq<(Seq<char>, Option<Seen>)>) -> Direction {
    match value_of(attributes, "direction"@) {
        Some(v) => match as_direction(v) {
            Some(d) => d,
            None => Direction::Forward,
        },
        None => Direction::Forward,
    }
}

/// The axis that the attributes give, if they give one.
pub open spec fn axis_at(attributes: Seq<(Seq<char>, Option<Seen>)>) -> Option<Axis> {
    match value_of(attributes, "axis"@) {
        Some(v) => as_axis(v),
        None => None,
    }
}

/// Makes viewports.
pub struct ViewportFactory;

impl ViewportFactory {
    /// The viewport that the attributes describe: forward and vertical
    /// unless they say otherwise, with the offset that they give.
    pub fn make(values: &ValuesAttributes) -> (v: Viewport)
        ensures
            v.direction == direction_at(values@),
            v.axis == match axis_at(values@) {
                Some(axis) => axis,
                None => Axis::Vertical,
            },
            v.offset == match distance_at(values@, "offset"@) {
                Some(offset) => offset,
                None => 0,
            },
            v.clamp_horizontal,
            v.clamp_vertical,
    {
        let direction = match values.direction() {
            Some(direction) => direction,
            None => Direction::Forward,
        };
        let axis = match values.axis() {
            Some(axis) => axis,
            None => Axis::Vertical,
        };
        let offset = values.offset();
        Viewport::new(direction, axis, offset)
    }
}

/// The `Expand` widget fills up all remaining space inside a widget, in
/// both directions or along its axis.
///
/// The total available space is divided between the `Expand` widgets and
/// multiplied by the widget's `factor`.
#[derive(Debug, PartialEq)]
pub struct Expand {
    /// The direction to expand in.
    pub axis: Option<Axis>,
    /// Fill the space by repeating the characters.
    pub fill: String,
    pub factor: usize,
}

/// The size of an expansion around a child of the size `child`: all the
/// room there is along the axis of the expansion, or in both directions
/// where it has no axis.
pub open spec fn expanded_size(axis: Option<Axis>, constraints: Constraints, child: Size) -> Size {
    match axis {
        Some(Axis::Horizontal) => Size { width: constraints.max_width, height: child.height },
        Some(Axis::Vertical) => Size { width: child.width, height: constraints.max_height },
        None => Size { width: constraints.max_width, height: constraints.max_height },
    }
}

impl Expand {
    /// Create a new instance of an `Expand` widget. Without a factor it
    /// has the factor one, and without a fill it fills with nothing.
    pub fn new(factor: Option<usize>, direction: Option<Axis>, fill: Option<String>) -> (e: Self)
        ensures
            e.factor == match factor {
                Some(f) => f,
                None => 1,
            },
            e.axis == direction,
            e.fill@ == match fill {
                Some(f) => f@,
                None => Seq::<char>::empty(),
            },
    {
        Self {
            factor: match factor {
                Some(f) => f,
                None => 1,
            },
            axis: direction,
            fill: match fill {
                Some(f) => f,
                None => String::new(),
            },
        }
    }

    /// The size of the expansion when its child, if it has one, has the
    /// size `child`; see [`expanded_size`].
    pub fn size(&self, constraints: Constraints, child: Option<Size>) -> (s: Size)
        ensures
            s == expanded_size(
                self.axis,
                constraints,
                match child {
                    Some(child) => child,
                    None => Size { width: 0, height: 0 },
                },
            ),
    {
        let mut size = match child {
            Some(child) => child,
            None => Size::zero(),
        };
        match self.axis {
            Some(Axis::Horizontal) => {
                size.width = constraints.max_width;
            },
            Some(Axis::Vertical) => {
                size.height = constraints.max_height;
            },
            None => {
                size.width = constraints.max_width;
                size.height = constraints.max_height;
            },
        }
        size
    }
}

/// Makes expansions.
pub struct ExpandFactory;

impl ExpandFactory {
    pub fn make(values: &ValuesAttributes) -> (e: Expand)
        ensures
            e.axis == axis_at(values@),
            e.factor == match size_at(values@, "factor"@) {
                Some(f) => f,
                None => 1,
            },
            e.fill@ == match str_at(values@, "fill"@) {
                Some(f) => f,
                None => Seq::<char>::empty(),
            },
    {
        let axis = values.axis();
        let factor = values.factor();
        let fill = match values.fill() {
            Some(s) => Some(s.clone()),
            None => None,
        };
        Expand::new(factor, axis, fill)
    }
}

} // verus!
