//! Sizes, padding, alignment and the other small values of layout.
use vstd::prelude::*;

verus! {

/// Represents the padding of a widget.
/// Padding is not applicable to `text:` widgets.
#[derive(Debug, Copy, Clone, PartialEq, Eq, Hash, Structural)]
pub struct Padding {
    /// Top padding
    pub top: usize,
    /// Right padding
    pub right: usize,
    /// Bottom padding
    pub bottom: usize,
    /// Left padding
    pub left: usize,
}

/// The padding that a list of numbers writes, in the order top, right,
/// bottom, left: none is no padding, one is the padding of all sides, with
/// two the bottom is as the top and the left as the right, with three the
/// left is as the right. Numbers behind the fourth say nothing.
pub open spec fn padding_of(values: Seq<usize>) -> Padding {
    if values.len() == 0 {
        Padding { top: 0, right: 0, bottom: 0, left: 0 }
    } else if values.len() == 1 {
        Padding { top: values[0], right: values[0], bottom: values[0], left: values[0] }
    } else if values.len() == 2 {
        Padding { top: values[0], right: values[1], bottom: values[0], left: values[1] }
    } else if values.len() == 3 {
        Padding { top: values[0], right: values[1], bottom: values[2], left: values[1] }
    } else {
        Padding { top: values[0], right: values[1], bottom: values[2], left: values[3] }
    }
}

impl Padding {
    /// Zero padding
    pub fn zero() -> (p: Self)
        ensures
            p == (Padding { top: 0, right: 0, bottom: 0, left: 0 }),
    {
        Self::new(0)
    }

    /// Create a new instance padding
    pub fn new(padding: usize) -> (p: Self)
        ensures
            p == (Padding { top: padding, right: padding, bottom: padding, left: padding }),
    {
        Self { top: padding, right: padding, bottom: padding, left: padding }
    }

    /// The padding that a list of numbers writes; see [`padding_of`].
    pub fn from_iter(values: &Vec<usize>) -> (p: Self)
        ensures
            p == padding_of(values@),
    {
        if values.len() == 0 {
            return Self::new(0);
        }
        let mut padding = Self::new(values[0]);
        if values.len() == 1 {
            return padding;
        }
        padding.right = values[1];
        if values.len() == 2 {
            padding.bottom = padding.top;
            padding.left = padding.right;
            return padding;
        }
        padding.bottom = values[2];
        if values.len() == 3 {
            padding.left = padding.right;
            return padding;
        }
        padding.left = values[3];
        padding
    }

    /// Return the current padding and set the padding to zero
    pub fn take(&mut self) -> (p: Self)
        ensures
            p == *old(self),
            *final(self) == (Padding { top: 0, right: 0, bottom: 0, left: 0 }),
    {
        let padding = *self;
        *self = Self::new(0);
        padding
    }
}

/// Aligning a widget "inflates" the parent to its maximum constraints (even if the alignment is
/// [`Align::TopLeft`])
#[derive(Debug, Copy, Clone, PartialEq, Eq, Hash, Structural)]
pub enum Align {
    /// Top
    Top,
    /// Top right
    TopRight,
    /// Right (centre on the vertical axis)
    Right,
    /// Bottom right
    BottomRight,
    /// Bottom (centre on the horizontal axis)
    Bottom,
    /// Bottom left
    BottomLeft,
    /// Left (centre on the vertical axis)
    Left,
    /// Top left
    TopLeft,
    /// Centre
    Centre,
}

impl Align {
    /// The name of the alignment as templates write it.
    pub open spec fn name(self) -> Seq<char> {
        match self {
            Align::Top => "top"@,
            Align::TopRight => "top-right"@,
            Align::Right => "right"@,
            Align::BottomRight => "bottom-right"@,
            Align::Bottom => "bottom"@,
            Align::BottomLeft => "bottom-left"@,
            Align::Left => "left"@,
            Align::TopLeft => "top-left"@,
            Align::Centre => "centre"@,
        }
    }

    pub fn as_str(self) -> (s: &'static str)
        ensures
            s@ == self.name(),
    {
        match self {
            Align::Top => "top",
            Align::TopRight => "top-right",
            Align::Right => "right",
            Align::BottomRight => "bottom-right",
            Align::Bottom => "bottom",
            Align::BottomLeft => "bottom-left",
            Align::Left => "left",
            Align::TopLeft => "top-left",
            Align::Centre => "centre",
        }
    }
}

#[derive(Debug, Clone, Copy, PartialEq, Eq, Structural)]
pub enum HorzEdge {
    /// Position to the left
    Left(i32),
    /// Position to the right
    Right(i32),
}

#[derive(Debug, Clone, Copy, PartialEq, Eq, Structural)]
pub enum VertEdge {
    /// Position at the top
    Top(i32),
    /// Position at the bottom
    Bottom(i32),
}

/// Axis
#[derive(Debug, Copy, Clone, PartialEq, Eq, Hash, Structural)]
pub enum Axis {
    Horizontal,
    Vertical,
}

/// Direction
#[derive(Debug, Copy, Clone, PartialEq, Eq, Hash, Structural)]
pub enum Direction {
    Forward,
    Backward,
}

impl Direction {
    pub fn reverse(&self) -> (d: Self)
        ensures
            d != *self,
    {
        match self {
            Self::Forward => Self::Backward,
            Self::Backward => Self::Forward,
        }
    }
}

} // verus!
