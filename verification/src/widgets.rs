//! The stock widgets, as far as their layout is arithmetic: stacks, the
//! viewport and the border.
use vstd::prelude::*;
use crate::layout::{Axis, Direction};
use crate::layouts::{along, clamp, greater, smaller, Constraints};
use crate::widget::{LocalPos, Pos, Size};

verus! {

/// The number of columns that a character takes on the screen; `None` of
/// a control character.
pub uninterp spec fn char_width(c: char) -> Option<usize>;

/// The width of a character, from `unicode_width::UnicodeWidthChar::width`.
/// It is a function of the character alone: a printable ASCII character is
/// one column wide, the control characters below `U+00A0` have no width,
/// and every other character has a width that a table gives, which fits in
/// a byte.
#[verifier::external_body]
fn width_of(c: char) -> (w: Option<usize>)
    ensures
        w == char_width(c),
        ' ' <= c < '\u{7f}' ==> w == Some(1usize),
        c < ' ' || '\u{7f}' <= c < '\u{a0}' ==> w is None,
        '\u{a0}' <= c ==> w is Some && w->Some_0 <= 255,
{
    unicode_width::UnicodeWidthChar::width(c)
}

/// The width of an edge of a border: that of its character, and nothing of
/// a character without a width.
pub open spec fn edge_width(c: char) -> usize {
    match char_width(c) {
        Some(w) => w,
        None => 0,
    }
}

/// The width of a character as an edge of a border; no more than 255.
pub fn edge(c: char) -> (w: usize)
    ensures
        w == edge_width(c),
        w <= 255,
{
    match width_of(c) {
        Some(w) => w,
        None => 0,
    }
}

/// The sides of a border.
#[derive(Debug, Copy, Clone, PartialEq, Eq, Structural)]
pub struct Sides {
    pub top: bool,
    pub right: bool,
    pub bottom: bool,
    pub left: bool,
}

impl Sides {
    pub fn all() -> (s: Self)
        ensures
            s == (Sides { top: true, right: true, bottom: true, left: true }),
    {
        Sides { top: true, right: true, bottom: true, left: true }
    }

    pub fn empty() -> (s: Self)
        ensures
            s == (Sides { top: false, right: false, bottom: false, left: false }),
    {
        Sides { top: false, right: false, bottom: false, left: false }
    }

    /// Whether every side of `other` is a side of this.
    pub fn contains(&self, other: Sides) -> (b: bool)
        ensures
            b == ((other.top ==> self.top) && (other.right ==> self.right) && (other.bottom
                ==> self.bottom) && (other.left ==> self.left)),
    {
        (!other.top || self.top) && (!other.right || self.right) && (!other.bottom || self.bottom)
            && (!other.left || self.left)
    }
}

#[derive(Debug, Copy, Clone, PartialEq, Eq, Structural)]
pub enum BorderStyle {
    Thin,
    Thick,
}

/// The places of the characters of a border in its list of edges, from the
/// top left on clockwise.
pub const BORDER_EDGE_TOP_LEFT: usize = 0;

pub const BORDER_EDGE_TOP: usize = 1;

pub const BORDER_EDGE_TOP_RIGHT: usize = 2;

pub const BORDER_EDGE_RIGHT: usize = 3;

pub const BORDER_EDGE_BOTTOM_RIGHT: usize = 4;

pub const BORDER_EDGE_BOTTOM: usize = 5;

pub const BORDER_EDGE_BOTTOM_LEFT: usize = 6;

pub const BORDER_EDGE_LEFT: usize = 7;

/// The characters of a style, from the top left on clockwise.
pub open spec fn style_edges(style: BorderStyle) -> Seq<char> {
    match style {
        BorderStyle::Thin => seq![
            '\u{250c}',
            '\u{2500}',
            '\u{2510}',
            '\u{2502}',
            '\u{2518}',
            '\u{2500}',
            '\u{2514}',
            '\u{2502}',
        ],
        BorderStyle::Thick => seq![
            '\u{2554}',
            '\u{2550}',
            '\u{2557}',
            '\u{2551}',
            '\u{255d}',
            '\u{2550}',
            '\u{255a}',
            '\u{2551}',
        ],
    }
}

impl BorderStyle {
    /// The characters of the style, from the top left on clockwise.
    pub fn edges(&self) -> (e: [char; 8])
        ensures
            e@ == style_edges(*self),
    {
        let e = match self {
            BorderStyle::Thin => [
                '\u{250c}',
                '\u{2500}',
                '\u{2510}',
                '\u{2502}',
                '\u{2518}',
                '\u{2500}',
                '\u{2514}',
                '\u{2502}',
            ],
            BorderStyle::Thick => [
                '\u{2554}',
                '\u{2550}',
                '\u{2557}',
                '\u{2551}',
                '\u{255d}',
                '\u{2550}',
                '\u{255a}',
                '\u{2551}',
            ],
        };
        assert(e@ =~= style_edges(*self));
        e
    }
}

/// Draw a border around an element.
///
/// The border will size it self around the child if it has one.
///
/// If a width and / or a height is provided then the border will produce tight constraints
/// for the child.
#[derive(Debug)]
pub struct Border {
    /// Which sides of the border should be rendered.
    pub sides: Sides,
    /// All the characters for the border, starting from the top left moving clockwise.
    pub edges: [char; 8],
    /// The width of the border. This will make the constraints tight for the width.
    pub width: Option<usize>,
    /// The height of the border. This will make the constraints tight for the height.
    pub height: Option<usize>,
    /// The minimum width of the border.
    pub min_width: Option<usize>,
    /// The minimum height of the border.
    pub min_height: Option<usize>,
}

/// How thick one vertical side of a border is: as wide as its edge, and
/// where the border has a top and a bottom too, no less wide than the two
/// corners of the side.
pub open spec fn side_width(
    present: bool,
    corners: bool,
    edge: char,
    upper: char,
    lower: char,
) -> usize {
    if !present {
        0
    } else if corners {
        greater(greater(edge_width(edge), edge_width(upper)), edge_width(lower))
    } else {
        edge_width(edge)
    }
}

/// How thick one horizontal side of a border is: one row, and where the
/// border has a left and a right side too, no less than the widths of the
/// two corners of the side.
pub open spec fn side_height(present: bool, corners: bool, first: char, second: char) -> usize {
    if !present {
        0
    } else if corners {
        greater(greater(1, edge_width(first)), edge_width(second))
    } else {
        1
    }
}

/// The space that the sides of a border take: the width of the left and
/// the right side, and the height of the top and the bottom.
pub open spec fn border_size_spec(sides: Sides, edges: Seq<char>) -> Size {
    Size {
        width: (side_width(
            sides.left,
            sides.top && sides.bottom,
            edges[BORDER_EDGE_LEFT as int],
            edges[BORDER_EDGE_TOP_LEFT as int],
            edges[BORDER_EDGE_BOTTOM_LEFT as int],
        ) + side_width(
            sides.right,
            sides.top && sides.bottom,
            edges[BORDER_EDGE_RIGHT as int],
            edges[BORDER_EDGE_TOP_RIGHT as int],
            edges[BORDER_EDGE_BOTTOM_RIGHT as int],
        )) as usize,
        height: (side_height(
            sides.top,
            sides.left && sides.right,
            edges[BORDER_EDGE_TOP_LEFT as int],
            edges[BORDER_EDGE_TOP_RIGHT as int],
        ) + side_height(
            sides.bottom,
            sides.left && sides.right,
            edges[BORDER_EDGE_BOTTOM_LEFT as int],
            edges[BORDER_EDGE_BOTTOM_RIGHT as int],
        )) as usize,
    }
}

/// The constraints of a widget with the size that it asks for taken in:
/// the least size is no less than the least asked for, and a width or a
/// height asked for makes the constraints tight.
pub open spec fn sized(
    constraints: Constraints,
    width: Option<usize>,
    height: Option<usize>,
    min_width: Option<usize>,
    min_height: Option<usize>,
) -> Constraints {
    let raised = Constraints {
        min_width: match min_width {
            Some(w) => greater(constraints.min_width, w),
            None => constraints.min_width,
        },
        min_height: match min_height {
            Some(h) => greater(constraints.min_height, h),
            None => constraints.min_height,
        },
        ..constraints
    };
    let wide = match width {
        Some(w) => Constraints {
            max_width: smaller(w, raised.max_width),
            min_width: smaller(w, raised.max_width),
            ..raised
        },
        None => raised,
    };
    match height {
        Some(h) => Constraints {
            max_height: smaller(h, wide.max_height),
            min_height: smaller(h, wide.max_height),
            ..wide
        },
        None => wide,
    }
}

/// The constraints of the child of a border: what is left inside the
/// sides. `None` if no column or no row is left.
pub open spec fn inside(constraints: Constraints, sides: Size) -> Option<Constraints> {
    if constraints.max_width <= sides.width || constraints.max_height <= sides.height {
        None
    } else {
        let max_width = (constraints.max_width - sides.width) as usize;
        let max_height = (constraints.max_height - sides.height) as usize;
        Some(
            Constraints {
                max_width,
                max_height,
                min_width: smaller(constraints.min_width, max_width),
                min_height: smaller(constraints.min_height, max_height),
            },
        )
    }
}

/// The size of a border around a child of the size `child`: the child, the
/// sides and the padding together, no less than the least size asked for,
/// exactly the greatest where the constraints are tight, and never more
/// than the greatest.
pub open spec fn around(
    constraints: Constraints,
    child: Size,
    sides: Size,
    padding: Size,
    min_width: Option<usize>,
    min_height: Option<usize>,
) -> Size {
    let width = clamp(child.width + sides.width + padding.width);
    let height = clamp(child.height + sides.height + padding.height);
    let width = match min_width {
        Some(w) => greater(width, w),
        None => width,
    };
    let height = match min_height {
        Some(h) => greater(height, h),
        None => height,
    };
    Size {
        width: if constraints.min_width == constraints.max_width {
            constraints.max_width
        } else {
            smaller(width, constraints.max_width)
        },
        height: if constraints.min_height == constraints.max_height {
            constraints.max_height
        } else {
            smaller(height, constraints.max_height)
        },
    }
}

/// The size of a border without a child: the least that the constraints
/// allow, and the greatest where they are tight.
pub open spec fn hollow(constraints: Constraints) -> Size {
    Size { width: constraints.min_width, height: constraints.min_height }
}

impl Border {
    /// Create a new instance of a border
    pub fn new(style: &BorderStyle, sides: Sides, width: Option<usize>, height: Option<usize>) -> (b:
        Self)
        ensures
            b.sides == sides,
            b.edges@ == style_edges(*style),
            b.width == width,
            b.height == height,
            b.min_width is None,
            b.min_height is None,
    {
        let edges = style.edges();
        Self { sides, edges, width, height, min_width: None, min_height: None }
    }

    /// Create a "thin" border with an optional width and height
    pub fn thin(width: Option<usize>, height: Option<usize>) -> (b: Self)
        ensures
            b.sides == (Sides { top: true, right: true, bottom: true, left: true }),
            b.edges@ == style_edges(BorderStyle::Thin),
            b.width == width,
            b.height == height,
    {
        Self::new(&BorderStyle::Thin, Sides::all(), width, height)
    }

    /// Create a "thick" border with an optional width and height
    pub fn thick(width: Option<usize>, height: Option<usize>) -> (b: Self)
        ensures
            b.sides == (Sides { top: true, right: true, bottom: true, left: true }),
            b.edges@ == style_edges(BorderStyle::Thick),
            b.width == width,
            b.height == height,
    {
        Self::new(&BorderStyle::Thick, Sides::all(), width, height)
    }

    /// The size of the border (thickness), not including the child.
    pub fn border_size(&self) -> (s: Size)
        ensures
            s == border_size_spec(self.sides, self.edges@),
    {
        let corners = self.sides.top && self.sides.bottom;
        let mut border_width: usize = 0;
        if self.sides.left {
            let mut width = edge(self.edges[BORDER_EDGE_LEFT]);
            if corners {
                let corner = edge(self.edges[BORDER_EDGE_TOP_LEFT]);
                if corner > width {
                    width = corner;
                }
                let corner = edge(self.edges[BORDER_EDGE_BOTTOM_LEFT]);
                if corner > width {
                    width = corner;
                }
            }
            border_width += width;
        }
        if self.sides.right {
            let mut width = edge(self.edges[BORDER_EDGE_RIGHT]);
            if corners {
                let corner = edge(self.edges[BORDER_EDGE_TOP_RIGHT]);
                if corner > width {
                    width = corner;
                }
                let corner = edge(self.edges[BORDER_EDGE_BOTTOM_RIGHT]);
                if corner > width {
                    width = corner;
                }
            }
            border_width += width;
        }
        // Set the height of the border it self (thickness)
        let corners = self.sides.left && self.sides.right;
        let mut border_height: usize = 0;
        if self.sides.top {
            let mut height: usize = 1;
            if corners {
                let corner = edge(self.edges[BORDER_EDGE_TOP_LEFT]);
                if corner > height {
                    height = corner;
                }
                let corner = edge(self.edges[BORDER_EDGE_TOP_RIGHT]);
                if corner > height {
                    height = corner;
                }
            }
            border_height += height;
        }
        if self.sides.bottom {
            let mut height: usize = 1;
            if corners {
                let corner = edge(self.edges[BORDER_EDGE_BOTTOM_LEFT]);
                if corner > height {
                    height = corner;
                }
                let corner = edge(self.edges[BORDER_EDGE_BOTTOM_RIGHT]);
                if corner > height {
                    height = corner;
                }
            }
            border_height += height;
        }
        Size::new(border_width, border_height)
    }

    /// The constraints of the border itself; see [`sized`].
    pub fn constrain(&self, constraints: Constraints) -> (c: Constraints)
        ensures
            c == sized(constraints, self.width, self.height, self.min_width, self.min_height),
    {
        constrain(constraints, self.width, self.height, self.min_width, self.min_height)
    }

    /// The constraints of the child; see [`inside`].
    pub fn child_constraints(&self, constraints: Constraints) -> (c: Option<Constraints>)
        ensures
            c == inside(constraints, border_size_spec(self.sides, self.edges@)),
    {
        let sides = self.border_size();
        if constraints.max_width <= sides.width || constraints.max_height <= sides.height {
            return None;
        }
        let max_width = constraints.max_width - sides.width;
        let max_height = constraints.max_height - sides.height;
        Some(
            Constraints {
                max_width,
                max_height,
                min_width: if constraints.min_width > max_width {
                    max_width
                } else {
                    constraints.min_width
                },
                min_height: if constraints.min_height > max_height {
                    max_height
                } else {
                    constraints.min_height
                },
            },
        )
    }

    /// The size of the border: around a child of the size `child` see
    /// [`around`], without a child see [`hollow`]. Nothing if there is a
    /// child and no room for it.
    pub fn size(&self, constraints: Constraints, child: Option<Size>, padding: Size) -> (s: Size)
        ensures
            s == match child {
                Some(child) => match inside(
                    constraints,
                    border_size_spec(self.sides, self.edges@),
                ) {
                    Some(_) => around(
                        constraints,
                        child,
                        border_size_spec(self.sides, self.edges@),
                        padding,
                        self.min_width,
                        self.min_height,
                    ),
                    None => Size { width: 0, height: 0 },
                },
                None => hollow(constraints),
            },
    {
        let child = match child {
            Some(child) => child,
            None => {
                return Size::new(constraints.min_width, constraints.min_height);
            },
        };
        let sides = self.border_size();
        if constraints.max_width <= sides.width || constraints.max_height <= sides.height {
            return Size::zero();
        }
        let mut width = child.width.saturating_add(sides.width).saturating_add(padding.width);
        let mut height = child.height.saturating_add(sides.height).saturating_add(padding.height);
        if let Some(min_width) = self.min_width {
            if min_width > width {
                width = min_width;
            }
        }
        if let Some(min_height) = self.min_height {
            if min_height > height {
                height = min_height;
            }
        }
        if constraints.is_width_tight() || width > constraints.max_width {
            width = constraints.max_width;
        }
        if constraints.is_height_tight() || height > constraints.max_height {
            height = constraints.max_height;
        }
        Size::new(width, height)
    }
}

/// A character at a place inside a widget.
#[derive(Debug, Copy, Clone, PartialEq, Eq, Structural)]
pub struct Glyph {
    pub c: char,
    pub pos: LocalPos,
}

/// The place of the last column or row of `extent` cells; the first where
/// there is none.
pub open spec fn last_cell(extent: usize) -> usize {
    if extent == 0 {
        0
    } else {
        (extent - 1) as usize
    }
}

/// What stands in a corner of a border. Where both sides that meet in the
/// corner are there, the corner itself; where only the horizontal one is,
/// that side goes on into the corner, and likewise the vertical one; where
/// neither is, nothing.
pub open spec fn corner_cell(
    horizontal: bool,
    vertical: bool,
    corner: char,
    along_horizontal: char,
    along_vertical: char,
    pos: LocalPos,
) -> Seq<Glyph> {
    if horizontal && vertical {
        seq![Glyph { c: corner, pos }]
    } else if horizontal {
        seq![Glyph { c: along_horizontal, pos }]
    } else if vertical {
        seq![Glyph { c: along_vertical, pos }]
    } else {
        Seq::empty()
    }
}

/// The cells of a horizontal side between the corners, from the left.
pub open spec fn row_cells(present: bool, c: char, y: usize, width: usize) -> Seq<Glyph> {
    if present && width > 2 {
        Seq::new((width - 2) as nat, |i: int| Glyph { c, pos: LocalPos { x: (i + 1) as usize, y } })
    } else {
        Seq::empty()
    }
}

/// The cells of a vertical side between the corners, from the top.
pub open spec fn column_cells(present: bool, c: char, x: usize, height: usize) -> Seq<Glyph> {
    if present && height > 2 {
        Seq::new(
            (height - 2) as nat,
            |i: int| Glyph { c, pos: LocalPos { x, y: (i + 1) as usize } },
        )
    } else {
        Seq::empty()
    }
}

/// The cells of a border of the size `size`, in the order in which they
/// are drawn: the four corners, from the top left, top right and bottom
/// left to the bottom right, then the top, the bottom, the left and the
/// right side. A cell drawn later lies over one drawn earlier at the same
/// place: in a border of one column the right corners lie over the left.
pub open spec fn border_cells(sides: Sides, edges: Seq<char>, size: Size) -> Seq<Glyph> {
    let right = last_cell(size.width);
    let bottom = last_cell(size.height);
    corner_cell(
        sides.top,
        sides.left,
        edges[BORDER_EDGE_TOP_LEFT as int],
        edges[BORDER_EDGE_TOP as int],
        edges[BORDER_EDGE_LEFT as int],
        LocalPos { x: 0, y: 0 },
    ) + corner_cell(
        sides.top,
        sides.right,
        edges[BORDER_EDGE_TOP_RIGHT as int],
        edges[BORDER_EDGE_TOP as int],
        edges[BORDER_EDGE_RIGHT as int],
        LocalPos { x: right, y: 0 },
    ) + corner_cell(
        sides.bottom,
        sides.left,
        edges[BORDER_EDGE_BOTTOM_LEFT as int],
        edges[BORDER_EDGE_BOTTOM as int],
        edges[BORDER_EDGE_LEFT as int],
        LocalPos { x: 0, y: bottom },
    ) + corner_cell(
        sides.bottom,
        sides.right,
        edges[BORDER_EDGE_BOTTOM_RIGHT as int],
        edges[BORDER_EDGE_BOTTOM as int],
        edges[BORDER_EDGE_RIGHT as int],
        LocalPos { x: right, y: bottom },
    ) + row_cells(sides.top, edges[BORDER_EDGE_TOP as int], 0, size.width) + row_cells(
        sides.bottom,
        edges[BORDER_EDGE_BOTTOM as int],
        bottom,
        size.width,
    ) + column_cells(sides.left, edges[BORDER_EDGE_LEFT as int], 0, size.height) + column_cells(
        sides.right,
        edges[BORDER_EDGE_RIGHT as int],
        right,
        size.height,
    )
}

/// Where the child of a border at `pos` stands: a row below where the
/// border has a top, and behind the left edge where it has a left side.
pub open spec fn inside_position(sides: Sides, edges: Seq<char>, pos: Pos) -> Pos {
    Pos {
        x: if sides.left {
            moved(pos.x, edge_width(edges[BORDER_EDGE_LEFT as int]) as int)
        } else {
            pos.x
        },
        y: if sides.top {
            moved(pos.y, 1)
        } else {
            pos.y
        },
    }
}

fn put_corner(
    out: &mut Vec<Glyph>,
    horizontal: bool,
    vertical: bool,
    corner: char,
    along_horizontal: char,
    along_vertical: char,
    pos: LocalPos,
)
    ensures
        final(out)@ == old(out)@ + corner_cell(
            horizontal,
            vertical,
            corner,
            along_horizontal,
            along_vertical,
            pos,
        ),
{
    if horizontal && vertical {
        out.push(Glyph { c: corner, pos });
    } else if horizontal {
        out.push(Glyph { c: along_horizontal, pos });
    } else if vertical {
        out.push(Glyph { c: along_vertical, pos });
    }
    assert(out@ =~= old(out)@ + corner_cell(
        horizontal,
        vertical,
        corner,
        along_horizontal,
        along_vertical,
        pos,
    ));
}

fn put_row(out: &mut Vec<Glyph>, present: bool, c: char, y: usize, width: usize)
    ensures
        final(out)@ == old(out)@ + row_cells(present, c, y, width),
{
    let ghost cells = row_cells(present, c, y, width);
    if !present || width <= 2 {
        assert(out@ =~= old(out)@ + cells);
        return ;
    }
    let mut i: usize = 1;
    while i < width - 1
        invariant
            present,
            width > 2,
            1 <= i <= width - 1,
            cells == row_cells(present, c, y, width),
            out@ == old(out)@ + cells.take(i - 1),
        decreases width - i,
    {
        out.push(Glyph { c, pos: LocalPos { x: i, y } });
        assert(out@ =~= old(out)@ + cells.take(i as int));
        i += 1;
    }
    assert(cells.take(width - 2) =~= cells);
}

fn put_column(out: &mut Vec<Glyph>, present: bool, c: char, x: usize, height: usize)
    ensures
        final(out)@ == old(out)@ + column_cells(present, c, x, height),
{
    let ghost cells = column_cells(present, c, x, height);
    if !present || height <= 2 {
        assert(out@ =~= old(out)@ + cells);
        return ;
    }
    let mut i: usize = 1;
    while i < height - 1
        invariant
            present,
            height > 2,
            1 <= i <= height - 1,
            cells == column_cells(present, c, x, height),
            out@ == old(out)@ + cells.take(i - 1),
        decreases height - i,
    {
        out.push(Glyph { c, pos: LocalPos { x, y: i } });
        assert(out@ =~= old(out)@ + cells.take(i as int));
        i += 1;
    }
    assert(cells.take(height - 2) =~= cells);
}

impl Border {
    /// Where the child of the border stands when the border stands at
    /// `pos`.
    pub fn position(&self, pos: Pos) -> (r: Pos)
        ensures
            r == inside_position(self.sides, self.edges@, pos),
    {
        let x = if self.sides.left {
            forward(pos.x, edge(self.edges[BORDER_EDGE_LEFT]))
        } else {
            pos.x
        };
        let y = if self.sides.top {
            forward(pos.y, 1)
        } else {
            pos.y
        };
        Pos::new(x, y)
    }

    /// The cells of the border when it has the size `size`, in the order
    /// in which they are drawn; see [`border_cells`].
    pub fn paint(&self, size: Size) -> (r: Vec<Glyph>)
        ensures
            r@ == border_cells(self.sides, self.edges@, size),
    {
        let right = size.width.saturating_sub(1);
        let bottom = size.height.saturating_sub(1);
        let sides = self.sides;
        let mut out: Vec<Glyph> = Vec::new();
        put_corner(
            &mut out,
            sides.top,
            sides.left,
            self.edges[BORDER_EDGE_TOP_LEFT],
            self.edges[BORDER_EDGE_TOP],
            self.edges[BORDER_EDGE_LEFT],
            LocalPos { x: 0, y: 0 },
        );
        put_corner(
            &mut out,
            sides.top,
            sides.right,
            self.edges[BORDER_EDGE_TOP_RIGHT],
            self.edges[BORDER_EDGE_TOP],
            self.edges[BORDER_EDGE_RIGHT],
            LocalPos { x: right, y: 0 },
        );
        put_corner(
            &mut out,
            sides.bottom,
            sides.left,
            self.edges[BORDER_EDGE_BOTTOM_LEFT],
            self.edges[BORDER_EDGE_BOTTOM],
            self.edges[BORDER_EDGE_LEFT],
            LocalPos { x: 0, y: bottom },
        );
        put_corner(
            &mut out,
            sides.bottom,
            sides.right,
            self.edges[BORDER_EDGE_BOTTOM_RIGHT],
            self.edges[BORDER_EDGE_BOTTOM],
            self.edges[BORDER_EDGE_RIGHT],
            LocalPos { x: right, y: bottom },
        );
        put_row(&mut out, sides.top, self.edges[BORDER_EDGE_TOP], 0, size.width);
        put_row(&mut out, sides.bottom, self.edges[BORDER_EDGE_BOTTOM], bottom, size.width);
        put_column(&mut out, sides.left, self.edges[BORDER_EDGE_LEFT], 0, size.height);
        put_column(&mut out, sides.right, self.edges[BORDER_EDGE_RIGHT], right, size.height);
        assert(out@ =~= border_cells(self.sides, self.edges@, size));
        out
    }
}

/// Takes the size that a widget asks for into its constraints; see
/// [`sized`].
pub fn constrain(
    constraints: Constraints,
    width: Option<usize>,
    height: Option<usize>,
    min_width: Option<usize>,
    min_height: Option<usize>,
) -> (c: Constraints)
    ensures
        c == sized(constraints, width, height, min_width, min_height),
{
    let mut constraints = constraints;
    if let Some(min_width) = min_width {
        if min_width > constraints.min_width {
            constraints.min_width = min_width;
        }
    }
    if let Some(min_height) = min_height {
        if min_height > constraints.min_height {
            constraints.min_height = min_height;
        }
    }
    if let Some(width) = width {
        constraints.make_width_tight(width);
    }
    if let Some(height) = height {
        constraints.make_height_tight(height);
    }
    constraints
}

/// The constraints of a stack along an axis with the size that it asks
/// for taken in: a width or a height asked for bounds the greatest size,
/// and the least size is no less than the least asked for.
pub open spec fn bounded(
    constraints: Constraints,
    width: Option<usize>,
    height: Option<usize>,
    min_width: Option<usize>,
    min_height: Option<usize>,
) -> Constraints {
    Constraints {
        max_width: match width {
            Some(w) => smaller(constraints.max_width, w),
            None => constraints.max_width,
        },
        max_height: match height {
            Some(h) => smaller(constraints.max_height, h),
            None => constraints.max_height,
        },
        min_width: match min_width {
            Some(w) => greater(constraints.min_width, w),
            None => constraints.min_width,
        },
        min_height: match min_height {
            Some(h) => greater(constraints.min_height, h),
            None => constraints.min_height,
        },
    }
}

fn bound(
    constraints: Constraints,
    width: Option<usize>,
    height: Option<usize>,
    min_width: Option<usize>,
    min_height: Option<usize>,
) -> (c: Constraints)
    ensures
        c == bounded(constraints, width, height, min_width, min_height),
{
    let mut constraints = constraints;
    if let Some(width) = width {
        if width < constraints.max_width {
            constraints.max_width = width;
        }
    }
    if let Some(height) = height {
        if height < constraints.max_height {
            constraints.max_height = height;
        }
    }
    if let Some(min_width) = min_width {
        if min_width > constraints.min_width {
            constraints.min_width = min_width;
        }
    }
    if let Some(min_height) = min_height {
        if min_height > constraints.min_height {
            constraints.min_height = min_height;
        }
    }
    constraints
}

/// A coordinate moved by `by` cells; at the ends of the numbers it stays
/// at the end.
pub open spec fn moved(from: i32, by: int) -> i32 {
    if from + by > i32::MAX {
        i32::MAX
    } else if from + by < i32::MIN {
        i32::MIN
    } else {
        (from + by) as i32
    }
}

pub(crate) fn forward(from: i32, by: usize) -> (r: i32)
    ensures
        r == moved(from, by as int),
{
    if by > 0xffff_ffff {
        return i32::MAX;
    }
    let sum: i64 = from as i64 + by as i64;
    if sum > i32::MAX as i64 {
        i32::MAX
    } else {
        sum as i32
    }
}

fn backward(from: i32, by: usize) -> (r: i32)
    ensures
        r == moved(from, -(by as int)),
{
    if by > 0xffff_ffff {
        return i32::MIN;
    }
    let sum: i64 = from as i64 - by as i64;
    if sum < i32::MIN as i64 {
        i32::MIN
    } else {
        sum as i32
    }
}

/// `pos` moved along `axis`.
pub open spec fn moved_along(pos: Pos, axis: Axis, by: int) -> Pos {
    match axis {
        Axis::Horizontal => Pos { x: moved(pos.x, by), y: pos.y },
        Axis::Vertical => Pos { x: pos.x, y: moved(pos.y, by) },
    }
}

fn step(pos: Pos, axis: Axis, direction: Direction, by: usize) -> (r: Pos)
    ensures
        r == moved_along(
            pos,
            axis,
            match direction {
                Direction::Forward => by as int,
                Direction::Backward => -(by as int),
            },
        ),
{
    match (axis, direction) {
        (Axis::Horizontal, Direction::Forward) => Pos::new(forward(pos.x, by), pos.y),
        (Axis::Horizontal, Direction::Backward) => Pos::new(backward(pos.x, by), pos.y),
        (Axis::Vertical, Direction::Forward) => Pos::new(pos.x, forward(pos.y, by)),
        (Axis::Vertical, Direction::Backward) => Pos::new(pos.x, backward(pos.y, by)),
    }
}

/// Where the child at `n` of a forward run stands: behind the children
/// before it.
pub open spec fn run_position(start: Pos, axis: Axis, sizes: Seq<Size>, n: int) -> Pos
    decreases n,
{
    if n <= 0 || n > sizes.len() {
        start
    } else {
        moved_along(
            run_position(start, axis, sizes, n - 1),
            axis,
            along(sizes[n - 1], axis) as int,
        )
    }
}

/// Where the child at `n` of a backward run stands: before the children
/// before it, by its own length.
pub open spec fn back_position(start: Pos, axis: Axis, sizes: Seq<Size>, n: int) -> Pos
    decreases n,
{
    if n < 0 || n >= sizes.len() {
        start
    } else {
        moved_along(
            if n == 0 {
                start
            } else {
                back_position(start, axis, sizes, n - 1)
            },
            axis,
            -(along(sizes[n], axis) as int),
        )
    }
}

/// The places of the children of a run along `axis` that starts at
/// `start`, each behind the one before it.
pub fn positions(start: Pos, axis: Axis, sizes: &Vec<Size>) -> (r: Vec<Pos>)
    ensures
        r.len() == sizes.len(),
        forall|k: int| 0 <= k < r.len() ==> #[trigger] r[k] == run_position(start, axis, sizes@, k),
{
    let mut out: Vec<Pos> = Vec::new();
    let mut pos = start;
    let mut k: usize = 0;
    while k < sizes.len()
        invariant
            k <= sizes.len(),
            out.len() == k,
            pos == run_position(start, axis, sizes@, k as int),
            forall|j: int| 0 <= j < k ==> #[trigger] out[j] == run_position(start, axis, sizes@, j),
        decreases sizes.len() - k,
    {
        out.push(pos);
        let extent = match axis {
            Axis::Horizontal => sizes[k].width,
            Axis::Vertical => sizes[k].height,
        };
        pos = step(pos, axis, Direction::Forward, extent);
        k += 1;
    }
    out
}

/// A widget that lays out its children horizontally.
#[derive(Debug, PartialEq)]
pub struct HStack {
    /// If a width is provided then the layout constraints will be tight for width
    pub width: Option<usize>,
    /// If a height is provided then the layout constraints will be tight for height
    pub height: Option<usize>,
    /// The minimum width. This will force the minimum constrained width to expand to
    /// this value.
    pub min_width: Option<usize>,
    /// The minimum height. This will force the minimum constrained height to expand to
    /// this value.
    pub min_height: Option<usize>,
}

impl HStack {
    /// Create a new instance of an `HStack`.
    pub fn new(width: Option<usize>, height: Option<usize>) -> (s: Self)
        ensures
            s.width == width,
            s.height == height,
            s.min_width is None,
            s.min_height is None,
    {
        Self { width, height, min_width: None, min_height: None }
    }

    /// The constraints that the children are laid out in; see [`bounded`].
    pub fn constrain(&self, constraints: Constraints) -> (c: Constraints)
        ensures
            c == bounded(constraints, self.width, self.height, self.min_width, self.min_height),
    {
        bound(constraints, self.width, self.height, self.min_width, self.min_height)
    }

    /// The places of the children: side by side from `pos` on.
    pub fn position(&self, pos: Pos, sizes: &Vec<Size>) -> (r: Vec<Pos>)
        ensures
            r.len() == sizes.len(),
            forall|k: int|
                0 <= k < r.len() ==> #[trigger] r[k] == run_position(
                    pos,
                    Axis::Horizontal,
                    sizes@,
                    k,
                ),
    {
        positions(pos, Axis::Horizontal, sizes)
    }
}

/// A widget that lays out its children vertically.
#[derive(Debug, PartialEq)]
pub struct VStack {
    /// If a width is provided then the layout constraints will be tight for width
    pub width: Option<usize>,
    /// If a height is provided then the layout constraints will be tight for height
    pub height: Option<usize>,
    /// The minimum width. This will force the minimum constrained width to expand to
    /// this value.
    pub min_width: Option<usize>,
    /// The minimum height. This will force the minimum constrained height to expand to
    /// this value.
    pub min_height: Option<usize>,
}

impl VStack {
    /// Creates a new instance of a `VStack`
    pub fn new(width: Option<usize>, height: Option<usize>) -> (s: Self)
        ensures
            s.width == width,
            s.height == height,
            s.min_width is None,
            s.min_height is None,
    {
        Self { width, height, min_width: None, min_height: None }
    }

    /// The constraints that the children are laid out in; see [`bounded`].
    pub fn constrain(&self, constraints: Constraints) -> (c: Constraints)
        ensures
            c == bounded(constraints, self.width, self.height, self.min_width, self.min_height),
    {
        bound(constraints, self.width, self.height, self.min_width, self.min_height)
    }

    /// The places of the children: one below the other from `pos` on.
    pub fn position(&self, pos: Pos, sizes: &Vec<Size>) -> (r: Vec<Pos>)
        ensures
            r.len() == sizes.len(),
            forall|k: int|
                0 <= k < r.len() ==> #[trigger] r[k] == run_position(
                    pos,
                    Axis::Vertical,
                    sizes@,
                    k,
                ),
    {
        positions(pos, Axis::Vertical, sizes)
    }
}

/// Unlike the [`HStack`] or the [`VStack`] the [`ZStack`] draws the
/// children on top of each other.
#[derive(Debug, PartialEq)]
pub struct ZStack {
    /// Width
    pub width: Option<usize>,
    /// Height
    pub height: Option<usize>,
    /// The minimum width. This will force the minimum constrained width to expand to
    /// this value.
    pub min_width: Option<usize>,
    /// The minimum height. This will force the minimum constrained height to expand to
    /// this value.
    pub min_height: Option<usize>,
}

impl ZStack {
    /// Create a new instance of a `ZStack`
    pub fn new(width: Option<usize>, height: Option<usize>) -> (s: Self)
        ensures
            s.width == width,
            s.height == height,
            s.min_width is None,
            s.min_height is None,
    {
        Self { width, height, min_width: None, min_height: None }
    }

    /// The constraints that the children are laid out in; see [`sized`].
    pub fn constrain(&self, constraints: Constraints) -> (c: Constraints)
        ensures
            c == sized(constraints, self.width, self.height, self.min_width, self.min_height),
    {
        constrain(constraints, self.width, self.height, self.min_width, self.min_height)
    }

    /// The places of the children: all of them at `pos`.
    pub fn position(&self, pos: Pos, count: usize) -> (r: Vec<Pos>)
        ensures
            r.len() == count,
            forall|k: int| 0 <= k < r.len() ==> #[trigger] r[k] == pos,
    {
        let mut out: Vec<Pos> = Vec::new();
        let mut k: usize = 0;
        while k < count
            invariant
                k <= count,
                out.len() == k,
                forall|j: int| 0 <= j < k ==> #[trigger] out[j] == pos,
            decreases count - k,
        {
            out.push(pos);
            k += 1;
        }
        out
    }
}

/// A viewport where the children can be rendered with an offset.
#[derive(Debug, PartialEq)]
pub struct Viewport {
    /// Line / cell offset
    pub offset: i32,
    /// Clamp the vertical space, meaning the edge of the content can not surpass the edge of the
    /// visible space.
    pub clamp_vertical: bool,
    /// Clamp the horizontal space, meaning the edge of the content can not surpass the edge of the
    /// visible space.
    pub clamp_horizontal: bool,
    /// Layout direction.
    /// `Direction::Forward` is the default, and keeps the scroll position on the first child.
    /// `Direction::Backward` keeps the scroll position on the last child.
    pub direction: Direction,
    /// Vertical or horizontal
    pub axis: Axis,
}

/// Where the children of a viewport start: a forward viewport at the
/// place of the viewport, moved back by the offset; a backward one at the
/// far end of the viewport, moved on by the offset.
pub open spec fn viewport_start(
    direction: Direction,
    axis: Axis,
    offset: i32,
    pos: Pos,
    inner_size: Size,
) -> Pos {
    match direction {
        Direction::Forward => moved_along(pos, axis, -(offset as int)),
        Direction::Backward => moved_along(
            moved_along(pos, axis, along(inner_size, axis) as int),
            axis,
            offset as int,
        ),
    }
}

impl Viewport {
    /// Create a new instance of a [`Viewport`]
    pub fn new(direction: Direction, axis: Axis, offset: Option<i32>) -> (v: Self)
        ensures
            v.offset == match offset {
                Some(o) => o,
                None => 0,
            },
            v.clamp_horizontal,
            v.clamp_vertical,
            v.direction == direction,
            v.axis == axis,
    {
        Self {
            offset: match offset {
                Some(o) => o,
                None => 0,
            },
            clamp_horizontal: true,
            clamp_vertical: true,
            direction,
            axis,
        }
    }

    /// The places of the children. In a forward viewport each child stands
    /// behind the one before it; in a backward one each child stands
    /// before the one before it.
    pub fn position(&self, pos: Pos, inner_size: Size, sizes: &Vec<Size>) -> (r: Vec<Pos>)
        ensures
            r.len() == sizes.len(),
            forall|k: int|
                0 <= k < r.len() ==> #[trigger] r[k] == match self.direction {
                    Direction::Forward => run_position(
                        viewport_start(self.direction, self.axis, self.offset, pos, inner_size),
                        self.axis,
                        sizes@,
                        k,
                    ),
                    Direction::Backward => back_position(
                        viewport_start(self.direction, self.axis, self.offset, pos, inner_size),
                        self.axis,
                        sizes@,
                        k,
                    ),
                },
    {
        let mut pos = pos;
        if let Direction::Backward = self.direction {
            let extent = match self.axis {
                Axis::Horizontal => inner_size.width,
                Axis::Vertical => inner_size.height,
            };
            pos = step(pos, self.axis, Direction::Forward, extent);
        }
        let offset = self.offset;
        pos = match self.direction {
            Direction::Forward => if offset >= 0 {
                step(pos, self.axis, Direction::Backward, offset as usize)
            } else {
                step(pos, self.axis, Direction::Forward, (-(offset as i64)) as usize)
            },
            Direction::Backward => if offset >= 0 {
                step(pos, self.axis, Direction::Forward, offset as usize)
            } else {
                step(pos, self.axis, Direction::Backward, (-(offset as i64)) as usize)
            },
        };
        let ghost start = pos;
        match self.direction {
            Direction::Forward => positions(pos, self.axis, sizes),
            Direction::Backward => {
                let mut out: Vec<Pos> = Vec::new();
                let mut k: usize = 0;
                while k < sizes.len()
                    invariant
                        k <= sizes.len(),
                        out.len() == k,
                        self.direction == Direction::Backward,
                        pos == if k == 0 {
                            start
                        } else {
                            back_position(start, self.axis, sizes@, k - 1)
                        },
                        forall|j: int|
                            0 <= j < k ==> #[trigger] out[j] == back_position(
                                start,
                                self.axis,
                                sizes@,
                                j,
                            ),
                    decreases sizes.len() - k,
                {
                    let extent = match self.axis {
                        Axis::Horizontal => sizes[k].width,
                        Axis::Vertical => sizes[k].height,
                    };
                    pos = step(pos, self.axis, Direction::Backward, extent);
                    out.push(pos);
                    k += 1;
                }
                out
            },
        }
    }
}

} // verus!
