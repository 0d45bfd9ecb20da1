//! The arithmetic of layout: constraints, and how the sizes of children
//! add up along an axis.
use vstd::prelude::*;
use crate::error::Error;
use crate::layout::{Axis, Direction};
use crate::widget::Size;

verus! {

/// The least and the greatest size that a widget may take.
#[derive(Debug, Copy, Clone, PartialEq, Eq, Structural)]
pub struct Constraints {
    pub min_width: usize,
    pub min_height: usize,
    pub max_width: usize,
    pub max_height: usize,
}

pub open spec fn smaller(a: usize, b: usize) -> usize {
    if a <= b {
        a
    } else {
        b
    }
}

pub open spec fn greater(a: usize, b: usize) -> usize {
    if a >= b {
        a
    } else {
        b
    }
}

impl Constraints {
    /// Constraints with no least size.
    pub fn new(max_width: usize, max_height: usize) -> (c: Self)
        ensures
            c == (Constraints { min_width: 0, min_height: 0, max_width, max_height }),
    {
        Self { min_width: 0, min_height: 0, max_width, max_height }
    }

    /// Lets the height grow without bound.
    pub fn unbound_height(&mut self)
        ensures
            *final(self) == (Constraints { max_height: usize::MAX, ..*old(self) }),
    {
        self.max_height = usize::MAX;
    }

    /// Lets the width grow without bound.
    pub fn unbound_width(&mut self)
        ensures
            *final(self) == (Constraints { max_width: usize::MAX, ..*old(self) }),
    {
        self.max_width = usize::MAX;
    }

    pub fn is_width_tight(&self) -> (b: bool)
        ensures
            b == (self.min_width == self.max_width),
    {
        self.min_width == self.max_width
    }

    pub fn is_height_tight(&self) -> (b: bool)
        ensures
            b == (self.min_height == self.max_height),
    {
        self.min_height == self.max_height
    }

    /// Makes the width exactly `width`, or the greatest width where that is
    /// smaller.
    pub fn make_width_tight(&mut self, width: usize)
        ensures
            final(self).max_width == smaller(width, old(self).max_width),
            final(self).min_width == final(self).max_width,
            final(self).min_height == old(self).min_height,
            final(self).max_height == old(self).max_height,
    {
        if width < self.max_width {
            self.max_width = width;
        }
        self.min_width = self.max_width;
    }

    /// Makes the height exactly `height`, or the greatest height where that
    /// is smaller.
    pub fn make_height_tight(&mut self, height: usize)
        ensures
            final(self).max_height == smaller(height, old(self).max_height),
            final(self).min_height == final(self).max_height,
            final(self).min_width == old(self).min_width,
            final(self).max_width == old(self).max_width,
    {
        if height < self.max_height {
            self.max_height = height;
        }
        self.min_height = self.max_height;
    }
}

/// The space that was used along an axis, within the space that there is.
#[derive(Debug, Copy, Clone, PartialEq, Eq, Structural)]
pub struct SizeMod {
    pub inner: Size,
    pub max_size: Size,
    pub axis: Axis,
}

/// The used space with one more size: along the axis the sizes add up, as
/// far as there is space; across it the greatest counts.
pub open spec fn applied(used: SizeMod, size: Size) -> SizeMod {
    match used.axis {
        Axis::Vertical => SizeMod {
            inner: Size {
                width: greater(used.inner.width, size.width),
                height: if used.inner.height + size.height <= used.max_size.height {
                    (used.inner.height + size.height) as usize
                } else {
                    used.max_size.height
                },
            },
            ..used
        },
        Axis::Horizontal => SizeMod {
            inner: Size {
                height: greater(used.inner.height, size.height),
                width: if used.inner.width + size.width <= used.max_size.width {
                    (used.inner.width + size.width) as usize
                } else {
                    used.max_size.width
                },
            },
            ..used
        },
    }
}

/// Whether the space along the axis is used up.
pub open spec fn is_full(used: SizeMod) -> bool {
    match used.axis {
        Axis::Horizontal => used.inner.width >= used.max_size.width,
        Axis::Vertical => used.inner.height >= used.max_size.height,
    }
}

/// The space that is left: along the axis what was not used, across it all
/// there is.
pub open spec fn left_over(used: SizeMod) -> Constraints {
    match used.axis {
        Axis::Horizontal => Constraints {
            min_width: 0,
            min_height: 0,
            max_width: if used.inner.width <= used.max_size.width {
                (used.max_size.width - used.inner.width) as usize
            } else {
                0
            },
            max_height: used.max_size.height,
        },
        Axis::Vertical => Constraints {
            min_width: 0,
            min_height: 0,
            max_width: used.max_size.width,
            max_height: if used.inner.height <= used.max_size.height {
                (used.max_size.height - used.inner.height) as usize
            } else {
                0
            },
        },
    }
}

impl SizeMod {
    pub fn new(max_size: Size, axis: Axis) -> (s: Self)
        ensures
            s == (SizeMod { inner: Size { width: 0, height: 0 }, max_size, axis }),
    {
        Self { inner: Size::zero(), max_size, axis }
    }

    pub fn apply(&mut self, size: Size)
        ensures
            *final(self) == applied(*old(self), size),
    {
        match self.axis {
            Axis::Vertical => {
                if size.width > self.inner.width {
                    self.inner.width = size.width;
                }
                let sum = self.inner.height.saturating_add(size.height);
                self.inner.height = if sum < self.max_size.height {
                    sum
                } else {
                    self.max_size.height
                };
            },
            Axis::Horizontal => {
                if size.height > self.inner.height {
                    self.inner.height = size.height;
                }
                let sum = self.inner.width.saturating_add(size.width);
                self.inner.width = if sum < self.max_size.width {
                    sum
                } else {
                    self.max_size.width
                };
            },
        }
    }

    pub fn no_space_left(&self) -> (b: bool)
        ensures
            b == is_full(*self),
    {
        match self.axis {
            Axis::Horizontal => self.inner.width >= self.max_size.width,
            Axis::Vertical => self.inner.height >= self.max_size.height,
        }
    }

    pub fn to_constraints(&self) -> (c: Constraints)
        ensures
            c == left_over(*self),
    {
        match self.axis {
            Axis::Horizontal => Constraints::new(
                self.max_size.width.saturating_sub(self.inner.width),
                self.max_size.height,
            ),
            Axis::Vertical => Constraints::new(
                self.max_size.width,
                self.max_size.height.saturating_sub(self.inner.height),
            ),
        }
    }
}

/// How much is still to be skipped at the start of a viewport.
#[derive(Debug, Copy, Clone, PartialEq, Eq, Structural)]
pub struct Offset {
    pub axis: Axis,
    pub inner: i32,
    pub enabled: bool,
}

/// The extent of a size along an axis.
pub open spec fn along(size: Size, axis: Axis) -> usize {
    match axis {
        Axis::Horizontal => size.width,
        Axis::Vertical => size.height,
    }
}

/// `size` with the extent `extent` along `axis`.
pub open spec fn with_extent(size: Size, axis: Axis, extent: usize) -> Size {
    match axis {
        Axis::Horizontal => Size { width: extent, height: size.height },
        Axis::Vertical => Size { width: size.width, height: extent },
    }
}

/// A number as a `usize` holds it: itself, or the nearest that fits.
pub open spec fn clamp(n: int) -> usize {
    if n < 0 {
        0
    } else if n > usize::MAX {
        usize::MAX
    } else {
        n as usize
    }
}

/// What skipping leaves of the offset and of the size of a child, and
/// whether the child is skipped. While skipping is on, a child that is no
/// longer than what is left to skip is skipped whole and takes its length
/// off the offset; the first child that is longer ends the skipping and
/// loses what was left to skip. After that nothing changes.
pub open spec fn skipped(offset: Offset, size: Size) -> (Offset, Size, bool) {
    if !offset.enabled {
        (offset, size, false)
    } else if offset.inner >= along(size, offset.axis) {
        (
            Offset {
                inner: (offset.inner - along(size, offset.axis)) as i32,
                ..offset
            },
            size,
            true,
        )
    } else {
        (
            Offset { enabled: false, ..offset },
            with_extent(size, offset.axis, clamp(along(size, offset.axis) - offset.inner)),
            false,
        )
    }
}

impl Offset {
    pub fn skip(&mut self, size: &mut Size) -> (r: bool)
        ensures
            (*final(self), *final(size), r) == skipped(*old(self), *old(size)),
    {
        if !self.enabled {
            return false;
        }
        let extent = match self.axis {
            Axis::Horizontal => size.width,
            Axis::Vertical => size.height,
        };
        if self.inner >= 0 && extent <= self.inner as usize {
            self.inner = self.inner - extent as i32;
            return true;
        }
        self.enabled = false;
        let left = if self.inner >= 0 {
            extent - self.inner as usize
        } else {
            let back = if self.inner == i32::MIN {
                0x8000_0000usize
            } else {
                (-self.inner) as usize
            };
            extent.saturating_add(back)
        };
        match self.axis {
            Axis::Horizontal => {
                size.width = left;
            },
            Axis::Vertical => {
                size.height = left;
            },
        }
        false
    }
}

/// A child as a layout along an axis sees it: the size that it takes of its
/// own, and whether it is a spacer or an expansion, which take of the space
/// that is left.
#[derive(Debug, Copy, Clone, PartialEq, Eq, Structural)]
pub struct Child {
    pub size: Size,
    pub flexible: bool,
}

/// How far a layout along an axis has come.
pub struct Progress {
    pub used: SizeMod,
    pub offset: Offset,
    /// The size that each child was given; nothing for a child that was
    /// skipped and for one that takes of what is left.
    pub sizes: Seq<Size>,
    /// Whether the space ran out.
    pub full: bool,
}

/// Lays out one more child: a flexible child takes nothing; else the
/// offset is taken off, and a child that is not skipped adds to the used
/// space. The child that uses up the space is the last that is laid out.
pub open spec fn place(progress: Progress, child: Child) -> Progress {
    if progress.full {
        progress
    } else if child.flexible {
        Progress { sizes: progress.sizes.push(Size { width: 0, height: 0 }), ..progress }
    } else {
        let (offset, size, skip) = skipped(progress.offset, child.size);
        if skip {
            Progress {
                offset,
                sizes: progress.sizes.push(Size { width: 0, height: 0 }),
                ..progress
            }
        } else {
            Progress {
                used: applied(progress.used, size),
                offset,
                sizes: progress.sizes.push(size),
                full: is_full(applied(progress.used, size)),
            }
        }
    }
}

/// The first `n` children laid out one after the other.
pub open spec fn placed(start: Progress, children: Seq<Child>, n: int) -> Progress
    decreases n,
{
    if n <= 0 || n > children.len() {
        start
    } else {
        place(placed(start, children, n - 1), children[n - 1])
    }
}

/// The size of the whole: the used space, and along the axis no less than
/// the least that the constraints ask for.
pub open spec fn total(used: SizeMod, constraints: Constraints) -> Size {
    match used.axis {
        Axis::Vertical => Size {
            width: used.inner.width,
            height: greater(used.inner.height, constraints.min_height),
        },
        Axis::Horizontal => Size {
            height: used.inner.height,
            width: greater(used.inner.width, constraints.min_width),
        },
    }
}

/// A layout of many children, one behind the other along an axis.
#[derive(Debug)]
pub struct Many {
    pub direction: Direction,
    pub axis: Axis,
    pub offset: Offset,
    pub unconstrained: bool,
}

impl Many {
    /// What is left to skip.
    pub open spec fn skip(&self) -> Offset {
        self.offset
    }

    /// Whether the children may grow without bound along the axis.
    pub open spec fn unbound(&self) -> bool {
        self.unconstrained
    }

    pub fn new(direction: Direction, axis: Axis, offset: i32, unconstrained: bool) -> (m: Self)
        ensures
            m.direction == direction,
            m.axis == axis,
            m.skip() == (Offset { axis, inner: offset, enabled: true }),
            m.unbound() == unconstrained,
    {
        Self {
            direction,
            axis,
            offset: Offset { axis, inner: offset, enabled: true },
            unconstrained,
        }
    }

    pub fn offset(&self) -> (o: i32)
        ensures
            o == self.skip().inner,
    {
        self.offset.inner
    }

    /// The constraints that each child is laid out under: those of the
    /// whole, without a bound along the axis if the layout has none.
    pub fn child_constraints(&self, constraints: Constraints) -> (c: Constraints)
        ensures
            c == if self.unbound() {
                match self.axis {
                    Axis::Vertical => Constraints { max_height: usize::MAX, ..constraints },
                    Axis::Horizontal => Constraints { max_width: usize::MAX, ..constraints },
                }
            } else {
                constraints
            },
    {
        let mut constraints = constraints;
        if self.unconstrained {
            match self.axis {
                Axis::Vertical => constraints.unbound_height(),
                Axis::Horizontal => constraints.unbound_width(),
            }
        }
        constraints
    }

    /// Lays out the children, given the size that each takes under
    /// [`Many::child_constraints`]: one behind the other, until the space
    /// is used up. Returns the used space and the size that each child was
    /// given; children behind the one that used up the space are given
    /// none.
    pub fn layout(&mut self, constraints: Constraints, children: &Vec<Child>) -> (r: (
        SizeMod,
        Vec<Size>,
    ))
        ensures
            final(self).direction == old(self).direction,
            final(self).axis == old(self).axis,
            final(self).unbound() == old(self).unbound(),
            ({
                let end = placed(
                    Progress {
                        used: SizeMod {
                            inner: Size { width: 0, height: 0 },
                            max_size: Size {
                                width: constraints.max_width,
                                height: constraints.max_height,
                            },
                            axis: old(self).axis,
                        },
                        offset: old(self).skip(),
                        sizes: Seq::empty(),
                        full: false,
                    },
                    children@,
                    children.len() as int,
                );
                &&& r.0 == end.used
                &&& r.1@ == end.sizes
                &&& final(self).skip() == end.offset
            }),
    {
        let mut used_size = SizeMod::new(
            Size::new(constraints.max_width, constraints.max_height),
            self.axis,
        );
        let ghost start = Progress {
            used: used_size,
            offset: self.offset,
            sizes: Seq::empty(),
            full: false,
        };
        let mut sizes: Vec<Size> = Vec::new();
        let mut full = false;
        let mut i: usize = 0;
        while i < children.len()
            invariant
                i <= children.len(),
                self.direction == old(self).direction,
                self.axis == old(self).axis,
                self.unconstrained == old(self).unconstrained,
                placed(start, children@, i as int) == (Progress {
                    used: used_size,
                    offset: self.offset,
                    sizes: sizes@,
                    full,
                }),
            decreases children.len() - i,
        {
            let child = children[i];
            if full {
            } else if child.flexible {
                sizes.push(Size::zero());
            } else {
                let mut widget_size = child.size;
                if self.offset.skip(&mut widget_size) {
                    sizes.push(Size::zero());
                } else {
                    used_size.apply(widget_size);
                    sizes.push(widget_size);
                    full = used_size.no_space_left();
                }
            }
            i += 1;
        }
        (used_size, sizes)
    }

    /// The size of the whole after [`Many::layout`], once the flexible
    /// children were given `expanded` and `spacers` of the space that was
    /// left: a layout without a bound leaves them nothing.
    pub fn finish(
        &self,
        used: SizeMod,
        constraints: Constraints,
        expanded: Size,
        spacers: Size,
    ) -> (size: Size)
        ensures
            size == if self.unbound() {
                total(used, constraints)
            } else {
                total(applied(applied(used, expanded), spacers), constraints)
            },
    {
        let mut used = used;
        if !self.unconstrained {
            used.apply(expanded);
            used.apply(spacers);
        }
        match used.axis {
            Axis::Vertical => Size::new(
                used.inner.width,
                if used.inner.height >= constraints.min_height {
                    used.inner.height
                } else {
                    constraints.min_height
                },
            ),
            Axis::Horizontal => Size::new(
                if used.inner.width >= constraints.min_width {
                    used.inner.width
                } else {
                    constraints.min_width
                },
                used.inner.height,
            ),
        }
    }
}

/// Whether the space ran out during a layout: then the children that
/// follow are not laid out.
pub fn out_of_space(used: &SizeMod) -> (r: Result<(), Error>)
    ensures
        is_full(*used) ==> r is Err && r->Err_0 is InsufficientSpaceAvailble,
        !is_full(*used) ==> r is Ok,
{
    if used.no_space_left() {
        Err(Error::InsufficientSpaceAvailble)
    } else {
        Ok(())
    }
}

/// The sum of the first `n` factors.
pub open spec fn factor_sum(factors: Seq<usize>, n: int) -> nat
    decreases n,
{
    if n <= 0 || n > factors.len() {
        0
    } else {
        factor_sum(factors, n - 1) + factors[n - 1] as nat
    }
}

/// The size of an expansion with the factor `factor` among expansions
/// whose factors add up to `sum`: along the axis its share of the space,
/// which is the space divided by the sum, times the factor; across the
/// axis all the space.
pub open spec fn expanded(constraints: Constraints, axis: Axis, sum: nat, factor: usize) -> Size {
    match axis {
        Axis::Horizontal => Size {
            width: clamp((constraints.max_width as int / sum as int) * factor),
            height: constraints.max_height,
        },
        Axis::Vertical => Size {
            width: constraints.max_width,
            height: clamp((constraints.max_height as int / sum as int) * factor),
        },
    }
}

fn share(part: usize, factor: usize) -> (r: usize)
    ensures
        r == clamp(part * factor),
{
    match part.checked_mul(factor) {
        Some(r) => r,
        None => usize::MAX,
    }
}

/// Shares the space of `constraints` along `axis` among expansions with
/// the factors `factors`; see [`expanded`]. Factors that add up to nothing,
/// or to more than a `usize` holds, get nothing.
pub fn layout_expansions(constraints: Constraints, axis: Axis, factors: &Vec<usize>) -> (r: Vec<
    Size,
>)
    ensures
        r.len() == factors.len(),
        forall|k: int|
            0 <= k < r.len() ==> #[trigger] r[k] == if 0 < factor_sum(
                factors@,
                factors.len() as int,
            ) <= usize::MAX {
                expanded(constraints, axis, factor_sum(factors@, factors.len() as int), factors@[k])
            } else {
                Size { width: 0, height: 0 }
            },
{
    let mut sum: usize = 0;
    let mut overflow = false;
    let mut i: usize = 0;
    while i < factors.len()
        invariant
            i <= factors.len(),
            !overflow ==> sum == factor_sum(factors@, i as int),
            overflow ==> factor_sum(factors@, i as int) > usize::MAX,
        decreases factors.len() - i,
    {
        match sum.checked_add(factors[i]) {
            Some(next) => {
                if !overflow {
                    sum = next;
                }
            },
            None => {
                overflow = true;
            },
        }
        i += 1;
    }
    let ghost total = factor_sum(factors@, factors.len() as int);
    let mut out: Vec<Size> = Vec::new();
    let mut k: usize = 0;
    while k < factors.len()
        invariant
            k <= factors.len(),
            out.len() == k,
            total == factor_sum(factors@, factors.len() as int),
            !overflow ==> sum == total,
            overflow ==> total > usize::MAX,
            forall|j: int|
                0 <= j < k ==> #[trigger] out[j] == if 0 < total <= usize::MAX {
                    expanded(constraints, axis, total, factors@[j])
                } else {
                    Size { width: 0, height: 0 }
                },
        decreases factors.len() - k,
    {
        let size = if overflow || sum == 0 {
            Size::zero()
        } else {
            match axis {
                Axis::Horizontal => Size::new(
                    share(constraints.max_width / sum, factors[k]),
                    constraints.max_height,
                ),
                Axis::Vertical => Size::new(
                    constraints.max_width,
                    share(constraints.max_height / sum, factors[k]),
                ),
            }
        };
        out.push(size);
        k += 1;
    }
    out
}

/// A layout of children side by side.
pub struct Horizontal(pub Many);

impl Horizontal {
    pub fn new(direction: Direction) -> (h: Self)
        ensures
            h.0.direction == direction,
            h.0.axis == Axis::Horizontal,
            h.0.skip() == (Offset { axis: Axis::Horizontal, inner: 0, enabled: true }),
            !h.0.unbound(),
    {
        let many = Many::new(direction, Axis::Horizontal, 0, false);
        Self(many)
    }
}

/// A layout of children one below the other.
pub struct Vertical(pub Many);

impl Vertical {
    pub fn new(direction: Direction) -> (v: Self)
        ensures
            v.0.direction == direction,
            v.0.axis == Axis::Vertical,
            v.0.skip() == (Offset { axis: Axis::Vertical, inner: 0, enabled: true }),
            !v.0.unbound(),
    {
        let many = Many::new(direction, Axis::Vertical, 0, false);
        Self(many)
    }
}

/// A layout of one child: the whole is as large as the child.
pub struct Single;

impl Single {
    /// The size of the whole: that of the first child, if there is one.
    pub fn layout(&self, children: &Vec<Size>) -> (size: Size)
        ensures
            size == if children.len() > 0 {
                children@[0]
            } else {
                Size { width: 0, height: 0 }
            },
    {
        if children.len() > 0 {
            children[0]
        } else {
            Size::zero()
        }
    }
}

/// The greatest width and the greatest height among the first `n` sizes.
pub open spec fn greatest(sizes: Seq<Size>, n: int) -> Size
    decreases n,
{
    if n <= 0 || n > sizes.len() {
        Size { width: 0, height: 0 }
    } else {
        Size {
            width: greater(greatest(sizes, n - 1).width, sizes[n - 1].width),
            height: greater(greatest(sizes, n - 1).height, sizes[n - 1].height),
        }
    }
}

/// A layout of children on top of each other: the whole is as wide as the
/// widest child and as high as the highest.
pub struct Stacked;

impl Stacked {
    pub fn layout(&self, children: &Vec<Size>) -> (size: Size)
        ensures
            size == greatest(children@, children.len() as int),
    {
        let mut width: usize = 0;
        let mut height: usize = 0;
        let mut i: usize = 0;
        while i < children.len()
            invariant
                i <= children.len(),
                (Size { width, height }) == greatest(children@, i as int),
            decreases children.len() - i,
        {
            let size = children[i];
            if size.width > width {
                width = size.width;
            }
            if size.height > height {
                height = size.height;
            }
            i += 1;
        }
        Size::new(width, height)
    }
}

/// The layout of what is inside a spacer: it takes the least that the
/// constraints allow.
pub struct SpacerLayout;

impl SpacerLayout {
    pub fn layout(&self, constraints: Constraints) -> (size: Size)
        ensures
            size == (Size { width: constraints.min_width, height: constraints.min_height }),
    {
        Size::new(constraints.min_width, constraints.min_height)
    }
}

/// The constraints of each of `count` spacers that share the space of
/// `constraints` along `axis`: each gets an equal part, exactly.
pub open spec fn spacer_share(constraints: Constraints, axis: Axis, count: usize) -> Constraints {
    match axis {
        Axis::Horizontal => Constraints {
            max_width: constraints.max_width / count,
            min_width: constraints.max_width / count,
            ..constraints
        },
        Axis::Vertical => Constraints {
            max_height: constraints.max_height / count,
            min_height: constraints.max_height / count,
            ..constraints
        },
    }
}

/// The size of `n` spacers of the size `each` along `axis`.
pub open spec fn spacers_size(each: Size, axis: Axis, n: nat) -> Size {
    if n == 0 {
        Size { width: 0, height: 0 }
    } else {
        match axis {
            Axis::Horizontal => Size { width: clamp(each.width * n), height: each.height },
            Axis::Vertical => Size { width: each.width, height: clamp(each.height * n) },
        }
    }
}

/// Lays out `count` spacers in the space of `constraints`: returns the
/// constraints of each, and the size that they take together.
pub fn layout_spacers(constraints: Constraints, axis: Axis, count: usize) -> (r: (
    Constraints,
    Size,
))
    ensures
        count == 0 ==> r.1 == (Size { width: 0, height: 0 }) && r.0 == constraints,
        count > 0 ==> r.0 == spacer_share(constraints, axis, count) && r.1 == spacers_size(
            Size { width: r.0.min_width, height: r.0.min_height },
            axis,
            count as nat,
        ),
{
    if count == 0 {
        return (constraints, Size::zero());
    }
    let mut each = constraints;
    match axis {
        Axis::Horizontal => {
            each.max_width = each.max_width / count;
            each.min_width = each.max_width;
        },
        Axis::Vertical => {
            each.max_height = each.max_height / count;
            each.min_height = each.max_height;
        },
    }
    let size = SpacerLayout.layout(each);
    let total = match axis {
        Axis::Horizontal => {
            assert(size.width * count <= constraints.max_width) by (nonlinear_arith)
                requires
                    size.width == constraints.max_width / count,
                    count > 0,
            ;
            Size::new(size.width * count, size.height)
        },
        Axis::Vertical => {
            assert(size.height * count <= constraints.max_height) by (nonlinear_arith)
                requires
                    size.height == constraints.max_height / count,
                    count > 0,
            ;
            Size::new(size.width, size.height * count)
        },
    };
    (each, total)
}

} // verus!
