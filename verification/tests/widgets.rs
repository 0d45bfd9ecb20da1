use anathema::layout::{Axis, Direction, HorzEdge, VertEdge};
use anathema::layouts::{
    layout_expansions, layout_spacers, out_of_space, Child, Constraints, Horizontal, Many, Offset,
    Single, SizeMod, SpacerLayout, Stacked, Vertical,
};
use anathema::factories::Expand;
use anathema::layout::Padding;
use anathema::node_id::NodeId;
use anathema::widget::{Pos, Size, WidgetContainer};
use anathema::widgets::{edge, Border, BorderStyle, HStack, Sides, VStack, Viewport, ZStack};

fn fixed(width: usize, height: usize) -> Child {
    Child { size: Size::new(width, height), flexible: false }
}

#[test]
fn widths_of_characters() {
    assert_eq!(edge('a'), 1);
    assert_eq!(edge('\u{2502}'), 1);
    assert_eq!(edge('\u{4f60}'), 2);
    assert_eq!(edge('\n'), 0);
    assert_eq!(edge('\u{85}'), 0);
}

#[test]
fn border_thickness() {
    assert_eq!(Border::thin(None, None).border_size(), Size::new(2, 2));
    assert_eq!(Border::thick(Some(3), None).border_size(), Size::new(2, 2));
    let top = Sides { top: true, right: false, bottom: false, left: false };
    assert_eq!(Border::new(&BorderStyle::Thin, top, None, None).border_size(), Size::new(0, 1));
    let left = Sides { top: false, right: false, bottom: false, left: true };
    assert_eq!(Border::new(&BorderStyle::Thin, left, None, None).border_size(), Size::new(1, 0));
    assert_eq!(
        Border::new(&BorderStyle::Thin, Sides::empty(), None, None).border_size(),
        Size::new(0, 0)
    );
    // a wide corner makes the sides that meet in it thicker
    let mut wide = Border::thin(None, None);
    wide.edges[0] = '\u{4f60}';
    assert_eq!(wide.border_size(), Size::new(3, 3));
    let mut narrow = Border::new(&BorderStyle::Thin, left, None, None);
    narrow.edges[0] = '\u{4f60}';
    assert_eq!(narrow.border_size(), Size::new(1, 0));
}

#[test]
fn sides_contain_sides() {
    let all = Sides::all();
    let top = Sides { top: true, right: false, bottom: false, left: false };
    assert!(all.contains(top));
    assert!(!top.contains(all));
    assert!(top.contains(Sides::empty()));
}

#[test]
fn border_sizes() {
    let border = Border::thin(None, None);
    let constraints = border.constrain(Constraints::new(15, 6));
    assert_eq!(
        border.child_constraints(constraints),
        Some(Constraints { min_width: 0, min_height: 0, max_width: 13, max_height: 4 })
    );
    assert_eq!(border.size(constraints, Some(Size::new(1, 1)), Size::zero()), Size::new(3, 3));
    assert_eq!(border.size(constraints, Some(Size::new(20, 1)), Size::zero()), Size::new(15, 3));
    assert_eq!(border.size(constraints, None, Size::zero()), Size::new(0, 0));

    let fixed = Border::thin(Some(8), Some(5));
    let constraints = fixed.constrain(Constraints::new(15, 6));
    assert_eq!(
        constraints,
        Constraints { min_width: 8, min_height: 5, max_width: 8, max_height: 5 }
    );
    assert_eq!(fixed.size(constraints, Some(Size::new(2, 1)), Size::zero()), Size::new(8, 5));
    assert_eq!(fixed.size(constraints, None, Size::zero()), Size::new(8, 5));

    let tiny = Constraints::new(2, 2);
    assert_eq!(border.child_constraints(tiny), None);
    assert_eq!(border.size(tiny, Some(Size::new(1, 1)), Size::zero()), Size::zero());
}

#[test]
fn offset_skips_whole_children_first() {
    let mut offset = Offset { axis: Axis::Vertical, inner: 5, enabled: true };
    let mut size = Size::new(1, 3);
    assert!(offset.skip(&mut size));
    assert_eq!((offset.inner, size), (2, Size::new(1, 3)));
    assert!(!offset.skip(&mut size));
    assert_eq!((offset.inner, offset.enabled, size), (2, false, Size::new(1, 1)));
    let mut next = Size::new(1, 3);
    assert!(!offset.skip(&mut next));
    assert_eq!(next, Size::new(1, 3));
}

#[test]
fn spacers_share_the_space() {
    let (each, all) = layout_spacers(Constraints::new(10, 3), Axis::Horizontal, 3);
    assert_eq!((each.min_width, each.max_width), (3, 3));
    assert_eq!(all, Size::new(9, 0));
    assert_eq!(layout_spacers(Constraints::new(10, 3), Axis::Horizontal, 0).1, Size::zero());
    assert_eq!(SpacerLayout.layout(each), Size::new(3, 0));
}

#[test]
fn single_takes_the_first() {
    assert_eq!(Single.layout(&vec![Size::new(2, 3), Size::new(9, 9)]), Size::new(2, 3));
    assert_eq!(Single.layout(&vec![]), Size::zero());
}

#[test]
fn used_space_adds_up_along_the_axis() {
    let mut used = SizeMod::new(Size::new(10, 4), Axis::Horizontal);
    used.apply(Size::new(4, 2));
    used.apply(Size::new(3, 3));
    assert_eq!(used.inner, Size::new(7, 3));
    assert!(!used.no_space_left());
    used.apply(Size::new(9, 1));
    assert_eq!(used.inner, Size::new(10, 3));
    assert!(used.no_space_left());
    assert_eq!(used.to_constraints(), Constraints::new(0, 4));
}

// -----------------------------------------------------------------------------
//   - Frames -
//   The library lays out, the helpers below paint what it laid out, and
//   the result is held against the frame that is expected.
// -----------------------------------------------------------------------------

struct Canvas {
    size: Size,
    cells: Vec<char>,
}

impl Canvas {
    /// A canvas as large as the inside of the expected frame.
    fn for_frame(expected: &str) -> Self {
        let rows = rows_of(expected);
        let size = Size::new(rows[0].chars().count(), rows.len());
        Self { size, cells: vec![' '; size.width * size.height] }
    }

    fn put(&mut self, x: i32, y: i32, c: char) {
        if x < 0 || y < 0 || x as usize >= self.size.width || y as usize >= self.size.height {
            return;
        }
        self.cells[y as usize * self.size.width + x as usize] = c;
    }

    fn text(&mut self, pos: Pos, text: &str) {
        for (i, c) in text.chars().enumerate() {
            self.put(pos.x + i as i32, pos.y, c);
        }
    }

    /// What `border` draws when it has the size `size` and stands at `pos`.
    fn paint(&mut self, border: &Border, pos: Pos, size: Size) {
        for glyph in border.paint(size) {
            self.put(pos.x + glyph.pos.x as i32, pos.y + glyph.pos.y as i32, glyph.c);
        }
    }

    /// A thin border of the size `size` at `pos`, with `text` inside.
    fn border(&mut self, pos: Pos, size: Size, text: &str) {
        if size.width == 0 || size.height == 0 {
            return;
        }
        let border = Border::thin(None, None);
        self.paint(&border, pos, size);
        self.text(border.position(pos), text);
    }

    fn constraints(&self) -> Constraints {
        Constraints::new(self.size.width, self.size.height)
    }

    fn rows(&self) -> Vec<String> {
        self.cells
            .chunks(self.size.width)
            .map(|row| row.iter().collect())
            .collect()
    }

    fn expect(&self, expected: &str) {
        assert_eq!(self.rows(), rows_of(expected));
    }
}

/// The rows inside the frame.
fn rows_of(expected: &str) -> Vec<String> {
    expected
        .lines()
        .map(|line| line.trim())
        .filter(|line| line.starts_with('\u{2551}'))
        .map(|line| {
            let inner: Vec<char> = line.chars().collect();
            inner[1..inner.len() - 1].iter().collect()
        })
        .collect()
}

/// The size of a border around one character.
fn small_border(constraints: Constraints) -> Size {
    let border = Border::thin(None, None);
    let constraints = border.constrain(constraints);
    border.size(constraints, Some(Size::new(1, 1)), Size::zero())
}

/// Lays out `count` small borders with `layout`, places them with `place`
/// and paints those that were given room; `label` says what stands in the
/// border at each place.
fn stack_of_borders(
    expected: &str,
    constraints: Constraints,
    layout: &mut Many,
    count: usize,
    place: impl Fn(&Vec<Size>) -> Vec<Pos>,
    label: impl Fn(usize) -> usize,
) {
    let mut canvas = Canvas::for_frame(expected);
    let each = small_border(layout.child_constraints(constraints));
    assert_eq!(each, Size::new(3, 3));
    let children = vec![fixed(each.width, each.height); count];
    let (_, given) = layout.layout(constraints, &children);
    let sizes = vec![each; given.len()];
    for (i, pos) in place(&sizes).into_iter().enumerate() {
        canvas.border(pos, each, &label(i).to_string());
    }
    canvas.expect(expected);
}

#[test]
fn only_hstack() {
    let expected = r#"
            ╔═] Fake term [═╗
            ║┌─┐┌─┐┌─┐      ║
            ║│0││1││2│      ║
            ║└─┘└─┘└─┘      ║
            ║               ║
            ║               ║
            ╚═══════════════╝
            "#;
    let hstack = HStack::new(None, None);
    let constraints = hstack.constrain(Canvas::for_frame(expected).constraints());
    let mut layout = Horizontal::new(Direction::Forward);
    stack_of_borders(
        expected,
        constraints,
        &mut layout.0,
        3,
        |sizes| hstack.position(Pos::zero(), sizes),
        |i| i,
    );
}

#[test]
fn fixed_width_stack() {
    let expected = r#"
            ╔═] Fake term [═╗
            ║┌─┐┌─┐         ║
            ║│0││1│         ║
            ║└─┘└─┘         ║
            ║               ║
            ║               ║
            ║               ║
            ╚═══════════════╝
            "#;
    let hstack = HStack::new(Some(6), None);
    let constraints = hstack.constrain(Canvas::for_frame(expected).constraints());
    let mut layout = Horizontal::new(Direction::Forward);
    stack_of_borders(
        expected,
        constraints,
        &mut layout.0,
        10,
        |sizes| hstack.position(Pos::zero(), sizes),
        |i| i,
    );
}

#[test]
fn only_vstack() {
    let expected = r#"
            ╔═] Fake term [═╗
            ║┌─┐            ║
            ║│0│            ║
            ║└─┘            ║
            ║┌─┐            ║
            ║│1│            ║
            ║└─┘            ║
            ║┌─┐            ║
            ║│2│            ║
            ║└─┘            ║
            ╚═══════════════╝
            "#;
    let vstack = VStack::new(None, None);
    let constraints = vstack.constrain(Canvas::for_frame(expected).constraints());
    let mut layout = Vertical::new(Direction::Forward);
    stack_of_borders(
        expected,
        constraints,
        &mut layout.0,
        3,
        |sizes| vstack.position(Pos::zero(), sizes),
        |i| i,
    );
}

#[test]
fn fixed_height_stack() {
    let expected = r#"
            ╔═] Fake term [═╗
            ║┌─┐            ║
            ║│0│            ║
            ║└─┘            ║
            ║┌─┐            ║
            ║│1│            ║
            ║└─┘            ║
            ║               ║
            ║               ║
            ║               ║
            ╚═══════════════╝
            "#;
    let vstack = VStack::new(None, Some(6));
    let constraints = vstack.constrain(Canvas::for_frame(expected).constraints());
    let mut layout = Vertical::new(Direction::Forward);
    stack_of_borders(
        expected,
        constraints,
        &mut layout.0,
        10,
        |sizes| vstack.position(Pos::zero(), sizes),
        |i| i,
    );
}

fn viewport(expected: &str, viewport: Viewport) {
    let canvas = Canvas::for_frame(expected);
    let mut layout = Many::new(viewport.direction, viewport.axis, viewport.offset, true);
    let backward = viewport.direction == Direction::Backward;
    stack_of_borders(
        expected,
        canvas.constraints(),
        &mut layout,
        10,
        |sizes| viewport.position(Pos::zero(), canvas.size, sizes),
        // a backward viewport lays out its children from the last on
        |i| if backward { 9 - i } else { i },
    );
}

#[test]
fn vertical_viewport() {
    viewport(
        r#"
            ╔═] Fake term [═╗
            ║┌─┐            ║
            ║│0│            ║
            ║└─┘            ║
            ║┌─┐            ║
            ║│1│            ║
            ║└─┘            ║
            ╚═══════════════╝
            "#,
        Viewport::new(Direction::Forward, Axis::Vertical, Some(0)),
    );
}

#[test]
fn horizontal_viewport() {
    viewport(
        r#"
            ╔═] Fake term [═╗
            ║┌─┐┌─┐┌─┐┌─┐┌─┐║
            ║│0││1││2││3││4│║
            ║└─┘└─┘└─┘└─┘└─┘║
            ║               ║
            ║               ║
            ║               ║
            ╚═══════════════╝
            "#,
        Viewport::new(Direction::Forward, Axis::Horizontal, Some(0)),
    );
}

#[test]
fn vertical_viewport_reversed() {
    viewport(
        r#"
            ╔═] Fake term [═╗
            ║┌─┐            ║
            ║│8│            ║
            ║└─┘            ║
            ║┌─┐            ║
            ║│9│            ║
            ║└─┘            ║
            ╚═══════════════╝
            "#,
        Viewport::new(Direction::Backward, Axis::Vertical, Some(0)),
    );
}

#[test]
fn horizontal_viewport_reversed() {
    viewport(
        r#"
            ╔═] Fake term [═╗
            ║┌─┐┌─┐┌─┐┌─┐┌─┐║
            ║│5││6││7││8││9│║
            ║└─┘└─┘└─┘└─┘└─┘║
            ║               ║
            ║               ║
            ║               ║
            ╚═══════════════╝
            "#,
        Viewport::new(Direction::Backward, Axis::Horizontal, Some(0)),
    );
}

#[test]
fn vertical_forward_offset() {
    viewport(
        r#"
            ╔═] Fake term [═╗
            ║└─┘            ║
            ║┌─┐            ║
            ║│1│            ║
            ║└─┘            ║
            ║┌─┐            ║
            ║│2│            ║
            ╚═══════════════╝
            "#,
        Viewport::new(Direction::Forward, Axis::Vertical, Some(2)),
    );
}

#[test]
fn horizontal_forward_offset() {
    viewport(
        r#"
            ╔═] Fake term [═╗
            ║┐┌─┐┌─┐┌─┐┌─┐┌─║
            ║││1││2││3││4││5║
            ║┘└─┘└─┘└─┘└─┘└─║
            ║               ║
            ║               ║
            ║               ║
            ╚═══════════════╝
            "#,
        Viewport::new(Direction::Forward, Axis::Horizontal, Some(2)),
    );
}

/// Two expansions with the factors one and two, each around a border that
/// fills it.
fn expansions(expected: &str, axis: Axis) {
    let mut canvas = Canvas::for_frame(expected);
    let constraints = canvas.constraints();
    let mut layout = Many::new(Direction::Forward, axis, 0, false);
    let children = vec![Child { size: Size::zero(), flexible: true }; 2];
    let (used, _) = layout.layout(constraints, &children);
    let sizes = layout_expansions(used.to_constraints(), axis, &vec![1, 2]);
    let places = match axis {
        Axis::Horizontal => HStack::new(None, None).position(Pos::zero(), &sizes),
        Axis::Vertical => VStack::new(None, None).position(Pos::zero(), &sizes),
    };
    for (pos, size) in places.into_iter().zip(sizes) {
        // the border takes all the room of the expansion around it
        let border = Border::thin(None, None);
        let room = Constraints::new(size.width, size.height);
        let inside = border.child_constraints(room).unwrap();
        let filled = Size::new(inside.max_width, inside.max_height);
        canvas.border(pos, border.size(room, Some(filled), Size::zero()), "");
    }
    canvas.expect(expected);
}

#[test]
fn expand_horz_with_factors() {
    expansions(
        r#"
            ╔═] Fake term [═╗
            ║┌───┐┌────────┐║
            ║│   ││        │║
            ║│   ││        │║
            ║│   ││        │║
            ║│   ││        │║
            ║└───┘└────────┘║
            ╚═══════════════╝
            "#,
        Axis::Horizontal,
    );
}

#[test]
fn expand_vert_with_factors() {
    expansions(
        r#"
            ╔═] Fake term [═╗
            ║┌─────────────┐║
            ║│             │║
            ║└─────────────┘║
            ║┌─────────────┐║
            ║│             │║
            ║│             │║
            ║│             │║
            ║│             │║
            ║└─────────────┘║
            ╚═══════════════╝
            "#,
        Axis::Vertical,
    );
}

#[test]
fn expanding_inside_vstack() {
    let expected = r#"
            ╔═] Fake term [════════════════╗
            ║┌────────────────────────────┐║
            ║│A cup of tea please         │║
            ║└────────────────────────────┘║
            ║┌────────────────────────────┐║
            ║│Hello world                 │║
            ║│                            │║
            ║│                            │║
            ║└────────────────────────────┘║
            ╚══════════════════════════════╝
            "#;
    let mut canvas = Canvas::for_frame(expected);
    let vstack = VStack::new(None, None);
    let constraints = vstack.constrain(canvas.constraints());

    // the first child: a border around a text and a spacer side by side
    let first = Border::thin(None, None);
    let room = first.child_constraints(first.constrain(constraints)).unwrap();
    let mut row = Horizontal::new(Direction::Forward);
    let text = "A cup of tea please";
    let in_row = vec![fixed(text.chars().count(), 1), Child { size: Size::zero(), flexible: true }];
    let (used, _) = row.0.layout(room, &in_row);
    let (_, spacers) = layout_spacers(used.to_constraints(), Axis::Horizontal, 1);
    let row_size = row.0.finish(used, room, Size::zero(), spacers);
    let first_size = first.size(first.constrain(constraints), Some(row_size), Size::zero());

    // the second child: an expansion, which takes what is left
    let mut column = Vertical::new(Direction::Forward);
    let in_column = vec![
        fixed(first_size.width, first_size.height),
        Child { size: Size::zero(), flexible: true },
    ];
    let (used, given) = column.0.layout(constraints, &in_column);
    let expanded = layout_expansions(used.to_constraints(), Axis::Vertical, &vec![1]);
    let sizes = vec![given[0], expanded[0]];
    assert_eq!(
        column.0.finish(used, constraints, expanded[0], Size::zero()),
        canvas.size
    );

    let places = vstack.position(Pos::zero(), &sizes);
    canvas.border(places[0], sizes[0], text);
    canvas.border(places[1], sizes[1], "Hello world");
    canvas.expect(expected);
}

#[test]
fn border_title() {
    let expected = r#"
            ╔═] Fake term [══════╗
            ║┌─ [title] ────────┐║
            ║│                  │║
            ║│                  │║
            ║│                  │║
            ║└──────────────────┘║
            ╚════════════════════╝
            "#;
    let mut canvas = Canvas::for_frame(expected);
    let zstack = ZStack::new(None, None);
    let constraints = zstack.constrain(canvas.constraints());

    // a border around an expansion, and a title two cells from the left
    let border = Border::thin(None, None);
    let inside = border.child_constraints(border.constrain(constraints)).unwrap();
    let filled = Size::new(inside.max_width, inside.max_height);
    let border_size = border.size(border.constrain(constraints), Some(filled), Size::zero());
    let title = " [title] ";
    let title_size = Size::new(title.chars().count(), 1);
    assert_eq!(Stacked.layout(&vec![border_size, title_size]), canvas.size);

    let places = zstack.position(Pos::zero(), 2);
    canvas.border(places[0], border_size, "");
    let (HorzEdge::Left(left), VertEdge::Top(top)) = (HorzEdge::Left(2), VertEdge::Top(0)) else {
        panic!()
    };
    canvas.text(Pos::new(places[1].x + left, places[1].y + top), title);
    canvas.expect(expected);
}

#[test]
fn place_on_top() {
    let expected = r#"
            ╔═] Fake term [══════╗
            ║210                 ║
            ║                    ║
            ║                    ║
            ╚════════════════════╝
            "#;
    let mut canvas = Canvas::for_frame(expected);
    let zstack = ZStack::new(None, None);
    let texts = ["000", "11", "2"];
    let sizes: Vec<Size> = texts.iter().map(|t| Size::new(t.len(), 1)).collect();
    assert_eq!(Stacked.layout(&sizes), Size::new(3, 1));
    for (pos, text) in zstack.position(Pos::zero(), texts.len()).into_iter().zip(texts) {
        canvas.text(pos, text);
    }
    canvas.expect(expected);
}

/// The rows of a picture without a frame around it, each as long as the
/// longest.
fn bare_rows(expected: &str) -> Vec<String> {
    let lines: Vec<&str> = expected.split('\n').collect();
    let rows: Vec<String> = lines[1..lines.len() - 1]
        .iter()
        .map(|line| line.chars().skip(12).collect())
        .collect();
    let width = rows.iter().map(|row| row.chars().count()).max().unwrap();
    rows.into_iter()
        .map(|row| format!("{row:width$}"))
        .collect()
}

/// A border without a child takes the room that it is given.
fn test_border(sides: Sides, expected: &str) {
    let rows = bare_rows(expected);
    let size = Size::new(rows[0].chars().count(), rows.len());
    let mut canvas = Canvas { size, cells: vec![' '; size.width * size.height] };
    let mut constraints = Constraints::new(size.width, size.height);
    constraints.make_width_tight(size.width);
    constraints.make_height_tight(size.height);

    let border = Border::new(&BorderStyle::Thin, sides, None, None);
    let border_size = border.size(border.constrain(constraints), None, Size::zero());
    assert_eq!(border_size, size);
    canvas.paint(&border, Pos::zero(), border_size);
    assert_eq!(canvas.rows(), rows);
}

fn sides(top: bool, right: bool, bottom: bool, left: bool) -> Sides {
    Sides { top, right, bottom, left }
}

#[test]
fn border() {
    test_border(
        Sides::all(),
        r#"
            ┌───┐
            │   │
            │   │
            └───┘
            "#,
    );
}

#[test]
fn border_top() {
    test_border(
        sides(true, false, false, false),
        r#"
            ─────
            "#,
    );
}

#[test]
fn border_top_bottom() {
    test_border(
        sides(true, false, true, false),
        r#"
            ─────
            ─────
            "#,
    );
}

#[test]
fn border_left() {
    test_border(
        sides(false, false, false, true),
        r#"
            │
            │
            "#,
    );
}

#[test]
fn border_right() {
    test_border(
        sides(false, true, false, false),
        r#"
                │
                │
            "#,
    );
}

#[test]
fn border_bottom_right() {
    test_border(
        sides(true, false, false, true),
        r#"
            ┌───
            │   
            │   
            "#,
    );
}

#[test]
fn a_border_of_one_column_shows_its_right_corners() {
    let border = Border::thick(None, None);
    let glyphs = border.paint(Size::new(1, 1));
    let drawn: Vec<char> = glyphs.iter().map(|g| g.c).collect();
    assert_eq!(drawn, vec!['\u{2554}', '\u{2557}', '\u{255a}', '\u{255d}']);
    assert!(glyphs.iter().all(|g| g.pos.x == 0 && g.pos.y == 0));
}

#[test]
fn the_child_of_a_border_stands_inside_it() {
    let border = Border::thin(None, None);
    assert_eq!(border.position(Pos::new(4, 7)), Pos::new(5, 8));
    let border = Border::new(&BorderStyle::Thin, sides(false, true, true, false), None, None);
    assert_eq!(border.position(Pos::new(4, 7)), Pos::new(4, 7));
    let border = Border::thin(None, None);
    assert_eq!(border.position(Pos::new(i32::MAX, -3)), Pos::new(i32::MAX, -2));
}

/// A border around an expansion, which is around a text.
fn expansion_in_a_border(expected: &str, axis: Option<Axis>, padding: usize) {
    let mut canvas = Canvas::for_frame(expected);
    let text = "A cup of tea please";
    let border = Border::thin(None, None);
    let constraints = border.constrain(canvas.constraints());
    let room = border.child_constraints(constraints).unwrap();

    let expand = Expand::new(None, axis, None);
    let mut container =
        WidgetContainer::new("expand".to_string(), NodeId::root(), String::new(), vec![]);
    container.padding = Padding::new(padding);
    let text_size = Size::new(text.chars().count(), 1);
    let expanded = container.layout(expand.size(room, Some(text_size)));
    let border_size = border.size(constraints, Some(expanded), Size::zero());

    canvas.paint(&border, Pos::zero(), border_size);
    let inside = container.position(border.position(Pos::zero()));
    canvas.text(inside, text);
    canvas.expect(expected);
}

#[test]
fn expand_border() {
    let expected = r#"
            ╔═] Fake term [═╗
            ║┌─────────────┐║
            ║│             │║
            ║│             │║
            ║│             │║
            ║│             │║
            ║└─────────────┘║
            ╚═══════════════╝
            "#;
    let mut canvas = Canvas::for_frame(expected);
    let border = Border::thin(None, None);
    let constraints = border.constrain(canvas.constraints());
    let room = border.child_constraints(constraints).unwrap();
    let expanded = Expand::new(None, None, None).size(room, None);
    let border_size = border.size(constraints, Some(expanded), Size::zero());
    canvas.paint(&border, Pos::zero(), border_size);
    canvas.expect(expected);
}

#[test]
fn expand_horz() {
    expansion_in_a_border(
        r#"
            ╔═] Fake term [════════════════╗
            ║┌────────────────────────────┐║
            ║│A cup of tea please         │║
            ║└────────────────────────────┘║
            ║                              ║
            ║                              ║
            ╚══════════════════════════════╝
            "#,
        Some(Axis::Horizontal),
        0,
    );
}

#[test]
fn expand_vert() {
    expansion_in_a_border(
        r#"
            ╔═] Fake term [════════════════╗
            ║┌───────────────────┐         ║
            ║│A cup of tea please│         ║
            ║│                   │         ║
            ║│                   │         ║
            ║│                   │         ║
            ║│                   │         ║
            ║└───────────────────┘         ║
            ╚══════════════════════════════╝
            "#,
        Some(Axis::Vertical),
        0,
    );
}

#[test]
fn expand_all() {
    expansion_in_a_border(
        r#"
            ╔═] Fake term [════════════════╗
            ║┌────────────────────────────┐║
            ║│A cup of tea please         │║
            ║│                            │║
            ║│                            │║
            ║│                            │║
            ║│                            │║
            ║└────────────────────────────┘║
            ╚══════════════════════════════╝
            "#,
        None,
        0,
    );
}

#[test]
fn expand_with_padding() {
    expansion_in_a_border(
        r#"
            ╔═] Fake term [════════════════╗
            ║┌────────────────────────────┐║
            ║│                            │║
            ║│ A cup of tea please        │║
            ║│                            │║
            ║│                            │║
            ║│                            │║
            ║│                            │║
            ║└────────────────────────────┘║
            ╚══════════════════════════════╝
            "#,
        None,
        1,
    );
}
