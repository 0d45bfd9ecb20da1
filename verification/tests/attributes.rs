use anathema::attributes::{Style, ValuesAttributes};
use anathema::compiler::compile;
use anathema::factories::{
    BorderFactory, Expand, ExpandFactory, HStackFactory, VStackFactory, ViewportFactory,
    ZStackFactory,
};
use anathema::layout::{Align, Axis, Direction, Padding};
use anathema::layouts::Constraints;
use anathema::node_id::NodeId;
use anathema::nodes::{NodeKind, Nodes};
use anathema::scope::Scope;
use anathema::state::ValueRef;
use anathema::store::{Store, Value};
use anathema::value::{Color, Num, Owned};
use anathema::widget::{Attribute, Display, Factory, Pos, Region, Size, WidgetContainer};
use anathema::widgets::{BorderStyle, Sides};

fn unsigned(n: u64) -> ValueRef {
    ValueRef::Owned(Owned::Num(Num::Unsigned(n)))
}

fn signed(n: i64) -> ValueRef {
    ValueRef::Owned(Owned::Num(Num::Signed(n)))
}

fn word(s: &str) -> ValueRef {
    ValueRef::Str(s.to_string())
}

fn attributes(pairs: Vec<(&str, Option<ValueRef>)>) -> Vec<Attribute> {
    pairs
        .into_iter()
        .map(|(name, value)| Attribute { name: name.to_string(), value })
        .collect()
}

#[test]
fn a_value_is_read_as_what_it_is() {
    assert_eq!(ValueRef::Owned(Owned::Bool(true)).to_bool(), Some(true));
    assert_eq!(unsigned(1).to_bool(), None);
    assert_eq!(word("yes").to_str(), Some(&"yes".to_string()));
    assert_eq!(unsigned(1).to_str(), None);
    assert_eq!(ValueRef::Owned(Owned::Color(Color::Red)).to_color(), Some(Color::Red));
    assert_eq!(word("red").to_color(), None);
}

#[test]
fn a_number_is_read_where_it_fits() {
    assert_eq!(unsigned(7).to_int(), Some(7));
    assert_eq!(signed(7).to_int(), Some(7));
    assert_eq!(signed(0).to_int(), Some(0));
    assert_eq!(signed(-1).to_int(), None);
    assert_eq!(word("7").to_int(), None);

    assert_eq!(signed(-7).to_signed_int(), Some(-7));
    assert_eq!(unsigned(7).to_signed_int(), Some(7));
    assert_eq!(unsigned(i64::MAX as u64).to_signed_int(), Some(i64::MAX));
    assert_eq!(unsigned(i64::MAX as u64 + 1).to_signed_int(), None);
    assert_eq!(ValueRef::Owned(Owned::Bool(true)).to_signed_int(), None);
}

#[test]
fn words_name_axes_directions_displays_and_alignments() {
    assert_eq!(word("horizontal").to_axis(), Some(Axis::Horizontal));
    assert_eq!(word("vertical").to_axis(), Some(Axis::Vertical));
    assert_eq!(word("diagonal").to_axis(), None);
    assert_eq!(unsigned(0).to_axis(), None);

    assert_eq!(word("forward").to_direction(), Some(Direction::Forward));
    assert_eq!(word("backward").to_direction(), Some(Direction::Backward));
    assert_eq!(word("sideways").to_direction(), None);

    assert_eq!(word("show").to_display(), Some(Display::Show));
    assert_eq!(word("hide").to_display(), Some(Display::Hide));
    assert_eq!(word("exclude").to_display(), Some(Display::Exclude));
    assert_eq!(word("shown").to_display(), None);

    for align in [
        Align::Top,
        Align::TopRight,
        Align::Right,
        Align::BottomRight,
        Align::Bottom,
        Align::BottomLeft,
        Align::Left,
        Align::TopLeft,
        Align::Centre,
    ] {
        assert_eq!(word(align.as_str()).to_alignment(), Some(align));
    }
    assert_eq!(word("center").to_alignment(), None);
}

#[test]
fn the_first_attribute_of_a_name_that_has_a_value_counts() {
    let list = attributes(vec![
        ("height", Some(unsigned(1))),
        ("width", None),
        ("width", Some(unsigned(2))),
        ("width", Some(unsigned(3))),
    ]);
    let values = ValuesAttributes::new(&list);
    assert_eq!(values.width(), Some(2));
    assert_eq!(values.height(), Some(1));
    assert_eq!(values.min_width(), None);
    assert!(values.get_attrib("width").unwrap().equals(&unsigned(2)));
    assert!(values.get_attrib("depth").is_none());

    let widget =
        WidgetContainer::new("text".to_string(), NodeId::root(), String::new(), list);
    assert!(widget.attribute(&"width".to_string()).unwrap().equals(&unsigned(2)));
    assert!(widget.attribute(&"depth".to_string()).is_none());
    assert_eq!(widget.values().height(), Some(1));
}

#[test]
fn sizes_and_distances_are_read_from_numbers() {
    let list = attributes(vec![
        ("width", Some(signed(10))),
        ("height", Some(signed(-10))),
        ("min-width", Some(unsigned(1))),
        ("min-height", Some(unsigned(2))),
        ("max-width", Some(unsigned(3))),
        ("max-height", Some(unsigned(4))),
        ("factor", Some(unsigned(5))),
        ("max-children", Some(unsigned(6))),
        ("offset", Some(signed(-3))),
        ("left", Some(signed(i64::MAX))),
        ("right", Some(signed(i64::MIN))),
        ("top", Some(unsigned(8))),
        ("bottom", Some(word("8"))),
    ]);
    let values = ValuesAttributes::new(&list);
    assert_eq!(values.width(), Some(10));
    assert_eq!(values.height(), None);
    assert_eq!(values.min_width(), Some(1));
    assert_eq!(values.min_height(), Some(2));
    assert_eq!(values.max_width(), Some(3));
    assert_eq!(values.max_height(), Some(4));
    assert_eq!(values.factor(), Some(5));
    assert_eq!(values.max_children(), Some(6));
    assert_eq!(values.offset(), Some(-3));
    assert_eq!(values.left(), Some(i32::MAX));
    assert_eq!(values.right(), Some(i32::MIN));
    assert_eq!(values.top(), Some(8));
    assert_eq!(values.bottom(), None);
    assert_eq!(values.get_int("width"), Some(10));
    assert_eq!(values.get_signed_int("height"), Some(-10));
}

#[test]
fn padding_of_a_side_falls_back_to_the_padding_of_all() {
    let none = attributes(vec![("width", Some(unsigned(1)))]);
    assert_eq!(ValuesAttributes::new(&none).padding_all(), None);
    assert_eq!(ValuesAttributes::new(&none).padding_top(), None);

    let one_side = attributes(vec![("padding-left", Some(unsigned(2)))]);
    let values = ValuesAttributes::new(&one_side);
    assert_eq!(
        values.padding_all(),
        Some(Padding { top: 0, right: 0, bottom: 0, left: 2 })
    );
    assert_eq!(values.padding(), None);

    let all = attributes(vec![
        ("padding", Some(unsigned(1))),
        ("padding-top", Some(unsigned(3))),
    ]);
    let values = ValuesAttributes::new(&all);
    assert_eq!(
        values.padding_all(),
        Some(Padding { top: 3, right: 1, bottom: 1, left: 1 })
    );
    assert_eq!(values.padding(), Some(1));
    assert_eq!(values.padding_top(), Some(3));
    assert_eq!(values.padding_right(), Some(1));
    assert_eq!(values.padding_bottom(), Some(1));
    assert_eq!(values.padding_left(), Some(1));
}

#[test]
fn switches_have_their_defaults() {
    let none = attributes(vec![]);
    let values = ValuesAttributes::new(&none);
    assert!(!values.reverse());
    assert!(values.trim_start());
    assert!(values.trim_end());
    assert!(values.collapse_spaces());
    assert!(!values.auto_scroll());
    assert_eq!(values.display(), Display::Show);
    assert_eq!(values.axis(), None);
    assert_eq!(values.direction(), None);
    assert_eq!(values.alignment(), None);
    assert_eq!(values.fill(), None);
    assert_eq!(values.id(), None);
    assert_eq!(values.style(), Style::new());

    let set = attributes(vec![
        ("reverse", Some(ValueRef::Owned(Owned::Bool(true)))),
        ("trim-start", Some(ValueRef::Owned(Owned::Bool(false)))),
        ("trim-end", Some(ValueRef::Owned(Owned::Bool(false)))),
        ("collapse-spaces", Some(ValueRef::Owned(Owned::Bool(false)))),
        ("auto-scroll", Some(ValueRef::Owned(Owned::Bool(true)))),
        ("display", Some(word("exclude"))),
        ("axis", Some(word("horizontal"))),
        ("direction", Some(word("backward"))),
        ("align", Some(word("bottom-right"))),
        ("fill", Some(word("+-"))),
        ("id", Some(word("main"))),
    ]);
    let values = ValuesAttributes::new(&set);
    assert!(values.reverse());
    assert!(!values.trim_start());
    assert!(!values.trim_end());
    assert!(!values.collapse_spaces());
    assert!(values.auto_scroll());
    assert_eq!(values.display(), Display::Exclude);
    assert_eq!(values.axis(), Some(Axis::Horizontal));
    assert_eq!(values.direction(), Some(Direction::Backward));
    assert_eq!(values.alignment(), Some(Align::BottomRight));
    assert_eq!(values.fill(), Some(&"+-".to_string()));
    assert_eq!(values.id(), Some(&"main".to_string()));
    assert_eq!(values.get_bool("reverse"), Some(true));
    assert_eq!(values.get_str("fill"), Some(&"+-".to_string()));

    let odd = attributes(vec![("display", Some(word("maybe")))]);
    assert_eq!(ValuesAttributes::new(&odd).display(), Display::Show);
}

#[test]
fn a_style_is_made_of_colors_and_switches() {
    let list = attributes(vec![
        ("fg", Some(ValueRef::Owned(Owned::Color(Color::Red)))),
        ("foreground", Some(ValueRef::Owned(Owned::Color(Color::Blue)))),
        ("bg", Some(ValueRef::Owned(Owned::Color(Color::Rgb(1, 2, 3))))),
        ("bold", Some(ValueRef::Owned(Owned::Bool(true)))),
        ("italic", Some(ValueRef::Owned(Owned::Bool(false)))),
        ("crossed-out", Some(ValueRef::Owned(Owned::Bool(true)))),
        ("inverse", Some(word("true"))),
    ]);
    let values = ValuesAttributes::new(&list);
    assert_eq!(values.foreground(), Some(Color::Blue));
    assert_eq!(values.background(), Some(Color::Rgb(1, 2, 3)));
    assert_eq!(values.get_color("fg"), Some(Color::Red));
    assert_eq!(
        values.style(),
        Style {
            fg: Some(Color::Blue),
            bg: Some(Color::Rgb(1, 2, 3)),
            bold: true,
            italic: false,
            dim: false,
            underlined: false,
            overlined: false,
            inverse: false,
            crossed_out: true,
        }
    );
}

/// The attributes of the first widget of a template, as they resolve
/// against an empty state.
fn widget_of(source: &str) -> WidgetContainer {
    let templates = compile(source).unwrap();
    let mut factory = Factory::new();
    for kind in ["border", "hstack", "vstack", "zstack", "viewport", "expand"] {
        factory.register(kind).unwrap();
    }
    let mut store = Store::new();
    store.insert("wide", Value::Owned(Owned::Num(Num::Unsigned(40))));
    let mut nodes = Nodes::new(NodeId::root(), Scope::new());
    nodes.next(&templates, &mut store, &factory).unwrap().unwrap();
    match nodes.inner.remove(0).kind {
        NodeKind::Single(single) => single.widget,
        _ => panic!("the template is no node"),
    }
}

#[test]
fn a_border_is_made_of_its_attributes() {
    let widget = widget_of(
        "border [border-style: \"thick\", sides: [\"top\", \"left\", \"nowhere\", 3], width: wide, min-height: 1 + 1]\n",
    );
    let border = BorderFactory::make(&widget.values());
    assert_eq!(border.edges, BorderStyle::Thick.edges());
    assert_eq!(border.sides, Sides { top: true, right: false, bottom: false, left: true });
    assert_eq!(border.width, Some(40));
    assert_eq!(border.height, None);
    assert_eq!(border.min_width, None);
    assert_eq!(border.min_height, Some(2));

    let plain = widget_of("border\n");
    let border = BorderFactory::make(&plain.values());
    assert_eq!(border.edges, BorderStyle::Thin.edges());
    assert_eq!(border.sides, Sides::all());
    assert_eq!(border.width, None);

    let one = widget_of("border [sides: \"bottom\", border-style: \"double\"]\n");
    let border = BorderFactory::make(&one.values());
    assert_eq!(border.edges, BorderStyle::Thin.edges());
    assert_eq!(border.sides, Sides { top: false, right: false, bottom: true, left: false });
}

#[test]
fn stacks_are_made_of_their_attributes() {
    let widget = widget_of("hstack [width: 3, height: 4, min-width: 1, min-height: 2]\n");
    let values = widget.values();
    let hstack = HStackFactory::make(&values);
    assert_eq!(
        (hstack.width, hstack.height, hstack.min_width, hstack.min_height),
        (Some(3), Some(4), Some(1), Some(2))
    );
    let vstack = VStackFactory::make(&values);
    assert_eq!(
        (vstack.width, vstack.height, vstack.min_width, vstack.min_height),
        (Some(3), Some(4), Some(1), Some(2))
    );
    let zstack = ZStackFactory::make(&values);
    assert_eq!(
        (zstack.width, zstack.height, zstack.min_width, zstack.min_height),
        (Some(3), Some(4), Some(1), Some(2))
    );
}

#[test]
fn a_viewport_is_forward_and_vertical_unless_told_otherwise() {
    let plain = widget_of("viewport\n");
    let viewport = ViewportFactory::make(&plain.values());
    assert_eq!(viewport.direction, Direction::Forward);
    assert_eq!(viewport.axis, Axis::Vertical);
    assert_eq!(viewport.offset, 0);
    assert!(viewport.clamp_horizontal && viewport.clamp_vertical);

    let told =
        widget_of("viewport [direction: \"backward\", axis: \"horizontal\", offset: -2]\n");
    let viewport = ViewportFactory::make(&told.values());
    assert_eq!(viewport.direction, Direction::Backward);
    assert_eq!(viewport.axis, Axis::Horizontal);
    assert_eq!(viewport.offset, -2);
}

#[test]
fn an_expansion_is_made_of_its_attributes() {
    let plain = widget_of("expand\n");
    let expand = ExpandFactory::make(&plain.values());
    assert_eq!(expand, Expand::new(None, None, None));
    assert_eq!(expand.factor, 1);
    assert_eq!(expand.fill, "");

    let told = widget_of("expand [factor: 3, axis: \"vertical\", fill: \"+\"]\n");
    let expand = ExpandFactory::make(&told.values());
    assert_eq!(expand.factor, 3);
    assert_eq!(expand.axis, Some(Axis::Vertical));
    assert_eq!(expand.fill, "+");
}

#[test]
fn an_expansion_takes_the_room_along_its_axis() {
    let constraints = Constraints::new(28, 5);
    let child = Some(Size::new(19, 1));
    assert_eq!(
        Expand::new(None, Some(Axis::Horizontal), None).size(constraints, child),
        Size::new(28, 1)
    );
    assert_eq!(
        Expand::new(None, Some(Axis::Vertical), None).size(constraints, child),
        Size::new(19, 5)
    );
    assert_eq!(Expand::new(None, None, None).size(constraints, child), Size::new(28, 5));
    assert_eq!(Expand::new(None, None, None).size(constraints, None), Size::new(28, 5));
    assert_eq!(
        Expand::new(None, Some(Axis::Vertical), None).size(constraints, None),
        Size::new(0, 5)
    );
}

#[test]
fn a_container_adds_its_padding() {
    let mut widget =
        WidgetContainer::new("expand".to_string(), NodeId::root(), String::new(), vec![]);
    widget.padding = Padding { top: 1, right: 2, bottom: 3, left: 4 };
    assert_eq!(widget.layout(Size::new(10, 10)), Size::new(16, 14));
    assert_eq!(widget.outer_size(), Size::new(16, 14));
    assert_eq!(widget.inner_size(), Size::new(10, 10));
    assert_eq!(widget.position(Pos::new(5, -5)), Pos::new(9, -4));
    assert_eq!(widget.pos(), Pos::new(5, -5));
    assert_eq!(
        widget.region(),
        Region { from: Pos::new(5, -5), to: Pos::new(21, 9) }
    );
    assert!(widget.is_painted());

    widget.display = Display::Hide;
    assert_eq!(widget.layout(Size::new(1, 1)), Size::new(7, 5));
    assert!(!widget.is_painted());

    widget.display = Display::Exclude;
    assert_eq!(widget.layout(Size::new(10, 10)), Size::zero());
    assert!(!widget.is_painted());

    widget.display = Display::Show;
    assert_eq!(widget.layout(Size::new(usize::MAX, 0)), Size::new(usize::MAX, 4));
}
