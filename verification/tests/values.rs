use torin::direction::DirectionMode;
use torin::geometry::{
    floor_zero, max_of, minus, narrow, plus, Gaps, Length, Point2D, Rect, Size2D, UNBOUNDED,
};
use torin::custom_measurer::{consult, LayoutMeasurer, NoMeasurer};
use torin::measure::{content_of, propose, settle, share_of, FillPlan, MAX_DEPTH};
use torin::node::Node;
use torin::scroll_bar::{scroll_bar_background, ScrollBarStatus};
use torin::size::{percentage_of, Size};

fn rect(x: i32, y: i32, width: i32, height: i32) -> Rect {
    Rect::new(Point2D::new(x, y), Size2D::new(width, height))
}

#[test]
fn sums_saturate_at_both_ends() {
    assert_eq!(plus(2, 3), 5);
    assert_eq!(plus(i32::MAX, 1), i32::MAX);
    assert_eq!(plus(i32::MIN, -1), i32::MIN);
    assert_eq!(plus(i32::MAX, i32::MIN), -1);
    assert_eq!(minus(2, 3), -1);
    assert_eq!(minus(i32::MIN, 1), i32::MIN);
    assert_eq!(minus(i32::MAX, -1), i32::MAX);
    assert_eq!(minus(0, i32::MIN), i32::MAX);
}

#[test]
fn narrow_clamps_wide_values() {
    assert_eq!(narrow(7), 7);
    assert_eq!(narrow(-7), -7);
    assert_eq!(narrow(2147483648), i32::MAX);
    assert_eq!(narrow(-2147483649), i32::MIN);
    assert_eq!(narrow(i64::MAX), i32::MAX);
    assert_eq!(narrow(i64::MIN), i32::MIN);
}

#[test]
fn floor_zero_and_max_of() {
    assert_eq!(floor_zero(-5), 0);
    assert_eq!(floor_zero(0), 0);
    assert_eq!(floor_zero(5), 5);
    assert_eq!(max_of(3, 9), 9);
    assert_eq!(max_of(9, 3), 9);
    assert_eq!(max_of(-2, -2), -2);
}

#[test]
fn percentage_of_exact_values() {
    assert_eq!(percentage_of(200, 50), 100);
    assert_eq!(percentage_of(101, 50), 50);
    assert_eq!(percentage_of(7, 33), 2);
    assert_eq!(percentage_of(200, 0), 0);
    assert_eq!(percentage_of(200, -50), 0);
    assert_eq!(percentage_of(-200, 50), 0);
    assert_eq!(percentage_of(200, 100), 200);
    assert_eq!(percentage_of(200, 150), 300);
    assert_eq!(percentage_of(i32::MAX, 100), i32::MAX);
    assert_eq!(percentage_of(i32::MAX, 200), i32::MAX);
    assert_eq!(percentage_of(i32::MAX, i32::MAX), i32::MAX);
}

#[test]
fn size_rules() {
    assert!(Size::Inner.is_inner());
    assert!(!Size::Fill.is_inner());
    assert!(Size::Fill.is_fill());
    assert!(Size::FillMinimum.is_fill());
    assert!(!Size::Pixels(Length::new(1)).is_fill());
    assert!(Size::Pixels(Length::new(1)).is_fixed());
    assert!(Size::Percentage(Length::new(1)).is_fixed());
    assert!(!Size::Inner.is_fixed());
    assert!(!Size::FillMinimum.is_fixed());
}

#[test]
fn size_eval() {
    assert_eq!(Size::Pixels(Length::new(120)).eval(300, 80), 120);
    assert_eq!(Size::Pixels(Length::new(-120)).eval(300, 80), 0);
    assert_eq!(Size::Percentage(Length::new(25)).eval(300, 80), 75);
    assert_eq!(Size::Fill.eval(300, 80), 80);
    assert_eq!(Size::FillMinimum.eval(300, 80), 80);
    assert_eq!(Size::Fill.eval(300, -80), 0);
    assert_eq!(Size::Inner.eval(300, 80), 0);
}

#[test]
fn axes_follow_the_direction() {
    let point = Point2D::new(1, 2);
    let size = Size2D::new(3, 4);
    assert_eq!(point.main_of(&DirectionMode::Horizontal), 1);
    assert_eq!(point.cross_of(&DirectionMode::Horizontal), 2);
    assert_eq!(point.main_of(&DirectionMode::Vertical), 2);
    assert_eq!(point.cross_of(&DirectionMode::Vertical), 1);
    assert_eq!(size.main_of(&DirectionMode::Horizontal), 3);
    assert_eq!(size.cross_of(&DirectionMode::Horizontal), 4);
    assert_eq!(size.main_of(&DirectionMode::Vertical), 4);
    assert_eq!(size.cross_of(&DirectionMode::Vertical), 3);
    assert_eq!(Size2D::from_axes(&DirectionMode::Horizontal, 5, 6), Size2D::new(5, 6));
    assert_eq!(Size2D::from_axes(&DirectionMode::Vertical, 5, 6), Size2D::new(6, 5));
    assert_eq!(Rect::from_axes(&DirectionMode::Horizontal, 1, 2, 3, 4), rect(1, 2, 3, 4));
    assert_eq!(Rect::from_axes(&DirectionMode::Vertical, 1, 2, 3, 4), rect(2, 1, 4, 3));
    assert!(DirectionMode::Horizontal.is_horizontal());
    assert!(!DirectionMode::Vertical.is_horizontal());
}

#[test]
fn rect_edges() {
    let area = rect(10, 20, 30, 40);
    assert_eq!(area.min_x(), 10);
    assert_eq!(area.min_y(), 20);
    assert_eq!(area.max_x(), 40);
    assert_eq!(area.max_y(), 60);
    assert_eq!(area.width(), 30);
    assert_eq!(area.height(), 40);
    assert_eq!(rect(i32::MAX, 0, 5, 5).max_x(), i32::MAX);
    assert_eq!(Length::new(9).get(), 9);
}

#[test]
fn gaps_count_negative_sides_as_none() {
    assert_eq!(Gaps::new(1, 2, 3, 4).horizontal_sum(), 6);
    assert_eq!(Gaps::new(1, 2, 3, 4).vertical_sum(), 4);
    assert_eq!(Gaps::new(-1, -2, 3, 4).horizontal_sum(), 4);
    assert_eq!(Gaps::new(-1, -2, 3, 4).vertical_sum(), 3);
    assert_eq!(Gaps::all(i32::MAX).horizontal_sum(), i32::MAX);
    assert_eq!(Gaps::all(7), Gaps::new(7, 7, 7, 7));
}

#[test]
fn node_builders() {
    let node = Node::new();
    assert_eq!(node.width, Size::Inner);
    assert_eq!(node.height, Size::Inner);
    assert_eq!(node.direction, DirectionMode::Vertical);
    assert_eq!(node.padding, Gaps::all(0));
    assert_eq!(node.spacing, Length::new(0));
    assert!(node.does_depend_on_inner());

    let node = Node::from_size_and_direction(
        Size::Pixels(Length::new(1)),
        Size::Fill,
        DirectionMode::Horizontal,
    )
    .with_padding(Gaps::all(2))
    .with_spacing(Length::new(3));
    assert_eq!(node.width, Size::Pixels(Length::new(1)));
    assert_eq!(node.height, Size::Fill);
    assert_eq!(node.direction, DirectionMode::Horizontal);
    assert_eq!(node.padding, Gaps::all(2));
    assert_eq!(node.spacing, Length::new(3));
    assert!(!node.does_depend_on_inner());
    assert_eq!(node.main_rule_of(&DirectionMode::Horizontal), Size::Pixels(Length::new(1)));
    assert_eq!(node.main_rule_of(&DirectionMode::Vertical), Size::Fill);
    let half = Node::from_size_and_direction(Size::Fill, Size::Inner, DirectionMode::Vertical);
    assert!(half.does_depend_on_inner());
}

#[test]
fn proposed_area_starts_where_the_available_area_starts() {
    let node = Node::from_size_and_direction(
        Size::Percentage(Length::new(50)),
        Size::Fill,
        DirectionMode::Vertical,
    );
    let proposed = propose(&node, &rect(0, 0, 200, 100), &rect(7, 9, 60, 30));
    assert_eq!(proposed, rect(7, 9, 100, 30));
}

#[test]
fn content_area_of_a_node() {
    let node = Node::from_size_and_direction(
        Size::Pixels(Length::new(100)),
        Size::Inner,
        DirectionMode::Vertical,
    )
    .with_padding(Gaps::new(1, 2, 3, 4));
    assert_eq!(content_of(&node, &rect(10, 20, 100, 0), false), rect(14, 21, 94, UNBOUNDED));
    assert_eq!(content_of(&node, &rect(10, 20, 100, 50), true), rect(14, 21, 94, 46));
    assert_eq!(content_of(&node, &rect(10, 20, 5, 3), true), rect(14, 21, 0, 0));
}

#[test]
fn settled_area_of_a_node() {
    let node = Node::from_size_and_direction(
        Size::Pixels(Length::new(100)),
        Size::Inner,
        DirectionMode::Vertical,
    )
    .with_padding(Gaps::new(1, 2, 3, 4));
    assert_eq!(settle(&node, &rect(10, 20, 100, 0), false, 70, 30), rect(10, 20, 100, 74));
    assert_eq!(settle(&node, &rect(10, 20, 100, 9), true, 70, 30), rect(10, 20, 100, 9));
    let wide = Node::from_size_and_direction(Size::Inner, Size::Inner, DirectionMode::Horizontal);
    assert_eq!(settle(&wide, &rect(0, 0, 0, 0), false, 70, 30), rect(0, 0, 70, 30));
    let tall = Node::from_size_and_direction(Size::Inner, Size::Inner, DirectionMode::Vertical);
    assert_eq!(settle(&tall, &rect(0, 0, 0, 0), false, 70, 30), rect(0, 0, 30, 70));
}

#[test]
fn shares_add_up_to_what_remains() {
    let plan = FillPlan { remaining: 100, fills: 3 };
    assert_eq!(share_of(&plan, 0), 34);
    assert_eq!(share_of(&plan, 1), 33);
    assert_eq!(share_of(&plan, 2), 33);
    let plan = FillPlan { remaining: 300, fills: 3 };
    assert_eq!(share_of(&plan, 0), 100);
    assert_eq!(share_of(&plan, 2), 100);
    let plan = FillPlan { remaining: 2, fills: 5 };
    let shares: Vec<i32> = (0..5).map(|k| share_of(&plan, k)).collect();
    assert_eq!(shares, vec![1, 1, 0, 0, 0]);
    assert_eq!(share_of(&FillPlan { remaining: 10, fills: 0 }, 0), 0);
    assert_eq!(share_of(&FillPlan { remaining: -10, fills: 2 }, 0), 0);
    let plan = FillPlan { remaining: i32::MAX, fills: 1 };
    assert_eq!(share_of(&plan, 0), i32::MAX);
    let plan = FillPlan { remaining: i32::MAX, fills: 2 };
    assert_eq!(share_of(&plan, 0) as i64 + share_of(&plan, 1) as i64, i32::MAX as i64);
}

#[test]
fn no_measurer_measures_nothing() {
    let node = Node::new();
    let area = rect(0, 0, 1, 1);
    let mut measurer = NoMeasurer;
    assert_eq!(measurer.measure(3, &node, &area, &area, &area), None);
    let mut some = Some(NoMeasurer);
    assert_eq!(consult(&mut some, 3, &node, &area, &area, &area), None);
    let mut none: Option<NoMeasurer> = None;
    assert_eq!(consult(&mut none, 3, &node, &area, &area, &area), None);
    assert_eq!(MAX_DEPTH, 65535);
}

#[test]
fn scroll_bar_background_follows_the_pointer() {
    assert_eq!(scroll_bar_background(ScrollBarStatus::Idle, false, "rgb(0, 0, 0)"), "transparent");
    assert_eq!(
        scroll_bar_background(ScrollBarStatus::Hovering, false, "rgb(0, 0, 0)"),
        "rgb(0, 0, 0)"
    );
    assert_eq!(scroll_bar_background(ScrollBarStatus::Idle, true, "rgb(0, 0, 0)"), "rgb(0, 0, 0)");
    assert_eq!(
        scroll_bar_background(ScrollBarStatus::Hovering, true, "rgb(0, 0, 0)"),
        "rgb(0, 0, 0)"
    );
}

#[test]
fn prelude_names_the_engine() {
    let mut layout = torin::prelude::Torin::new();
    let mut tree = torin::arena::Arena::new(torin::prelude::Node::from_size_and_direction(
        torin::prelude::Size::Pixels(torin::prelude::Length::new(30)),
        torin::prelude::Size::Pixels(torin::prelude::Length::new(20)),
        torin::prelude::DirectionMode::Horizontal,
    ));
    let mut measurer = Some(torin::prelude::NoMeasurer);
    let area = layout.measure(0, rect(1, 2, 100, 100), &mut measurer, &mut tree);
    assert_eq!(area, Some(rect(1, 2, 30, 20)));
    let entry: torin::prelude::NodeAreas = layout.get(0).unwrap();
    assert_eq!(entry.area, rect(1, 2, 30, 20));
    assert_eq!(entry.parent, rect(1, 2, 100, 100));
    assert_eq!(entry.available, rect(1, 2, 100, 100));
}
