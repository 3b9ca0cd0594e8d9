use torin::arena::Arena;
use torin::custom_measurer::NoMeasurer;
use torin::direction::DirectionMode;
use torin::dom_adapter::DOMAdapter;
use torin::geometry::{Area, Length, Point2D, Rect, Size2D};
use torin::node::Node;
use torin::size::Size;
use torin::torin::Torin;

fn rect(x: i32, y: i32, width: i32, height: i32) -> Area {
    Rect::new(Point2D::new(x, y), Size2D::new(width, height))
}

fn pixels(value: i32) -> Size {
    Size::Pixels(Length::new(value))
}

fn boxed(width: Size, height: Size) -> Node {
    Node::from_size_and_direction(width, height, DirectionMode::Vertical)
}

fn no_measurer() -> Option<NoMeasurer> {
    None
}

/// 0 holds 1 and 2; 1 holds 3 and 4; 2 holds 5; 5 holds 6.
fn small_tree() -> Arena {
    let mut arena = Arena::new(boxed(pixels(500), pixels(500)));
    assert_eq!(arena.add_child(0, boxed(pixels(100), Size::Inner)), Some(1));
    assert_eq!(arena.add_child(0, boxed(pixels(100), Size::Fill)), Some(2));
    assert_eq!(arena.add_child(1, boxed(pixels(10), pixels(10))), Some(3));
    assert_eq!(arena.add_child(1, boxed(pixels(10), pixels(20))), Some(4));
    assert_eq!(arena.add_child(2, boxed(pixels(10), Size::Fill)), Some(5));
    assert_eq!(arena.add_child(5, boxed(pixels(5), pixels(5))), Some(6));
    arena
}

#[test]
fn arena_answers_for_its_nodes() {
    let mut arena = small_tree();
    assert_eq!(arena.len(), 7);
    assert_eq!(arena.children_of(&0), vec![1, 2]);
    assert_eq!(arena.children_of(&1), vec![3, 4]);
    assert_eq!(arena.children_of(&6), Vec::<usize>::new());
    assert_eq!(arena.parent_of(&0), None);
    assert_eq!(arena.parent_of(&4), Some(1));
    assert_eq!(arena.parent_of(&6), Some(5));
    assert_eq!(arena.height(&0), Some(0));
    assert_eq!(arena.height(&2), Some(1));
    assert_eq!(arena.height(&6), Some(3));
    assert_eq!(arena.get_node(&3), Some(boxed(pixels(10), pixels(10))));
    assert!(arena.is_node_valid(&6));
}

#[test]
fn arena_knows_nothing_of_other_ids() {
    let mut arena = small_tree();
    assert_eq!(arena.children_of(&7), Vec::<usize>::new());
    assert_eq!(arena.parent_of(&7), None);
    assert_eq!(arena.height(&7), None);
    assert_eq!(arena.get_node(&7), None);
    assert!(!arena.is_node_valid(&7));
    assert_eq!(arena.closest_common_parent(&7, &1), None);
    assert_eq!(arena.closest_common_parent(&1, &7), None);
    assert_eq!(arena.add_child(7, Node::new()), None);
    assert!(!arena.set_node(7, Node::new()));
    assert_eq!(arena.len(), 7);
}

#[test]
fn arena_finds_the_closest_common_parent() {
    let arena = small_tree();
    assert_eq!(arena.closest_common_parent(&3, &4), Some(1));
    assert_eq!(arena.closest_common_parent(&3, &6), Some(0));
    assert_eq!(arena.closest_common_parent(&6, &3), Some(0));
    assert_eq!(arena.closest_common_parent(&6, &2), Some(2));
    assert_eq!(arena.closest_common_parent(&5, &5), Some(5));
    assert_eq!(arena.closest_common_parent(&0, &6), Some(0));
}

#[test]
fn arena_stops_at_the_greatest_height() {
    let mut arena = Arena::new(Node::new());
    let mut last = 0;
    for _ in 0..65535 {
        last = arena.add_child(last, Node::new()).unwrap();
    }
    assert_eq!(arena.height(&last), Some(u16::MAX));
    assert_eq!(arena.add_child(last, Node::new()), None);
    assert_eq!(arena.len(), 65536);
    assert_eq!(arena.closest_common_parent(&last, &1), Some(1));
}

#[test]
fn arena_replaces_rules() {
    let mut arena = small_tree();
    assert!(arena.set_node(4, boxed(pixels(1), pixels(2))));
    assert_eq!(arena.get_node(&4), Some(boxed(pixels(1), pixels(2))));
    assert_eq!(arena.get_node(&3), Some(boxed(pixels(10), pixels(10))));
    assert_eq!(arena.children_of(&1), vec![3, 4]);
    assert_eq!(arena.parent_of(&4), Some(1));
}

#[test]
fn arena_is_measured_like_any_tree() {
    let mut arena = small_tree();
    let mut layout = Torin::new();
    layout.measure(0, rect(0, 0, 1000, 1000), &mut no_measurer(), &mut arena);
    assert_eq!(layout.area_of(0), Some(rect(0, 0, 500, 500)));
    assert_eq!(layout.area_of(1), Some(rect(0, 0, 100, 30)));
    assert_eq!(layout.area_of(3), Some(rect(0, 0, 10, 10)));
    assert_eq!(layout.area_of(4), Some(rect(0, 10, 10, 20)));
    assert_eq!(layout.area_of(2), Some(rect(0, 30, 100, 500)));
    assert_eq!(layout.area_of(5), Some(rect(0, 30, 10, 500)));
    assert_eq!(layout.area_of(6), Some(rect(0, 30, 5, 5)));
}

#[test]
fn arena_changes_are_measured_from_their_scope() {
    let mut arena = small_tree();
    let mut layout = Torin::new();
    layout.measure(0, rect(0, 0, 1000, 1000), &mut no_measurer(), &mut arena);

    arena.set_node(6, boxed(pixels(7), pixels(7)));
    layout.invalidate(6);
    assert_eq!(layout.find_best_root(&mut arena), Some(5));
    layout.measure(0, rect(0, 0, 1000, 1000), &mut no_measurer(), &mut arena);
    assert_eq!(layout.area_of(6), Some(rect(0, 30, 7, 7)));

    arena.set_node(4, boxed(pixels(10), pixels(50)));
    layout.invalidate(4);
    assert_eq!(layout.find_best_root(&mut arena), Some(0));
    layout.measure(0, rect(0, 0, 1000, 1000), &mut no_measurer(), &mut arena);
    assert_eq!(layout.area_of(1), Some(rect(0, 0, 100, 60)));
    assert_eq!(layout.area_of(2), Some(rect(0, 60, 100, 500)));
    assert_eq!(layout.area_of(6), Some(rect(0, 60, 7, 7)));

    let mut fresh = Torin::new();
    fresh.measure(0, rect(0, 0, 1000, 1000), &mut no_measurer(), &mut arena);
    for id in 0..7 {
        assert_eq!(layout.get(id), fresh.get(id));
    }
}

#[test]
fn a_deep_chain_is_measured() {
    let mut arena = Arena::new(boxed(pixels(1000), pixels(1000)));
    let mut last = 0;
    for _ in 0..400 {
        let node = boxed(Size::Percentage(Length::new(100)), Size::Fill).with_padding(
            torin::geometry::Gaps::new(1, 0, 0, 1),
        );
        last = arena.add_child(last, node).unwrap();
    }
    let mut layout = Torin::new();
    layout.measure(0, rect(0, 0, 1000, 1000), &mut no_measurer(), &mut arena);
    assert_eq!(layout.area_of(1), Some(rect(0, 0, 1000, 1000)));
    assert_eq!(layout.area_of(2), Some(rect(1, 1, 999, 999)));
    assert_eq!(layout.area_of(last), Some(rect(399, 399, 601, 601)));

    arena.set_node(last, boxed(pixels(3), pixels(4)));
    layout.invalidate(last);
    assert_eq!(layout.find_best_root(&mut arena), Some(last - 1));
    layout.measure(0, rect(0, 0, 1000, 1000), &mut no_measurer(), &mut arena);
    assert_eq!(layout.area_of(last), Some(rect(399, 399, 3, 4)));
    assert_eq!(layout.area_of(last - 1), Some(rect(398, 398, 602, 602)));
}
