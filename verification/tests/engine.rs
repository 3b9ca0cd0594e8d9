use std::collections::HashMap;

use torin::custom_measurer::{LayoutMeasurer, NoMeasurer};
use torin::direction::DirectionMode;
use torin::dom_adapter::{DOMAdapter, NodeId};
use torin::geometry::{Area, Length, Point2D, Rect, Size2D};
use torin::node::Node;
use torin::size::Size;
use torin::torin::{find_scope_root, merge, Torin};

struct TestingDOM {
    mapper: HashMap<usize, (Option<usize>, Vec<usize>, u16, Node)>,
}

impl TestingDOM {
    fn new() -> Self {
        TestingDOM { mapper: HashMap::new() }
    }

    fn add(&mut self, node_id: usize, parent: Option<usize>, children: Vec<usize>, node: Node) {
        let depth = parent.map(|p| self.mapper.get(&p).unwrap().2 + 1).unwrap_or(0);
        self.mapper.insert(node_id, (parent, children, depth, node));
    }

    fn set_node(&mut self, node_id: usize, node: Node) {
        self.mapper.get_mut(&node_id).unwrap().3 = node;
    }

    fn remove(&mut self, node_id: usize) {
        self.mapper.remove(&node_id);
    }
}

impl DOMAdapter for TestingDOM {
    fn children_of(&mut self, node_id: &NodeId) -> Vec<NodeId> {
        self.mapper.get(node_id).map(|c| c.1.clone()).unwrap_or_default()
    }

    fn parent_of(&self, node_id: &NodeId) -> Option<NodeId> {
        self.mapper.get(node_id).and_then(|c| c.0)
    }

    fn height(&self, node_id: &NodeId) -> Option<u16> {
        self.mapper.get(node_id).map(|c| c.2)
    }

    fn get_node(&self, node_id: &NodeId) -> Option<Node> {
        self.mapper.get(node_id).map(|c| c.3)
    }

    fn is_node_valid(&mut self, node_id: &NodeId) -> bool {
        self.mapper.contains_key(node_id)
    }

    fn closest_common_parent(&self, node_id_a: &NodeId, node_id_b: &NodeId) -> Option<NodeId> {
        let mut a = *node_id_a;
        let mut b = *node_id_b;
        while a != b {
            let ha = self.height(&a)?;
            let hb = self.height(&b)?;
            if ha >= hb {
                a = self.parent_of(&a)?;
            } else {
                b = self.parent_of(&b)?;
            }
        }
        Some(a)
    }
}

/// Measures nothing itself, and notes every node it is asked about.
struct Visits {
    visited: Vec<NodeId>,
}

impl LayoutMeasurer for Visits {
    fn measure(
        &mut self,
        node_id: NodeId,
        _node: &Node,
        _area: &Area,
        _parent_size: &Area,
        _available_parent_area: &Area,
    ) -> Option<Area> {
        self.visited.push(node_id);
        None
    }
}

fn visits() -> Option<Visits> {
    Some(Visits { visited: Vec::new() })
}

fn rect(x: i32, y: i32, width: i32, height: i32) -> Area {
    Rect::new(Point2D::new(x, y), Size2D::new(width, height))
}

fn pixels(value: i32) -> Size {
    Size::Pixels(Length::new(value))
}

fn boxed(width: Size, height: Size) -> Node {
    Node::from_size_and_direction(width, height, DirectionMode::Vertical)
}

fn no_measurer() -> Option<NoMeasurer> {
    None
}

fn window() -> Area {
    rect(0, 0, 1000, 1000)
}

/// 0 holds 1 and 2; 1 holds 3 and 4; 2 holds 5 and 6. Every node is 10 high.
fn two_branches() -> TestingDOM {
    let mut dom = TestingDOM::new();
    dom.add(0, None, vec![1, 2], boxed(pixels(500), pixels(500)));
    dom.add(1, Some(0), vec![3, 4], boxed(pixels(100), pixels(100)));
    dom.add(2, Some(0), vec![5, 6], boxed(pixels(100), pixels(100)));
    dom.add(3, Some(1), vec![], boxed(pixels(10), pixels(10)));
    dom.add(4, Some(1), vec![], boxed(pixels(10), pixels(10)));
    dom.add(5, Some(2), vec![], boxed(pixels(10), pixels(10)));
    dom.add(6, Some(2), vec![], boxed(pixels(10), pixels(10)));
    dom
}

fn entries(layout: &Torin, ids: std::ops::Range<usize>) -> Vec<Option<torin::measure::NodeAreas>> {
    ids.map(|id| layout.get(id)).collect()
}

#[test]
fn a_new_engine_is_empty() {
    let layout = Torin::new();
    assert_eq!(layout.area_of(0), None);
    assert_eq!(layout.get(0), None);
    assert_eq!(layout.root_candidate(), None);
    assert!(!layout.is_dirty(0));
}

#[test]
fn invalidate_only_marks() {
    let mut dom = two_branches();
    let mut layout = Torin::new();
    layout.measure(0, window(), &mut no_measurer(), &mut dom);
    let before = entries(&layout, 0..7);
    layout.invalidate(3);
    layout.invalidate(3);
    layout.invalidate(77);
    assert!(layout.is_dirty(3));
    assert!(layout.is_dirty(77));
    assert!(!layout.is_dirty(4));
    assert_eq!(entries(&layout, 0..7), before);
    assert_eq!(layout.area_of(77), None);
    assert_eq!(layout.root_candidate(), Some(0));
}

#[test]
fn best_root_of_nothing_is_the_previous_one() {
    let mut dom = two_branches();
    let mut layout = Torin::new();
    assert_eq!(layout.find_best_root(&mut dom), None);
    layout.measure(0, window(), &mut no_measurer(), &mut dom);
    assert_eq!(layout.find_best_root(&mut dom), Some(0));
    assert_eq!(layout.root_candidate(), Some(0));
}

#[test]
fn best_root_drops_nodes_that_are_gone() {
    let mut dom = two_branches();
    let mut layout = Torin::new();
    layout.measure(0, window(), &mut no_measurer(), &mut dom);
    layout.invalidate(77);
    assert_eq!(layout.find_best_root(&mut dom), Some(0));
    dom.remove(6);
    layout.invalidate(6);
    layout.invalidate(3);
    assert_eq!(layout.find_best_root(&mut dom), Some(1));
}

#[test]
fn best_root_is_the_parent() {
    let mut dom = two_branches();
    let mut layout = Torin::new();
    layout.invalidate(3);
    assert_eq!(layout.find_best_root(&mut dom), Some(1));
    assert_eq!(layout.find_best_root(&mut dom), Some(1));
    assert!(layout.is_dirty(3));
}

#[test]
fn best_root_of_the_tree_root_is_itself() {
    let mut dom = two_branches();
    let mut layout = Torin::new();
    layout.invalidate(0);
    assert_eq!(layout.find_best_root(&mut dom), Some(0));
}

#[test]
fn best_root_goes_above_parents_sized_by_their_children() {
    let mut dom = TestingDOM::new();
    dom.add(0, None, vec![1], boxed(pixels(500), pixels(500)));
    dom.add(1, Some(0), vec![2], boxed(pixels(100), Size::Inner));
    dom.add(2, Some(1), vec![3], boxed(Size::Inner, pixels(100)));
    dom.add(3, Some(2), vec![4], boxed(pixels(10), pixels(10)));
    dom.add(4, Some(3), vec![], boxed(pixels(10), pixels(10)));
    let mut layout = Torin::new();
    layout.invalidate(3);
    assert_eq!(layout.find_best_root(&mut dom), Some(0));
    let mut layout = Torin::new();
    layout.invalidate(4);
    assert_eq!(layout.find_best_root(&mut dom), Some(3));
}

#[test]
fn best_root_stops_at_a_root_sized_by_its_children() {
    let mut dom = TestingDOM::new();
    dom.add(0, None, vec![1], boxed(Size::Inner, Size::Inner));
    dom.add(1, Some(0), vec![], boxed(pixels(10), pixels(10)));
    let mut layout = Torin::new();
    layout.invalidate(1);
    assert_eq!(layout.find_best_root(&mut dom), Some(0));
}

#[test]
fn best_root_covers_every_dirty_node() {
    let mut dom = two_branches();
    let mut layout = Torin::new();
    layout.invalidate(3);
    layout.invalidate(4);
    assert_eq!(layout.find_best_root(&mut dom), Some(1));
    layout.invalidate(5);
    assert_eq!(layout.find_best_root(&mut dom), Some(0));
}

#[test]
fn best_root_without_a_common_parent_is_the_shallower() {
    let mut dom = two_branches();
    dom.add(10, None, vec![11], boxed(pixels(500), pixels(500)));
    dom.add(11, Some(10), vec![12], boxed(pixels(50), pixels(50)));
    dom.add(12, Some(11), vec![], boxed(pixels(5), pixels(5)));
    let mut layout = Torin::new();
    layout.invalidate(12);
    layout.invalidate(1);
    assert_eq!(layout.find_best_root(&mut dom), Some(0));
    let mut layout = Torin::new();
    layout.invalidate(3);
    layout.invalidate(12);
    assert_eq!(layout.find_best_root(&mut dom), Some(1));
}

#[test]
fn measure_forgets_the_dirty_nodes() {
    let mut dom = two_branches();
    let mut layout = Torin::new();
    layout.measure(0, window(), &mut no_measurer(), &mut dom);
    layout.invalidate(3);
    layout.invalidate(5);
    let area = layout.measure(0, window(), &mut no_measurer(), &mut dom);
    assert_eq!(area, Some(rect(0, 0, 500, 500)));
    assert!(!layout.is_dirty(3));
    assert!(!layout.is_dirty(5));
    assert_eq!(layout.root_candidate(), Some(0));
}

#[test]
fn measure_twice_changes_nothing() {
    let mut dom = two_branches();
    let mut layout = Torin::new();
    layout.measure(0, window(), &mut no_measurer(), &mut dom);
    let first = entries(&layout, 0..7);
    layout.measure(0, window(), &mut no_measurer(), &mut dom);
    assert_eq!(entries(&layout, 0..7), first);
    dom.set_node(4, boxed(pixels(20), pixels(20)));
    layout.invalidate(4);
    layout.measure(0, window(), &mut no_measurer(), &mut dom);
    let second = entries(&layout, 0..7);
    assert_eq!(layout.root_candidate(), Some(1));
    layout.measure(0, window(), &mut no_measurer(), &mut dom);
    assert_eq!(entries(&layout, 0..7), second);
    assert_eq!(layout.root_candidate(), Some(1));
}

#[test]
fn an_invalidated_root_is_measured_against_the_new_area() {
    let mut dom = TestingDOM::new();
    dom.add(0, None, vec![1], boxed(Size::Fill, Size::Fill));
    dom.add(1, Some(0), vec![], boxed(Size::Percentage(Length::new(50)), Size::Fill));
    let mut layout = Torin::new();
    layout.measure(0, rect(0, 0, 800, 600), &mut no_measurer(), &mut dom);
    assert_eq!(layout.area_of(1), Some(rect(0, 0, 400, 600)));
    layout.invalidate(0);
    layout.measure(0, rect(0, 0, 1024, 768), &mut no_measurer(), &mut dom);
    assert_eq!(layout.area_of(0), Some(rect(0, 0, 1024, 768)));
    assert_eq!(layout.area_of(1), Some(rect(0, 0, 512, 768)));
}

#[test]
fn only_the_subtree_of_the_start_is_measured() {
    let mut dom = two_branches();
    let mut layout = Torin::new();
    layout.measure(0, window(), &mut no_measurer(), &mut dom);
    let before = entries(&layout, 0..7);
    assert_eq!(layout.area_of(4), Some(rect(0, 10, 10, 10)));
    assert_eq!(layout.area_of(5), Some(rect(0, 100, 10, 10)));

    dom.set_node(3, boxed(pixels(10), pixels(50)));
    dom.set_node(5, boxed(pixels(10), pixels(90)));
    layout.invalidate(3);
    let mut measurer = visits();
    let area = layout.measure(0, window(), &mut measurer, &mut dom);

    assert_eq!(measurer.unwrap().visited, vec![1, 3, 4]);
    assert_eq!(area, Some(rect(0, 0, 100, 100)));
    assert_eq!(layout.area_of(3), Some(rect(0, 0, 10, 50)));
    assert_eq!(layout.area_of(4), Some(rect(0, 50, 10, 10)));
    let after = entries(&layout, 0..7);
    for id in [0, 1, 2, 5, 6] {
        assert_eq!(after[id], before[id]);
    }
}

#[test]
fn a_pass_from_below_agrees_with_a_pass_from_the_root() {
    let mut dom = TestingDOM::new();
    dom.add(0, None, vec![1, 2], boxed(pixels(500), pixels(500)));
    dom.add(1, Some(0), vec![3], boxed(pixels(100), Size::Inner));
    dom.add(2, Some(0), vec![5, 6], boxed(pixels(100), Size::Fill));
    dom.add(3, Some(1), vec![4], boxed(pixels(50), pixels(40)));
    dom.add(4, Some(3), vec![], boxed(pixels(10), pixels(10)));
    dom.add(5, Some(2), vec![], boxed(pixels(10), Size::Fill));
    dom.add(6, Some(2), vec![], boxed(pixels(10), pixels(10)));
    let mut layout = Torin::new();
    layout.measure(0, window(), &mut no_measurer(), &mut dom);
    assert_eq!(layout.area_of(2), Some(rect(0, 40, 100, 500)));

    dom.set_node(6, boxed(pixels(10), pixels(30)));
    layout.invalidate(6);
    let mut measurer = visits();
    layout.measure(0, window(), &mut measurer, &mut dom);
    assert_eq!(measurer.unwrap().visited, vec![2, 5, 6]);

    dom.set_node(3, boxed(pixels(50), pixels(70)));
    layout.invalidate(3);
    let mut measurer = visits();
    layout.measure(0, window(), &mut measurer, &mut dom);
    assert_eq!(measurer.unwrap().visited, vec![0, 1, 3, 4, 2, 5, 6]);

    let mut fresh = Torin::new();
    fresh.measure(0, window(), &mut no_measurer(), &mut dom);
    assert_eq!(entries(&layout, 0..7), entries(&fresh, 0..7));
    assert_eq!(layout.area_of(1), Some(rect(0, 0, 100, 70)));
    assert_eq!(layout.area_of(5), Some(rect(0, 70, 10, 470)));
    assert_eq!(layout.area_of(6), Some(rect(0, 540, 10, 30)));
}

#[test]
fn a_start_without_an_entry_falls_back_to_the_suggested_root() {
    let mut dom = two_branches();
    let mut layout = Torin::new();
    layout.invalidate(3);
    let mut measurer = visits();
    let area = layout.measure(0, window(), &mut measurer, &mut dom);
    assert_eq!(area, Some(rect(0, 0, 500, 500)));
    assert_eq!(measurer.unwrap().visited, vec![0, 1, 3, 4, 2, 5, 6]);
    assert_eq!(layout.root_candidate(), Some(0));
}

#[test]
fn a_start_that_is_gone_falls_back_to_the_suggested_root() {
    let mut dom = two_branches();
    let mut layout = Torin::new();
    layout.measure(0, window(), &mut no_measurer(), &mut dom);
    layout.invalidate(3);
    layout.measure(0, window(), &mut no_measurer(), &mut dom);
    assert_eq!(layout.root_candidate(), Some(1));

    dom.remove(1);
    dom.mapper.get_mut(&0).unwrap().1 = vec![2];
    assert_eq!(layout.find_best_root(&mut dom), None);
    let mut measurer = visits();
    let area = layout.measure(0, window(), &mut measurer, &mut dom);
    assert_eq!(area, Some(rect(0, 0, 500, 500)));
    assert_eq!(measurer.unwrap().visited, vec![0, 2, 5, 6]);
    assert_eq!(layout.area_of(2), Some(rect(0, 0, 100, 100)));
    assert_eq!(layout.root_candidate(), Some(0));
}

/// 0 holds 1 and 2; 1, sized by its children, holds 3 and 4; 3 holds 5; 4 holds 6 and 7.
fn nested() -> TestingDOM {
    let mut dom = TestingDOM::new();
    dom.add(0, None, vec![1, 2], boxed(pixels(500), pixels(500)));
    dom.add(1, Some(0), vec![3, 4], boxed(Size::Inner, Size::Inner));
    dom.add(2, Some(0), vec![], boxed(pixels(20), Size::Fill));
    dom.add(3, Some(1), vec![5], boxed(pixels(50), pixels(40)));
    dom.add(
        4,
        Some(1),
        vec![6, 7],
        Node::from_size_and_direction(pixels(60), pixels(30), DirectionMode::Horizontal),
    );
    dom.add(5, Some(3), vec![], boxed(pixels(5), pixels(5)));
    dom.add(6, Some(4), vec![], boxed(pixels(6), pixels(6)));
    dom.add(7, Some(4), vec![], boxed(Size::Fill, pixels(7)));
    dom
}

#[test]
fn scope_of_a_node() {
    let dom = nested();
    assert_eq!(find_scope_root(&dom, 0), 0);
    assert_eq!(find_scope_root(&dom, 5), 3);
    assert_eq!(find_scope_root(&dom, 7), 4);
    assert_eq!(find_scope_root(&dom, 3), 0);
    assert_eq!(find_scope_root(&dom, 1), 0);
    assert_eq!(find_scope_root(&dom, 99), 99);
}

#[test]
fn merged_starts() {
    let dom = nested();
    assert_eq!(merge(&dom, 3, 3), 3);
    assert_eq!(merge(&dom, 3, 4), 1);
    assert_eq!(merge(&dom, 5, 2), 0);
    assert_eq!(merge(&dom, 6, 4), 4);
    assert_eq!(merge(&dom, 3, 99), 3);
    assert_eq!(merge(&dom, 99, 3), 3);
    assert_eq!(merge(&dom, 98, 99), 98);
}

#[test]
fn several_changes_are_measured_in_one_pass() {
    let mut dom = nested();
    let mut layout = Torin::new();
    layout.measure(0, window(), &mut no_measurer(), &mut dom);
    assert_eq!(layout.area_of(1), Some(rect(0, 0, 60, 70)));
    assert_eq!(layout.area_of(7), Some(rect(6, 40, 54, 7)));

    dom.set_node(5, boxed(pixels(15), pixels(15)));
    dom.set_node(6, boxed(pixels(26), pixels(16)));
    layout.invalidate(5);
    layout.invalidate(6);
    assert_eq!(layout.find_best_root(&mut dom), Some(1));
    let mut measurer = visits();
    layout.measure(0, window(), &mut measurer, &mut dom);
    assert_eq!(measurer.unwrap().visited, vec![1, 3, 5, 4, 6, 7]);
    assert_eq!(layout.area_of(1), Some(rect(0, 0, 60, 70)));
    assert_eq!(layout.area_of(5), Some(rect(0, 0, 15, 15)));
    assert_eq!(layout.area_of(6), Some(rect(0, 40, 26, 16)));
    assert_eq!(layout.area_of(7), Some(rect(26, 40, 34, 7)));

    let mut fresh = Torin::new();
    fresh.measure(0, window(), &mut no_measurer(), &mut dom);
    assert_eq!(entries(&layout, 0..8), entries(&fresh, 0..8));
}

fn grow(dom: &mut TestingDOM, next: &mut usize, parent: usize, level: usize, depth: usize, wide: usize, middle: &mut usize) -> Vec<usize> {
    if level == depth - 1 {
        return vec![];
    }
    let mut ids = Vec::new();
    for i in 0..wide {
        let id = *next;
        *next += 1;
        if level + 1 == depth / 2 && i == wide / 2 && *middle == 0 {
            *middle = id;
        }
        ids.push(id);
    }
    for id in ids.iter() {
        dom.add(*id, Some(parent), vec![], boxed(pixels(100), pixels(100)));
        let children = grow(dom, next, *id, level + 1, depth, wide, middle);
        dom.mapper.get_mut(id).unwrap().1 = children;
    }
    ids
}

#[test]
fn one_change_in_a_large_tree_visits_few_nodes() {
    let depth = 5;
    let wide = 15;
    let mut dom = TestingDOM::new();
    dom.add(
        0,
        None,
        vec![],
        boxed(Size::Percentage(Length::new(100)), Size::Percentage(Length::new(100))),
    );
    let mut next = 1;
    let mut middle = 0;
    let children = grow(&mut dom, &mut next, 0, 0, depth, wide, &mut middle);
    dom.mapper.get_mut(&0).unwrap().1 = children;
    let size = 1 + 15 + 225 + 3375 + 50625;
    assert_eq!(dom.mapper.len(), size);
    assert_eq!(dom.height(&middle), Some(2));

    let mut layout = Torin::new();
    let mut measurer = visits();
    layout.find_best_root(&mut dom);
    layout.measure(0, window(), &mut measurer, &mut dom);
    let full = measurer.unwrap().visited.len();
    assert_eq!(full, size);

    let outside = dom.children_of(&0)[wide - 1];
    let untouched = layout.get(outside);
    dom.set_node(middle, boxed(Size::Inner, pixels(10)));
    dom.set_node(outside, boxed(pixels(1), pixels(1)));
    layout.invalidate(middle);
    let mut measurer = visits();
    let start = layout.find_best_root(&mut dom);
    layout.measure(0, window(), &mut measurer, &mut dom);
    let partial = measurer.unwrap().visited.len();

    assert_eq!(start, dom.parent_of(&middle));
    assert_eq!(partial, 1 + 15 + 225 + 3375);
    assert!(partial * 15 <= full);
    assert_eq!(layout.get(outside), untouched);
    assert_eq!(layout.area_of(middle).map(|a| a.size), Some(Size2D::new(100, 10)));
}
