//! A tree held in a vector: a ready-made adapter for hosts that have no tree
//! of their own.

use vstd::prelude::*;
use crate::dom_adapter::{DOMAdapter, NodeId, TreeModel};
use crate::node::Node;

verus! {

/// One node of an arena.
struct Slot {
    parent: Option<NodeId>,
    children: Vec<NodeId>,
    height: u16,
    node: Node,
}

/// One node of an arena, as plain values.
pub struct SlotView {
    /// The parent; `None` for the root.
    pub parent: Option<NodeId>,
    /// The children in layout order.
    pub children: Seq<NodeId>,
    /// The distance from the root.
    pub height: u16,
    /// The sizing rules.
    pub node: Node,
}

impl View for Slot {
    type V = SlotView;

    closed spec fn view(&self) -> SlotView {
        SlotView {
            parent: self.parent,
            children: self.children@,
            height: self.height,
            node: self.node,
        }
    }
}

/// A tree whose nodes are named by the order in which they were added: the
/// root is 0, and every other node was added below an earlier one.
pub struct Arena {
    slots: Vec<Slot>,
}

impl View for Arena {
    type V = Seq<SlotView>;

    closed spec fn view(&self) -> Seq<SlotView> {
        Seq::new(self.slots@.len(), |i: int| self.slots@[i]@)
    }
}

/// The nearest node above both `a` and `b`, found by stepping up from the
/// deeper of the two until they meet.
pub open spec fn nearest_common(slots: Seq<SlotView>, a: NodeId, b: NodeId) -> Option<NodeId>
    decreases a + b,
{
    if a >= slots.len() || b >= slots.len() {
        None
    } else if a == b {
        Some(a)
    } else if slots[a as int].height >= slots[b as int].height {
        match slots[a as int].parent {
            Some(p) => if p < a {
                nearest_common(slots, p, b)
            } else {
                None
            },
            None => None,
        }
    } else {
        match slots[b as int].parent {
            Some(p) => if p < b {
                nearest_common(slots, a, p)
            } else {
                None
            },
            None => None,
        }
    }
}

/// The answers that an arena gives.
pub open spec fn model_of(slots: Seq<SlotView>) -> TreeModel {
    TreeModel {
        children: |id: NodeId|
            if id < slots.len() {
                slots[id as int].children
            } else {
                Seq::empty()
            },
        parent: |id: NodeId|
            if id < slots.len() {
                slots[id as int].parent
            } else {
                None
            },
        height: |id: NodeId|
            if id < slots.len() {
                Some(slots[id as int].height)
            } else {
                None
            },
        node: |id: NodeId|
            if id < slots.len() {
                Some(slots[id as int].node)
            } else {
                None
            },
        valid: |id: NodeId| id < slots.len(),
        common_parent: |a: NodeId, b: NodeId| nearest_common(slots, a, b),
    }
}

/// Whether the `i`-th slot hangs one level below an earlier slot.
pub open spec fn hangs_below_earlier(slots: Seq<SlotView>, i: int) -> bool {
    match slots[i].parent {
        Some(p) => p < i && slots[i].height == slots[p as int].height + 1,
        None => false,
    }
}

/// Whether the `j`-th child of the `i`-th slot is a slot that names the `i`-th
/// as its parent.
pub open spec fn child_points_back(slots: Seq<SlotView>, i: int, j: int) -> bool {
    let child = slots[i].children[j];
    child < slots.len() && slots[child as int].parent == Some(i as usize)
}

/// The shape of an arena: slot 0 is the root, every other slot hangs one level
/// below an earlier slot, every child listed by a slot names that slot as
/// its parent, and no slot lists a child twice.
pub open spec fn is_tree(slots: Seq<SlotView>) -> bool {
    &&& slots.len() > 0
    &&& slots[0].parent is None
    &&& slots[0].height == 0
    &&& forall|i: int| 0 < i < slots.len() ==> #[trigger] hangs_below_earlier(slots, i)
    &&& forall|i: int, j: int|
        0 <= i < slots.len() && 0 <= j < slots[i].children.len() ==> #[trigger] child_points_back(
            slots,
            i,
            j,
        )
    &&& forall|i: int, j: int, k: int|
        0 <= i < slots.len() && 0 <= j < k < slots[i].children.len()
            ==> #[trigger] slots[i].children[j] != #[trigger] slots[i].children[k]
}

/// The slots after a node with the rules `node` was added below `parent`.
pub open spec fn with_child(slots: Seq<SlotView>, parent: NodeId, node: Node) -> Seq<SlotView> {
    slots.update(
        parent as int,
        SlotView {
            children: slots[parent as int].children.push(slots.len() as usize),
            ..slots[parent as int]
        },
    ).push(
        SlotView {
            parent: Some(parent),
            children: Seq::empty(),
            height: (slots[parent as int].height + 1) as u16,
            node,
        },
    )
}

/// The slots after the rules of `id` were replaced by `node`.
pub open spec fn with_node(slots: Seq<SlotView>, id: NodeId, node: Node) -> Seq<SlotView> {
    slots.update(id as int, SlotView { node, ..slots[id as int] })
}

/// Adding a child keeps the shape of a tree.
proof fn lemma_with_child_is_tree(slots: Seq<SlotView>, parent: NodeId, node: Node)
    requires
        is_tree(slots),
        parent < slots.len(),
        slots[parent as int].height < u16::MAX,
        slots.len() < usize::MAX,
    ensures
        is_tree(with_child(slots, parent, node)),
{
    let after = with_child(slots, parent, node);
    assert forall|i: int| 0 < i < after.len() implies #[trigger] hangs_below_earlier(after, i) by {
        if i < slots.len() {
            assert(hangs_below_earlier(slots, i));
        }
    }
    assert forall|i: int, j: int|
        0 <= i < after.len() && 0 <= j < after[i].children.len() implies #[trigger] child_points_back(
        after,
        i,
        j,
    ) by {
        if i == parent && j == slots[i].children.len() {
        } else {
            assert(child_points_back(slots, i, j));
        }
    }
    assert forall|i: int, j: int, k: int|
        0 <= i < after.len() && 0 <= j < k < after[i].children.len()
        implies #[trigger] after[i].children[j] != #[trigger] after[i].children[k] by {
        if i == parent && k == slots[i].children.len() {
            assert(child_points_back(slots, i, j));
        } else {
            assert(slots[i].children[j] != slots[i].children[k]);
        }
    }
}

/// Replacing the rules of a node keeps the shape of a tree.
proof fn lemma_with_node_is_tree(slots: Seq<SlotView>, id: NodeId, node: Node)
    requires
        is_tree(slots),
        id < slots.len(),
    ensures
        is_tree(with_node(slots, id, node)),
{
    let after = with_node(slots, id, node);
    assert forall|i: int| 0 < i < after.len() implies #[trigger] hangs_below_earlier(after, i) by {
        assert(hangs_below_earlier(slots, i));
    }
    assert forall|i: int, j: int|
        0 <= i < after.len() && 0 <= j < after[i].children.len() implies #[trigger] child_points_back(
        after,
        i,
        j,
    ) by {
        assert(child_points_back(slots, i, j));
    }
    assert forall|i: int, j: int, k: int|
        0 <= i < after.len() && 0 <= j < k < after[i].children.len()
        implies #[trigger] after[i].children[j] != #[trigger] after[i].children[k] by {
        assert(slots[i].children[j] != slots[i].children[k]);
    }
}

/// In an arena, the nearest common node of two nodes is a node above both.
proof fn lemma_nearest_common_covers(slots: Seq<SlotView>, a: NodeId, b: NodeId)
    requires
        is_tree(slots),
        a < slots.len(),
        b < slots.len(),
    ensures
        match nearest_common(slots, a, b) {
            Some(c) => c < slots.len() && model_of(slots).covers(c, a) && model_of(slots).covers(
                c,
                b,
            ),
            None => false,
        },
    decreases a + b,
{
    let tree = model_of(slots);
    if a == b {
        tree.lemma_covers_self(a);
    } else if slots[a as int].height >= slots[b as int].height {
        if b > 0 {
            assert(hangs_below_earlier(slots, b as int));
        }
        assert(a > 0);
        assert(hangs_below_earlier(slots, a as int));
        let p = slots[a as int].parent.unwrap();
        lemma_nearest_common_covers(slots, p, b);
        let c = nearest_common(slots, p, b).unwrap();
        tree.lemma_covers_self(a);
        tree.lemma_parent_covers(p, a, a);
        tree.lemma_covers_chain(c, p, a);
    } else {
        assert(b > 0);
        assert(hangs_below_earlier(slots, b as int));
        let p = slots[b as int].parent.unwrap();
        lemma_nearest_common_covers(slots, a, p);
        let c = nearest_common(slots, a, p).unwrap();
        tree.lemma_covers_self(b);
        tree.lemma_parent_covers(p, b, b);
        tree.lemma_covers_chain(c, p, b);
    }
}

/// An arena answers as a single tree of live nodes whose links agree.
pub proof fn lemma_arena_is_well_formed(slots: Seq<SlotView>)
    requires
        is_tree(slots),
    ensures
        model_of(slots).well_formed(),
{
    let tree = model_of(slots);
    assert forall|id: NodeId, i: int| 0 <= i < tree.children_of(id).len() implies tree.parent_of(
        #[trigger] tree.children_of(id)[i],
    ) == Some(id) by {
        assert(id < slots.len());
        assert(child_points_back(slots, id as int, i));
    }
    assert forall|id: NodeId| tree.is_valid(id) implies match #[trigger] tree.parent_of(id) {
        Some(p) => tree.is_valid(p),
        None => true,
    } by {
        if id > 0 {
            assert(hangs_below_earlier(slots, id as int));
        }
    }
    assert forall|a: NodeId, b: NodeId| tree.is_valid(a) && tree.is_valid(b) implies match #[trigger] tree.closest_common_parent(
        a,
        b,
    ) {
        Some(c) => tree.is_valid(c) && tree.covers(c, a) && tree.covers(c, b),
        None => false,
    } by {
        lemma_nearest_common_covers(slots, a, b);
    }
}

/// An arena answers as a proper tree: its links agree, every level is one
/// below the one above, and no child is listed twice.
pub proof fn lemma_arena_is_proper(slots: Seq<SlotView>)
    requires
        is_tree(slots),
    ensures
        model_of(slots).is_proper(),
{
    let tree = model_of(slots);
    lemma_arena_is_well_formed(slots);
    assert forall|id: NodeId| true implies match #[trigger] tree.parent_of(id) {
        Some(p) => match (tree.height_of(p), tree.height_of(id)) {
            (Some(above), Some(below)) => below == above + 1,
            _ => false,
        },
        None => true,
    } by {
        if 0 < id < slots.len() {
            assert(hangs_below_earlier(slots, id as int));
        }
    }
    assert forall|id: NodeId, i: int, j: int|
        0 <= i < j < tree.children_of(id).len() implies #[trigger] tree.children_of(id)[i]
        != #[trigger] tree.children_of(id)[j] by {
        assert(slots[id as int].children[i] != slots[id as int].children[j]);
    }
}

/// A copy of a list of ids.
fn copy_ids(ids: &Vec<NodeId>) -> (copy: Vec<NodeId>)
    ensures
        copy@ == ids@,
{
    let mut copy: Vec<NodeId> = Vec::new();
    let mut i: usize = 0;
    while i < ids.len()
        invariant
            i <= ids.len(),
            copy@ == ids@.take(i as int),
        decreases ids.len() - i,
    {
        copy.push(ids[i]);
        assert(ids@.take(i + 1) =~= ids@.take(i as int).push(ids@[i as int]));
        i = i + 1;
    }
    assert(ids@.take(ids@.len() as int) =~= ids@);
    copy
}

impl Arena {
    /// Whether the arena has the shape of a tree.
    pub open spec fn well_formed(&self) -> bool {
        is_tree(self@)
    }

    /// A tree of one node, the root, which gets the id 0.
    pub fn new(root: Node) -> (arena: Self)
        ensures
            arena.well_formed(),
            arena@ == seq![
                SlotView { parent: None, children: Seq::empty(), height: 0, node: root },
            ],
    {
        let mut slots: Vec<Slot> = Vec::new();
        slots.push(Slot { parent: None, children: Vec::new(), height: 0, node: root });
        let arena = Arena { slots };
        assert(arena@ =~= seq![
            SlotView { parent: None, children: Seq::empty(), height: 0, node: root },
        ]);
        arena
    }

    /// How many nodes the tree holds.
    pub fn len(&self) -> (len: usize)
        ensures
            len == self@.len(),
    {
        self.slots.len()
    }

    /// Adds a node as the last child of `parent` and returns its id, the next
    /// free one. Nothing is added, and `None` returned, where `parent` is not
    /// in the tree or already lies at the greatest height.
    pub fn add_child(&mut self, parent: NodeId, node: Node) -> (added: Option<NodeId>)
        ensures
            old(self).well_formed() ==> final(self).well_formed(),
            match added {
                Some(id) => {
                    &&& parent < old(self)@.len()
                    &&& old(self)@[parent as int].height < u16::MAX
                    &&& id == old(self)@.len()
                    &&& final(self)@ == with_child(old(self)@, parent, node)
                },
                None => {
                    &&& parent >= old(self)@.len() || old(self)@[parent as int].height == u16::MAX
                    &&& final(self)@ == old(self)@
                },
            },
    {
        if parent >= self.slots.len() {
            return None;
        }
        let height = self.slots[parent].height;
        if height == u16::MAX {
            return None;
        }
        let id = self.slots.len();
        let ghost before = self@;
        self.slots[parent].children.push(id);
        self.slots.push(
            Slot { parent: Some(parent), children: Vec::new(), height: height + 1, node },
        );
        let count = self.slots.len();
        proof {
            assert(count == before.len() + 1);
            assert(self@ =~= with_child(before, parent, node));
            if is_tree(before) {
                lemma_with_child_is_tree(before, parent, node);
            }
        }
        Some(id)
    }

    /// Replaces the sizing rules of a node. Returns whether the node is in the
    /// tree; nothing changes where it is not.
    pub fn set_node(&mut self, node_id: NodeId, node: Node) -> (known: bool)
        ensures
            old(self).well_formed() ==> final(self).well_formed(),
            known == (node_id < old(self)@.len()),
            final(self)@ == if known {
                with_node(old(self)@, node_id, node)
            } else {
                old(self)@
            },
    {
        if node_id >= self.slots.len() {
            return false;
        }
        let ghost before = self@;
        self.slots[node_id].node = node;
        proof {
            assert(self@ =~= with_node(before, node_id, node));
            if is_tree(before) {
                lemma_with_node_is_tree(before, node_id, node);
            }
        }
        true
    }
}

impl DOMAdapter for Arena {
    open spec fn tree(&self) -> TreeModel {
        model_of(self@)
    }

    fn children_of(&mut self, node_id: &NodeId) -> (children: Vec<NodeId>) {
        if *node_id < self.slots.len() {
            copy_ids(&self.slots[*node_id].children)
        } else {
            Vec::new()
        }
    }

    fn parent_of(&self, node_id: &NodeId) -> (parent: Option<NodeId>) {
        if *node_id < self.slots.len() {
            self.slots[*node_id].parent
        } else {
            None
        }
    }

    fn height(&self, node_id: &NodeId) -> (height: Option<u16>) {
        if *node_id < self.slots.len() {
            Some(self.slots[*node_id].height)
        } else {
            None
        }
    }

    fn get_node(&self, node_id: &NodeId) -> (node: Option<Node>) {
        if *node_id < self.slots.len() {
            Some(self.slots[*node_id].node)
        } else {
            None
        }
    }

    fn is_node_valid(&mut self, node_id: &NodeId) -> (valid: bool) {
        *node_id < self.slots.len()
    }

    fn closest_common_parent(&self, node_id_a: &NodeId, node_id_b: &NodeId) -> (parent: Option<
        NodeId,
    >) {
        let mut a = *node_id_a;
        let mut b = *node_id_b;
        if a >= self.slots.len() || b >= self.slots.len() {
            return None;
        }
        while a != b
            invariant
                a < self.slots.len(),
                b < self.slots.len(),
                nearest_common(self@, a, b) == nearest_common(self@, *node_id_a, *node_id_b),
            decreases a + b,
        {
            if self.slots[a].height >= self.slots[b].height {
                match self.slots[a].parent {
                    Some(p) => {
                        if p < a {
                            a = p;
                        } else {
                            return None;
                        }
                    },
                    None => {
                        return None;
                    },
                }
            } else {
                match self.slots[b].parent {
                    Some(p) => {
                        if p < b {
                            b = p;
                        } else {
                            return None;
                        }
                    },
                    None => {
                        return None;
                    },
                }
            }
        }
        Some(a)
    }
}

} // verus!
