//! The engine: the cache of measured areas, the set of invalidated nodes, and
//! the choice of the node from which the next pass starts.

use std::collections::HashMap;
use vstd::prelude::*;
use crate::custom_measurer::{rules_of, LayoutMeasurer, MeasureRules};
use crate::dom_adapter::{DOMAdapter, NodeId, TreeModel};
use crate::geometry::Area;
use crate::measure::{
    layout_node, lemma_layout_records_root, lemma_layout_stays_below, measure_node, Layout,
    NodeAreas, MAX_DEPTH,
};

verus! {

/// The node from which the subtree must be measured again once the rules of
/// `id` have changed, looking at most `steps` levels up.
///
/// A change of a node moves its siblings, so the pass starts at the parent. A
/// parent that is sized by its children changes too, so the search goes on
/// from it. A node without a parent, or whose parent is gone, stands for itself.
pub open spec fn scope_root(tree: TreeModel, id: NodeId, steps: nat) -> NodeId
    decreases steps,
{
    if steps == 0 {
        id
    } else {
        match tree.parent_of(id) {
            None => id,
            Some(p) => match tree.node_of(p) {
                None => id,
                Some(rules) => if rules.depends_on_inner() {
                    scope_root(tree, p, (steps - 1) as nat)
                } else {
                    p
                },
            },
        }
    }
}

/// Of two nodes, the one closer to the root; the first where neither is.
pub open spec fn shallower(tree: TreeModel, a: NodeId, b: NodeId) -> NodeId {
    match tree.height_of(b) {
        None => a,
        Some(hb) => match tree.height_of(a) {
            None => b,
            Some(ha) => if hb < ha {
                b
            } else {
                a
            },
        },
    }
}

/// One start for two: the closest common parent, or the shallower of the two
/// where the adapter names none.
pub open spec fn merge_roots(tree: TreeModel, a: NodeId, b: NodeId) -> NodeId {
    if a == b {
        a
    } else {
        match tree.closest_common_parent(a, b) {
            Some(p) => p,
            None => shallower(tree, a, b),
        }
    }
}

/// The start that covers `acc` and the invalidated nodes from the `i`-th on.
/// An id that names no live node is dropped.
pub open spec fn fold_dirty(tree: TreeModel, dirty: Seq<NodeId>, i: int, acc: Option<NodeId>) -> Option<
    NodeId,
>
    decreases dirty.len() - i,
{
    if i < 0 || i >= dirty.len() {
        acc
    } else if !tree.is_valid(dirty[i]) {
        fold_dirty(tree, dirty, i + 1, acc)
    } else {
        let scope = scope_root(tree, dirty[i], MAX_DEPTH as nat);
        fold_dirty(
            tree,
            dirty,
            i + 1,
            Some(
                match acc {
                    None => scope,
                    Some(candidate) => merge_roots(tree, candidate, scope),
                },
            ),
        )
    }
}

/// The start of the next pass: one node that covers every live invalidated
/// node, or, where there is none, the start of the pass before if it is still
/// live.
pub open spec fn best_root(tree: TreeModel, dirty: Seq<NodeId>, previous: Option<NodeId>) -> Option<
    NodeId,
> {
    match fold_dirty(tree, dirty, 0, None) {
        Some(root) => Some(root),
        None => match previous {
            Some(root) => if tree.is_valid(root) {
                Some(root)
            } else {
                None
            },
            None => None,
        },
    }
}

/// An engine as plain values.
pub struct EngineState {
    /// The cached entry of every node that was measured.
    pub results: Map<NodeId, NodeAreas>,
    /// The nodes invalidated since the last pass, in the order of the calls.
    pub dirty: Seq<NodeId>,
    /// The start chosen for the next pass, or that of the last one.
    pub root: Option<NodeId>,
}

impl EngineState {
    /// The state of a new engine: nothing cached, nothing invalidated, no
    /// start.
    pub open spec fn empty() -> EngineState {
        EngineState { results: Map::empty(), dirty: Seq::empty(), root: None }
    }

    /// The state after `id` was invalidated.
    pub open spec fn invalidated(self, id: NodeId) -> EngineState {
        EngineState {
            dirty: if self.dirty.contains(id) {
                self.dirty
            } else {
                self.dirty.push(id)
            },
            ..self
        }
    }

    /// The state after the start of the next pass was chosen.
    pub open spec fn rooted(self, tree: TreeModel) -> EngineState {
        EngineState { root: best_root(tree, self.dirty, self.root), ..self }
    }

    /// The node at which a pass starts when the host suggests `suggested`: the
    /// chosen start where it is live and has an entry to start from, else
    /// `suggested`.
    pub open spec fn pass_start(self, tree: TreeModel, suggested: NodeId) -> NodeId {
        match best_root(tree, self.dirty, self.root) {
            Some(chosen) => if chosen != suggested && tree.is_valid(chosen)
                && self.results.contains_key(chosen) {
                chosen
            } else {
                suggested
            },
            None => suggested,
        }
    }

    /// The content area of the parent against which the pass measures its
    /// start: `area` for the suggested root, else what the start's entry holds.
    pub open spec fn pass_parent(self, tree: TreeModel, suggested: NodeId, area: Area) -> Area {
        let start = self.pass_start(tree, suggested);
        if start == suggested {
            area
        } else {
            self.results[start].parent
        }
    }

    /// The area available to the start of the pass: `area` for the suggested
    /// root, else what the start's entry holds.
    pub open spec fn pass_available(self, tree: TreeModel, suggested: NodeId, area: Area) -> Area {
        let start = self.pass_start(tree, suggested);
        if start == suggested {
            area
        } else {
            self.results[start].available
        }
    }

    /// What the pass measures; `None` where the start is gone.
    pub open spec fn pass_layout(
        self,
        tree: TreeModel,
        rules: MeasureRules,
        suggested: NodeId,
        area: Area,
    ) -> Option<Layout> {
        let start = self.pass_start(tree, suggested);
        match tree.node_of(start) {
            Some(node) => Some(
                layout_node(
                    tree,
                    rules,
                    start,
                    node,
                    self.pass_parent(tree, suggested, area),
                    self.pass_available(tree, suggested, area),
                    MAX_DEPTH as nat,
                ),
            ),
            None => None,
        }
    }

    /// The state after a pass: the measured entries replace the cached ones,
    /// every other entry stays, no node is invalidated any more, and the start
    /// of the pass is remembered.
    pub open spec fn measured(
        self,
        tree: TreeModel,
        rules: MeasureRules,
        suggested: NodeId,
        area: Area,
    ) -> EngineState {
        EngineState {
            results: match self.pass_layout(tree, rules, suggested, area) {
                Some(layout) => self.results.union_prefer_right(layout.entries),
                None => self.results,
            },
            dirty: Seq::empty(),
            root: Some(self.pass_start(tree, suggested)),
        }
    }
}

/// The scope of a node covers the node.
pub proof fn lemma_scope_root_covers(tree: TreeModel, id: NodeId, steps: nat)
    ensures
        tree.covers(scope_root(tree, id, steps), id),
    decreases steps,
{
    tree.lemma_covers_self(id);
    if steps > 0 {
        match tree.parent_of(id) {
            None => {},
            Some(p) => {
                tree.lemma_parent_covers(p, id, id);
                match tree.node_of(p) {
                    None => {},
                    Some(rules) => {
                        if rules.depends_on_inner() {
                            lemma_scope_root_covers(tree, p, (steps - 1) as nat);
                            tree.lemma_covers_chain(
                                scope_root(tree, p, (steps - 1) as nat),
                                p,
                                id,
                            );
                        }
                    },
                }
            },
        }
    }
}

/// Where levels follow the parents, the scope of a node is the node itself
/// only if it has no parent with rules; any other scope has rules, and is
/// sized by its children only if it has no parent with rules.
pub proof fn lemma_scope_root_shape(tree: TreeModel, id: NodeId, steps: nat)
    requires
        tree.heights_follow_parents(),
        match tree.height_of(id) {
            Some(height) => height <= steps,
            None => true,
        },
    ensures
        ({
            let scope = scope_root(tree, id, steps);
            let top = match tree.parent_of(scope) {
                Some(p) => tree.node_of(p) is None,
                None => true,
            };
            if scope == id {
                top
            } else {
                match tree.node_of(scope) {
                    Some(rules) => rules.depends_on_inner() ==> top,
                    None => false,
                }
            }
        }),
    decreases steps,
{
    match tree.parent_of(id) {
        None => {},
        Some(p) => {
            assert(tree.height_of(id).unwrap() == tree.height_of(p).unwrap() + 1);
            match tree.node_of(p) {
                None => {},
                Some(rules) => {
                    if rules.depends_on_inner() {
                        lemma_scope_root_shape(tree, p, (steps - 1) as nat);
                        lemma_scope_root_covers(tree, p, (steps - 1) as nat);
                        let scope = scope_root(tree, p, (steps - 1) as nat);
                        if scope == id {
                            tree.lemma_covers_self(id);
                            tree.lemma_parent_covers(p, id, id);
                            tree.lemma_covers_one_way(p, id);
                        }
                    }
                },
            }
        },
    }
}

/// Where levels follow the parents, the scope of a node does not depend on
/// how many steps the search may take, as long as they reach the top.
pub proof fn lemma_scope_root_any_steps(tree: TreeModel, id: NodeId, steps: nat, more: nat)
    requires
        tree.heights_follow_parents(),
        match tree.height_of(id) {
            Some(height) => height <= steps && height <= more,
            None => true,
        },
    ensures
        scope_root(tree, id, steps) == scope_root(tree, id, more),
    decreases steps,
{
    match tree.parent_of(id) {
        None => {},
        Some(p) => {
            assert(tree.height_of(id).unwrap() == tree.height_of(p).unwrap() + 1);
            lemma_scope_root_any_steps(tree, p, (steps - 1) as nat, (more - 1) as nat);
        },
    }
}

/// Where parents of live nodes are live, the scope of a live node is live.
pub proof fn lemma_scope_root_is_live(tree: TreeModel, id: NodeId, steps: nat)
    requires
        tree.live_upward(),
        tree.is_valid(id),
    ensures
        tree.is_valid(scope_root(tree, id, steps)),
    decreases steps,
{
    if steps > 0 {
        match tree.parent_of(id) {
            None => {},
            Some(p) => {
                match tree.node_of(p) {
                    None => {},
                    Some(rules) => {
                        if rules.depends_on_inner() {
                            lemma_scope_root_is_live(tree, p, (steps - 1) as nat);
                        }
                    },
                }
            },
        }
    }
}

/// In a single tree of live nodes, folding the invalidated nodes from the
/// `i`-th on keeps covering what `acc` covers and comes to cover the scope of
/// every live one of them.
pub proof fn lemma_fold_dirty_covers(
    tree: TreeModel,
    dirty: Seq<NodeId>,
    i: int,
    acc: Option<NodeId>,
    k: int,
)
    requires
        tree.live_upward(),
        tree.common_parents_cover(),
        0 <= i <= dirty.len(),
        0 <= k < dirty.len(),
        tree.is_valid(dirty[k]),
        match acc {
            Some(candidate) => tree.is_valid(candidate) && (k < i ==> tree.covers(
                candidate,
                scope_root(tree, dirty[k], MAX_DEPTH as nat),
            )),
            None => k >= i,
        },
    ensures
        match fold_dirty(tree, dirty, i, acc) {
            Some(root) => tree.is_valid(root) && tree.covers(
                root,
                scope_root(tree, dirty[k], MAX_DEPTH as nat),
            ),
            None => false,
        },
    decreases dirty.len() - i,
{
    if i < dirty.len() {
        if !tree.is_valid(dirty[i]) {
            lemma_fold_dirty_covers(tree, dirty, i + 1, acc, k);
        } else {
            let wanted = scope_root(tree, dirty[k], MAX_DEPTH as nat);
            let scope = scope_root(tree, dirty[i], MAX_DEPTH as nat);
            lemma_scope_root_is_live(tree, dirty[i], MAX_DEPTH as nat);
            tree.lemma_covers_self(scope);
            let next = match acc {
                None => scope,
                Some(candidate) => merge_roots(tree, candidate, scope),
            };
            match acc {
                None => {},
                Some(candidate) => {
                    if candidate != scope {
                        let joined = tree.closest_common_parent(candidate, scope).unwrap();
                        assert(next == joined);
                        if k < i {
                            tree.lemma_covers_chain(joined, candidate, wanted);
                        }
                    }
                },
            }
            lemma_fold_dirty_covers(tree, dirty, i + 1, Some(next), k);
        }
    }
}

/// In a single tree of live nodes, the chosen start is never below the scope
/// of an invalidated node that is still live: it is that scope or lies above
/// it, and so covers the node itself.
pub proof fn lemma_best_root_covers(
    tree: TreeModel,
    dirty: Seq<NodeId>,
    previous: Option<NodeId>,
    k: int,
)
    requires
        tree.live_upward(),
        tree.common_parents_cover(),
        0 <= k < dirty.len(),
        tree.is_valid(dirty[k]),
    ensures
        match best_root(tree, dirty, previous) {
            Some(root) => tree.covers(root, scope_root(tree, dirty[k], MAX_DEPTH as nat))
                && tree.covers(root, dirty[k]),
            None => false,
        },
{
    lemma_fold_dirty_covers(tree, dirty, 0, None, k);
    lemma_scope_root_covers(tree, dirty[k], MAX_DEPTH as nat);
    tree.lemma_covers_chain(
        best_root(tree, dirty, previous).unwrap(),
        scope_root(tree, dirty[k], MAX_DEPTH as nat),
        dirty[k],
    );
}

/// A second pass right after a pass, with nothing invalidated in between and
/// the same suggested root and area, changes nothing.
pub proof fn lemma_measure_twice(
    state: EngineState,
    tree: TreeModel,
    rules: MeasureRules,
    suggested: NodeId,
    area: Area,
)
    ensures
        state.measured(tree, rules, suggested, area).measured(tree, rules, suggested, area)
            == state.measured(tree, rules, suggested, area),
{
    let once = state.measured(tree, rules, suggested, area);
    let twice = once.measured(tree, rules, suggested, area);
    let start = state.pass_start(tree, suggested);
    assert(once.pass_start(tree, suggested) == start);
    match tree.node_of(start) {
        Some(node) => {
            lemma_layout_records_root(
                tree,
                rules,
                start,
                node,
                state.pass_parent(tree, suggested, area),
                state.pass_available(tree, suggested, area),
                MAX_DEPTH as nat,
            );
        },
        None => {},
    }
    assert(once.pass_parent(tree, suggested, area) == state.pass_parent(tree, suggested, area));
    assert(once.pass_available(tree, suggested, area) == state.pass_available(
        tree,
        suggested,
        area,
    ));
    assert(twice.results =~= once.results);
}

/// Choosing the start before a pass does not change what the pass does.
pub proof fn lemma_rooted_then_measured(
    state: EngineState,
    tree: TreeModel,
    rules: MeasureRules,
    suggested: NodeId,
    area: Area,
)
    ensures
        state.rooted(tree).rooted(tree) == state.rooted(tree),
        state.rooted(tree).measured(tree, rules, suggested, area) == state.measured(
            tree,
            rules,
            suggested,
            area,
        ),
{
    let chosen = state.rooted(tree);
    assert(best_root(tree, chosen.dirty, chosen.root) == best_root(tree, state.dirty, state.root));
    assert(chosen.pass_start(tree, suggested) == state.pass_start(tree, suggested));
    assert(chosen.pass_parent(tree, suggested, area) == state.pass_parent(tree, suggested, area));
    assert(chosen.pass_available(tree, suggested, area) == state.pass_available(
        tree,
        suggested,
        area,
    ));
}

/// Two passes that start at the same node against the same areas measure the
/// same: every node that one records, the other records with the same entry,
/// whatever the two caches held before.
pub proof fn lemma_passes_agree(
    one: EngineState,
    other: EngineState,
    tree: TreeModel,
    rules: MeasureRules,
    suggested: NodeId,
    area: Area,
    id: NodeId,
)
    requires
        one.pass_start(tree, suggested) == other.pass_start(tree, suggested),
        one.pass_parent(tree, suggested, area) == other.pass_parent(tree, suggested, area),
        one.pass_available(tree, suggested, area) == other.pass_available(tree, suggested, area),
        match one.pass_layout(tree, rules, suggested, area) {
            Some(layout) => layout.entries.contains_key(id),
            None => false,
        },
    ensures
        one.pass_layout(tree, rules, suggested, area) == other.pass_layout(
            tree,
            rules,
            suggested,
            area,
        ),
        one.measured(tree, rules, suggested, area).results.contains_key(id),
        other.measured(tree, rules, suggested, area).results.contains_key(id),
        one.measured(tree, rules, suggested, area).results[id] == other.measured(
            tree,
            rules,
            suggested,
            area,
        ).results[id],
{
}

/// In a tree whose links agree, a pass leaves the entry of every node that the
/// start does not cover as it was.
pub proof fn lemma_pass_keeps_the_rest(
    state: EngineState,
    tree: TreeModel,
    rules: MeasureRules,
    suggested: NodeId,
    area: Area,
    id: NodeId,
)
    requires
        tree.links_agree(),
        !tree.covers(state.pass_start(tree, suggested), id),
    ensures
        state.measured(tree, rules, suggested, area).results.contains_key(id)
            == state.results.contains_key(id),
        state.results.contains_key(id) ==> state.measured(
            tree,
            rules,
            suggested,
            area,
        ).results[id] == state.results[id],
{
    let start = state.pass_start(tree, suggested);
    match tree.node_of(start) {
        Some(node) => {
            let parent = state.pass_parent(tree, suggested, area);
            let available = state.pass_available(tree, suggested, area);
            let layout = layout_node(tree, rules, start, node, parent, available, MAX_DEPTH as nat);
            if layout.entries.contains_key(id) {
                lemma_layout_stays_below(
                    tree,
                    rules,
                    start,
                    node,
                    parent,
                    available,
                    MAX_DEPTH as nat,
                    id,
                );
            }
        },
        None => {},
    }
}

/// After one live node is invalidated, the next pass starts at its scope,
/// provided the scope is live, has an entry and is not the suggested root, and in a
/// tree whose links agree the entry of every node outside the scope stays as
/// it was.
pub proof fn lemma_one_change_stays_local(
    state: EngineState,
    tree: TreeModel,
    rules: MeasureRules,
    changed: NodeId,
    suggested: NodeId,
    area: Area,
    id: NodeId,
)
    requires
        tree.links_agree(),
        state.dirty.len() == 0,
        tree.is_valid(changed),
        tree.is_valid(scope_root(tree, changed, MAX_DEPTH as nat)),
        scope_root(tree, changed, MAX_DEPTH as nat) != suggested,
        state.results.contains_key(scope_root(tree, changed, MAX_DEPTH as nat)),
        !tree.covers(scope_root(tree, changed, MAX_DEPTH as nat), id),
    ensures
        tree.covers(scope_root(tree, changed, MAX_DEPTH as nat), changed),
        state.invalidated(changed).measured(tree, rules, suggested, area).root == Some(
            scope_root(tree, changed, MAX_DEPTH as nat),
        ),
        state.invalidated(changed).measured(tree, rules, suggested, area).results.contains_key(id)
            == state.results.contains_key(id),
        state.results.contains_key(id) ==> state.invalidated(changed).measured(
            tree,
            rules,
            suggested,
            area,
        ).results[id] == state.results[id],
{
    let marked = state.invalidated(changed);
    let scope = scope_root(tree, changed, MAX_DEPTH as nat);
    lemma_scope_root_covers(tree, changed, MAX_DEPTH as nat);
    assert(marked.dirty =~= seq![changed]);
    assert(fold_dirty(tree, marked.dirty, 1, Some(scope)) == Some(scope));
    assert(fold_dirty(tree, marked.dirty, 0, None) == Some(scope));
    assert(marked.pass_start(tree, suggested) == scope);
    lemma_pass_keeps_the_rest(marked, tree, rules, suggested, area, id);
}

/// Whether `id` occurs in `ids`.
fn lists(ids: &Vec<NodeId>, id: NodeId) -> (found: bool)
    ensures
        found == ids@.contains(id),
{
    let mut i: usize = 0;
    while i < ids.len()
        invariant
            i <= ids.len(),
            forall|j: int| 0 <= j < i ==> ids@[j] != id,
        decreases ids.len() - i,
    {
        if ids[i] == id {
            return true;
        }
        i = i + 1;
    }
    false
}

/// Finds the node from which to measure again once `node_id` has changed.
pub fn find_scope_root<D: DOMAdapter>(adapter: &D, node_id: NodeId) -> (scope: NodeId)
    ensures
        scope == scope_root(adapter.tree(), node_id, MAX_DEPTH as nat),
{
    let mut current = node_id;
    let mut steps: usize = MAX_DEPTH;
    while steps > 0
        invariant
            scope_root(adapter.tree(), current, steps as nat) == scope_root(
                adapter.tree(),
                node_id,
                MAX_DEPTH as nat,
            ),
        decreases steps,
    {
        match adapter.parent_of(&current) {
            None => {
                return current;
            },
            Some(p) => match adapter.get_node(&p) {
                None => {
                    return current;
                },
                Some(rules) => {
                    if rules.does_depend_on_inner() {
                        current = p;
                        steps = steps - 1;
                    } else {
                        return p;
                    }
                },
            },
        }
    }
    current
}

/// Merges two starts into one.
pub fn merge<D: DOMAdapter>(adapter: &D, a: NodeId, b: NodeId) -> (merged: NodeId)
    ensures
        merged == merge_roots(adapter.tree(), a, b),
{
    if a == b {
        return a;
    }
    match adapter.closest_common_parent(&a, &b) {
        Some(p) => p,
        None => match adapter.height(&b) {
            None => a,
            Some(hb) => match adapter.height(&a) {
                None => b,
                Some(ha) => if hb < ha {
                    b
                } else {
                    a
                },
            },
        },
    }
}

/// The layout engine.
pub struct Torin {
    results: HashMap<NodeId, NodeAreas>,
    dirty: Vec<NodeId>,
    root: Option<NodeId>,
}

impl View for Torin {
    type V = EngineState;

    closed spec fn view(&self) -> EngineState {
        EngineState { results: self.results@, dirty: self.dirty@, root: self.root }
    }
}

impl Torin {
    /// No node is listed twice as invalidated. A new engine is so, and every
    /// operation keeps it so: the state after each of them is given in full,
    /// and `invalidate` lists no node a second time.
    pub open spec fn well_formed(&self) -> bool {
        self@.dirty.no_duplicates()
    }

    /// An engine with an empty cache, no invalidated node and no start.
    pub fn new() -> (engine: Self)
        ensures
            engine.well_formed(),
            engine@ == EngineState::empty(),
    {
        Torin { results: HashMap::new(), dirty: Vec::new(), root: None }
    }

    /// Marks a node as changed. Nothing is measured, and the id need not be
    /// known to anyone.
    pub fn invalidate(&mut self, node_id: NodeId)
        ensures
            final(self)@ == old(self)@.invalidated(node_id),
            final(self)@.dirty.contains(node_id),
            old(self).well_formed() ==> final(self).well_formed(),
    {
        if !lists(&self.dirty, node_id) {
            let ghost before = self.dirty@;
            self.dirty.push(node_id);
            assert(self.dirty@[before.len() as int] == node_id);
            assert(before.no_duplicates() ==> self.dirty@.no_duplicates()) by {
                if before.no_duplicates() {
                    assert forall|i: int, j: int|
                        0 <= i < self.dirty@.len() && 0 <= j < self.dirty@.len() && i
                            != j implies self.dirty@[i] != self.dirty@[j] by {
                        if i < before.len() {
                            assert(before[i] == self.dirty@[i]);
                        }
                        if j < before.len() {
                            assert(before[j] == self.dirty@[j]);
                        }
                    }
                }
            }
        }
    }

    /// Chooses the start of the next pass: one node that covers every
    /// invalidated node that is still live. Where there is none, the start of
    /// the pass before stays if it is still live.
    pub fn find_best_root<D: DOMAdapter>(&mut self, adapter: &mut D) -> (root: Option<NodeId>)
        ensures
            final(adapter).tree() == old(adapter).tree(),
            final(self)@ == old(self)@.rooted(old(adapter).tree()),
            root == final(self)@.root,
            old(self).well_formed() ==> final(self).well_formed(),
    {
        let ghost tree = adapter.tree();
        let mut candidate: Option<NodeId> = None;
        let mut i: usize = 0;
        while i < self.dirty.len()
            invariant
                i <= self.dirty.len(),
                *self == *old(self),
                adapter.tree() == tree,
                fold_dirty(tree, self.dirty@, i as int, candidate) == fold_dirty(
                    tree,
                    self.dirty@,
                    0,
                    None,
                ),
            decreases self.dirty.len() - i,
        {
            let id = self.dirty[i];
            if adapter.is_node_valid(&id) {
                let scope = find_scope_root(adapter, id);
                candidate = Some(
                    match candidate {
                        None => scope,
                        Some(current) => merge(adapter, current, scope),
                    },
                );
            }
            i = i + 1;
        }
        match candidate {
            Some(root) => {
                self.root = Some(root);
            },
            None => {
                let stale = match self.root {
                    Some(previous) => !adapter.is_node_valid(&previous),
                    None => false,
                };
                if stale {
                    self.root = None;
                }
            },
        }
        self.root
    }

    /// Measures the tree again from the chosen start and forgets the
    /// invalidated nodes.
    ///
    /// The start is chosen as `find_best_root` does. Where it differs from
    /// `suggested_root_id`, is live and has an entry, the pass measures it
    /// against what that entry holds; otherwise the pass starts at
    /// `suggested_root_id` with
    /// `suggested_root_area` as both its parent's content and its available
    /// area. Returns the area of the start, or `None` if the start is gone.
    pub fn measure<D: DOMAdapter, M: LayoutMeasurer>(
        &mut self,
        suggested_root_id: NodeId,
        suggested_root_area: Area,
        measurer: &mut Option<M>,
        adapter: &mut D,
    ) -> (area: Option<Area>)
        ensures
            final(adapter).tree() == old(adapter).tree(),
            rules_of(*final(measurer)) == rules_of(*old(measurer)),
            final(self)@ == old(self)@.measured(
                old(adapter).tree(),
                rules_of(*old(measurer)),
                suggested_root_id,
                suggested_root_area,
            ),
            area == match old(self)@.pass_layout(
                old(adapter).tree(),
                rules_of(*old(measurer)),
                suggested_root_id,
                suggested_root_area,
            ) {
                Some(layout) => Some(layout.area),
                None => None,
            },
            final(self).well_formed(),
    {
        let ghost tree = adapter.tree();
        let ghost before = self@;
        let chosen = self.find_best_root(adapter);
        let mut start = suggested_root_id;
        let mut parent = suggested_root_area;
        let mut available = suggested_root_area;
        match chosen {
            Some(root) => {
                if root != suggested_root_id && adapter.is_node_valid(&root) {
                    match self.results.get(&root) {
                        Some(entry) => {
                            start = root;
                            parent = entry.parent;
                            available = entry.available;
                        },
                        None => {},
                    }
                }
            },
            None => {},
        }
        assert(start == before.pass_start(tree, suggested_root_id));
        let area = match adapter.get_node(&start) {
            Some(node) => Some(
                measure_node(
                    start,
                    &node,
                    &mut self.results,
                    &parent,
                    &available,
                    measurer,
                    adapter,
                    MAX_DEPTH,
                ),
            ),
            None => None,
        };
        self.dirty.clear();
        self.root = Some(start);
        assert(self@.dirty =~= Seq::<NodeId>::empty());
        area
    }

    /// The cached area of a node, if it was ever measured.
    pub fn area_of(&self, node_id: NodeId) -> (area: Option<Area>)
        ensures
            area == if self@.results.contains_key(node_id) {
                Some(self@.results[node_id].area)
            } else {
                None
            },
    {
        match self.results.get(&node_id) {
            Some(entry) => Some(entry.area),
            None => None,
        }
    }

    /// The cached entry of a node, if it was ever measured.
    pub fn get(&self, node_id: NodeId) -> (entry: Option<NodeAreas>)
        ensures
            entry == if self@.results.contains_key(node_id) {
                Some(self@.results[node_id])
            } else {
                None
            },
    {
        match self.results.get(&node_id) {
            Some(entry) => Some(*entry),
            None => None,
        }
    }

    /// Whether a node was invalidated since the last pass.
    pub fn is_dirty(&self, node_id: NodeId) -> (dirty: bool)
        ensures
            dirty == self@.dirty.contains(node_id),
    {
        lists(&self.dirty, node_id)
    }

    /// The start chosen for the next pass, or that of the last one.
    pub fn root_candidate(&self) -> (root: Option<NodeId>)
        ensures
            root == self@.root,
    {
        self.root
    }
}

} // verus!
