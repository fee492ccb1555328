//! Navigation over a dependency forest: which nodes are expanded, which one
//! is selected, and what a search has found.

use std::collections::HashSet;
use vstd::prelude::*;

use crate::dependency::node_ok;
use crate::dependency::DependencyTree;
use crate::dependency::NodeId;
use crate::dependency::TreeView;
use crate::text::chars_of;
use crate::text::contains_chars;
use crate::text::has_infix;
use crate::text::lower_chars;
use crate::text::lowered;
use crate::text::trim;
use crate::text::search_text;
use crate::viewport::Area;
use crate::viewport::Viewport;
use crate::visible::at_depth;
use crate::visible::distinct_ids;
use crate::visible::is_first_at;
use crate::visible::lemma_children_siblings;
use crate::visible::lemma_closed_walk;
use crate::visible::lemma_collapse_run;
use crate::visible::lemma_expand_run;
use crate::visible::lemma_first_unique;
use crate::visible::lemma_level_bound;
use crate::visible::lemma_roots_siblings;
use crate::visible::lemma_visible_entries;
use crate::visible::occurs;
use crate::visible::VisibleNode;

verus! {

/// Mathematical content of a [`TreeWidgetState`], but for its cache.
pub struct StateView {
    /// The expanded nodes.
    pub open: Set<NodeId>,
    /// The selected node.
    pub selected: Option<NodeId>,
    /// The viewport that was reported last.
    pub viewport: Viewport,
    /// The active search, in lower case.
    pub query: Option<Seq<char>>,
    /// The nodes that the active search has found, in arena order.
    pub matches: Seq<NodeId>,
}

/// The node ids whose indexes `indexes` holds.
pub open spec fn ids_at(indexes: Set<usize>) -> Set<NodeId> {
    Set::new(|id: NodeId| indexes.contains(id.0))
}

/// The selection that `sel` settles to when `v` is on display: `sel` where
/// it is on display, else the first entry, and none when nothing is on
/// display.
pub open spec fn settled(v: Seq<VisibleNode>, sel: Option<NodeId>) -> Option<NodeId> {
    if v.len() == 0 {
        None
    } else {
        match sel {
            Some(id) => if occurs(v, id) {
                sel
            } else {
                Some(v[0].id)
            },
            None => Some(v[0].id),
        }
    }
}

/// The first position of `v` that stands for `id`.
pub open spec fn position(v: Seq<VisibleNode>, id: NodeId) -> int {
    choose|i: int| is_first_at(v, id, i)
}

/// `i`, pulled into `0..len` where it lies outside.
pub open spec fn clamped(i: int, len: int) -> int {
    if i < 0 {
        0
    } else if i >= len {
        len - 1
    } else {
        i
    }
}

/// The selection after the settled selection moved by `delta` entries of
/// `v`, as far as the ends of `v` allow.
pub open spec fn moved(v: Seq<VisibleNode>, sel: Option<NodeId>, delta: int) -> Option<NodeId> {
    match settled(v, sel) {
        Some(id) => Some(v[clamped(position(v, id) + delta, v.len() as int)].id),
        None => None,
    }
}

/// The number of entries that a page key moves over in a viewport of
/// `height` lines: as many as the viewport shows.
pub open spec fn page_step(height: usize) -> int {
    height as int
}

/// The number of entries that a half-page key moves over in a viewport of
/// `height` lines: half as many as the viewport shows.
pub open spec fn half_page_step(height: usize) -> int {
    height as int / 2
}

impl TreeView {
    /// The nodes among which `id` is a sibling: the children of its parent,
    /// or the roots.
    pub open spec fn siblings_of(self, id: NodeId) -> Seq<NodeId> {
        match self.parent(id) {
            Some(p) => self.children(p),
            None => self.roots,
        }
    }

    /// The selection after a move from `sel` to the sibling `delta` places
    /// further: `sel` itself where there is no such sibling.
    pub open spec fn sibling_moved(self, sel: Option<NodeId>, delta: int) -> Option<NodeId> {
        match sel {
            Some(id) => match self.siblings_of(id).index_of_first(id) {
                Some(i) => if self.contains(id) && 0 <= i + delta < self.siblings_of(id).len() {
                    Some(self.siblings_of(id)[i + delta])
                } else {
                    sel
                },
                None => sel,
            },
            None => None,
        }
    }

    /// The selection after a move from `sel` to its parent: `sel` itself
    /// where it has none.
    pub open spec fn parent_moved(self, sel: Option<NodeId>) -> Option<NodeId> {
        match sel {
            Some(id) => match self.parent(id) {
                Some(p) => Some(p),
                None => sel,
            },
            None => None,
        }
    }

    /// The nodes that have children and fewer than `max_depth - 1` ancestors.
    pub open spec fn within_depth(self, max_depth: usize) -> Set<NodeId> {
        Set::new(
            |id: NodeId|
                self.contains(id) && self.children(id).len() > 0 && self.level(id) + 1 < max_depth,
        )
    }
}

/// Navigation state of a tree widget.
///
/// The state does not own the forest: every operation takes it by reference.
/// A state must be used with one forest only, which [`TreeWidgetState::wf`]
/// expresses.
#[derive(Debug)]
pub struct TreeWidgetState {
    /// Indexes of the expanded nodes.
    open: HashSet<usize>,
    /// Currently selected node.
    pub selected: Option<NodeId>,
    /// The viewport that was reported last.
    viewport: Viewport,
    /// The visible sequence as it was computed last.
    visible_cache: Vec<VisibleNode>,
    /// Whether the cache is outdated.
    dirty: bool,
    /// The active search, in lower case.
    search_query: Option<Vec<char>>,
    /// The nodes that the active search has found.
    search_matches: Vec<NodeId>,
}

/// Returns the first position of `v` that stands for `id`.
pub fn find_entry(v: &Vec<VisibleNode>, id: NodeId) -> (r: Option<usize>)
    ensures
        r.is_some() == occurs(v@, id),
        r matches Some(i) ==> is_first_at(v@, id, i as int) && position(v@, id) == i,
{
    let mut i: usize = 0;
    while i < v.len()
        invariant
            i <= v.len(),
            forall|j: int| 0 <= j < i ==> (#[trigger] v@[j]).id != id,
        decreases v.len() - i,
    {
        if v[i].id == id {
            proof {
                assert(is_first_at(v@, id, i as int));
                lemma_first_unique(v@, id, i as int, position(v@, id));
            }
            return Some(i);
        }
        i += 1;
    }
    None
}

/// Returns the first position of `ids` that holds `id`.
pub fn find_id(ids: &[NodeId], id: NodeId) -> (r: Option<usize>)
    ensures
        r.is_some() == ids@.contains(id),
        r matches Some(i) ==> i < ids@.len() && ids@[i as int] == id && ids@.index_of_first(id)
            == Some(i as int),
        r.is_none() ==> ids@.index_of_first(id).is_none(),
{
    let mut i: usize = 0;
    while i < ids.len()
        invariant
            i <= ids.len(),
            forall|j: int| 0 <= j < i ==> ids@[j] != id,
        decreases ids.len() - i,
    {
        if ids[i] == id {
            proof {
                ids@.index_of_first_ensures(id);
            }
            return Some(i);
        }
        i += 1;
    }
    proof {
        ids@.index_of_first_ensures(id);
    }
    None
}

/// Appends to `out` the walk of the trees rooted at `ids`.
fn collect_list(
    tree: &DependencyTree,
    open: &HashSet<usize>,
    ids: &[NodeId],
    Ghost(above): Ghost<int>,
    depth: usize,
    out: &mut Vec<VisibleNode>,
)
    requires
        tree@.wf(),
        tree@.siblings(ids@, above, depth),
    ensures
        final(out)@ == old(out)@ + tree@.visible_list(ids_at(open@), ids@, above, depth),
    decreases tree@.nodes.len() - above, ids@.len(),
{
    let ghost t = tree@;
    let ghost shown = ids_at(open@);
    let ghost start = out@;
    let mut k: usize = 0;
    assert(ids@.skip(0) =~= ids@);
    while k < ids.len()
        invariant
            k <= ids.len(),
            t == tree@,
            t.wf(),
            shown == ids_at(open@),
            t.siblings(ids@, above, depth),
            out@ + t.visible_list(shown, ids@.skip(k as int), above, depth) == start
                + t.visible_list(shown, ids@, above, depth),
        decreases ids.len() - k,
    {
        let id = ids[k];
        let ghost before = out@;
        let ghost tail_ids = ids@.skip(k as int);
        assert(tail_ids[0] == id);
        assert(tail_ids.drop_first() =~= ids@.skip(k + 1));
        out.push(VisibleNode { id, depth });
        if open.contains(&id.0) {
            match tree.node(id) {
                Some(node) => {
                    proof {
                        lemma_children_siblings(t, id, depth);
                    }
                    collect_list(
                        tree,
                        open,
                        node.children().as_slice(),
                        Ghost(id.0 as int),
                        depth + 1,
                        out,
                    );
                },
                None => {},
            }
        }
        proof {
            let below = if shown.contains(id) && above < id.0 < t.nodes.len() {
                t.visible_list(shown, t.nodes[id.0 as int].children, id.0 as int, (depth + 1) as usize)
            } else {
                Seq::empty()
            };
            let rest = t.visible_list(shown, ids@.skip(k + 1), above, depth);
            assert(t.visible_list(shown, tail_ids, above, depth) == seq![VisibleNode { id, depth }]
                + below + rest);
            assert(out@ =~= before + seq![VisibleNode { id, depth }] + below);
            assert(out@ + rest =~= before + (seq![VisibleNode { id, depth }] + below + rest));
        }
        k += 1;
    }
    assert(ids@.skip(k as int) =~= Seq::<NodeId>::empty());
}

impl View for TreeWidgetState {
    type V = StateView;

    closed spec fn view(&self) -> StateView {
        StateView {
            open: ids_at(self.open@),
            selected: self.selected,
            viewport: self.viewport,
            query: match self.search_query {
                Some(q) => Some(q@),
                None => None,
            },
            matches: self.search_matches@,
        }
    }
}

impl TreeWidgetState {
    /// The cached visible sequence.
    pub closed spec fn cached(&self) -> Seq<VisibleNode> {
        self.visible_cache@
    }

    /// Whether the cache is up to date.
    pub closed spec fn is_fresh(&self) -> bool {
        !self.dirty
    }

    /// Whether the state fits `tree`: a cache that claims to be up to date
    /// holds the visible sequence of `tree` under the expanded nodes.
    pub open spec fn wf(&self, tree: TreeView) -> bool {
        self.is_fresh() ==> self.cached() == tree.visible(self@.open)
    }

    /// Creates the state of a widget that has not been drawn yet: nothing
    /// is expanded, selected or searched for.
    pub fn new() -> (r: TreeWidgetState)
        ensures
            r@.open == Set::<NodeId>::empty(),
            r@.selected.is_none(),
            r@.query.is_none(),
            r@.matches == Seq::<NodeId>::empty(),
            r@.viewport == Viewport::blank(),
            !r.is_fresh(),
            forall|tree: TreeView| r.wf(tree),
    {
        let empty = Area { x: 0, y: 0, width: 0, height: 0 };
        let r = TreeWidgetState {
            open: HashSet::new(),
            selected: None,
            viewport: Viewport::new(empty, empty),
            visible_cache: Vec::new(),
            dirty: true,
            search_query: None,
            search_matches: Vec::new(),
        };
        assert(r@.open =~= Set::<NodeId>::empty());
        r
    }

    /// Brings the cache up to date.
    fn refresh(&mut self, tree: &DependencyTree)
        requires
            old(self).wf(tree@),
        ensures
            final(self)@ == old(self)@,
            final(self).is_fresh(),
            final(self).wf(tree@),
            tree@.wf(),
    {
        let roots = tree.roots();
        if self.dirty {
            self.visible_cache.clear();
            proof {
                lemma_roots_siblings(tree@);
            }
            collect_list(tree, &self.open, roots, Ghost(-1), 0, &mut self.visible_cache);
            self.dirty = false;
        }
    }

    /// Returns the visible sequence: the pre-order walk of the forest that
    /// enters the children of expanded nodes only.
    pub fn visible_nodes(&mut self, tree: &DependencyTree) -> (r: &[VisibleNode])
        requires
            old(self).wf(tree@),
        ensures
            r@ == tree@.visible(old(self)@.open),
            final(self)@ == old(self)@,
            final(self).is_fresh(),
            final(self).wf(tree@),
    {
        self.refresh(tree);
        self.visible_cache.as_slice()
    }

    /// Makes the selection name a node that is on display, falling back to
    /// the first one. Returns whether anything is selected afterwards.
    pub fn ensure_selection(&mut self, tree: &DependencyTree) -> (r: bool)
        requires
            old(self).wf(tree@),
        ensures
            final(self)@ == (StateView {
                selected: settled(tree@.visible(old(self)@.open), old(self)@.selected),
                ..old(self)@
            }),
            r == final(self)@.selected.is_some(),
            final(self).is_fresh(),
            final(self).wf(tree@),
            tree@.wf(),
    {
        self.refresh(tree);
        if self.visible_cache.len() == 0 {
            self.selected = None;
            return false;
        }
        if let Some(selected) = self.selected {
            if find_entry(&self.visible_cache, selected).is_some() {
                return true;
            }
        }
        self.selected = Some(self.visible_cache[0].id);
        true
    }

    /// Moves the selection by `step` entries of the visible sequence,
    /// forward or backward, as far as its ends allow.
    fn move_by(&mut self, tree: &DependencyTree, forward: bool, step: usize)
        requires
            old(self).wf(tree@),
        ensures
            final(self)@ == (StateView {
                selected: moved(
                    tree@.visible(old(self)@.open),
                    old(self)@.selected,
                    if forward {
                        step as int
                    } else {
                        -(step as int)
                    },
                ),
                ..old(self)@
            }),
            final(self).is_fresh(),
            final(self).wf(tree@),
    {
        if !self.ensure_selection(tree) {
            return;
        }
        let selected = match self.selected {
            Some(id) => id,
            None => {
                return;
            },
        };
        let current = match find_entry(&self.visible_cache, selected) {
            Some(i) => i,
            None => {
                return;
            },
        };
        let last = self.visible_cache.len() - 1;
        let target = if forward {
            if step >= last - current {
                last
            } else {
                current + step
            }
        } else {
            current.saturating_sub(step)
        };
        proof {
            let v = tree@.visible(old(self)@.open);
            assert(settled(v, Some(selected)) == Some(selected));
        }
        self.selected = Some(self.visible_cache[target].id);
    }

    /// Moves the selection to the next visible node; stays at the last one.
    pub fn select_next(&mut self, tree: &DependencyTree)
        requires
            old(self).wf(tree@),
        ensures
            final(self)@ == (StateView {
                selected: moved(tree@.visible(old(self)@.open), old(self)@.selected, 1),
                ..old(self)@
            }),
            final(self).is_fresh(),
            final(self).wf(tree@),
    {
        self.move_by(tree, true, 1);
    }

    /// Moves the selection to the previous visible node; stays at the first
    /// one.
    pub fn select_previous(&mut self, tree: &DependencyTree)
        requires
            old(self).wf(tree@),
        ensures
            final(self)@ == (StateView {
                selected: moved(tree@.visible(old(self)@.open), old(self)@.selected, -1),
                ..old(self)@
            }),
            final(self).is_fresh(),
            final(self).wf(tree@),
    {
        self.move_by(tree, false, 1);
    }

    /// Moves the selection up by the height of the viewport that was
    /// reported last.
    pub fn page_up(&mut self, tree: &DependencyTree)
        requires
            old(self).wf(tree@),
        ensures
            final(self)@ == (StateView {
                selected: moved(
                    tree@.visible(old(self)@.open),
                    old(self)@.selected,
                    -page_step(old(self)@.viewport.height),
                ),
                ..old(self)@
            }),
            final(self).is_fresh(),
            final(self).wf(tree@),
    {
        let step = self.viewport.height;
        self.move_by(tree, false, step);
    }

    /// Moves the selection down by the height of the viewport that was
    /// reported last.
    pub fn page_down(&mut self, tree: &DependencyTree)
        requires
            old(self).wf(tree@),
        ensures
            final(self)@ == (StateView {
                selected: moved(
                    tree@.visible(old(self)@.open),
                    old(self)@.selected,
                    page_step(old(self)@.viewport.height),
                ),
                ..old(self)@
            }),
            final(self).is_fresh(),
            final(self).wf(tree@),
    {
        let step = self.viewport.height;
        self.move_by(tree, true, step);
    }

    /// Moves the selection up by half the height of the viewport that was
    /// reported last.
    pub fn half_page_up(&mut self, tree: &DependencyTree)
        requires
            old(self).wf(tree@),
        ensures
            final(self)@ == (StateView {
                selected: moved(
                    tree@.visible(old(self)@.open),
                    old(self)@.selected,
                    -half_page_step(old(self)@.viewport.height),
                ),
                ..old(self)@
            }),
            final(self).is_fresh(),
            final(self).wf(tree@),
    {
        let step = self.viewport.height / 2;
        self.move_by(tree, false, step);
    }

    /// Moves the selection down by half the height of the viewport that was
    /// reported last.
    pub fn half_page_down(&mut self, tree: &DependencyTree)
        requires
            old(self).wf(tree@),
        ensures
            final(self)@ == (StateView {
                selected: moved(
                    tree@.visible(old(self)@.open),
                    old(self)@.selected,
                    half_page_step(old(self)@.viewport.height),
                ),
                ..old(self)@
            }),
            final(self).is_fresh(),
            final(self).wf(tree@),
    {
        let step = self.viewport.height / 2;
        self.move_by(tree, true, step);
    }

    /// Returns the position of the selection in the visible sequence, after
    /// the selection has settled.
    pub fn selected_position(&mut self, tree: &DependencyTree) -> (r: Option<usize>)
        requires
            old(self).wf(tree@),
        ensures
            final(self)@ == (StateView {
                selected: settled(tree@.visible(old(self)@.open), old(self)@.selected),
                ..old(self)@
            }),
            r.is_some() == final(self)@.selected.is_some(),
            r matches Some(i) ==> is_first_at(
                tree@.visible(old(self)@.open),
                final(self)@.selected.unwrap(),
                i as int,
            ),
            final(self).is_fresh(),
            final(self).wf(tree@),
    {
        if !self.ensure_selection(tree) {
            return None;
        }
        match self.selected {
            Some(selected) => find_entry(&self.visible_cache, selected),
            None => None,
        }
    }

    /// Records the viewport that the widget was drawn with.
    pub fn update_viewport(&mut self, viewport: Viewport)
        ensures
            final(self)@ == (StateView { viewport, ..old(self)@ }),
            final(self).is_fresh() == old(self).is_fresh(),
            final(self).cached() == old(self).cached(),
    {
        self.viewport = viewport;
    }

    /// Returns whether the state fits `tree`, by walking the forest anew
    /// where the cache claims to be up to date.
    pub fn fits(&self, tree: &DependencyTree) -> (r: bool)
        ensures
            r == self.wf(tree@),
    {
        if self.dirty {
            return true;
        }
        let mut walk: Vec<VisibleNode> = Vec::new();
        let roots = tree.roots();
        proof {
            lemma_roots_siblings(tree@);
        }
        collect_list(tree, &self.open, roots, Ghost(-1), 0, &mut walk);
        if walk.len() != self.visible_cache.len() {
            return false;
        }
        let mut i: usize = 0;
        while i < walk.len()
            invariant
                i <= walk.len(),
                self.is_fresh(),
                walk@ == tree@.visible(self@.open),
                walk.len() == self.visible_cache.len(),
                forall|j: int| 0 <= j < i ==> walk@[j] == self.visible_cache@[j],
            decreases walk.len() - i,
        {
            let cached = self.visible_cache[i];
            if walk[i].id != cached.id || walk[i].depth != cached.depth {
                return false;
            }
            i += 1;
        }
        assert(walk@ =~= self.visible_cache@);
        true
    }

    /// Returns the visible sequence as it was computed last.
    pub fn cached_nodes(&self) -> (r: &[VisibleNode])
        ensures
            r@ == self.cached(),
    {
        self.visible_cache.as_slice()
    }

    /// Returns the selected node.
    pub fn selected(&self) -> (r: Option<NodeId>)
        ensures
            r == self@.selected,
    {
        self.selected
    }

    /// Selects `id`, or nothing.
    pub fn select(&mut self, id: Option<NodeId>)
        ensures
            final(self)@ == (StateView { selected: id, ..old(self)@ }),
            final(self).is_fresh() == old(self).is_fresh(),
            final(self).cached() == old(self).cached(),
    {
        self.selected = id;
    }

    /// Returns the viewport that was reported last.
    pub fn viewport(&self) -> (r: Viewport)
        ensures
            r == self@.viewport,
    {
        self.viewport
    }

    /// Returns whether `id` is expanded.
    pub fn is_open(&self, id: NodeId) -> (r: bool)
        ensures
            r == self@.open.contains(id),
    {
        self.open.contains(&id.0)
    }

    /// Returns the number of expanded nodes.
    pub fn open_count(&self) -> (r: usize)
        ensures
            r == self.open_indexes().len(),
            self@.open == ids_at(self.open_indexes()),
    {
        self.open.len()
    }

    /// The indexes of the expanded nodes.
    pub closed spec fn open_indexes(&self) -> Set<usize> {
        self.open@
    }
}

/// The first position of `v` at or behind `from` whose node is among
/// `matches`.
pub open spec fn first_match_from(v: Seq<VisibleNode>, matches: Seq<NodeId>, from: int) -> Option<
    int,
>
    decreases v.len() - from,
{
    if from < 0 || from >= v.len() {
        None
    } else if matches.contains(v[from].id) {
        Some(from)
    } else {
        first_match_from(v, matches, from + 1)
    }
}

/// The position that a search moves the selection to from position `from`:
/// the first match at or behind it, else the first match of all.
pub open spec fn match_target(v: Seq<VisibleNode>, matches: Seq<NodeId>, from: int) -> Option<int> {
    match first_match_from(v, matches, from) {
        Some(i) => Some(i),
        None => first_match_from(v, matches, 0),
    }
}

impl TreeView {
    /// The state after the selected node was expanded: a closed node with
    /// children opens; from an open one the selection steps to its first
    /// child; a leaf stays as it is.
    pub open spec fn expanded(self, st: StateView) -> StateView {
        match settled(self.visible(st.open), st.selected) {
            Some(id) => if self.children(id).len() == 0 {
                StateView { selected: Some(id), ..st }
            } else if !st.open.contains(id) {
                StateView { open: st.open.insert(id), selected: Some(id), ..st }
            } else {
                StateView { selected: Some(self.children(id)[0]), ..st }
            },
            None => StateView { selected: None, ..st },
        }
    }

    /// The state after the selected node was collapsed: an open node with
    /// children closes; from any other node the selection steps to its
    /// parent, if it has one.
    pub open spec fn collapsed(self, st: StateView) -> StateView {
        match settled(self.visible(st.open), st.selected) {
            Some(id) => if self.children(id).len() > 0 && st.open.contains(id) {
                StateView { open: st.open.remove(id), selected: Some(id), ..st }
            } else {
                StateView { selected: self.parent_moved(Some(id)), ..st }
            },
            None => StateView { selected: None, ..st },
        }
    }

    /// The nodes among the first `n` of the arena whose name, in lower case,
    /// holds `needle`.
    pub open spec fn matching_upto(self, needle: Seq<char>, n: nat) -> Seq<NodeId>
        decreases n,
    {
        if n == 0 {
            Seq::empty()
        } else {
            let found = self.matching_upto(needle, (n - 1) as nat);
            if has_infix(lowered(self.nodes[n - 1].name), needle) {
                found.push(NodeId((n - 1) as usize))
            } else {
                found
            }
        }
    }

    /// The nodes whose name, in lower case, holds `needle`, in arena order.
    pub open spec fn matching(self, needle: Seq<char>) -> Seq<NodeId> {
        self.matching_upto(needle, self.nodes.len())
    }

    /// The state after a search for `query`. An empty query ends the
    /// search. Any other is put in lower case and looked for in the names of
    /// all nodes; where it finds something, the selection settles and moves
    /// to the first match on display at or behind it, else to the first
    /// match on display, else stays.
    pub open spec fn searched(self, st: StateView, query: Seq<char>) -> StateView {
        if query.len() == 0 {
            StateView { query: None, matches: Seq::empty(), ..st }
        } else {
            let needle = lowered(query);
            let matches = self.matching(needle);
            let v = self.visible(st.open);
            let selected = if matches.len() == 0 {
                st.selected
            } else {
                match settled(v, st.selected) {
                    Some(id) => match match_target(v, matches, position(v, id)) {
                        Some(i) => Some(v[i].id),
                        None => Some(id),
                    },
                    None => None,
                }
            };
            StateView { query: Some(needle), matches, selected, ..st }
        }
    }
}

/// Returns the first position of `v` at or behind `from` whose node is among
/// `matches`.
fn find_match(v: &Vec<VisibleNode>, matches: &Vec<NodeId>, from: usize) -> (r: Option<usize>)
    ensures
        match r {
            Some(i) => first_match_from(v@, matches@, from as int) == Some(i as int) && i < v.len(),
            None => first_match_from(v@, matches@, from as int).is_none(),
        },
{
    let mut i: usize = from;
    while i < v.len()
        invariant
            from <= i,
            first_match_from(v@, matches@, i as int) == first_match_from(v@, matches@, from as int),
        decreases v.len() - i,
    {
        if crate::dependency::contains_id(matches, v[i].id) {
            return Some(i);
        }
        i += 1;
    }
    None
}

impl TreeWidgetState {
    /// Splices what is on display below `id` into the cache, behind the
    /// entry of `id`, after `id` was added to the expanded nodes.
    fn insert_descendants(
        &mut self,
        tree: &DependencyTree,
        id: NodeId,
        Ghost(before): Ghost<Set<NodeId>>,
    )
        requires
            !before.contains(id),
            old(self)@.open == before.insert(id),
            old(self).cached() == tree@.visible(before),
            occurs(old(self).cached(), id),
        ensures
            final(self)@ == old(self)@,
            final(self).is_fresh() == old(self).is_fresh(),
            final(self).cached() == tree@.visible(old(self)@.open),
    {
        let node = match tree.node(id) {
            Some(node) => node,
            None => {
                proof {
                    lemma_visible_entries(tree@, before);
                }
                return;
            },
        };
        proof {
            lemma_visible_entries(tree@, before);
        }
        let start = match find_entry(&self.visible_cache, id) {
            Some(i) => i,
            None => {
                return;
            },
        };
        let depth = self.visible_cache[start].depth;
        let mut below: Vec<VisibleNode> = Vec::new();
        proof {
            lemma_children_siblings(tree@, id, depth);
            lemma_expand_run(tree@, before, id, start as int);
        }
        collect_list(
            tree,
            &self.open,
            node.children().as_slice(),
            Ghost(id.0 as int),
            depth + 1,
            &mut below,
        );
        let ghost v = self.visible_cache@;
        assert(v.len() == self.visible_cache.len());
        let mut tail = self.visible_cache.split_off(start + 1);
        self.visible_cache.append(&mut below);
        self.visible_cache.append(&mut tail);
        proof {
            assert(v.subrange(0, start + 1) =~= v.take(start + 1));
            assert(v.subrange(start + 1, v.len() as int) =~= v.skip(start + 1));
            assert(below@ =~= Seq::<VisibleNode>::empty());
        }
    }

    /// Removes what is on display below `id` from the cache, after `id` was
    /// removed from the expanded nodes.
    fn prune_descendants(
        &mut self,
        tree: &DependencyTree,
        id: NodeId,
        Ghost(before): Ghost<Set<NodeId>>,
    )
        requires
            tree@.wf(),
            before.contains(id),
            old(self)@.open == before.remove(id),
            old(self).cached() == tree@.visible(before),
            occurs(old(self).cached(), id),
        ensures
            final(self)@ == old(self)@,
            final(self).is_fresh() == old(self).is_fresh(),
            final(self).cached() == tree@.visible(old(self)@.open),
    {
        let start = match find_entry(&self.visible_cache, id) {
            Some(i) => i,
            None => {
                return;
            },
        };
        let depth = self.visible_cache[start].depth;
        let ghost v = self.visible_cache@;
        let ghost w = tree@.visible(before.remove(id));
        let ghost x = tree@.visible_below(before, id, depth);
        proof {
            lemma_collapse_run(tree@, before, id, start as int);
            assert(v == w.take(start + 1) + x + w.skip(start + 1));
        }
        assert(v.len() == self.visible_cache.len());
        let mut end: usize = start + 1;
        while end < self.visible_cache.len() && self.visible_cache[end].depth > depth
            invariant
                v == self.visible_cache@,
                v == w.take(start + 1) + x + w.skip(start + 1),
                start + 1 <= w.len(),
                start + 1 <= end <= start + 1 + x.len(),
                forall|j: int| 0 <= j < x.len() ==> (#[trigger] x[j]).depth > depth,
                start + 1 < w.len() ==> w[start + 1].depth <= depth,
            decreases self.visible_cache.len() - end,
        {
            proof {
                if end == start + 1 + x.len() {
                    assert(v[end as int] == w[start + 1]);
                }
            }
            end += 1;
        }
        proof {
            if end < start + 1 + x.len() {
                assert(v[end as int] == x[end - start - 1]);
            }
        }
        let mut tail = self.visible_cache.split_off(end);
        self.visible_cache.truncate(start + 1);
        self.visible_cache.append(&mut tail);
        proof {
            assert(self.visible_cache@ =~= w);
        }
    }

    /// Expands the selected node, or steps to its first child when it is
    /// expanded already. The cache is updated in place and stays equal to
    /// the visible sequence.
    pub fn expand(&mut self, tree: &DependencyTree)
        requires
            old(self).wf(tree@),
        ensures
            final(self)@ == tree@.expanded(old(self)@),
            final(self).is_fresh(),
            final(self).cached() == tree@.visible(final(self)@.open),
    {
        if !self.ensure_selection(tree) {
            return;
        }
        let selected = match self.selected {
            Some(id) => id,
            None => {
                return;
            },
        };
        let ghost before = self@.open;
        proof {
            lemma_visible_entries(tree@, before);
        }
        let node = match tree.node(selected) {
            Some(node) => node,
            None => {
                return;
            },
        };
        if node.children().len() == 0 {
            return;
        }
        if self.open.insert(selected.0) {
            proof {
                assert(self@.open =~= before.insert(selected));
            }
            self.insert_descendants(tree, selected, Ghost(before));
            self.dirty = false;
            return;
        }
        proof {
            assert(self@.open =~= before);
        }
        self.selected = Some(node.children()[0]);
    }

    /// Collapses the selected node, or steps to its parent when it is
    /// collapsed already. The cache is updated in place and stays equal to
    /// the visible sequence.
    pub fn collapse(&mut self, tree: &DependencyTree)
        requires
            old(self).wf(tree@),
        ensures
            final(self)@ == tree@.collapsed(old(self)@),
            final(self).is_fresh(),
            final(self).cached() == tree@.visible(final(self)@.open),
    {
        if !self.ensure_selection(tree) {
            return;
        }
        let selected = match self.selected {
            Some(id) => id,
            None => {
                return;
            },
        };
        let ghost before = self@.open;
        proof {
            lemma_visible_entries(tree@, before);
        }
        let node = match tree.node(selected) {
            Some(node) => node,
            None => {
                return;
            },
        };
        if node.children().len() > 0 && self.open.remove(&selected.0) {
            proof {
                assert(self@.open =~= before.remove(selected));
            }
            self.prune_descendants(tree, selected, Ghost(before));
            self.dirty = false;
            return;
        }
        proof {
            assert(self@.open =~= before);
        }
        if let Some(parent) = node.parent() {
            self.selected = Some(parent);
        }
    }

    /// Moves the selection to the parent of the selected node, if it has
    /// one.
    pub fn select_parent(&mut self, tree: &DependencyTree)
        ensures
            final(self)@ == (StateView {
                selected: tree@.parent_moved(old(self)@.selected),
                ..old(self)@
            }),
            final(self).is_fresh() == old(self).is_fresh(),
            final(self).cached() == old(self).cached(),
    {
        if let Some(selected) = self.selected {
            if let Some(node) = tree.node(selected) {
                if let Some(parent) = node.parent() {
                    self.selected = Some(parent);
                }
            }
        }
    }

    /// Moves the selection to the sibling that is `forward` or backward next
    /// to the selected node.
    fn select_sibling(&mut self, tree: &DependencyTree, forward: bool)
        ensures
            final(self)@ == (StateView {
                selected: tree@.sibling_moved(
                    old(self)@.selected,
                    if forward {
                        1
                    } else {
                        -1
                    },
                ),
                ..old(self)@
            }),
            final(self).is_fresh() == old(self).is_fresh(),
            final(self).cached() == old(self).cached(),
    {
        let selected = match self.selected {
            Some(id) => id,
            None => {
                return;
            },
        };
        let node = match tree.node(selected) {
            Some(node) => node,
            None => {
                proof {
                    tree@.siblings_of(selected).index_of_first_ensures(selected);
                }
                return;
            },
        };
        let siblings: &[NodeId] = match node.parent() {
            Some(parent) => match tree.node(parent) {
                Some(parent_node) => parent_node.children().as_slice(),
                None => {
                    proof {
                        tree@.siblings_of(selected).index_of_first_ensures(selected);
                    }
                    return;
                },
            },
            None => tree.roots(),
        };
        let at = match find_id(siblings, selected) {
            Some(at) => at,
            None => {
                return;
            },
        };
        let count = siblings.len();
        if forward {
            if at + 1 < count {
                self.selected = Some(siblings[at + 1]);
            }
        } else {
            if at > 0 {
                self.selected = Some(siblings[at - 1]);
            }
        }
    }

    /// Moves the selection to the next sibling of the selected node, whether
    /// or not it is on display.
    pub fn select_next_sibling(&mut self, tree: &DependencyTree)
        ensures
            final(self)@ == (StateView {
                selected: tree@.sibling_moved(old(self)@.selected, 1),
                ..old(self)@
            }),
            final(self).is_fresh() == old(self).is_fresh(),
            final(self).cached() == old(self).cached(),
    {
        self.select_sibling(tree, true);
    }

    /// Moves the selection to the previous sibling of the selected node,
    /// whether or not it is on display.
    pub fn select_previous_sibling(&mut self, tree: &DependencyTree)
        ensures
            final(self)@ == (StateView {
                selected: tree@.sibling_moved(old(self)@.selected, -1),
                ..old(self)@
            }),
            final(self).is_fresh() == old(self).is_fresh(),
            final(self).cached() == old(self).cached(),
    {
        self.select_sibling(tree, false);
    }

    /// Expands every node that has children.
    pub fn expand_all(&mut self, tree: &DependencyTree)
        ensures
            final(self)@ == (StateView {
                open: tree@.parents(),
                selected: settled(tree@.preorder(), old(self)@.selected),
                ..old(self)@
            }),
            final(self).is_fresh(),
            final(self).cached() == tree@.preorder(),
    {
        self.open.clear();
        let total = tree.len();
        let mut i: usize = 0;
        while i < total
            invariant
                i <= total,
                total == tree@.nodes.len(),
                forall|j: usize|
                    self.open@.contains(j) <==> j < i && tree@.children(NodeId(j)).len() > 0,
                self@ == (StateView { open: self@.open, ..old(self)@ }),
            decreases total - i,
        {
            if let Some(node) = tree.node(NodeId(i)) {
                if node.children().len() > 0 {
                    self.open.insert(i);
                }
            }
            i += 1;
        }
        self.dirty = true;
        proof {
            assert(self@.open =~= tree@.parents());
        }
        self.ensure_selection(tree);
    }

    /// Collapses every node.
    pub fn collapse_all(&mut self, tree: &DependencyTree)
        ensures
            final(self)@ == (StateView {
                open: Set::empty(),
                selected: settled(tree@.visible(Set::empty()), old(self)@.selected),
                ..old(self)@
            }),
            final(self).is_fresh(),
            final(self).cached() == tree@.visible(Set::empty()),
    {
        self.open.clear();
        self.dirty = true;
        proof {
            assert(self@.open =~= Set::<NodeId>::empty());
        }
        self.ensure_selection(tree);
    }

    /// Expands the nodes that have children and lie fewer than `max_depth`
    /// levels deep, roots being one level deep, and collapses all others.
    /// A `max_depth` of 0 changes nothing.
    pub fn open_to_depth(&mut self, tree: &DependencyTree, max_depth: usize)
        requires
            old(self).wf(tree@),
        ensures
            max_depth == 0 ==> final(self)@ == old(self)@,
            max_depth > 0 ==> final(self)@ == (StateView {
                open: tree@.within_depth(max_depth),
                selected: settled(
                    tree@.visible(tree@.within_depth(max_depth)),
                    old(self)@.selected,
                ),
                ..old(self)@
            }),
            max_depth > 0 ==> final(self).is_fresh(),
            final(self).wf(tree@),
    {
        if max_depth == 0 {
            return;
        }
        self.open.clear();
        let total = tree.len();
        let mut levels: Vec<usize> = Vec::new();
        let mut i: usize = 0;
        while i < total
            invariant
                i <= total,
                max_depth > 0,
                total == tree@.nodes.len(),
                tree@.wf(),
                levels@.len() == i,
                forall|j: int| 0 <= j < i ==> levels@[j] == tree@.level(NodeId(j as usize)),
                forall|j: usize|
                    self.open@.contains(j) <==> j < i && tree@.children(NodeId(j)).len() > 0
                        && tree@.level(NodeId(j)) + 1 < max_depth,
                self@ == (StateView { open: self@.open, ..old(self)@ }),
            decreases total - i,
        {
            if let Some(node) = tree.node(NodeId(i)) {
                proof {
                    assert(node_ok(tree@.nodes, i as int));
                    lemma_level_bound(tree@, NodeId(i));
                }
                let level = match node.parent() {
                    Some(parent) => levels[parent.0] + 1,
                    None => 0,
                };
                levels.push(level);
                if node.children().len() > 0 && level < max_depth - 1 {
                    self.open.insert(i);
                }
            }
            i += 1;
        }
        self.dirty = true;
        proof {
            assert(self@.open =~= tree@.within_depth(max_depth));
        }
        self.ensure_selection(tree);
    }

    /// Returns the nodes whose name, in lower case, holds `needle`.
    fn find_matches(tree: &DependencyTree, needle: &Vec<char>) -> (r: Vec<NodeId>)
        ensures
            r@ == tree@.matching(needle@),
    {
        let mut found: Vec<NodeId> = Vec::new();
        let total = tree.len();
        let mut i: usize = 0;
        while i < total
            invariant
                i <= total,
                total == tree@.nodes.len(),
                found@ == tree@.matching_upto(needle@, i as nat),
            decreases total - i,
        {
            if let Some(node) = tree.node(NodeId(i)) {
                let name = node.display_name();
                let hay = lower_chars(&chars_of(name.as_str()));
                if contains_chars(&hay, needle) {
                    found.push(NodeId(i));
                }
            }
            i += 1;
        }
        found
    }

    /// Searches the names of all nodes for the characters `query`, without
    /// regard to ASCII case, and moves the selection to the next match on
    /// display. An empty query ends the search. What is expanded stays as it
    /// is.
    pub fn set_query_chars(&mut self, tree: &DependencyTree, query: &Vec<char>)
        requires
            old(self).wf(tree@),
        ensures
            final(self)@ == tree@.searched(old(self)@, query@),
            final(self)@.open == old(self)@.open,
            final(self).wf(tree@),
            old(self).is_fresh() ==> final(self).is_fresh() && final(self).cached() == old(
                self,
            ).cached(),
    {
        if query.len() == 0 {
            self.search_query = None;
            self.search_matches.clear();
            return;
        }
        let needle = lower_chars(query);
        self.search_matches = Self::find_matches(tree, &needle);
        self.search_query = Some(needle);
        if self.search_matches.len() == 0 {
            return;
        }
        if !self.ensure_selection(tree) {
            return;
        }
        let selected = match self.selected {
            Some(id) => id,
            None => {
                return;
            },
        };
        let current = match find_entry(&self.visible_cache, selected) {
            Some(i) => i,
            None => {
                return;
            },
        };
        let target = match find_match(&self.visible_cache, &self.search_matches, current) {
            Some(i) => Some(i),
            None => find_match(&self.visible_cache, &self.search_matches, 0),
        };
        if let Some(i) = target {
            self.selected = Some(self.visible_cache[i].id);
        }
    }

    /// Searches the names of all nodes for `query`, without regard to ASCII
    /// case, and moves the selection to the next match on display. An empty
    /// query ends the search. What is expanded stays as it is.
    pub fn set_query(&mut self, tree: &DependencyTree, query: &str)
        requires
            old(self).wf(tree@),
        ensures
            final(self)@ == tree@.searched(old(self)@, query@),
            final(self)@.open == old(self)@.open,
            final(self).wf(tree@),
            old(self).is_fresh() ==> final(self).is_fresh() && final(self).cached() == old(
                self,
            ).cached(),
    {
        let text = chars_of(query);
        self.set_query_chars(tree, &text);
    }

    /// Searches for `query` without its leading and trailing whitespace. An
    /// empty query, and one that holds whitespace only, ends the search and
    /// leaves the selection where it is.
    pub fn search(&mut self, tree: &DependencyTree, query: &str)
        requires
            old(self).wf(tree@),
        ensures
            final(self)@ == tree@.searched(old(self)@, search_text(query@)),
            final(self)@.open == old(self)@.open,
            search_text(query@).len() == 0 ==> final(self)@ == (StateView {
                query: None,
                matches: Seq::empty(),
                ..old(self)@
            }),
            final(self).wf(tree@),
            old(self).is_fresh() ==> final(self).is_fresh() && final(self).cached() == old(
                self,
            ).cached(),
    {
        if query.is_empty() {
            self.set_query(tree, query);
        } else {
            self.set_query(tree, trim(query));
        }
    }

    /// Returns whether the active search has found `id`.
    pub fn is_search_match(&self, id: NodeId) -> (r: bool)
        ensures
            r == (self@.query.is_some() && self@.matches.contains(id)),
    {
        self.search_query.is_some() && crate::dependency::contains_id(&self.search_matches, id)
    }

    /// Returns the active search, in lower case.
    pub fn search_query(&self) -> (r: Option<&Vec<char>>)
        ensures
            r.is_some() == self@.query.is_some(),
            r matches Some(q) ==> Some(q@) == self@.query,
    {
        self.search_query.as_ref()
    }
}

impl Default for TreeWidgetState {
    fn default() -> (r: TreeWidgetState)
        ensures
            r@.open == Set::<NodeId>::empty(),
            r@.selected.is_none(),
            r@.query.is_none(),
            r@.matches == Seq::<NodeId>::empty(),
            r@.viewport == Viewport::blank(),
            !r.is_fresh(),
            forall|tree: TreeView| r.wf(tree),
    {
        TreeWidgetState::new()
    }
}


/// Where no node is listed twice, every entry stands at the position of its
/// node.
pub proof fn lemma_position_of_entry(v: Seq<VisibleNode>, i: int)
    requires
        distinct_ids(v),
        0 <= i < v.len(),
    ensures
        position(v, v[i].id) == i,
        occurs(v, v[i].id),
{
    assert(is_first_at(v, v[i].id, i)) by {
        assert forall|j: int| 0 <= j < i implies (#[trigger] v[j]).id != v[i].id by {}
    }
    lemma_first_unique(v, v[i].id, i, position(v, v[i].id));
}

/// Stepping to the next visible node and back restores the settled
/// selection, unless the selection is the last visible node: there the step
/// forward changes nothing. Likewise, at the first visible node the step
/// back changes nothing.
pub proof fn lemma_next_then_previous(t: TreeView, open: Set<NodeId>, sel: Option<NodeId>)
    requires
        t.wf(),
    ensures
        match settled(t.visible(open), sel) {
            Some(id) => {
                &&& position(t.visible(open), id) + 1 < t.visible(open).len() ==> moved(
                    t.visible(open),
                    moved(t.visible(open), sel, 1),
                    -1,
                ) == Some(id)
                &&& position(t.visible(open), id) + 1 == t.visible(open).len() ==> moved(
                    t.visible(open),
                    sel,
                    1,
                ) == Some(id)
                &&& position(t.visible(open), id) == 0 ==> moved(t.visible(open), sel, -1) == Some(
                    id,
                )
            },
            None => {
                &&& moved(t.visible(open), sel, 1).is_none()
                &&& moved(t.visible(open), sel, -1).is_none()
            },
        },
{
    let v = t.visible(open);
    lemma_visible_entries(t, open);
    match settled(v, sel) {
        Some(id) => {
            assert(occurs(v, id)) by {
                if sel != Some(id) {
                    assert(v[0].id == id);
                }
            }
            let j = choose|j: int| 0 <= j < v.len() && (#[trigger] v[j]).id == id;
            lemma_position_of_entry(v, j);
            let i = position(v, id);
            if i + 1 < v.len() {
                lemma_position_of_entry(v, i + 1);
            }
        },
        None => {},
    }
}

/// Opening to depth 1 expands nothing, so that the roots alone are on
/// display.
pub proof fn lemma_depth_one_lists_roots(t: TreeView)
    ensures
        t.within_depth(1) == Set::<NodeId>::empty(),
        t.visible(t.within_depth(1)) == at_depth(t.roots, 0),
{
    assert(t.within_depth(1) =~= Set::<NodeId>::empty());
    lemma_closed_walk(t, Set::empty(), t.roots, -1, 0);
}


/// What the first match at or behind a position is: a position that holds a
/// match, with none between `from` and it; and where there is none, no
/// position at or behind `from` holds a match.
pub proof fn lemma_first_match(v: Seq<VisibleNode>, matches: Seq<NodeId>, from: int)
    requires
        0 <= from,
    ensures
        match first_match_from(v, matches, from) {
            Some(i) => {
                &&& from <= i < v.len()
                &&& matches.contains(v[i].id)
                &&& forall|j: int| from <= j < i ==> !matches.contains((#[trigger] v[j]).id)
            },
            None => forall|j: int| from <= j < v.len() ==> !matches.contains((#[trigger] v[j]).id),
        },
    decreases v.len() - from,
{
    if from < v.len() && !matches.contains(v[from].id) {
        lemma_first_match(v, matches, from + 1);
    }
}

/// A search that matches exactly one node, which is on display, selects
/// that node wherever the selection was, and searching again changes
/// nothing.
pub proof fn lemma_search_finds_single_match(
    t: TreeView,
    st: StateView,
    query: Seq<char>,
    m: NodeId,
)
    requires
        t.wf(),
        query.len() > 0,
        t.matching(lowered(query)) == seq![m],
        occurs(t.visible(st.open), m),
    ensures
        t.searched(st, query).selected == Some(m),
        t.searched(t.searched(st, query), query) == t.searched(st, query),
{
    let v = t.visible(st.open);
    let matches = seq![m];
    lemma_visible_entries(t, st.open);
    let at = choose|i: int| 0 <= i < v.len() && (#[trigger] v[i]).id == m;
    lemma_position_of_entry(v, at);
    assert(matches[0] == m);
    assert forall|j: int| 0 <= j < v.len() implies (matches.contains((#[trigger] v[j]).id) <==> j
        == at) by {
        if v[j].id == m && j != at {
            if j < at {
                assert(v[j].id != v[at].id);
            } else {
                assert(v[at].id != v[j].id);
            }
        }
    }
    let id = settled(v, st.selected).unwrap();
    assert(occurs(v, id)) by {
        if st.selected != Some(id) {
            assert(v[0].id == id);
        }
    }
    let here = choose|i: int| 0 <= i < v.len() && (#[trigger] v[i]).id == id;
    lemma_position_of_entry(v, here);
    lemma_first_match(v, matches, position(v, id));
    lemma_first_match(v, matches, 0);
    lemma_first_match(v, matches, at);
    assert(match_target(v, matches, position(v, id)) == Some(at));
    assert(match_target(v, matches, at) == Some(at));
    assert(settled(v, Some(m)) == Some(m));
}


} // verus!
