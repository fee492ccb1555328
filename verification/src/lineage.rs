//! What the guides in front of a node need to know about its ancestors.

use vstd::prelude::*;

use crate::dependency::node_ok;
use crate::dependency::DependencyNode;
use crate::dependency::DependencyTree;
use crate::dependency::DependencyType;
use crate::dependency::NodeId;
use crate::dependency::TreeView;
use crate::state::find_id;
use crate::style::span;
use crate::style::spans_view;
use crate::style::SpanView;
use crate::style::StyledSpan;
use crate::style::Tone;
use crate::style::TreeWidgetStyle;

verus! {

/// What the guide that passes by one ancestor depends on.
#[derive(Debug, Clone, Copy, PartialEq, Eq, Structural)]
pub struct LineageSegment {
    /// Whether the ancestor has a parent and is not the last of its
    /// children.
    pub has_more_siblings: bool,
    /// Whether a crate follows the ancestor among the children of its
    /// parent, so that the guide that passes by it is a continuation.
    pub crate_follows: bool,
    /// The kind of dependency that the ancestor is.
    pub type_: Option<DependencyType>,
    /// Whether the ancestor is a group, which takes no column.
    pub is_group: bool,
}

/// Lineage information for a node.
#[derive(Debug)]
pub struct Lineage {
    /// One segment per ancestor, from the root down to the parent.
    pub segments: Vec<LineageSegment>,
    /// Whether the node is the last child of its parent. Always so for a
    /// root.
    pub is_last: bool,
    /// Whether the node is the selected one.
    pub is_selected: bool,
}

impl TreeView {
    /// Whether `id` names a group node.
    pub open spec fn is_group(self, id: NodeId) -> bool {
        self.contains(id) && self.nodes[id.0 as int].group.is_some()
    }

    /// Whether a crate node stands behind position `from` in `ids`.
    pub open spec fn crate_behind(self, ids: Seq<NodeId>, from: int) -> bool {
        exists|k: int|
            from < k < ids.len() && self.contains(#[trigger] ids[k]) && !self.is_group(ids[k])
    }

    /// Whether a crate follows `id` among the children of its parent. No
    /// node follows a node without a parent: roots are not told apart by
    /// connectors.
    pub open spec fn has_later_crate(self, id: NodeId) -> bool {
        match self.parent(id) {
            Some(p) => match self.children(p).index_of_first(id) {
                Some(i) => self.crate_behind(self.children(p), i),
                None => false,
            },
            None => false,
        }
    }

    /// The kind of dependency that `id` is: the kind of a group, the kind of
    /// the group that a crate hangs below, and normal otherwise.
    pub open spec fn kind_of(self, id: NodeId) -> DependencyType {
        if !self.contains(id) {
            DependencyType::Normal
        } else {
            match self.nodes[id.0 as int].group {
                Some(kind) => kind,
                None => match self.parent(id) {
                    Some(p) => if self.is_group(p) {
                        self.nodes[p.0 as int].group.unwrap()
                    } else {
                        DependencyType::Normal
                    },
                    None => DependencyType::Normal,
                },
            }
        }
    }

    /// Whether `id` is the last child of its parent. A node without a parent
    /// counts as last.
    pub open spec fn is_last_child(self, id: NodeId) -> bool {
        match self.parent(id) {
            Some(p) => self.children(p).len() > 0 && self.children(p).last() == id,
            None => true,
        }
    }

    /// The segment of the guides that passes by the node `id`.
    pub open spec fn segment_of(self, id: NodeId) -> LineageSegment {
        LineageSegment {
            has_more_siblings: !self.is_last_child(id),
            crate_follows: self.has_later_crate(id),
            type_: Some(self.kind_of(id)),
            is_group: self.is_group(id),
        }
    }

    /// The segments of the ancestors of `id`, from the root down to the
    /// parent.
    pub open spec fn lineage(self, id: NodeId) -> Seq<LineageSegment>
        decreases id.0,
    {
        match self.parent(id) {
            Some(p) => if p.0 < id.0 {
                self.lineage(p).push(self.segment_of(p))
            } else {
                Seq::empty()
            },
            None => Seq::empty(),
        }
    }
}

/// The segments above an optional node, that node included.
pub open spec fn lineage_through(t: TreeView, at: Option<NodeId>) -> Seq<LineageSegment> {
    match at {
        Some(p) => t.lineage(p).push(t.segment_of(p)),
        None => Seq::empty(),
    }
}

/// Whether the segment at position `i` of a lineage takes a column: a root
/// takes none, as it is drawn without a connector, and neither does a group.
pub open spec fn takes_column(segments: Seq<LineageSegment>, i: int) -> bool {
    !segments[i].is_group && i > 0
}

/// The tone of what is drawn for dependencies of `kind`.
pub open spec fn kind_tone(kind: Option<DependencyType>) -> Tone {
    match kind {
        Some(DependencyType::Dev) => Tone::Kind(DependencyType::Dev),
        Some(DependencyType::Build) => Tone::Kind(DependencyType::Build),
        _ => Tone::Plain,
    }
}

/// The guide that passes by one ancestor: a continuation where a crate
/// follows the ancestor, which then has no closing connector, and blank
/// padding elsewhere.
pub open spec fn guide_of(segment: LineageSegment, style: TreeWidgetStyle) -> SpanView {
    SpanView {
        text: if segment.crate_follows {
            style.continuation_symbol@
        } else {
            style.empty_symbol@
        },
        tone: kind_tone(segment.type_),
    }
}

/// The guides in front of a node: one for each of the first `n` segments
/// that takes a column.
pub open spec fn guides(segments: Seq<LineageSegment>, style: TreeWidgetStyle, n: int) -> Seq<
    SpanView,
>
    decreases n,
{
    if n <= 0 {
        Seq::empty()
    } else if takes_column(segments, n - 1) {
        guides(segments, style, n - 1).push(guide_of(segments[n - 1], style))
    } else {
        guides(segments, style, n - 1)
    }
}

/// Returns the tone of what is drawn for dependencies of `kind`.
pub fn tone_of_kind(kind: Option<DependencyType>) -> (r: Tone)
    ensures
        r == kind_tone(kind),
{
    match kind {
        Some(DependencyType::Dev) => Tone::Kind(DependencyType::Dev),
        Some(DependencyType::Build) => Tone::Kind(DependencyType::Build),
        _ => Tone::Plain,
    }
}

/// Returns whether `id` is the last child of its parent.
fn last_child(tree: &DependencyTree, id: NodeId) -> (r: bool)
    ensures
        r == tree@.is_last_child(id),
{
    let node = match tree.node(id) {
        Some(node) => node,
        None => {
            return true;
        },
    };
    let parent = match node.parent() {
        Some(parent) => parent,
        None => {
            return true;
        },
    };
    match tree.node(parent) {
        Some(parent_node) => {
            let children = parent_node.children();
            children.len() > 0 && children[children.len() - 1] == id
        },
        None => false,
    }
}

/// Returns whether a crate follows `id` among the children of its parent.
pub fn later_crate(tree: &DependencyTree, id: NodeId) -> (r: bool)
    ensures
        r == tree@.has_later_crate(id),
{
    let node = match tree.node(id) {
        Some(node) => node,
        None => {
            return false;
        },
    };
    let parent = match node.parent() {
        Some(parent) => parent,
        None => {
            return false;
        },
    };
    let siblings: &[NodeId] = match tree.node(parent) {
        Some(parent_node) => parent_node.children().as_slice(),
        None => {
            proof {
                tree@.children(parent).index_of_first_ensures(id);
            }
            return false;
        },
    };
    let at = match find_id(siblings, id) {
        Some(at) => at,
        None => {
            return false;
        },
    };
    assert(siblings@.len() == siblings.len());
    let mut k: usize = at + 1;
    while k < siblings.len()
        invariant
            at < k <= siblings.len(),
            tree@.parent(id) == Some(parent),
            siblings@ == tree@.children(parent),
            siblings@.index_of_first(id) == Some(at as int),
            forall|j: int|
                at < j < k ==> !(tree@.contains(#[trigger] siblings@[j]) && !tree@.is_group(
                    siblings@[j],
                )),
        decreases siblings.len() - k,
    {
        if let Some(sibling) = tree.node(siblings[k]) {
            if !sibling.is_group() {
                assert(tree@.contains(siblings@[k as int]) && !tree@.is_group(siblings@[k as int]));
                return true;
            }
        }
        k += 1;
    }
    false
}

/// Returns the kind of dependency that `node`, which is stored at `id`, is.
pub fn kind_of_node(tree: &DependencyTree, id: NodeId, node: &DependencyNode) -> (r: DependencyType)
    requires
        tree@.contains(id),
        node@ == tree@.nodes[id.0 as int],
    ensures
        r == tree@.kind_of(id),
{
    match node.group_kind() {
        Some(kind) => kind,
        None => match node.parent() {
            Some(parent) => match tree.node(parent) {
                Some(parent_node) => match parent_node.group_kind() {
                    Some(kind) => kind,
                    None => DependencyType::Normal,
                },
                None => DependencyType::Normal,
            },
            None => DependencyType::Normal,
        },
    }
}

impl Lineage {
    /// Builds the lineage of `node_id`, or `None` when it names no node.
    pub fn build(tree: &DependencyTree, node_id: NodeId, selected: Option<NodeId>) -> (r: Option<
        Lineage,
    >)
        ensures
            r.is_some() == tree@.contains(node_id),
            r matches Some(lineage) ==> {
                &&& lineage.segments@ == tree@.lineage(node_id)
                &&& lineage.is_last == tree@.is_last_child(node_id)
                &&& lineage.is_selected == (selected == Some(node_id))
            },
    {
        let node = match tree.node(node_id) {
            Some(node) => node,
            None => {
                return None;
            },
        };
        let ghost t = tree@;
        let is_last = last_child(tree, node_id);
        let mut upward: Vec<LineageSegment> = Vec::new();
        let mut current = node.parent();
        proof {
            assert(node_ok(t.nodes, node_id.0 as int));
            assert(upward@.reverse() =~= Seq::<LineageSegment>::empty());
        }
        while current.is_some()
            invariant
                t == tree@,
                t.wf(),
                current matches Some(p) ==> t.contains(p),
                t.lineage(node_id) == lineage_through(t, current) + upward@.reverse(),
            decreases
                    (match current {
                        Some(p) => p.0 + 1,
                        None => 0,
                    }),
        {
            let ancestor_id = current.unwrap();
            let ancestor = match tree.node(ancestor_id) {
                Some(ancestor) => ancestor,
                None => {
                    return None;
                },
            };
            let segment = LineageSegment {
                has_more_siblings: !last_child(tree, ancestor_id),
                crate_follows: later_crate(tree, ancestor_id),
                type_: Some(kind_of_node(tree, ancestor_id, ancestor)),
                is_group: ancestor.is_group(),
            };
            proof {
                assert(node_ok(t.nodes, ancestor_id.0 as int));
                assert(segment == t.segment_of(ancestor_id));
                assert(t.lineage(ancestor_id) == lineage_through(t, ancestor@.parent));
                assert(upward@.push(segment).reverse() =~= seq![segment] + upward@.reverse());
                assert(t.lineage(ancestor_id).push(segment) + upward@.reverse() =~= t.lineage(
                    ancestor_id,
                ) + (seq![segment] + upward@.reverse()));
            }
            upward.push(segment);
            current = ancestor.parent();
        }
        let mut segments: Vec<LineageSegment> = Vec::new();
        let mut left: usize = upward.len();
        while left > 0
            invariant
                left <= upward.len(),
                segments@.len() == upward.len() - left,
                forall|j: int| 0 <= j < segments@.len() ==> segments@[j] == upward@[upward.len() - 1 - j],
            decreases left,
        {
            left -= 1;
            segments.push(upward[left]);
        }
        proof {
            assert(segments@ =~= upward@.reverse());
            assert(t.lineage(node_id) =~= upward@.reverse());
        }
        Some(Lineage { segments, is_last, is_selected: selected == Some(node_id) })
    }

    /// Returns the number of ancestors.
    pub fn depth(&self) -> (r: usize)
        ensures
            r == self.segments@.len(),
    {
        self.segments.len()
    }

    /// Returns whether the node has ancestors.
    pub fn has_segments(&self) -> (r: bool)
        ensures
            r == (self.segments@.len() > 0),
    {
        self.segments.len() > 0
    }

    /// Returns the guides in front of the node: for each ancestor that takes
    /// a column, a continuation where a crate follows it and blank padding
    /// where none does.
    pub fn indent(&self, style: &TreeWidgetStyle) -> (r: Vec<StyledSpan>)
        ensures
            spans_view(r@) == guides(self.segments@, *style, self.segments@.len() as int),
    {
        let mut out: Vec<StyledSpan> = Vec::new();
        let mut i: usize = 0;
        assert(spans_view(out@) =~= guides(self.segments@, *style, 0));
        while i < self.segments.len()
            invariant
                i <= self.segments.len(),
                spans_view(out@) == guides(self.segments@, *style, i as int),
            decreases self.segments.len() - i,
        {
            let segment = self.segments[i];
            if !segment.is_group && i > 0 {
                let symbol = if segment.crate_follows {
                    style.continuation_symbol.as_str()
                } else {
                    style.empty_symbol.as_str()
                };
                let ghost before = spans_view(out@);
                out.push(span(symbol, tone_of_kind(segment.type_)));
                proof {
                    assert(spans_view(out@) =~= before.push(guide_of(segment, *style)));
                }
            }
            i += 1;
        }
        out
    }
}

/// A node has one segment per ancestor.
pub proof fn lemma_lineage_depth(t: TreeView, id: NodeId)
    ensures
        t.lineage(id).len() == t.level(id),
    decreases id.0,
{
    match t.parent(id) {
        Some(p) => {
            if p.0 < id.0 {
                lemma_lineage_depth(t, p);
            }
        },
        None => {},
    }
}


} // verus!
