//! The arena that stores a dependency forest, and its well-formedness.

use vstd::prelude::*;
use vstd::string::StringExecFns;

verus! {

/// Index of a node in the arena of a [`DependencyTree`].
///
/// Ids are handed out in creation order and are never reused.
#[derive(Debug, Clone, Copy, PartialEq, Eq, Hash, Structural)]
pub struct NodeId(pub usize);

/// The kind of a dependency edge, as far as the tree distinguishes kinds.
#[derive(Debug, Clone, Copy, PartialEq, Eq, Hash, Structural)]
pub enum DependencyType {
    Normal,
    Dev,
    Build,
}

impl DependencyType {
    /// The manifest section header that names this kind.
    pub open spec fn spec_label(self) -> Seq<char> {
        match self {
            DependencyType::Normal => "[dependencies]"@,
            DependencyType::Dev => "[dev-dependencies]"@,
            DependencyType::Build => "[build-dependencies]"@,
        }
    }

    /// Returns the manifest section header that names this kind.
    pub fn label(&self) -> (r: String)
        ensures
            r@ == self.spec_label(),
    {
        match self {
            DependencyType::Normal => String::from_str("[dependencies]"),
            DependencyType::Dev => String::from_str("[dev-dependencies]"),
            DependencyType::Build => String::from_str("[build-dependencies]"),
        }
    }
}

/// A package as it appears at one place in the tree.
#[derive(Debug, Clone)]
pub struct Dependency {
    /// Crate name.
    pub name: String,
    /// Crate version.
    pub version: String,
    /// Directory of the manifest, for local packages only.
    pub manifest_dir: Option<String>,
    /// Whether the crate exposes a proc-macro target.
    pub is_proc_macro: bool,
    /// Back-reference to the parent, `None` for a root.
    pub parent: Option<NodeId>,
    /// Children in first-encountered order.
    pub children: Vec<NodeId>,
}

/// A synthetic node that gathers the dependencies of one non-normal kind.
#[derive(Debug, Clone)]
pub struct DependencyGroup {
    /// The kind that the members share.
    pub kind: DependencyType,
    /// Back-reference to the crate node that owns the group.
    pub parent: Option<NodeId>,
    /// Members in first-encountered order.
    pub children: Vec<NodeId>,
}

/// One slot of the arena.
#[derive(Debug, Clone)]
pub enum DependencyNode {
    Crate(Dependency),
    Group(DependencyGroup),
}

/// Mathematical content of a [`DependencyNode`].
pub struct NodeView {
    /// `Some(kind)` for a group node, `None` for a crate node.
    pub group: Option<DependencyType>,
    /// Display name: the crate name, or the section header of a group.
    pub name: Seq<char>,
    pub version: Seq<char>,
    pub manifest_dir: Option<Seq<char>>,
    pub is_proc_macro: bool,
    pub parent: Option<NodeId>,
    pub children: Seq<NodeId>,
}

/// The view of an optional string.
pub open spec fn opt_string_view(s: Option<String>) -> Option<Seq<char>> {
    match s {
        Some(s) => Some(s@),
        None => None,
    }
}

impl View for DependencyNode {
    type V = NodeView;

    open spec fn view(&self) -> NodeView {
        match *self {
            DependencyNode::Crate(d) => NodeView {
                group: None,
                name: d.name@,
                version: d.version@,
                manifest_dir: opt_string_view(d.manifest_dir),
                is_proc_macro: d.is_proc_macro,
                parent: d.parent,
                children: d.children@,
            },
            DependencyNode::Group(g) => NodeView {
                group: Some(g.kind),
                name: g.kind.spec_label(),
                version: Seq::empty(),
                manifest_dir: None,
                is_proc_macro: false,
                parent: g.parent,
                children: g.children@,
            },
        }
    }
}

impl DependencyNode {
    /// Returns the parent of this node, if it has one.
    pub fn parent(&self) -> (r: Option<NodeId>)
        ensures
            r == self@.parent,
    {
        match self {
            DependencyNode::Crate(d) => d.parent,
            DependencyNode::Group(g) => g.parent,
        }
    }

    /// Returns the children of this node in order.
    pub fn children(&self) -> (r: &Vec<NodeId>)
        ensures
            r@ == self@.children,
    {
        match self {
            DependencyNode::Crate(d) => &d.children,
            DependencyNode::Group(g) => &g.children,
        }
    }

    /// Returns whether this node is a synthetic group.
    pub fn is_group(&self) -> (r: bool)
        ensures
            r == self@.group.is_some(),
    {
        match self {
            DependencyNode::Crate(_) => false,
            DependencyNode::Group(_) => true,
        }
    }

    /// Returns the kind of a group node, `None` for a crate node.
    pub fn group_kind(&self) -> (r: Option<DependencyType>)
        ensures
            r == self@.group,
    {
        match self {
            DependencyNode::Crate(_) => None,
            DependencyNode::Group(g) => Some(g.kind),
        }
    }

    /// Returns the crate record of a crate node, `None` for a group node.
    pub fn as_crate(&self) -> (r: Option<&Dependency>)
        ensures
            r.is_some() == self@.group.is_none(),
            r.is_some() ==> *self == DependencyNode::Crate(*r.unwrap()),
    {
        match self {
            DependencyNode::Crate(d) => Some(d),
            DependencyNode::Group(_) => None,
        }
    }

    /// Returns the group record of a group node, `None` for a crate node.
    pub fn as_group(&self) -> (r: Option<&DependencyGroup>)
        ensures
            r.is_some() == self@.group.is_some(),
            r.is_some() ==> *self == DependencyNode::Group(*r.unwrap()),
    {
        match self {
            DependencyNode::Crate(_) => None,
            DependencyNode::Group(g) => Some(g),
        }
    }

    /// Returns the name under which the node is displayed.
    pub fn display_name(&self) -> (r: String)
        ensures
            r@ == self@.name,
    {
        match self {
            DependencyNode::Crate(d) => d.name.clone(),
            DependencyNode::Group(g) => g.kind.label(),
        }
    }
}

/// The views of the nodes of an arena, slot by slot.
pub open spec fn nodes_view(nodes: Seq<DependencyNode>) -> Seq<NodeView> {
    Seq::new(nodes.len(), |i: int| nodes[i]@)
}

/// Whether no id occurs twice in `ids`.
pub open spec fn distinct(ids: Seq<NodeId>) -> bool {
    forall|i: int, j: int| 0 <= i < j < ids.len() ==> ids[i] != ids[j]
}

/// Whether one of the first `k` of `children` is a group of `kind`.
pub open spec fn group_among(
    nodes: Seq<NodeView>,
    children: Seq<NodeId>,
    k: int,
    kind: DependencyType,
) -> bool {
    exists|j: int| 0 <= j < k && nodes[(#[trigger] children[j]).0 as int].group == Some(kind)
}

/// Whether `a` and `b` are groups of the same kind.
pub open spec fn same_group(nodes: Seq<NodeView>, a: NodeId, b: NodeId) -> bool {
    nodes[a.0 as int].group.is_some() && nodes[a.0 as int].group == nodes[b.0 as int].group
}

/// Whether slot `i` of the arena agrees with its neighbours: its parent lies
/// before it and lists it as a child, each of its children lies in the arena
/// and points back to it, and no child is listed twice. A group hangs below
/// a crate, gathers dependencies that are not normal ones, and is the only
/// group of its kind there.
pub open spec fn node_ok(nodes: Seq<NodeView>, i: int) -> bool {
    let n = nodes[i];
    &&& n.group != Some(DependencyType::Normal)
    &&& forall|a: int, b: int|
        0 <= a < b < n.children.len() ==> !#[trigger] same_group(nodes, n.children[a], n.children[b])
    &&& match n.parent {
        Some(p) => {
            &&& p.0 < i
            &&& nodes[p.0 as int].children.contains(NodeId(i as usize))
            &&& n.group.is_some() ==> nodes[p.0 as int].group.is_none()
        },
        None => n.group.is_none(),
    }
    &&& forall|k: int|
        0 <= k < n.children.len() ==> {
            &&& (#[trigger] n.children[k]).0 < nodes.len()
            &&& nodes[n.children[k].0 as int].parent == Some(NodeId(i as usize))
        }
    &&& distinct(n.children)
}

/// Whether every slot of the arena agrees with its neighbours.
pub open spec fn arena_wf(nodes: Seq<NodeView>) -> bool {
    forall|i: int| 0 <= i < nodes.len() ==> #[trigger] node_ok(nodes, i)
}

/// Mathematical content of a [`DependencyTree`].
pub struct TreeView {
    pub workspace_name: Seq<char>,
    pub nodes: Seq<NodeView>,
    pub roots: Seq<NodeId>,
}

impl TreeView {
    /// Whether `id` names a slot of the arena.
    pub open spec fn contains(self, id: NodeId) -> bool {
        id.0 < self.nodes.len()
    }

    /// The children of `id`, empty when `id` names no slot.
    pub open spec fn children(self, id: NodeId) -> Seq<NodeId> {
        if self.contains(id) {
            self.nodes[id.0 as int].children
        } else {
            Seq::empty()
        }
    }

    /// The parent of `id`, `None` when `id` is a root or names no slot.
    pub open spec fn parent(self, id: NodeId) -> Option<NodeId> {
        if self.contains(id) {
            self.nodes[id.0 as int].parent
        } else {
            None
        }
    }

    /// Whether `roots` lists, once each, exactly the nodes without a parent.
    pub open spec fn roots_wf(self) -> bool {
        &&& forall|k: int|
            0 <= k < self.roots.len() ==> {
                &&& (#[trigger] self.roots[k]).0 < self.nodes.len()
                &&& self.nodes[self.roots[k].0 as int].parent.is_none()
            }
        &&& distinct(self.roots)
        &&& forall|i: int|
            0 <= i < self.nodes.len() && (#[trigger] self.nodes[i]).parent.is_none()
                ==> self.roots.contains(NodeId(i as usize))
    }

    /// Whether the arena and the root list describe a forest: parent and
    /// child links mirror each other, every node lies after its parent, and
    /// every node hangs, exactly once, below its parent or in the root list.
    /// Groups hang below crates, at most one of a kind below each. The arena
    /// is no longer than a machine index can count.
    pub open spec fn wf(self) -> bool {
        &&& self.nodes.len() <= usize::MAX
        &&& arena_wf(self.nodes)
        &&& self.roots_wf()
    }
}

/// In a forest, a group hangs below a crate, gathers dependencies that are
/// not normal ones, and shares its parent with no other group of its kind.
pub proof fn lemma_groups(t: TreeView, parent: NodeId, a: int, b: int)
    requires
        t.wf(),
        t.contains(parent),
        0 <= a < t.children(parent).len(),
        0 <= b < t.children(parent).len(),
        a != b,
        t.nodes[t.children(parent)[a].0 as int].group.is_some(),
    ensures
        t.nodes[parent.0 as int].group.is_none(),
        t.nodes[t.children(parent)[a].0 as int].group != Some(DependencyType::Normal),
        t.nodes[t.children(parent)[a].0 as int].group != t.nodes[t.children(
            parent,
        )[b].0 as int].group,
{
    let kids = t.children(parent);
    assert(node_ok(t.nodes, parent.0 as int));
    assert(node_ok(t.nodes, kids[a].0 as int));
    if a < b {
        assert(!same_group(t.nodes, kids[a], kids[b]));
    } else {
        assert(!same_group(t.nodes, kids[b], kids[a]));
    }
}

/// The resolved dependency forest of a workspace.
///
/// Nodes live in an append-only arena and refer to each other by [`NodeId`].
/// Every value of this type is a well-formed forest.
#[derive(Debug)]
pub struct DependencyTree {
    workspace_name: String,
    nodes: Vec<DependencyNode>,
    roots: Vec<NodeId>,
}

impl View for DependencyTree {
    type V = TreeView;

    closed spec fn view(&self) -> TreeView {
        TreeView {
            workspace_name: self.workspace_name@,
            nodes: nodes_view(self.nodes@),
            roots: self.roots@,
        }
    }
}

/// Returns whether `ids` holds `id`.
pub fn contains_id(ids: &Vec<NodeId>, id: NodeId) -> (r: bool)
    ensures
        r == ids@.contains(id),
{
    let mut k: usize = 0;
    while k < ids.len()
        invariant
            k <= ids.len(),
            forall|j: int| 0 <= j < k ==> ids@[j] != id,
        decreases ids.len() - k,
    {
        if ids[k] == id {
            return true;
        }
        k += 1;
    }
    false
}

/// Returns whether no id occurs twice in `ids`.
pub fn all_distinct(ids: &Vec<NodeId>) -> (r: bool)
    ensures
        r == distinct(ids@),
{
    let mut j: usize = 0;
    while j < ids.len()
        invariant
            j <= ids.len(),
            forall|a: int, b: int| 0 <= a < b < j ==> ids@[a] != ids@[b],
        decreases ids.len() - j,
    {
        let mut i: usize = 0;
        while i < j
            invariant
                i <= j < ids.len(),
                forall|a: int| 0 <= a < i ==> ids@[a] != ids@[j as int],
            decreases j - i,
        {
            if ids[i] == ids[j] {
                return false;
            }
            i += 1;
        }
        j += 1;
    }
    true
}

/// Returns whether slot `i` of the arena agrees with its neighbours.
fn check_node(nodes: &Vec<DependencyNode>, i: usize) -> (r: bool)
    requires
        i < nodes.len(),
    ensures
        r == node_ok(nodes_view(nodes@), i as int),
{
    let ghost views = nodes_view(nodes@);
    let node = &nodes[i];
    let is_group = node.is_group();
    match node.group_kind() {
        Some(DependencyType::Normal) => {
            return false;
        },
        _ => {},
    }
    match node.parent() {
        Some(p) => {
            if p.0 >= i {
                return false;
            }
            if !contains_id(nodes[p.0].children(), NodeId(i)) {
                return false;
            }
            if is_group && nodes[p.0].is_group() {
                return false;
            }
        },
        None => {
            if is_group {
                return false;
            }
        },
    }
    let children = node.children();
    let mut normal_seen = false;
    let mut dev_seen = false;
    let mut build_seen = false;
    let mut k: usize = 0;
    while k < children.len()
        invariant
            k <= children.len(),
            i < nodes.len(),
            children@ == views[i as int].children,
            views == nodes_view(nodes@),
            views[i as int].group != Some(DependencyType::Normal),
            forall|j: int|
                0 <= j < k ==> {
                    &&& (#[trigger] children@[j]).0 < nodes.len()
                    &&& views[children@[j].0 as int].parent == Some(NodeId(i))
                },
            normal_seen == group_among(views, children@, k as int, DependencyType::Normal),
            dev_seen == group_among(views, children@, k as int, DependencyType::Dev),
            build_seen == group_among(views, children@, k as int, DependencyType::Build),
            forall|a: int, b: int|
                0 <= a < b < k ==> !#[trigger] same_group(views, children@[a], children@[b]),
        decreases children.len() - k,
    {
        let c = children[k];
        if c.0 >= nodes.len() {
            return false;
        }
        match nodes[c.0].parent() {
            Some(q) => {
                if q.0 != i {
                    return false;
                }
            },
            None => {
                return false;
            },
        }
        if let Some(kind) = nodes[c.0].group_kind() {
            let seen = match kind {
                DependencyType::Normal => normal_seen,
                DependencyType::Dev => dev_seen,
                DependencyType::Build => build_seen,
            };
            if seen {
                proof {
                    let j = choose|j: int|
                        0 <= j < k && views[(#[trigger] children@[j]).0 as int].group == Some(kind);
                    assert(same_group(views, children@[j], children@[k as int]));
                }
                return false;
            }
            match kind {
                DependencyType::Normal => {
                    normal_seen = true;
                },
                DependencyType::Dev => {
                    dev_seen = true;
                },
                DependencyType::Build => {
                    build_seen = true;
                },
            }
        }
        proof {
            let kind_here = views[c.0 as int].group;
            assert forall|kind: DependencyType|
                group_among(views, children@, k + 1, kind) == (group_among(
                    views,
                    children@,
                    k as int,
                    kind,
                ) || kind_here == Some(kind)) by {
                if group_among(views, children@, k as int, kind) {
                    let j = choose|j: int|
                        0 <= j < k && views[(#[trigger] children@[j]).0 as int].group == Some(kind);
                    assert(0 <= j < k + 1);
                }
                if kind_here == Some(kind) {
                    assert(views[children@[k as int].0 as int].group == Some(kind));
                }
            }
        }
        k += 1;
    }
    all_distinct(children)
}

impl DependencyTree {
    /// Every tree is a well-formed forest.
    #[verifier::type_invariant]
    pub open spec fn inv(&self) -> bool {
        self@.wf()
    }

    /// Assembles a tree from an arena and a root list, provided that they
    /// describe a forest.
    pub fn from_parts(
        workspace_name: String,
        nodes: Vec<DependencyNode>,
        roots: Vec<NodeId>,
    ) -> (r: Option<DependencyTree>)
        ensures
            r.is_some() == (TreeView {
                workspace_name: workspace_name@,
                nodes: nodes_view(nodes@),
                roots: roots@,
            }).wf(),
            r.is_some() ==> r.unwrap()@ == (TreeView {
                workspace_name: workspace_name@,
                nodes: nodes_view(nodes@),
                roots: roots@,
            }),
    {
        let ghost t = TreeView {
            workspace_name: workspace_name@,
            nodes: nodes_view(nodes@),
            roots: roots@,
        };
        let mut i: usize = 0;
        while i < nodes.len()
            invariant
                i <= nodes.len(),
                t == (TreeView {
                    workspace_name: workspace_name@,
                    nodes: nodes_view(nodes@),
                    roots: roots@,
                }),
                forall|j: int| 0 <= j < i ==> #[trigger] node_ok(t.nodes, j),
                forall|j: int|
                    0 <= j < i && (#[trigger] t.nodes[j]).parent.is_none() ==> roots@.contains(
                        NodeId(j as usize),
                    ),
            decreases nodes.len() - i,
        {
            if !check_node(&nodes, i) {
                return None;
            }
            if nodes[i].parent().is_none() && !contains_id(&roots, NodeId(i)) {
                return None;
            }
            i += 1;
        }
        let mut k: usize = 0;
        while k < roots.len()
            invariant
                k <= roots.len(),
                t == (TreeView {
                    workspace_name: workspace_name@,
                    nodes: nodes_view(nodes@),
                    roots: roots@,
                }),
                forall|j: int|
                    0 <= j < k ==> {
                        &&& (#[trigger] roots@[j]).0 < nodes.len()
                        &&& t.nodes[roots@[j].0 as int].parent.is_none()
                    },
            decreases roots.len() - k,
        {
            let root = roots[k];
            if root.0 >= nodes.len() {
                return None;
            }
            if nodes[root.0].parent().is_some() {
                return None;
            }
            k += 1;
        }
        if !all_distinct(&roots) {
            return None;
        }
        Some(DependencyTree::assemble(workspace_name, nodes, roots))
    }

    /// Assembles a tree from parts that are known to describe a forest.
    pub(crate) fn assemble(
        workspace_name: String,
        nodes: Vec<DependencyNode>,
        roots: Vec<NodeId>,
    ) -> (r: DependencyTree)
        requires
            (TreeView {
                workspace_name: workspace_name@,
                nodes: nodes_view(nodes@),
                roots: roots@,
            }).wf(),
        ensures
            r@ == (TreeView {
                workspace_name: workspace_name@,
                nodes: nodes_view(nodes@),
                roots: roots@,
            }),
    {
        DependencyTree { workspace_name, nodes, roots }
    }

    /// Returns the node that `id` names, or `None` when `id` names no slot.
    pub fn node(&self, id: NodeId) -> (r: Option<&DependencyNode>)
        ensures
            self@.wf(),
            r.is_some() == self@.contains(id),
            r.is_some() ==> r.unwrap()@ == self@.nodes[id.0 as int],
    {
        proof {
            use_type_invariant(self);
        }
        if id.0 < self.nodes.len() {
            Some(&self.nodes[id.0])
        } else {
            None
        }
    }

    /// Returns the root nodes in display order.
    pub fn roots(&self) -> (r: &[NodeId])
        ensures
            self@.wf(),
            r@ == self@.roots,
    {
        proof {
            use_type_invariant(self);
        }
        self.roots.as_slice()
    }

    /// Returns the number of nodes in the arena.
    pub fn len(&self) -> (r: usize)
        ensures
            self@.wf(),
            r == self@.nodes.len(),
    {
        proof {
            use_type_invariant(self);
        }
        self.nodes.len()
    }

    /// Returns the name of the workspace that the tree was built for.
    pub fn workspace_name(&self) -> (r: &str)
        ensures
            r@ == self@.workspace_name,
    {
        self.workspace_name.as_str()
    }
}

} // verus!
