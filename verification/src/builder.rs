//! Unfolding a dependency graph into a forest.
//!
//! Every workspace member becomes a root. Below a node, each resolved edge
//! becomes a child: normal dependencies hang directly below the node, the
//! others below one group per kind, which a table per node keeps track of.
//! A package that is reached a second time below the same parent is not
//! added again, so the same package shows up once per parent. No branch is
//! followed deeper than the graph has packages: a longer path passes through
//! some package twice.

use rustc_hash::FxHashMap;
use rustc_hash::FxHashSet;
use vstd::prelude::*;
use vstd::string::StringExecFns;

use crate::dependency::arena_wf;
use crate::dependency::distinct;
use crate::dependency::group_among;
use crate::dependency::same_group;
use crate::dependency::node_ok;
use crate::dependency::nodes_view;
use crate::dependency::opt_string_view;
use crate::dependency::Dependency;
use crate::dependency::DependencyGroup;
use crate::dependency::DependencyNode;
use crate::dependency::DependencyTree;
use crate::dependency::DependencyType;
use crate::dependency::NodeId;
use crate::dependency::NodeView;
use crate::dependency::TreeView;
use crate::fxmap::fx_map_get;
use crate::fxmap::fx_map_insert;
use crate::fxmap::fx_map_new;
use crate::fxmap::fx_set_contains;
use crate::fxmap::fx_set_insert;
use crate::fxmap::fx_set_new;
use crate::graph::classify;
use crate::graph::edge_type;
use crate::graph::has_proc_macro;
use crate::graph::DependencyGraph;
use crate::graph::GraphError;
use crate::graph::PackageRecord;
use crate::graph::ResolveEdge;
use crate::graph::ResolveNode;
use crate::graph::TargetKind;
use crate::unfolded::lemma_crates_stand_for_packages;
use crate::unfolded::lemma_roots_are_the_members;
use crate::unfolded::recorded;
use crate::unfolded::rooted;

verus! {

/// The table that maps each id of `ids` to the last position that holds it.
pub open spec fn index_map(ids: Seq<u64>) -> Map<u64, usize>
    decreases ids.len(),
{
    if ids.len() == 0 {
        Map::empty()
    } else {
        index_map(ids.drop_last()).insert(ids.last(), (ids.len() - 1) as usize)
    }
}

/// The identities of `packages`, in order.
pub open spec fn package_ids(packages: Seq<PackageRecord>) -> Seq<u64> {
    Seq::new(packages.len(), |i: int| packages[i].id)
}

/// The identities of the packages that `resolve` holds edges for, in order.
pub open spec fn resolve_ids(resolve: Seq<ResolveNode>) -> Seq<u64> {
    Seq::new(resolve.len(), |i: int| resolve[i].id)
}

/// Every entry of an index table points at a position that holds its key.
pub proof fn lemma_index_map_valid(ids: Seq<u64>)
    requires
        ids.len() <= usize::MAX,
    ensures
        forall|k: u64| #[trigger]
            index_map(ids).contains_key(k) ==> (index_map(ids)[k] as int) < ids.len()
                && ids[index_map(ids)[k] as int] == k,
    decreases ids.len(),
{
    if ids.len() > 0 {
        let rest = ids.drop_last();
        lemma_index_map_valid(rest);
        assert forall|k: u64| #[trigger] index_map(ids).contains_key(k) implies (index_map(
            ids,
        )[k] as int) < ids.len() && ids[index_map(ids)[k] as int] == k by {
            if k != ids.last() {
                assert(index_map(rest).contains_key(k));
                assert(rest[index_map(rest)[k] as int] == ids[index_map(rest)[k] as int]);
            }
        }
    }
}

/// What the builder has produced so far: the arena, and which node stands
/// for which package below which parent.
pub struct BuildState {
    pub nodes: Seq<NodeView>,
    pub seen: Map<(u64, Option<usize>), usize>,
}

/// The group nodes that a crate node has got so far: what its group table
/// holds.
#[derive(Debug, Clone, Copy, PartialEq, Eq, Structural)]
pub struct GroupSlots {
    pub dev: Option<NodeId>,
    pub build: Option<NodeId>,
}

/// The key under which the group table of a crate node holds the group of
/// `kind`.
pub open spec fn kind_key(kind: DependencyType) -> u64 {
    match kind {
        DependencyType::Normal => 0,
        DependencyType::Dev => 1,
        DependencyType::Build => 2,
    }
}

/// The group slots that a group table stands for.
pub open spec fn slots_of(groups: Map<u64, usize>) -> GroupSlots {
    GroupSlots {
        dev: if groups.contains_key(kind_key(DependencyType::Dev)) {
            Some(NodeId(groups[kind_key(DependencyType::Dev)]))
        } else {
            None
        },
        build: if groups.contains_key(kind_key(DependencyType::Build)) {
            Some(NodeId(groups[kind_key(DependencyType::Build)]))
        } else {
            None
        },
    }
}

/// The index behind an optional node id.
pub open spec fn parent_key(parent: Option<NodeId>) -> Option<usize> {
    match parent {
        Some(p) => Some(p.0),
        None => None,
    }
}

/// The childless crate node that stands for `record` below `parent`. The
/// manifest directory is kept for local packages only.
pub open spec fn crate_view(record: PackageRecord, parent: Option<NodeId>) -> NodeView {
    NodeView {
        group: None,
        name: record.name@,
        version: record.version@,
        manifest_dir: if record.is_local {
            opt_string_view(record.manifest_dir)
        } else {
            None
        },
        is_proc_macro: record.target_kinds@.contains(TargetKind::ProcMacro),
        parent,
        children: Seq::empty(),
    }
}

/// The empty group of `kind` below `owner`.
pub open spec fn group_view(kind: DependencyType, owner: NodeId) -> NodeView {
    NodeView {
        group: Some(kind),
        name: kind.spec_label(),
        version: Seq::empty(),
        manifest_dir: None,
        is_proc_macro: false,
        parent: Some(owner),
        children: Seq::empty(),
    }
}

/// The arena after `node` was appended and entered as the last child of its
/// parent.
pub open spec fn add_node(nodes: Seq<NodeView>, node: NodeView) -> Seq<NodeView> {
    let id = NodeId(nodes.len() as usize);
    match node.parent {
        Some(p) => if p.0 < nodes.len() {
            nodes.push(node).update(
                p.0 as int,
                NodeView { children: nodes[p.0 as int].children.push(id), ..nodes[p.0 as int] },
            )
        } else {
            nodes.push(node)
        },
        None => nodes.push(node),
    }
}

/// The node below which an edge of `kind` out of `owner` places its target,
/// with the arena and the group slots after a missing group was created.
pub open spec fn enter_group(
    nodes: Seq<NodeView>,
    kind: DependencyType,
    owner: NodeId,
    slots: GroupSlots,
) -> (Seq<NodeView>, NodeId, GroupSlots) {
    let fresh = NodeId(nodes.len() as usize);
    match kind {
        DependencyType::Normal => (nodes, owner, slots),
        DependencyType::Dev => match slots.dev {
            Some(g) => (nodes, g, slots),
            None => (
                add_node(nodes, group_view(kind, owner)),
                fresh,
                GroupSlots { dev: Some(fresh), build: slots.build },
            ),
        },
        DependencyType::Build => match slots.build {
            Some(g) => (nodes, g, slots),
            None => (
                add_node(nodes, group_view(kind, owner)),
                fresh,
                GroupSlots { dev: slots.dev, build: Some(fresh) },
            ),
        },
    }
}

/// The state after package `pkg` was unfolded below `parent`, and the node
/// that stands for it there.
///
/// A package that already has a node below `parent` keeps it. A package that
/// the package list does not hold yields no node. Otherwise a crate node is
/// appended and, while `fuel` lasts, its edges are unfolded below it.
pub open spec fn unfold_node(
    packages: Seq<PackageRecord>,
    resolve: Seq<ResolveNode>,
    pkg: u64,
    parent: Option<NodeId>,
    fuel: nat,
    st: BuildState,
) -> (BuildState, Option<NodeId>)
    decreases fuel, 0nat,
{
    let key = (pkg, parent_key(parent));
    let by_package = index_map(package_ids(packages));
    let by_resolve = index_map(resolve_ids(resolve));
    if st.seen.contains_key(key) {
        (st, Some(NodeId(st.seen[key])))
    } else if !by_package.contains_key(pkg) {
        (st, None)
    } else {
        let id = NodeId(st.nodes.len() as usize);
        let created = BuildState {
            nodes: add_node(st.nodes, crate_view(packages[by_package[pkg] as int], parent)),
            seen: st.seen.insert(key, id.0),
        };
        if fuel > 0 && by_resolve.contains_key(pkg) {
            let deps = resolve[by_resolve[pkg] as int].deps@;
            let slots = GroupSlots { dev: None, build: None };
            (
                unfold_edges(packages, resolve, deps, 0, id, slots, (fuel - 1) as nat, created),
                Some(id),
            )
        } else {
            (created, Some(id))
        }
    }
}

/// The state after the edges `deps[from..]` of the crate node `owner` were
/// unfolded in order.
pub open spec fn unfold_edges(
    packages: Seq<PackageRecord>,
    resolve: Seq<ResolveNode>,
    deps: Seq<ResolveEdge>,
    from: nat,
    owner: NodeId,
    slots: GroupSlots,
    fuel: nat,
    st: BuildState,
) -> BuildState
    decreases fuel, 1 + deps.len() - from,
{
    if from >= deps.len() {
        st
    } else {
        match edge_type(deps[from as int].kinds@) {
            None => unfold_edges(packages, resolve, deps, from + 1, owner, slots, fuel, st),
            Some(kind) => {
                let (nodes, below, slots1) = enter_group(st.nodes, kind, owner, slots);
                let entered = BuildState { nodes, seen: st.seen };
                let (st1, _) = unfold_node(
                    packages,
                    resolve,
                    deps[from as int].pkg,
                    Some(below),
                    fuel,
                    entered,
                );
                unfold_edges(packages, resolve, deps, from + 1, owner, slots1, fuel, st1)
            },
        }
    }
}

/// The state and the root list after the packages `packages[from..]` were
/// visited in order and each workspace member among them was unfolded as a
/// root.
pub open spec fn unfold_roots(
    packages: Seq<PackageRecord>,
    resolve: Seq<ResolveNode>,
    members: Seq<u64>,
    from: nat,
    st: BuildState,
    roots: Seq<NodeId>,
) -> (BuildState, Seq<NodeId>)
    decreases packages.len() - from,
{
    if from >= packages.len() {
        (st, roots)
    } else if members.contains(packages[from as int].id) {
        let (st1, root) = unfold_node(
            packages,
            resolve,
            packages[from as int].id,
            None,
            packages.len(),
            st,
        );
        let roots1 = if root == Some(NodeId(st.nodes.len() as usize)) {
            roots.push(NodeId(st.nodes.len() as usize))
        } else {
            roots
        };
        unfold_roots(packages, resolve, members, from + 1, st1, roots1)
    } else {
        unfold_roots(packages, resolve, members, from + 1, st, roots)
    }
}

/// The name that a tree for `graph` carries.
pub open spec fn workspace_name_of(graph: DependencyGraph) -> Seq<char> {
    match graph.root_name {
        Some(name) => name@,
        None => "workspace"@,
    }
}

/// What unfolding a graph with resolved edges ends with: the arena, the
/// table of which node stands for which package below which parent, and the
/// root list.
pub open spec fn unfold_run(graph: DependencyGraph) -> (BuildState, Seq<NodeId>) {
    unfold_roots(
        graph.packages@,
        graph.resolve.unwrap()@,
        graph.workspace_members@,
        0,
        BuildState { nodes: Seq::empty(), seen: Map::empty() },
        Seq::empty(),
    )
}

/// The tree that a graph with resolved edges unfolds to.
pub open spec fn unfold_graph(graph: DependencyGraph) -> TreeView {
    TreeView {
        workspace_name: workspace_name_of(graph),
        nodes: unfold_run(graph).0.nodes,
        roots: unfold_run(graph).1,
    }
}

/// How an arena relates to an earlier one that it grew from: nothing was
/// removed, and the old nodes kept their parent and their sort.
pub open spec fn extends(old_nodes: Seq<NodeView>, new_nodes: Seq<NodeView>) -> bool {
    &&& old_nodes.len() <= new_nodes.len()
    &&& forall|i: int|
        0 <= i < old_nodes.len() ==> {
            &&& (#[trigger] new_nodes[i]).parent == old_nodes[i].parent
            &&& new_nodes[i].group == old_nodes[i].group
        }
}

/// Whether every entry of `seen` points into an arena of `len` nodes.
pub open spec fn seen_within(seen: Map<(u64, Option<usize>), usize>, len: int) -> bool {
    forall|k: (u64, Option<usize>)| #[trigger] seen.contains_key(k) ==> (seen[k] as int) < len
}

/// Whether `node` may be appended to `nodes` without breaking the arena: it
/// has no children yet and its parent lies in the arena; a group gathers
/// dependencies that are not normal ones and comes below a crate that has
/// no group of that kind.
pub open spec fn fits(nodes: Seq<NodeView>, node: NodeView) -> bool {
    &&& node.children.len() == 0
    &&& node.group != Some(DependencyType::Normal)
    &&& match node.parent {
        Some(p) => {
            &&& p.0 < nodes.len()
            &&& node.group matches Some(kind) ==> {
                &&& nodes[p.0 as int].group.is_none()
                &&& !group_among(
                    nodes,
                    nodes[p.0 as int].children,
                    nodes[p.0 as int].children.len() as int,
                    kind,
                )
            }
        },
        None => node.group.is_none(),
    }
}

/// Whether every node that `nodes` holds beyond position `from` hangs below
/// a node at or beyond `from`.
pub open spec fn deep_from(nodes: Seq<NodeView>, from: int) -> bool {
    forall|i: int|
        from < i < nodes.len() ==> ((#[trigger] nodes[i]).parent matches Some(q) && q.0 >= from)
}

/// Whether the group slots name the groups among the children of `owner`:
/// each child that is a group fills the slot of its kind.
pub open spec fn slots_match(nodes: Seq<NodeView>, owner: NodeId, slots: GroupSlots) -> bool {
    forall|j: int|
        0 <= j < nodes[owner.0 as int].children.len() ==> match nodes[(
        #[trigger] nodes[owner.0 as int].children[j]).0 as int].group {
            Some(DependencyType::Dev) => slots.dev == Some(nodes[owner.0 as int].children[j]),
            Some(DependencyType::Build) => slots.build == Some(nodes[owner.0 as int].children[j]),
            Some(DependencyType::Normal) => false,
            None => true,
        }
}

/// Whether the groups in the slots lie beyond `owner`.
pub open spec fn slots_beyond(slots: GroupSlots, owner: NodeId) -> bool {
    &&& slots.dev matches Some(g) ==> g.0 > owner.0
    &&& slots.build matches Some(g) ==> g.0 > owner.0
}

/// Appending a fitting node keeps the arena well-formed.
pub proof fn lemma_add_node(nodes: Seq<NodeView>, node: NodeView)
    requires
        arena_wf(nodes),
        fits(nodes, node),
        nodes.len() < usize::MAX,
    ensures
        arena_wf(add_node(nodes, node)),
        extends(nodes, add_node(nodes, node)),
        add_node(nodes, node).len() == nodes.len() + 1,
        add_node(nodes, node)[nodes.len() as int].parent == node.parent,
        add_node(nodes, node)[nodes.len() as int].group == node.group,
{
    let new_nodes = add_node(nodes, node);
    let n = nodes.len() as int;
    let id = NodeId(n as usize);
    assert forall|i: int| 0 <= i < new_nodes.len() implies #[trigger] node_ok(new_nodes, i) by {
        if i < n {
            assert(node_ok(nodes, i));
            let old_i = nodes[i];
            let new_i = new_nodes[i];
            assert(new_i.parent == old_i.parent);
            assert forall|a: int, b: int| 0 <= a < b < new_i.children.len() implies !#[trigger] same_group(
                new_nodes,
                new_i.children[a],
                new_i.children[b],
            ) by {
                assert(new_i.children[a] == old_i.children[a]);
                assert(old_i.children[a].0 < nodes.len());
                if b < old_i.children.len() {
                    assert(new_i.children[b] == old_i.children[b]);
                    assert(old_i.children[b].0 < nodes.len());
                    assert(!same_group(nodes, old_i.children[a], old_i.children[b]));
                } else {
                    assert(new_i.children[b] == id);
                    assert(new_nodes[id.0 as int].group == node.group);
                }
            }
            match old_i.parent {
                Some(q) => {
                    let k = choose|k: int|
                        0 <= k < nodes[q.0 as int].children.len() && nodes[q.0 as int].children[k]
                            == NodeId(i as usize);
                    assert(new_nodes[q.0 as int].children[k] == NodeId(i as usize));
                },
                None => {},
            }
            assert forall|k: int| 0 <= k < new_i.children.len() implies {
                &&& (#[trigger] new_i.children[k]).0 < new_nodes.len()
                &&& new_nodes[new_i.children[k].0 as int].parent == Some(NodeId(i as usize))
            } by {
                if k < old_i.children.len() {
                    assert(new_i.children[k] == old_i.children[k]);
                    let c = old_i.children[k];
                    assert(c.0 < nodes.len());
                    assert(node_ok(nodes, c.0 as int));
                }
            }
            assert(distinct(new_i.children)) by {
                assert forall|a: int, b: int| 0 <= a < b < new_i.children.len() implies new_i.children[a]
                    != new_i.children[b] by {
                    if b < old_i.children.len() {
                        assert(new_i.children[a] == old_i.children[a]);
                        assert(new_i.children[b] == old_i.children[b]);
                    } else {
                        assert(new_i.children[a] == old_i.children[a]);
                        assert(old_i.children[a].0 < nodes.len());
                    }
                }
            }
        } else {
            match node.parent {
                Some(p) => {
                    let kids = new_nodes[p.0 as int].children;
                    assert(kids[kids.len() - 1] == id);
                },
                None => {},
            }
        }
    }
}

/// Returns the table that maps each package id to the last position in
/// `packages` that holds it.
fn index_packages(packages: &Vec<PackageRecord>) -> (m: FxHashMap<u64, usize>)
    ensures
        m@ == index_map(package_ids(packages@)),
{
    let mut m: FxHashMap<u64, usize> = fx_map_new();
    let mut i: usize = 0;
    while i < packages.len()
        invariant
            i <= packages.len(),
            m@ == index_map(package_ids(packages@).take(i as int)),
        decreases packages.len() - i,
    {
        proof {
            let ids = package_ids(packages@);
            assert(ids.take(i + 1).drop_last() =~= ids.take(i as int));
        }
        fx_map_insert(&mut m, packages[i].id, i);
        i += 1;
    }
    proof {
        let ids = package_ids(packages@);
        assert(ids.take(i as int) =~= ids);
    }
    m
}

/// Returns the table that maps each resolved package id to the last position
/// in `resolve` that holds it.
fn index_resolve(resolve: &Vec<ResolveNode>) -> (m: FxHashMap<u64, usize>)
    ensures
        m@ == index_map(resolve_ids(resolve@)),
{
    let mut m: FxHashMap<u64, usize> = fx_map_new();
    let mut i: usize = 0;
    while i < resolve.len()
        invariant
            i <= resolve.len(),
            m@ == index_map(resolve_ids(resolve@).take(i as int)),
        decreases resolve.len() - i,
    {
        proof {
            let ids = resolve_ids(resolve@);
            assert(ids.take(i + 1).drop_last() =~= ids.take(i as int));
        }
        fx_map_insert(&mut m, resolve[i].id, i);
        i += 1;
    }
    proof {
        let ids = resolve_ids(resolve@);
        assert(ids.take(i as int) =~= ids);
    }
    m
}

/// Returns the set of the workspace members.
fn member_set(members: &Vec<u64>) -> (s: FxHashSet<u64>)
    ensures
        forall|id: u64| s@.contains(id) <==> members@.contains(id),
{
    let mut s: FxHashSet<u64> = fx_set_new();
    let mut i: usize = 0;
    while i < members.len()
        invariant
            i <= members.len(),
            forall|id: u64|
                s@.contains(id) <==> exists|j: int| 0 <= j < i && members@[j] == id,
        decreases members.len() - i,
    {
        fx_set_insert(&mut s, members[i]);
        i += 1;
    }
    s
}

/// Appends `node` to the arena and enters it as the last child of its
/// parent.
fn push_node(nodes: &mut Vec<DependencyNode>, node: DependencyNode) -> (id: NodeId)
    requires
        arena_wf(nodes_view(old(nodes)@)),
        fits(nodes_view(old(nodes)@), node@),
    ensures
        id == NodeId(old(nodes).len()),
        nodes_view(final(nodes)@) == add_node(nodes_view(old(nodes)@), node@),
        arena_wf(nodes_view(final(nodes)@)),
        extends(nodes_view(old(nodes)@), nodes_view(final(nodes)@)),
        final(nodes).len() == old(nodes).len() + 1,
        nodes_view(final(nodes)@)[old(nodes).len() as int].parent == node@.parent,
        nodes_view(final(nodes)@)[old(nodes).len() as int].group == node@.group,
{
    let id = NodeId(nodes.len());
    let parent = node.parent();
    let ghost before = nodes_view(nodes@);
    let ghost view = node@;
    nodes.push(node);
    assert(nodes@.len() == nodes.len());
    match parent {
        Some(p) => {
            match &mut nodes[p.0] {
                DependencyNode::Crate(d) => {
                    d.children.push(id);
                },
                DependencyNode::Group(g) => {
                    g.children.push(id);
                },
            }
        },
        None => {},
    }
    proof {
        assert(nodes_view(nodes@) =~= add_node(before, view));
        lemma_add_node(before, view);
    }
    id
}

/// Whether the group slots point into an arena of `len` nodes.
pub open spec fn slots_within(slots: GroupSlots, len: int) -> bool {
    &&& slots.dev matches Some(g) ==> g.0 < len
    &&& slots.build matches Some(g) ==> g.0 < len
}

/// Growing an arena twice is growing it once.
pub proof fn lemma_extends_trans(a: Seq<NodeView>, b: Seq<NodeView>, c: Seq<NodeView>)
    requires
        extends(a, b),
        extends(b, c),
    ensures
        extends(a, c),
{
    assert forall|i: int| 0 <= i < a.len() implies {
        &&& (#[trigger] c[i]).parent == a[i].parent
        &&& c[i].group == a[i].group
    } by {
        assert(b[i].parent == a[i].parent);
    }
}

/// The slots keep naming the groups among the children of `owner` while a
/// package is unfolded below `owner` or below one of its groups: all that
/// `owner` can gain is the crate at position `from`.
pub proof fn lemma_slots_match_grows(
    a: Seq<NodeView>,
    b: Seq<NodeView>,
    owner: NodeId,
    slots: GroupSlots,
    from: int,
)
    requires
        arena_wf(a),
        arena_wf(b),
        extends(a, b),
        owner.0 < from,
        from == a.len(),
        slots_match(a, owner, slots),
        deep_from(b, from),
        from < b.len() ==> b[from].group.is_none(),
    ensures
        slots_match(b, owner, slots),
{
    assert(node_ok(b, owner.0 as int));
    let kids = b[owner.0 as int].children;
    assert forall|j: int| 0 <= j < kids.len() implies match b[(#[trigger] kids[j]).0 as int].group {
        Some(DependencyType::Dev) => slots.dev == Some(kids[j]),
        Some(DependencyType::Build) => slots.build == Some(kids[j]),
        Some(DependencyType::Normal) => false,
        None => true,
    } by {
        let c = kids[j];
        assert(c.0 < b.len());
        assert(b[c.0 as int].parent == Some(owner));
        if c.0 < from {
            assert(a[c.0 as int].parent == Some(owner));
            assert(node_ok(a, c.0 as int));
            let old_kids = a[owner.0 as int].children;
            let k = choose|k: int| 0 <= k < old_kids.len() && old_kids[k] == c;
            assert(old_kids[k] == c);
            assert(b[c.0 as int].group == a[c.0 as int].group);
        } else if c.0 > from {
            assert(b[c.0 as int].parent matches Some(q) && q.0 >= from);
        }
    }
}

/// Nodes that hang below a node at or beyond `from` keep doing so while the
/// arena grows below such nodes.
pub proof fn lemma_deep_grows(a: Seq<NodeView>, b: Seq<NodeView>, from: int, below: NodeId)
    requires
        extends(a, b),
        deep_from(a, from),
        deep_from(b, a.len() as int),
        0 <= from < a.len(),
        below.0 >= from,
        a.len() < b.len() ==> b[a.len() as int].parent == Some(below),
    ensures
        deep_from(b, from),
{
    assert forall|i: int| from < i < b.len() implies ((#[trigger] b[i]).parent matches Some(q) && q.0
        >= from) by {
        if i < a.len() {
            assert(a[i].parent matches Some(q) && q.0 >= from);
        } else if i > a.len() {
            assert(b[i].parent matches Some(q) && q.0 >= a.len());
        }
    }
}

/// Returns the key under which the group table holds the group of `kind`.
fn key_of_kind(kind: DependencyType) -> (r: u64)
    ensures
        r == kind_key(kind),
{
    match kind {
        DependencyType::Normal => 0,
        DependencyType::Dev => 1,
        DependencyType::Build => 2,
    }
}

/// Returns the node below which an edge of `kind` out of `owner` places its
/// target, creating the group of that kind when the group table of `owner`
/// holds none yet.
fn enter(
    nodes: &mut Vec<DependencyNode>,
    kind: DependencyType,
    owner: NodeId,
    groups: &mut FxHashMap<u64, usize>,
) -> (below: NodeId)
    requires
        arena_wf(nodes_view(old(nodes)@)),
        owner.0 < old(nodes).len(),
        nodes_view(old(nodes)@)[owner.0 as int].group.is_none(),
        slots_within(slots_of(old(groups)@), old(nodes).len() as int),
        slots_beyond(slots_of(old(groups)@), owner),
        slots_match(nodes_view(old(nodes)@), owner, slots_of(old(groups)@)),
        deep_from(nodes_view(old(nodes)@), owner.0 as int),
    ensures
        (nodes_view(final(nodes)@), below, slots_of(final(groups)@)) == enter_group(
            nodes_view(old(nodes)@),
            kind,
            owner,
            slots_of(old(groups)@),
        ),
        arena_wf(nodes_view(final(nodes)@)),
        extends(nodes_view(old(nodes)@), nodes_view(final(nodes)@)),
        below.0 < final(nodes).len(),
        below.0 >= owner.0,
        slots_within(slots_of(final(groups)@), final(nodes).len() as int),
        slots_beyond(slots_of(final(groups)@), owner),
        slots_match(nodes_view(final(nodes)@), owner, slots_of(final(groups)@)),
        deep_from(nodes_view(final(nodes)@), owner.0 as int),
{
    match kind {
        DependencyType::Normal => {
            return owner;
        },
        _ => {},
    }
    let key = key_of_kind(kind);
    match fx_map_get(groups, key) {
        Some(g) => NodeId(g),
        None => {
            let group = DependencyNode::Group(
                DependencyGroup { kind, parent: Some(owner), children: Vec::new() },
            );
            assert(group@ == group_view(kind, owner));
            let ghost before = nodes_view(nodes@);
            let ghost old_slots = slots_of(groups@);
            proof {
                let kids = before[owner.0 as int].children;
                if group_among(before, kids, kids.len() as int, kind) {
                    let j = choose|j: int|
                        0 <= j < kids.len() && before[(#[trigger] kids[j]).0 as int].group == Some(
                            kind,
                        );
                    assert(false);
                }
            }
            let id = push_node(nodes, group);
            fx_map_insert(groups, key, id.0);
            proof {
                let slots = slots_of(groups@);
                let after = nodes_view(nodes@);
                let kids = before[owner.0 as int].children;
                assert(after[owner.0 as int].children == kids.push(id));
                assert(node_ok(before, owner.0 as int));
                assert forall|j: int|
                    0 <= j < after[owner.0 as int].children.len() implies match after[(
                #[trigger] after[owner.0 as int].children[j]).0 as int].group {
                    Some(DependencyType::Dev) => slots.dev == Some(
                        after[owner.0 as int].children[j],
                    ),
                    Some(DependencyType::Build) => slots.build == Some(
                        after[owner.0 as int].children[j],
                    ),
                    Some(DependencyType::Normal) => false,
                    None => true,
                } by {
                    if j < kids.len() {
                        let c = kids[j];
                        assert(after[owner.0 as int].children[j] == c);
                        assert(c.0 < before.len());
                        assert(after[c.0 as int].group == before[c.0 as int].group);
                        assert(before[c.0 as int].group != Some(kind)) by {
                            if before[c.0 as int].group == Some(kind) {
                                assert(old_slots.dev == Some(c) || old_slots.build == Some(c));
                            }
                        }
                    }
                }
                assert forall|i: int| owner.0 < i < after.len() implies ((
                #[trigger] after[i]).parent matches Some(q) && q.0 >= owner.0) by {
                    if i < before.len() {
                        assert(before[i].parent matches Some(q) && q.0 >= owner.0);
                    }
                }
            }
            id
        },
    }
}

/// Returns a copy of an optional string.
fn clone_opt_string(s: &Option<String>) -> (r: Option<String>)
    ensures
        opt_string_view(r) == opt_string_view(*s),
{
    match s {
        Some(text) => Some(text.clone()),
        None => None,
    }
}

/// Returns the index behind an optional node id.
fn key_of(parent: Option<NodeId>) -> (r: Option<usize>)
    ensures
        r == parent_key(parent),
{
    match parent {
        Some(p) => Some(p.0),
        None => None,
    }
}

/// Unfolds package `pkg` below `parent` and returns the node that stands for
/// it there, if there is one.
fn build_node(
    packages: &Vec<PackageRecord>,
    resolve: &Vec<ResolveNode>,
    by_package: &FxHashMap<u64, usize>,
    by_resolve: &FxHashMap<u64, usize>,
    pkg: u64,
    parent: Option<NodeId>,
    fuel: usize,
    seen: &mut FxHashMap<(u64, Option<usize>), usize>,
    nodes: &mut Vec<DependencyNode>,
) -> (r: Option<NodeId>)
    requires
        by_package@ == index_map(package_ids(packages@)),
        by_resolve@ == index_map(resolve_ids(resolve@)),
        arena_wf(nodes_view(old(nodes)@)),
        seen_within(old(seen)@, old(nodes).len() as int),
        parent matches Some(p) ==> p.0 < old(nodes).len(),
    ensures
        (BuildState { nodes: nodes_view(final(nodes)@), seen: final(seen)@ }, r) == unfold_node(
            packages@,
            resolve@,
            pkg,
            parent,
            fuel as nat,
            BuildState { nodes: nodes_view(old(nodes)@), seen: old(seen)@ },
        ),
        arena_wf(nodes_view(final(nodes)@)),
        extends(nodes_view(old(nodes)@), nodes_view(final(nodes)@)),
        seen_within(final(seen)@, final(nodes).len() as int),
        deep_from(nodes_view(final(nodes)@), old(nodes).len() as int),
        final(nodes).len() > old(nodes).len() ==> {
            &&& r == Some(NodeId(old(nodes).len()))
            &&& nodes_view(final(nodes)@)[old(nodes).len() as int].parent == parent
            &&& nodes_view(final(nodes)@)[old(nodes).len() as int].group.is_none()
        },
        final(nodes).len() == old(nodes).len() ==> (r matches Some(id) ==> id.0 < old(nodes).len()),
    decreases fuel,
{
    let ghost start = BuildState { nodes: nodes_view(nodes@), seen: seen@ };
    let key = (pkg, key_of(parent));
    if let Some(existing) = fx_map_get(seen, key) {
        return Some(NodeId(existing));
    }
    let index = match fx_map_get(by_package, pkg) {
        Some(index) => index,
        None => {
            return None;
        },
    };
    proof {
        assert(packages@.len() == packages.len());
        assert(resolve@.len() == resolve.len());
        lemma_index_map_valid(package_ids(packages@));
        lemma_index_map_valid(resolve_ids(resolve@));
    }
    let record = &packages[index];
    let manifest_dir = if record.is_local {
        clone_opt_string(&record.manifest_dir)
    } else {
        None
    };
    let node = DependencyNode::Crate(
        Dependency {
            name: record.name.clone(),
            version: record.version.clone(),
            manifest_dir,
            is_proc_macro: has_proc_macro(&record.target_kinds),
            parent,
            children: Vec::new(),
        },
    );
    assert(node@ == crate_view(packages@[index as int], parent));
    let id = push_node(nodes, node);
    fx_map_insert(seen, key, id.0);
    let ghost created = BuildState { nodes: nodes_view(nodes@), seen: seen@ };
    if fuel == 0 {
        return Some(id);
    }
    let edges = match fx_map_get(by_resolve, pkg) {
        Some(at) => &resolve[at].deps,
        None => {
            return Some(id);
        },
    };
    let mut groups: FxHashMap<u64, usize> = fx_map_new();
    assert(slots_of(groups@) == (GroupSlots { dev: None, build: None }));
    let ghost target = unfold_edges(
        packages@,
        resolve@,
        edges@,
        0,
        id,
        slots_of(groups@),
        (fuel - 1) as nat,
        created,
    );
    let mut i: usize = 0;
    while i < edges.len()
        invariant
            i <= edges.len(),
            fuel > 0,
            by_package@ == index_map(package_ids(packages@)),
            by_resolve@ == index_map(resolve_ids(resolve@)),
            unfold_edges(
                packages@,
                resolve@,
                edges@,
                i as nat,
                id,
                slots_of(groups@),
                (fuel - 1) as nat,
                BuildState { nodes: nodes_view(nodes@), seen: seen@ },
            ) == target,
            arena_wf(nodes_view(nodes@)),
            seen_within(seen@, nodes.len() as int),
            id.0 < nodes.len(),
            nodes_view(nodes@)[id.0 as int].group.is_none(),
            slots_within(slots_of(groups@), nodes.len() as int),
            slots_beyond(slots_of(groups@), id),
            slots_match(nodes_view(nodes@), id, slots_of(groups@)),
            deep_from(nodes_view(nodes@), id.0 as int),
            extends(created.nodes, nodes_view(nodes@)),
        decreases edges.len() - i,
    {
        match classify(&edges[i].kinds) {
            None => {},
            Some(kind) => {
                let ghost v0 = nodes_view(nodes@);
                let below = enter(nodes, kind, id, &mut groups);
                let ghost v1 = nodes_view(nodes@);
                let _ = build_node(
                    packages,
                    resolve,
                    by_package,
                    by_resolve,
                    edges[i].pkg,
                    Some(below),
                    fuel - 1,
                    seen,
                    nodes,
                );
                proof {
                    let v2 = nodes_view(nodes@);
                    lemma_slots_match_grows(v1, v2, id, slots_of(groups@), v1.len() as int);
                    lemma_deep_grows(v1, v2, id.0 as int, below);
                    lemma_extends_trans(v0, v1, v2);
                    lemma_extends_trans(created.nodes, v0, v2);
                }
            },
        }
        i += 1;
    }
    proof {
        lemma_extends_trans(start.nodes, created.nodes, nodes_view(nodes@));
    }
    Some(id)
}

impl DependencyTree {
    /// Unfolds `graph` into the forest of its workspace members.
    ///
    /// Fails exactly when the graph carries no resolved edges. The tree is a
    /// well-formed forest. Its roots stand for the workspace members, in the
    /// order of the package list. Every crate node stands for one package
    /// below one parent and carries what the package list says of it, and
    /// no package has two nodes below the same parent.
    pub fn build(graph: &DependencyGraph) -> (r: Result<DependencyTree, GraphError>)
        ensures
            r.is_ok() == graph.resolve.is_some(),
            r matches Err(e) ==> e == GraphError::ResolveMissing,
            r matches Ok(tree) ==> {
                &&& tree@ == unfold_graph(*graph)
                &&& tree@.wf()
                &&& recorded(graph.packages@, unfold_run(*graph).0)
                &&& rooted(
                    graph.packages@,
                    graph.workspace_members@,
                    graph.packages@.len() as int,
                    unfold_run(*graph).0,
                    unfold_run(*graph).1,
                )
            },
    {
        let resolve = match &graph.resolve {
            Some(resolve) => resolve,
            None => {
                return Err(GraphError::ResolveMissing);
            },
        };
        let workspace_name = match &graph.root_name {
            Some(name) => name.clone(),
            None => String::from_str("workspace"),
        };
        let packages = &graph.packages;
        let by_package = index_packages(packages);
        let by_resolve = index_resolve(resolve);
        let members = member_set(&graph.workspace_members);
        let mut seen: FxHashMap<(u64, Option<usize>), usize> = fx_map_new();
        let mut nodes: Vec<DependencyNode> = Vec::new();
        let mut roots: Vec<NodeId> = Vec::new();
        let ghost target = unfold_roots(
            packages@,
            resolve@,
            graph.workspace_members@,
            0,
            BuildState { nodes: Seq::empty(), seen: Map::empty() },
            Seq::empty(),
        );
        assert(nodes_view(nodes@) =~= Seq::<NodeView>::empty());
        let mut i: usize = 0;
        while i < packages.len()
            invariant
                i <= packages.len(),
                by_package@ == index_map(package_ids(packages@)),
                by_resolve@ == index_map(resolve_ids(resolve@)),
                forall|id: u64| members@.contains(id) <==> graph.workspace_members@.contains(id),
                unfold_roots(
                    packages@,
                    resolve@,
                    graph.workspace_members@,
                    i as nat,
                    BuildState { nodes: nodes_view(nodes@), seen: seen@ },
                    roots@,
                ) == target,
                arena_wf(nodes_view(nodes@)),
                seen_within(seen@, nodes.len() as int),
                (TreeView {
                    workspace_name: workspace_name@,
                    nodes: nodes_view(nodes@),
                    roots: roots@,
                }).roots_wf(),
            decreases packages.len() - i,
        {
            if fx_set_contains(&members, packages[i].id) {
                let before = nodes.len();
                let ghost v0 = nodes_view(nodes@);
                let ghost r0 = roots@;
                let root = build_node(
                    packages,
                    resolve,
                    &by_package,
                    &by_resolve,
                    packages[i].id,
                    None,
                    packages.len(),
                    &mut seen,
                    &mut nodes,
                );
                let ghost v1 = nodes_view(nodes@);
                match root {
                    Some(id) => {
                        if id.0 == before {
                            roots.push(id);
                            proof {
                                assert(v1.len() > v0.len());
                                assert(roots@[roots@.len() - 1] == id);
                                assert forall|k: int| 0 <= k < r0.len() implies r0[k] == roots@[k] by {}
                            }
                        }
                    },
                    None => {},
                }
                proof {
                    let t = TreeView {
                        workspace_name: workspace_name@,
                        nodes: v1,
                        roots: roots@,
                    };
                    assert forall|j: int|
                        0 <= j < v1.len() && (#[trigger] v1[j]).parent.is_none() implies roots@.contains(
                        NodeId(j as usize),
                    ) by {
                        if j < v0.len() {
                            assert(v0[j].parent.is_none());
                            assert(r0.contains(NodeId(j as usize)));
                            let k = choose|k: int| 0 <= k < r0.len() && r0[k] == NodeId(j as usize);
                            assert(roots@[k] == NodeId(j as usize));
                        } else {
                            assert(j == v0.len());
                            assert(roots@[roots@.len() - 1] == NodeId(j as usize));
                        }
                    }
                    assert(t.roots_wf());
                }
            }
            i += 1;
        }
        proof {
            assert(nodes@.len() == nodes.len());
            lemma_crates_stand_for_packages(*graph);
            lemma_roots_are_the_members(*graph);
        }
        let tree = DependencyTree::assemble(workspace_name, nodes, roots);
        Ok(tree)
    }
}


} // verus!
