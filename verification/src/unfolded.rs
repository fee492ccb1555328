//! What holds of every tree that a graph unfolds to, beyond its shape: which
//! crate node stands for which package, what it carries, and where the roots
//! come from.

use vstd::prelude::*;

use crate::builder::add_node;
use crate::builder::crate_view;
use crate::builder::enter_group;
use crate::builder::group_view;
use crate::builder::index_map;
use crate::builder::package_ids;
use crate::builder::parent_key;
use crate::builder::resolve_ids;
use crate::builder::unfold_edges;
use crate::builder::unfold_graph;
use crate::builder::unfold_node;
use crate::builder::unfold_roots;
use crate::builder::unfold_run;
use crate::builder::BuildState;
use crate::builder::GroupSlots;
use crate::dependency::DependencyType;
use crate::dependency::NodeId;
use crate::dependency::NodeView;
use crate::graph::edge_type;
use crate::graph::DependencyGraph;
use crate::graph::PackageRecord;
use crate::graph::ResolveEdge;
use crate::graph::ResolveNode;

verus! {

/// The node id behind an optional index.
pub open spec fn key_parent(parent: Option<usize>) -> Option<NodeId> {
    match parent {
        Some(p) => Some(NodeId(p)),
        None => None,
    }
}

/// Whether `node` is a crate node below `parent` that carries what the
/// package list says of package `pkg`: its name, its version, its manifest
/// directory if it is a local package, and whether one of its targets is a
/// proc-macro. Where the list holds several records of `pkg`, the last one
/// counts.
pub open spec fn carries(
    packages: Seq<PackageRecord>,
    node: NodeView,
    pkg: u64,
    parent: Option<usize>,
) -> bool {
    let by_package = index_map(package_ids(packages));
    &&& by_package.contains_key(pkg)
    &&& node == (NodeView {
        children: node.children,
        ..crate_view(packages[by_package[pkg] as int], key_parent(parent))
    })
}

/// Whether the table `seen` says that node `i` stands for `key`.
pub open spec fn names_node(
    seen: Map<(u64, Option<usize>), usize>,
    key: (u64, Option<usize>),
    i: int,
) -> bool {
    seen.contains_key(key) && seen[key] == i
}

/// Whether the table of a build state tells, for each crate node of the
/// arena, the one package and parent that it stands for: every entry points
/// at a crate node that carries its package below its parent, no two
/// entries point at the same node, and every crate node has an entry.
pub open spec fn recorded(packages: Seq<PackageRecord>, st: BuildState) -> bool {
    &&& forall|key: (u64, Option<usize>)| #[trigger]
        st.seen.contains_key(key) ==> (st.seen[key] as int) < st.nodes.len() && carries(
            packages,
            st.nodes[st.seen[key] as int],
            key.0,
            key.1,
        )
    &&& forall|k1: (u64, Option<usize>), k2: (u64, Option<usize>)|
        #[trigger] st.seen.contains_key(k1) && #[trigger] st.seen.contains_key(k2) && k1 != k2
            ==> st.seen[k1] != st.seen[k2]
    &&& forall|i: int|
        0 <= i < st.nodes.len() && (#[trigger] st.nodes[i]).group.is_none() ==> exists|
            key: (u64, Option<usize>),
        | #[trigger] names_node(st.seen, key, i)
}

/// How a later build state relates to an earlier one: no node and no entry
/// was removed, and the old nodes changed in their children at most.
pub open spec fn grown_from(a: BuildState, b: BuildState) -> bool {
    &&& a.nodes.len() <= b.nodes.len()
    &&& forall|key: (u64, Option<usize>)| #[trigger]
        a.seen.contains_key(key) ==> b.seen.contains_key(key) && b.seen[key] == a.seen[key]
    &&& forall|i: int|
        0 <= i < a.nodes.len() ==> #[trigger] b.nodes[i] == (NodeView {
            children: b.nodes[i].children,
            ..a.nodes[i]
        })
}

/// Whether every entry that `b` holds beyond those of `a` is `key` or names
/// a place below a parent.
pub open spec fn added_below(
    a: BuildState,
    b: BuildState,
    key: Option<(u64, Option<usize>)>,
) -> bool {
    forall|k: (u64, Option<usize>)| #[trigger]
        b.seen.contains_key(k) && !a.seen.contains_key(k) ==> Some(k) == key || k.1.is_some()
}

/// Growing twice is growing once.
pub proof fn lemma_grown_trans(a: BuildState, b: BuildState, c: BuildState)
    requires
        grown_from(a, b),
        grown_from(b, c),
    ensures
        grown_from(a, c),
{
    assert forall|i: int| 0 <= i < a.nodes.len() implies #[trigger] c.nodes[i] == (NodeView {
        children: c.nodes[i].children,
        ..a.nodes[i]
    }) by {
        assert(b.nodes[i] == (NodeView { children: b.nodes[i].children, ..a.nodes[i] }));
    }
    assert forall|key: (u64, Option<usize>)| #[trigger] a.seen.contains_key(key) implies c.seen.contains_key(
        key,
    ) && c.seen[key] == a.seen[key] by {
        assert(b.seen.contains_key(key));
    }
}

/// Appending a node changes the old nodes in their children at most.
pub proof fn lemma_add_node_grows(st: BuildState, node: NodeView)
    ensures
        add_node(st.nodes, node).len() == st.nodes.len() + 1,
        add_node(st.nodes, node)[st.nodes.len() as int] == node,
        grown_from(st, BuildState { nodes: add_node(st.nodes, node), seen: st.seen }),
{
}

/// Every id of a list has an entry in its index table.
pub proof fn lemma_index_map_complete(ids: Seq<u64>, i: int)
    requires
        0 <= i < ids.len(),
    ensures
        index_map(ids).contains_key(ids[i]),
    decreases ids.len(),
{
    if i < ids.len() - 1 {
        lemma_index_map_complete(ids.drop_last(), i);
    }
}

/// Unfolding a package removes nothing, and what it enters into the table
/// beyond the package itself names places below a parent.
pub proof fn lemma_node_grows(
    packages: Seq<PackageRecord>,
    resolve: Seq<ResolveNode>,
    pkg: u64,
    parent: Option<NodeId>,
    fuel: nat,
    st: BuildState,
)
    ensures
        grown_from(st, unfold_node(packages, resolve, pkg, parent, fuel, st).0),
        added_below(
            st,
            unfold_node(packages, resolve, pkg, parent, fuel, st).0,
            Some((pkg, parent_key(parent))),
        ),
    decreases fuel, 0nat,
{
    let key = (pkg, parent_key(parent));
    let by_package = index_map(package_ids(packages));
    let by_resolve = index_map(resolve_ids(resolve));
    if !st.seen.contains_key(key) && by_package.contains_key(pkg) {
        let id = NodeId(st.nodes.len() as usize);
        let node = crate_view(packages[by_package[pkg] as int], parent);
        let created = BuildState {
            nodes: add_node(st.nodes, node),
            seen: st.seen.insert(key, id.0),
        };
        lemma_add_node_grows(st, node);
        assert(grown_from(st, created));
        if fuel > 0 && by_resolve.contains_key(pkg) {
            let deps = resolve[by_resolve[pkg] as int].deps@;
            let slots = GroupSlots { dev: None, build: None };
            lemma_edges_grows(packages, resolve, deps, 0, id, slots, (fuel - 1) as nat, created);
            let left = (fuel - 1) as nat;
            let end = unfold_edges(packages, resolve, deps, 0, id, slots, left, created);
            lemma_grown_trans(st, created, end);
        }
    }
}

/// Unfolding edges removes nothing, and what it enters into the table names
/// places below a parent.
pub proof fn lemma_edges_grows(
    packages: Seq<PackageRecord>,
    resolve: Seq<ResolveNode>,
    deps: Seq<ResolveEdge>,
    from: nat,
    owner: NodeId,
    slots: GroupSlots,
    fuel: nat,
    st: BuildState,
)
    ensures
        grown_from(st, unfold_edges(packages, resolve, deps, from, owner, slots, fuel, st)),
        added_below(st, unfold_edges(packages, resolve, deps, from, owner, slots, fuel, st), None),
    decreases fuel, 1 + deps.len() - from,
{
    if from < deps.len() {
        match edge_type(deps[from as int].kinds@) {
            None => {
                lemma_edges_grows(packages, resolve, deps, from + 1, owner, slots, fuel, st);
            },
            Some(kind) => {
                let (nodes, below, slots1) = enter_group(st.nodes, kind, owner, slots);
                let entered = BuildState { nodes, seen: st.seen };
                lemma_add_node_grows(st, group_view(kind, owner));
                assert(grown_from(st, entered));
                let pkg = deps[from as int].pkg;
                lemma_node_grows(packages, resolve, pkg, Some(below), fuel, entered);
                let st1 = unfold_node(packages, resolve, pkg, Some(below), fuel, entered).0;
                lemma_edges_grows(packages, resolve, deps, from + 1, owner, slots1, fuel, st1);
                let end = unfold_edges(packages, resolve, deps, from + 1, owner, slots1, fuel, st1);
                lemma_grown_trans(st, entered, st1);
                lemma_grown_trans(st, st1, end);
            },
        }
    }
}

/// The table stays truthful when a group node is appended.
pub proof fn lemma_group_recorded(
    packages: Seq<PackageRecord>,
    st: BuildState,
    kind: DependencyType,
    owner: NodeId,
)
    requires
        recorded(packages, st),
    ensures
        recorded(
            packages,
            BuildState { nodes: add_node(st.nodes, group_view(kind, owner)), seen: st.seen },
        ),
{
    let after = BuildState { nodes: add_node(st.nodes, group_view(kind, owner)), seen: st.seen };
    lemma_add_node_grows(st, group_view(kind, owner));
    assert forall|key: (u64, Option<usize>)| #[trigger] after.seen.contains_key(key) implies (
    after.seen[key] as int) < after.nodes.len() && carries(
        packages,
        after.nodes[after.seen[key] as int],
        key.0,
        key.1,
    ) by {
        let i = st.seen[key] as int;
        assert(after.nodes[i] == (NodeView { children: after.nodes[i].children, ..st.nodes[i] }));
    }
    assert forall|i: int|
        0 <= i < after.nodes.len() && (#[trigger] after.nodes[i]).group.is_none() implies exists|
        key: (u64, Option<usize>),
    | #[trigger] names_node(after.seen, key, i) by {
        assert(i < st.nodes.len());
        assert(after.nodes[i] == (NodeView { children: after.nodes[i].children, ..st.nodes[i] }));
        assert(st.nodes[i].group.is_none());
        let key = choose|key: (u64, Option<usize>)| #[trigger] names_node(st.seen, key, i);
        assert(names_node(after.seen, key, i));
    }
}

/// The table stays truthful when a crate node is appended and entered.
pub proof fn lemma_crate_recorded(
    packages: Seq<PackageRecord>,
    st: BuildState,
    pkg: u64,
    parent: Option<NodeId>,
)
    requires
        recorded(packages, st),
        st.nodes.len() < usize::MAX,
        !st.seen.contains_key((pkg, parent_key(parent))),
        index_map(package_ids(packages)).contains_key(pkg),
    ensures
        recorded(
            packages,
            BuildState {
                nodes: add_node(
                    st.nodes,
                    crate_view(packages[index_map(package_ids(packages))[pkg] as int], parent),
                ),
                seen: st.seen.insert((pkg, parent_key(parent)), st.nodes.len() as usize),
            },
        ),
{
    let key0 = (pkg, parent_key(parent));
    let n = st.nodes.len() as int;
    let node = crate_view(packages[index_map(package_ids(packages))[pkg] as int], parent);
    let after = BuildState {
        nodes: add_node(st.nodes, node),
        seen: st.seen.insert(key0, n as usize),
    };
    lemma_add_node_grows(st, node);
    assert(key_parent(parent_key(parent)) == parent);
    assert forall|key: (u64, Option<usize>)| #[trigger] after.seen.contains_key(key) implies (
    after.seen[key] as int) < after.nodes.len() && carries(
        packages,
        after.nodes[after.seen[key] as int],
        key.0,
        key.1,
    ) by {
        if key != key0 {
            assert(st.seen.contains_key(key));
            let i = st.seen[key] as int;
            assert(after.nodes[i] == (NodeView { children: after.nodes[i].children, ..st.nodes[i] }));
        }
    }
    assert forall|k1: (u64, Option<usize>), k2: (u64, Option<usize>)|
        #[trigger] after.seen.contains_key(k1) && #[trigger] after.seen.contains_key(k2) && k1
            != k2 implies after.seen[k1] != after.seen[k2] by {
        if k1 != key0 {
            assert(st.seen.contains_key(k1));
        }
        if k2 != key0 {
            assert(st.seen.contains_key(k2));
        }
    }
    assert forall|i: int|
        0 <= i < after.nodes.len() && (#[trigger] after.nodes[i]).group.is_none() implies exists|
        key: (u64, Option<usize>),
    | #[trigger] names_node(after.seen, key, i) by {
        if i < n {
            assert(after.nodes[i] == (NodeView { children: after.nodes[i].children, ..st.nodes[i] }));
            assert(st.nodes[i].group.is_none());
            let key = choose|key: (u64, Option<usize>)| #[trigger] names_node(st.seen, key, i);
            assert(names_node(after.seen, key, i));
        } else {
            assert(names_node(after.seen, key0, i));
        }
    }
}

/// The table stays truthful while a package is unfolded.
pub proof fn lemma_node_recorded(
    packages: Seq<PackageRecord>,
    resolve: Seq<ResolveNode>,
    pkg: u64,
    parent: Option<NodeId>,
    fuel: nat,
    st: BuildState,
)
    requires
        recorded(packages, st),
        unfold_node(packages, resolve, pkg, parent, fuel, st).0.nodes.len() <= usize::MAX,
    ensures
        recorded(packages, unfold_node(packages, resolve, pkg, parent, fuel, st).0),
    decreases fuel, 0nat,
{
    let key = (pkg, parent_key(parent));
    let by_package = index_map(package_ids(packages));
    let by_resolve = index_map(resolve_ids(resolve));
    if !st.seen.contains_key(key) && by_package.contains_key(pkg) {
        let id = NodeId(st.nodes.len() as usize);
        let node = crate_view(packages[by_package[pkg] as int], parent);
        let created = BuildState {
            nodes: add_node(st.nodes, node),
            seen: st.seen.insert(key, id.0),
        };
        lemma_add_node_grows(st, node);
        if fuel > 0 && by_resolve.contains_key(pkg) {
            let deps = resolve[by_resolve[pkg] as int].deps@;
            let slots = GroupSlots { dev: None, build: None };
            lemma_edges_grows(packages, resolve, deps, 0, id, slots, (fuel - 1) as nat, created);
            lemma_crate_recorded(packages, st, pkg, parent);
            lemma_edges_recorded(packages, resolve, deps, 0, id, slots, (fuel - 1) as nat, created);
        } else {
            lemma_crate_recorded(packages, st, pkg, parent);
        }
    }
}

/// The table stays truthful while edges are unfolded.
pub proof fn lemma_edges_recorded(
    packages: Seq<PackageRecord>,
    resolve: Seq<ResolveNode>,
    deps: Seq<ResolveEdge>,
    from: nat,
    owner: NodeId,
    slots: GroupSlots,
    fuel: nat,
    st: BuildState,
)
    requires
        recorded(packages, st),
        unfold_edges(packages, resolve, deps, from, owner, slots, fuel, st).nodes.len()
            <= usize::MAX,
    ensures
        recorded(packages, unfold_edges(packages, resolve, deps, from, owner, slots, fuel, st)),
    decreases fuel, 1 + deps.len() - from,
{
    if from < deps.len() {
        match edge_type(deps[from as int].kinds@) {
            None => {
                lemma_edges_recorded(packages, resolve, deps, from + 1, owner, slots, fuel, st);
            },
            Some(kind) => {
                let (nodes, below, slots1) = enter_group(st.nodes, kind, owner, slots);
                let entered = BuildState { nodes, seen: st.seen };
                lemma_group_recorded(packages, st, kind, owner);
                assert(recorded(packages, entered));
                let pkg = deps[from as int].pkg;
                let st1 = unfold_node(packages, resolve, pkg, Some(below), fuel, entered).0;
                lemma_edges_grows(packages, resolve, deps, from + 1, owner, slots1, fuel, st1);
                lemma_node_recorded(packages, resolve, pkg, Some(below), fuel, entered);
                lemma_edges_recorded(packages, resolve, deps, from + 1, owner, slots1, fuel, st1);
            },
        }
    }
}


/// The identities of the workspace members among the first `n` packages,
/// each once, in the order in which the package list first holds them.
pub open spec fn member_roots(packages: Seq<PackageRecord>, members: Seq<u64>, n: int) -> Seq<u64>
    decreases n,
{
    if n <= 0 {
        Seq::empty()
    } else {
        let before = member_roots(packages, members, n - 1);
        let id = packages[n - 1].id;
        if members.contains(id) && !before.contains(id) {
            before.push(id)
        } else {
            before
        }
    }
}

/// Whether `roots` lists, in order, the nodes that stand for the workspace
/// members among the first `n` packages, and the table holds no other
/// package without a parent.
pub open spec fn rooted(
    packages: Seq<PackageRecord>,
    members: Seq<u64>,
    n: int,
    st: BuildState,
    roots: Seq<NodeId>,
) -> bool {
    let ids = member_roots(packages, members, n);
    &&& roots.len() == ids.len()
    &&& forall|k: int|
        0 <= k < ids.len() ==> st.seen.contains_key((#[trigger] ids[k], None::<usize>)) && roots[k]
            == NodeId(st.seen[(ids[k], None::<usize>)])
    &&& forall|id: u64| #[trigger]
        st.seen.contains_key((id, None::<usize>)) <==> ids.contains(id)
}

/// The table stays truthful, and the root list in step with the members,
/// while the packages are visited.
pub proof fn lemma_roots(
    packages: Seq<PackageRecord>,
    resolve: Seq<ResolveNode>,
    members: Seq<u64>,
    from: nat,
    st: BuildState,
    roots: Seq<NodeId>,
)
    requires
        from <= packages.len(),
        recorded(packages, st),
        rooted(packages, members, from as int, st, roots),
        unfold_roots(packages, resolve, members, from, st, roots).0.nodes.len() <= usize::MAX,
    ensures
        recorded(packages, unfold_roots(packages, resolve, members, from, st, roots).0),
        rooted(
            packages,
            members,
            packages.len() as int,
            unfold_roots(packages, resolve, members, from, st, roots).0,
            unfold_roots(packages, resolve, members, from, st, roots).1,
        ),
    decreases packages.len() - from,
{
    if from < packages.len() {
        let id = packages[from as int].id;
        let ids = member_roots(packages, members, from as int);
        let ids1 = member_roots(packages, members, (from + 1) as int);
        if members.contains(id) {
            let key = (id, None::<usize>);
            let fuel = packages.len();
            let st1 = unfold_node(packages, resolve, id, None, fuel, st).0;
            let root = unfold_node(packages, resolve, id, None, fuel, st).1;
            let fresh = NodeId(st.nodes.len() as usize);
            let roots1 = if root == Some(fresh) {
                roots.push(fresh)
            } else {
                roots
            };
            lemma_node_grows(packages, resolve, id, None, fuel, st);
            let end = unfold_roots(packages, resolve, members, from + 1, st1, roots1).0;
            lemma_roots_grow(packages, resolve, members, from + 1, st1, roots1);
            lemma_node_recorded(packages, resolve, id, None, fuel, st);
            lemma_index_map_complete(package_ids(packages), from as int);
            assert(package_ids(packages)[from as int] == id);
            assert(rooted(packages, members, (from + 1) as int, st1, roots1)) by {
                if st.seen.contains_key(key) {
                    assert(ids.contains(id));
                    assert(ids1 == ids);
                    assert(st1 == st);
                    assert((st.seen[key] as int) < st.nodes.len());
                    assert(roots1 == roots);
                } else {
                    assert(!ids.contains(id));
                    assert(ids1 == ids.push(id));
                    assert(root == Some(fresh));
                    assert(st1.seen.contains_key(key) && st1.seen[key] == fresh.0) by {
                        let node = crate_view(
                            packages[index_map(package_ids(packages))[id] as int],
                            None,
                        );
                        let created = BuildState {
                            nodes: add_node(st.nodes, node),
                            seen: st.seen.insert(key, fresh.0),
                        };
                        assert(created.seen.contains_key(key));
                        lemma_after_created(packages, resolve, id, None, fuel, st);
                    }
                    assert forall|k: int| 0 <= k < ids1.len() implies st1.seen.contains_key(
                        (#[trigger] ids1[k], None::<usize>),
                    ) && roots1[k] == NodeId(st1.seen[(ids1[k], None::<usize>)]) by {
                        if k < ids.len() {
                            assert(ids1[k] == ids[k]);
                            assert(st.seen.contains_key((ids[k], None::<usize>)));
                        }
                    }
                }
                assert forall|x: u64| #[trigger]
                    st1.seen.contains_key((x, None::<usize>)) <==> ids1.contains(x) by {
                    if ids1.contains(x) {
                        let k = choose|k: int| 0 <= k < ids1.len() && ids1[k] == x;
                        if k < ids.len() {
                            assert(ids[k] == x);
                            assert(ids.contains(x));
                            assert(st.seen.contains_key((x, None::<usize>)));
                        }
                    }
                    if st1.seen.contains_key((x, None::<usize>)) {
                        if st.seen.contains_key((x, None::<usize>)) {
                            assert(ids.contains(x));
                            let k = choose|k: int| 0 <= k < ids.len() && ids[k] == x;
                            assert(ids1[k] == x);
                        } else {
                            assert(x == id);
                            assert(ids1[ids1.len() - 1] == id);
                        }
                    }
                }
            }
            lemma_roots(packages, resolve, members, from + 1, st1, roots1);
        } else {
            assert(ids1 == ids);
            lemma_roots(packages, resolve, members, from + 1, st, roots);
        }
    }
}

/// Visiting the packages removes no node.
pub proof fn lemma_roots_grow(
    packages: Seq<PackageRecord>,
    resolve: Seq<ResolveNode>,
    members: Seq<u64>,
    from: nat,
    st: BuildState,
    roots: Seq<NodeId>,
)
    ensures
        st.nodes.len() <= unfold_roots(packages, resolve, members, from, st, roots).0.nodes.len(),
    decreases packages.len() - from,
{
    if from < packages.len() {
        let id = packages[from as int].id;
        if members.contains(id) {
            let st1 = unfold_node(packages, resolve, id, None, packages.len(), st).0;
            let root = unfold_node(packages, resolve, id, None, packages.len(), st).1;
            let fresh = NodeId(st.nodes.len() as usize);
            let roots1 = if root == Some(fresh) {
                roots.push(fresh)
            } else {
                roots
            };
            lemma_node_grows(packages, resolve, id, None, packages.len(), st);
            lemma_roots_grow(packages, resolve, members, from + 1, st1, roots1);
        } else {
            lemma_roots_grow(packages, resolve, members, from + 1, st, roots);
        }
    }
}

/// A package that is unfolded for the first time is entered into the table
/// under the next free node, and stays there.
pub proof fn lemma_after_created(
    packages: Seq<PackageRecord>,
    resolve: Seq<ResolveNode>,
    pkg: u64,
    parent: Option<NodeId>,
    fuel: nat,
    st: BuildState,
)
    requires
        !st.seen.contains_key((pkg, parent_key(parent))),
        index_map(package_ids(packages)).contains_key(pkg),
    ensures
        unfold_node(packages, resolve, pkg, parent, fuel, st).1 == Some(
            NodeId(st.nodes.len() as usize),
        ),
        unfold_node(packages, resolve, pkg, parent, fuel, st).0.seen.contains_key(
            (pkg, parent_key(parent)),
        ),
        unfold_node(packages, resolve, pkg, parent, fuel, st).0.seen[(pkg, parent_key(parent))]
            == st.nodes.len() as usize,
{
    let key = (pkg, parent_key(parent));
    let by_package = index_map(package_ids(packages));
    let by_resolve = index_map(resolve_ids(resolve));
    let id = NodeId(st.nodes.len() as usize);
    let node = crate_view(packages[by_package[pkg] as int], parent);
    let created = BuildState { nodes: add_node(st.nodes, node), seen: st.seen.insert(key, id.0) };
    assert(created.seen.contains_key(key));
    if fuel > 0 && by_resolve.contains_key(pkg) {
        let deps = resolve[by_resolve[pkg] as int].deps@;
        let slots = GroupSlots { dev: None, build: None };
        lemma_edges_grows(packages, resolve, deps, 0, id, slots, (fuel - 1) as nat, created);
    }
}

/// In the tree that a graph unfolds to, every crate node stands for one
/// package below one parent, and no package has two nodes below the same
/// parent. Each crate node carries the name, the version and the proc-macro
/// flag of its package, and its manifest directory if the package is a
/// local one.
pub proof fn lemma_crates_stand_for_packages(graph: DependencyGraph)
    requires
        graph.resolve.is_some(),
        unfold_run(graph).0.nodes.len() <= usize::MAX,
    ensures
        recorded(graph.packages@, unfold_run(graph).0),
{
    let start = BuildState { nodes: Seq::empty(), seen: Map::empty() };
    assert(recorded(graph.packages@, start));
    assert(rooted(graph.packages@, graph.workspace_members@, 0, start, Seq::empty()));
    lemma_roots(
        graph.packages@,
        graph.resolve.unwrap()@,
        graph.workspace_members@,
        0,
        start,
        Seq::empty(),
    );
}

/// In the tree that a graph unfolds to, the roots are the nodes that stand
/// for the workspace members, one per member, in the order of the package
/// list; and no other node is without a parent.
pub proof fn lemma_roots_are_the_members(graph: DependencyGraph)
    requires
        graph.resolve.is_some(),
        unfold_run(graph).0.nodes.len() <= usize::MAX,
    ensures
        rooted(
            graph.packages@,
            graph.workspace_members@,
            graph.packages@.len() as int,
            unfold_run(graph).0,
            unfold_run(graph).1,
        ),
{
    let start = BuildState { nodes: Seq::empty(), seen: Map::empty() };
    assert(recorded(graph.packages@, start));
    assert(rooted(graph.packages@, graph.workspace_members@, 0, start, Seq::empty()));
    lemma_roots(
        graph.packages@,
        graph.resolve.unwrap()@,
        graph.workspace_members@,
        0,
        start,
        Seq::empty(),
    );
}


/// In the tree that a graph unfolds to, each root is a crate node without a
/// parent that carries what the package list says of its workspace member.
pub proof fn lemma_roots_carry_members(graph: DependencyGraph, k: int)
    requires
        graph.resolve.is_some(),
        unfold_run(graph).0.nodes.len() <= usize::MAX,
        0 <= k < unfold_run(graph).1.len(),
    ensures
        k < member_roots(
            graph.packages@,
            graph.workspace_members@,
            graph.packages@.len() as int,
        ).len(),
        unfold_run(graph).1[k].0 < unfold_run(graph).0.nodes.len(),
        carries(
            graph.packages@,
            unfold_run(graph).0.nodes[unfold_run(graph).1[k].0 as int],
            member_roots(
                graph.packages@,
                graph.workspace_members@,
                graph.packages@.len() as int,
            )[k],
            None,
        ),
{
    lemma_crates_stand_for_packages(graph);
    lemma_roots_are_the_members(graph);
    let ids = member_roots(
        graph.packages@,
        graph.workspace_members@,
        graph.packages@.len() as int,
    );
    assert(unfold_run(graph).0.seen.contains_key((ids[k], None::<usize>)));
}


/// Whether no id occurs twice in `ids`.
pub open spec fn distinct_ids(ids: Seq<u64>) -> bool {
    forall|i: int, j: int| 0 <= i < j < ids.len() ==> ids[i] != ids[j]
}

/// Where no id occurs twice, the index table maps each id to its position.
pub proof fn lemma_index_map_distinct(ids: Seq<u64>, i: int)
    requires
        distinct_ids(ids),
        0 <= i < ids.len(),
        ids.len() <= usize::MAX,
    ensures
        index_map(ids).contains_key(ids[i]),
        index_map(ids)[ids[i]] == i,
    decreases ids.len(),
{
    if i < ids.len() - 1 {
        let rest = ids.drop_last();
        assert forall|a: int, b: int| 0 <= a < b < rest.len() implies rest[a] != rest[b] by {
            assert(rest[a] == ids[a] && rest[b] == ids[b]);
        }
        lemma_index_map_distinct(rest, i);
        assert(rest[i] == ids[i]);
        assert(ids[i] != ids[ids.len() - 1]);
    }
}

/// An id that a list does not hold has no entry in its index table.
pub proof fn lemma_index_map_absent(ids: Seq<u64>, id: u64)
    requires
        !ids.contains(id),
    ensures
        !index_map(ids).contains_key(id),
    decreases ids.len(),
{
    if ids.len() > 0 {
        let rest = ids.drop_last();
        assert(ids[ids.len() - 1] != id);
        assert forall|k: int| 0 <= k < rest.len() implies rest[k] != id by {
            assert(rest[k] == ids[k]);
        }
        lemma_index_map_absent(rest, id);
    }
}

/// A package that is met for the first time below its parent, and whose
/// edges are not followed or amount to none, becomes one childless crate
/// node.
pub proof fn lemma_unfold_leaf(
    packages: Seq<PackageRecord>,
    resolve: Seq<ResolveNode>,
    pkg: u64,
    parent: Option<NodeId>,
    fuel: nat,
    st: BuildState,
)
    requires
        !st.seen.contains_key((pkg, parent_key(parent))),
        index_map(package_ids(packages)).contains_key(pkg),
        fuel == 0 || !index_map(resolve_ids(resolve)).contains_key(pkg) || resolve[index_map(
            resolve_ids(resolve),
        )[pkg] as int].deps@.len() == 0,
    ensures
        unfold_node(packages, resolve, pkg, parent, fuel, st).0 == (BuildState {
            nodes: add_node(
                st.nodes,
                crate_view(packages[index_map(package_ids(packages))[pkg] as int], parent),
            ),
            seen: st.seen.insert((pkg, parent_key(parent)), st.nodes.len() as usize),
        }),
{
    let by_resolve = index_map(resolve_ids(resolve));
    if fuel > 0 && by_resolve.contains_key(pkg) {
        let deps = resolve[by_resolve[pkg] as int].deps@;
        let id = NodeId(st.nodes.len() as usize);
        let created = BuildState {
            nodes: add_node(
                st.nodes,
                crate_view(packages[index_map(package_ids(packages))[pkg] as int], parent),
            ),
            seen: st.seen.insert((pkg, parent_key(parent)), st.nodes.len() as usize),
        };
        let slots = GroupSlots { dev: None, build: None };
        assert(unfold_edges(packages, resolve, deps, 0, id, slots, (fuel - 1) as nat, created)
            == created);
    }
}

/// Where one package alone is a workspace member, the roots are what
/// unfolding that package gives.
pub proof fn lemma_single_root(
    packages: Seq<PackageRecord>,
    resolve: Seq<ResolveNode>,
    members: Seq<u64>,
    from: nat,
    at: int,
    st: BuildState,
    roots: Seq<NodeId>,
)
    requires
        distinct_ids(package_ids(packages)),
        0 <= at < packages.len(),
        from <= packages.len(),
        forall|id: u64| members.contains(id) <==> id == packages[at].id,
    ensures
        from > at ==> unfold_roots(packages, resolve, members, from, st, roots) == (st, roots),
        from <= at ==> unfold_roots(packages, resolve, members, from, st, roots) == ({
            let run = unfold_node(packages, resolve, packages[at].id, None, packages.len(), st);
            let fresh = NodeId(st.nodes.len() as usize);
            (
                run.0,
                if run.1 == Some(fresh) {
                    roots.push(fresh)
                } else {
                    roots
                },
            )
        }),
    decreases packages.len() - from,
{
    if from < packages.len() {
        let id = packages[from as int].id;
        assert(package_ids(packages)[from as int] == id);
        assert(package_ids(packages)[at] == packages[at].id);
        if from == at {
            let run = unfold_node(packages, resolve, id, None, packages.len(), st);
            let fresh = NodeId(st.nodes.len() as usize);
            let roots1 = if run.1 == Some(fresh) {
                roots.push(fresh)
            } else {
                roots
            };
            lemma_single_root(packages, resolve, members, from + 1, at, run.0, roots1);
        } else {
            assert(id != packages[at].id);
            lemma_single_root(packages, resolve, members, from + 1, at, st, roots);
        }
    }
}


/// Whether `graph` lists three packages, `root` at position `r`, `shared`
/// at `s` and `user` at `u`, of which `root` alone is a workspace member;
/// `root` depends on `shared` and then on `user`, both as normal
/// dependencies, and `user` depends on `shared` for development. Their
/// edges stand at positions `rr` and `ru` of the resolved edges; `shared`
/// has no edges.
pub open spec fn shares_dependency(
    graph: DependencyGraph,
    r: int,
    s: int,
    u: int,
    rr: int,
    ru: int,
) -> bool {
    let packages = graph.packages@;
    let resolve = graph.resolve.unwrap()@;
    &&& graph.resolve.is_some()
    &&& packages.len() == 3
    &&& distinct_ids(package_ids(packages))
    &&& 0 <= r < 3 && 0 <= s < 3 && 0 <= u < 3 && r != s && r != u && s != u
    &&& graph.workspace_members@ == seq![packages[r].id]
    &&& resolve.len() <= usize::MAX
    &&& distinct_ids(resolve_ids(resolve))
    &&& 0 <= rr < resolve.len()
    &&& resolve[rr].id == packages[r].id
    &&& resolve[rr].deps@.len() == 2
    &&& resolve[rr].deps@[0].pkg == packages[s].id
    &&& edge_type(resolve[rr].deps@[0].kinds@) == Some(DependencyType::Normal)
    &&& resolve[rr].deps@[1].pkg == packages[u].id
    &&& edge_type(resolve[rr].deps@[1].kinds@) == Some(DependencyType::Normal)
    &&& 0 <= ru < resolve.len()
    &&& resolve[ru].id == packages[u].id
    &&& resolve[ru].deps@.len() == 1
    &&& resolve[ru].deps@[0].pkg == packages[s].id
    &&& edge_type(resolve[ru].deps@[0].kinds@) == Some(DependencyType::Dev)
    &&& forall|k: int|
        0 <= k < resolve.len() && (#[trigger] resolve[k]).id == packages[s].id
            ==> resolve[k].deps@.len() == 0
}

/// The build state after the first `stage` nodes of a graph that
/// [`shares_dependency`] were made: the root, the shared package below it,
/// its user, the group below the user, and the shared package below the
/// group.
pub open spec fn share_state(
    graph: DependencyGraph,
    r: int,
    s: int,
    u: int,
    stage: int,
) -> BuildState
    decreases stage,
{
    let packages = graph.packages@;
    if stage <= 0 {
        BuildState { nodes: Seq::empty(), seen: Map::empty() }
    } else {
        let before = share_state(graph, r, s, u, stage - 1);
        if stage == 1 {
            BuildState {
                nodes: add_node(before.nodes, crate_view(packages[r], None)),
                seen: before.seen.insert((packages[r].id, None::<usize>), 0),
            }
        } else if stage == 2 {
            BuildState {
                nodes: add_node(before.nodes, crate_view(packages[s], Some(NodeId(0)))),
                seen: before.seen.insert((packages[s].id, Some(0usize)), 1),
            }
        } else if stage == 3 {
            BuildState {
                nodes: add_node(before.nodes, crate_view(packages[u], Some(NodeId(0)))),
                seen: before.seen.insert((packages[u].id, Some(0usize)), 2),
            }
        } else if stage == 4 {
            BuildState {
                nodes: add_node(before.nodes, group_view(DependencyType::Dev, NodeId(2))),
                seen: before.seen,
            }
        } else {
            BuildState {
                nodes: add_node(before.nodes, crate_view(packages[s], Some(NodeId(3)))),
                seen: before.seen.insert((packages[s].id, Some(3usize)), 4),
            }
        }
    }
}

/// The arenas of the stages, node by node.
pub proof fn lemma_share_nodes(graph: DependencyGraph, r: int, s: int, u: int)
    ensures
        share_state(graph, r, s, u, 1).nodes == seq![crate_view(graph.packages@[r], None)],
        share_state(graph, r, s, u, 2).nodes == seq![
            NodeView { children: seq![NodeId(1)], ..crate_view(graph.packages@[r], None) },
            crate_view(graph.packages@[s], Some(NodeId(0))),
        ],
        share_state(graph, r, s, u, 3).nodes == seq![
            NodeView {
                children: seq![NodeId(1), NodeId(2)],
                ..crate_view(graph.packages@[r], None)
            },
            crate_view(graph.packages@[s], Some(NodeId(0))),
            crate_view(graph.packages@[u], Some(NodeId(0))),
        ],
        share_state(graph, r, s, u, 4).nodes == seq![
            NodeView {
                children: seq![NodeId(1), NodeId(2)],
                ..crate_view(graph.packages@[r], None)
            },
            crate_view(graph.packages@[s], Some(NodeId(0))),
            NodeView { children: seq![NodeId(3)], ..crate_view(graph.packages@[u], Some(NodeId(0))) },
            group_view(DependencyType::Dev, NodeId(2)),
        ],
        share_state(graph, r, s, u, 5).nodes == seq![
            NodeView {
                children: seq![NodeId(1), NodeId(2)],
                ..crate_view(graph.packages@[r], None)
            },
            crate_view(graph.packages@[s], Some(NodeId(0))),
            NodeView { children: seq![NodeId(3)], ..crate_view(graph.packages@[u], Some(NodeId(0))) },
            NodeView { children: seq![NodeId(4)], ..group_view(DependencyType::Dev, NodeId(2)) },
            crate_view(graph.packages@[s], Some(NodeId(3))),
        ],
{
    let packages = graph.packages@;
    let n1 = NodeId(1);
    let n2 = NodeId(2);
    let n3 = NodeId(3);
    let n4 = NodeId(4);
    let v0 = crate_view(packages[r], None);
    let v1 = crate_view(packages[s], Some(NodeId(0)));
    let v2 = crate_view(packages[u], Some(NodeId(0)));
    let v3 = group_view(DependencyType::Dev, n2);
    let v4 = crate_view(packages[s], Some(n3));
    let w0 = NodeView { children: seq![n1], ..v0 };
    let x0 = NodeView { children: seq![n1, n2], ..v0 };
    let w2 = NodeView { children: seq![n3], ..v2 };
    let w3 = NodeView { children: seq![n4], ..v3 };
    let st0 = share_state(graph, r, s, u, 0);
    let st1 = share_state(graph, r, s, u, 1);
    let st2 = share_state(graph, r, s, u, 2);
    let st3 = share_state(graph, r, s, u, 3);
    let st4 = share_state(graph, r, s, u, 4);
    let st5 = share_state(graph, r, s, u, 5);
    assert(st0.nodes =~= Seq::<NodeView>::empty());
    assert(st1.nodes =~= seq![v0]);
    assert(st1.nodes[0].children.push(n1) =~= seq![n1]);
    assert(st2.nodes =~= seq![w0, v1]);
    assert(st2.nodes[0].children.push(n2) =~= seq![n1, n2]);
    assert(st3.nodes =~= seq![x0, v1, v2]);
    assert(st3.nodes[2].children.push(n3) =~= seq![n3]);
    assert(st4.nodes =~= seq![x0, v1, w2, v3]);
    assert(st4.nodes[3].children.push(n4) =~= seq![n4]);
    assert(st5.nodes =~= seq![x0, v1, w2, w3, v4]);
}

/// Whether the resolved edges hold none for package `pkg`: it has no entry,
/// or an entry without edges.
pub open spec fn without_edges(resolve: Seq<ResolveNode>, pkg: u64) -> bool {
    let by_resolve = index_map(resolve_ids(resolve));
    !by_resolve.contains_key(pkg) || resolve[by_resolve[pkg] as int].deps@.len() == 0
}

/// What the index tables of a graph that [`shares_dependency`] hold.
pub proof fn lemma_share_tables(graph: DependencyGraph, r: int, s: int, u: int, rr: int, ru: int)
    requires
        shares_dependency(graph, r, s, u, rr, ru),
    ensures
        graph.packages@[r].id != graph.packages@[s].id,
        graph.packages@[r].id != graph.packages@[u].id,
        graph.packages@[s].id != graph.packages@[u].id,
        index_map(package_ids(graph.packages@)).contains_key(graph.packages@[r].id),
        index_map(package_ids(graph.packages@))[graph.packages@[r].id] == r,
        index_map(package_ids(graph.packages@)).contains_key(graph.packages@[s].id),
        index_map(package_ids(graph.packages@))[graph.packages@[s].id] == s,
        index_map(package_ids(graph.packages@)).contains_key(graph.packages@[u].id),
        index_map(package_ids(graph.packages@))[graph.packages@[u].id] == u,
        index_map(resolve_ids(graph.resolve.unwrap()@)).contains_key(graph.packages@[r].id),
        index_map(resolve_ids(graph.resolve.unwrap()@))[graph.packages@[r].id] == rr,
        index_map(resolve_ids(graph.resolve.unwrap()@)).contains_key(graph.packages@[u].id),
        index_map(resolve_ids(graph.resolve.unwrap()@))[graph.packages@[u].id] == ru,
        without_edges(graph.resolve.unwrap()@, graph.packages@[s].id),
        forall|id: u64| graph.workspace_members@.contains(id) <==> id == graph.packages@[r].id,
{
    let packages = graph.packages@;
    let resolve = graph.resolve.unwrap()@;
    let members = graph.workspace_members@;
    let root = packages[r].id;
    let shared = packages[s].id;
    let user = packages[u].id;
    let ids = package_ids(packages);
    let by_resolve = index_map(resolve_ids(resolve));
    assert(ids[r] == root && ids[s] == shared && ids[u] == user);
    if r < s {
        assert(ids[r] != ids[s]);
    } else {
        assert(ids[s] != ids[r]);
    }
    if r < u {
        assert(ids[r] != ids[u]);
    } else {
        assert(ids[u] != ids[r]);
    }
    if s < u {
        assert(ids[s] != ids[u]);
    } else {
        assert(ids[u] != ids[s]);
    }
    lemma_index_map_distinct(ids, r);
    lemma_index_map_distinct(ids, s);
    lemma_index_map_distinct(ids, u);
    assert(resolve_ids(resolve)[rr] == root);
    assert(resolve_ids(resolve)[ru] == user);
    lemma_index_map_distinct(resolve_ids(resolve), rr);
    lemma_index_map_distinct(resolve_ids(resolve), ru);
    if by_resolve.contains_key(shared) {
        crate::builder::lemma_index_map_valid(resolve_ids(resolve));
        let k = by_resolve[shared] as int;
        assert(resolve_ids(resolve)[k] == shared);
        assert(resolve[k].id == shared);
    }
    assert forall|id: u64| members.contains(id) <==> id == root by {
        assert(members[0] == root);
    }
}

/// Unfolding the user below the root makes the user, its group and the
/// shared package below the group.
pub proof fn lemma_share_user(graph: DependencyGraph, r: int, s: int, u: int, rr: int, ru: int)
    requires
        shares_dependency(graph, r, s, u, rr, ru),
    ensures
        unfold_node(
            graph.packages@,
            graph.resolve.unwrap()@,
            graph.packages@[u].id,
            Some(NodeId(0)),
            2,
            share_state(graph, r, s, u, 2),
        ).0 == share_state(graph, r, s, u, 5),
{
    let packages = graph.packages@;
    let resolve = graph.resolve.unwrap()@;
    let shared = packages[s].id;
    let user = packages[u].id;
    let none = GroupSlots { dev: None, build: None };
    let dev = GroupSlots { dev: Some(NodeId(3)), build: None };
    let n2 = NodeId(2);
    let n3 = NodeId(3);
    let st2 = share_state(graph, r, s, u, 2);
    let st3 = share_state(graph, r, s, u, 3);
    let st4 = share_state(graph, r, s, u, 4);
    let st5 = share_state(graph, r, s, u, 5);
    lemma_share_tables(graph, r, s, u, rr, ru);
    lemma_share_nodes(graph, r, s, u);
    let st1 = share_state(graph, r, s, u, 1);
    let st0 = share_state(graph, r, s, u, 0);
    assert(st0.seen =~= Map::empty());
    assert(!st2.seen.contains_key((user, Some(0usize))));
    assert(!st4.seen.contains_key((shared, Some(3usize))));
    assert(st2.nodes.len() == 2 && st3.nodes.len() == 3 && st4.nodes.len() == 4);
    lemma_unfold_leaf(packages, resolve, shared, Some(n3), 1, st4);
    assert(unfold_node(packages, resolve, shared, Some(n3), 1, st4).0 == st5);
    let deps = resolve[ru].deps@;
    assert(enter_group(st3.nodes, DependencyType::Dev, n2, none) == (st4.nodes, n3, dev));
    assert(unfold_edges(packages, resolve, deps, 1, n2, dev, 1, st5) == st5);
    assert(unfold_edges(packages, resolve, deps, 0, n2, none, 1, st3) == st5);
}

/// Unfolding the root makes all five nodes.
pub proof fn lemma_share_root(graph: DependencyGraph, r: int, s: int, u: int, rr: int, ru: int)
    requires
        shares_dependency(graph, r, s, u, rr, ru),
    ensures
        unfold_node(
            graph.packages@,
            graph.resolve.unwrap()@,
            graph.packages@[r].id,
            None,
            3,
            share_state(graph, r, s, u, 0),
        ) == (share_state(graph, r, s, u, 5), Some(NodeId(0))),
{
    let packages = graph.packages@;
    let resolve = graph.resolve.unwrap()@;
    let root = packages[r].id;
    let shared = packages[s].id;
    let user = packages[u].id;
    let none = GroupSlots { dev: None, build: None };
    let n0 = NodeId(0);
    let st0 = share_state(graph, r, s, u, 0);
    let st1 = share_state(graph, r, s, u, 1);
    let st2 = share_state(graph, r, s, u, 2);
    let st5 = share_state(graph, r, s, u, 5);
    lemma_share_tables(graph, r, s, u, rr, ru);
    lemma_share_nodes(graph, r, s, u);
    lemma_share_user(graph, r, s, u, rr, ru);
    assert(st0.seen =~= Map::empty());
    assert(st0.nodes.len() == 0 && st1.nodes.len() == 1 && st2.nodes.len() == 2);
    assert(!st1.seen.contains_key((shared, Some(0usize))));
    lemma_unfold_leaf(packages, resolve, shared, Some(n0), 2, st1);
    assert(unfold_node(packages, resolve, shared, Some(n0), 2, st1).0 == st2);
    let deps = resolve[rr].deps@;
    assert(enter_group(st1.nodes, DependencyType::Normal, n0, none) == (st1.nodes, n0, none));
    assert(enter_group(st2.nodes, DependencyType::Normal, n0, none) == (st2.nodes, n0, none));
    assert(unfold_edges(packages, resolve, deps, 2, n0, none, 2, st5) == st5);
    assert(unfold_edges(packages, resolve, deps, 1, n0, none, 2, st2) == st5);
    assert(unfold_edges(packages, resolve, deps, 0, n0, none, 2, st1) == st5);
}

/// A package that the root depends on directly, and that another
/// dependency of the root depends on for development, gets two nodes: one
/// directly below the root, and one below the group of development
/// dependencies of that other dependency. The tree has five nodes: the
/// root, the shared package, its user, the group below the user, and the
/// shared package once more below the group.
pub proof fn lemma_shared_dependency(
    graph: DependencyGraph,
    r: int,
    s: int,
    u: int,
    rr: int,
    ru: int,
)
    requires
        shares_dependency(graph, r, s, u, rr, ru),
    ensures
        unfold_graph(graph).roots == seq![NodeId(0)],
        unfold_graph(graph).nodes == seq![
            NodeView {
                children: seq![NodeId(1), NodeId(2)],
                ..crate_view(graph.packages@[r], None)
            },
            crate_view(graph.packages@[s], Some(NodeId(0))),
            NodeView { children: seq![NodeId(3)], ..crate_view(graph.packages@[u], Some(NodeId(0))) },
            NodeView { children: seq![NodeId(4)], ..group_view(DependencyType::Dev, NodeId(2)) },
            crate_view(graph.packages@[s], Some(NodeId(3))),
        ],
{
    let packages = graph.packages@;
    let resolve = graph.resolve.unwrap()@;
    let members = graph.workspace_members@;
    let st0 = share_state(graph, r, s, u, 0);
    lemma_share_tables(graph, r, s, u, rr, ru);
    lemma_share_nodes(graph, r, s, u);
    lemma_share_root(graph, r, s, u, rr, ru);
    assert(package_ids(packages).len() == 3);
    lemma_single_root(packages, resolve, members, 0, r, st0, Seq::empty());
    assert(Seq::<NodeId>::empty().push(NodeId(0)) =~= seq![NodeId(0)]);
    assert(st0 == (BuildState { nodes: Seq::empty(), seen: Map::empty() }));
}

} // verus!
