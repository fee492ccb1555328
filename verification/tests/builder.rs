use cargo_tree_tui::dependency::{
    Dependency, DependencyNode, DependencyTree, DependencyType, NodeId,
};
use cargo_tree_tui::graph::{
    classify, has_proc_macro, DependencyGraph, DependencyKind, GraphError, PackageRecord,
    ResolveEdge, ResolveNode, TargetKind,
};

fn package(id: u64, name: &str) -> PackageRecord {
    PackageRecord {
        id,
        name: name.to_string(),
        version: format!("0.{id}.0"),
        is_local: false,
        manifest_dir: Some(format!("/registry/{name}")),
        target_kinds: vec![TargetKind::Other],
    }
}

fn edge(pkg: u64, kinds: &[DependencyKind]) -> ResolveEdge {
    ResolveEdge {
        pkg,
        kinds: kinds.to_vec(),
    }
}

fn resolved(id: u64, deps: Vec<ResolveEdge>) -> ResolveNode {
    ResolveNode { id, deps }
}

fn graph(
    packages: Vec<PackageRecord>,
    members: &[u64],
    resolve: Vec<ResolveNode>,
) -> DependencyGraph {
    DependencyGraph {
        root_name: Some("root".to_string()),
        packages,
        workspace_members: members.to_vec(),
        resolve: Some(resolve),
    }
}

fn name_of(tree: &DependencyTree, id: usize) -> String {
    tree.node(NodeId(id)).unwrap().display_name()
}

fn children_of(tree: &DependencyTree, id: usize) -> Vec<usize> {
    tree.node(NodeId(id))
        .unwrap()
        .children()
        .iter()
        .map(|child| child.0)
        .collect()
}

fn parent_of(tree: &DependencyTree, id: usize) -> Option<usize> {
    tree.node(NodeId(id)).unwrap().parent().map(|p| p.0)
}

#[test]
fn same_package_under_two_parents_gets_two_nodes() {
    // root depends on serde (normal) and on a (normal); a depends on serde
    // for development.
    let tree = DependencyTree::build(&graph(
        vec![package(1, "root"), package(2, "serde"), package(3, "a")],
        &[1],
        vec![
            resolved(
                1,
                vec![
                    edge(2, &[DependencyKind::Normal]),
                    edge(3, &[DependencyKind::Normal]),
                ],
            ),
            resolved(2, vec![]),
            resolved(3, vec![edge(2, &[DependencyKind::Development])]),
        ],
    ))
    .unwrap();

    assert_eq!(tree.len(), 5);
    let roots: Vec<usize> = tree.roots().iter().map(|r| r.0).collect();
    assert_eq!(roots, vec![0]);
    assert_eq!(name_of(&tree, 0), "root");
    // serde directly under root
    assert_eq!(name_of(&tree, 1), "serde");
    assert_eq!(parent_of(&tree, 1), Some(0));
    // a under root, the group under a, serde under the group
    assert_eq!(name_of(&tree, 2), "a");
    assert_eq!(children_of(&tree, 0), vec![1, 2]);
    assert_eq!(children_of(&tree, 2), vec![3]);
    assert!(tree.node(NodeId(3)).unwrap().is_group());
    assert_eq!(name_of(&tree, 3), "[dev-dependencies]");
    assert_eq!(
        tree.node(NodeId(3)).unwrap().group_kind(),
        Some(DependencyType::Dev)
    );
    assert_eq!(children_of(&tree, 3), vec![4]);
    assert_eq!(name_of(&tree, 4), "serde");
    assert_eq!(parent_of(&tree, 4), Some(3));
    assert!(!tree.node(NodeId(4)).unwrap().is_group());
}

#[test]
fn groups_stand_where_their_first_member_was_met() {
    let tree = DependencyTree::build(&graph(
        vec![
            package(1, "root"),
            package(2, "n1"),
            package(3, "d1"),
            package(4, "b1"),
            package(5, "n2"),
            package(6, "d2"),
        ],
        &[1],
        vec![resolved(
            1,
            vec![
                edge(2, &[DependencyKind::Normal]),
                edge(3, &[DependencyKind::Development]),
                edge(4, &[DependencyKind::Build]),
                edge(5, &[DependencyKind::Normal]),
                edge(6, &[DependencyKind::Development]),
            ],
        )],
    ))
    .unwrap();

    // arena order: root, n1, [dev], d1, [build], b1, n2, d2
    let names: Vec<String> = (0..tree.len()).map(|i| name_of(&tree, i)).collect();
    assert_eq!(
        names,
        vec![
            "root",
            "n1",
            "[dev-dependencies]",
            "d1",
            "[build-dependencies]",
            "b1",
            "n2",
            "d2"
        ]
    );
    assert_eq!(children_of(&tree, 0), vec![1, 2, 4, 6]);
    assert_eq!(children_of(&tree, 2), vec![3, 7]);
    assert_eq!(children_of(&tree, 4), vec![5]);
    assert_eq!(
        tree.node(NodeId(4)).unwrap().group_kind(),
        Some(DependencyType::Build)
    );
}

#[test]
fn parent_and_child_links_mirror_each_other() {
    let tree = DependencyTree::build(&graph(
        vec![
            package(1, "root"),
            package(2, "a"),
            package(3, "b"),
            package(4, "shared"),
        ],
        &[1],
        vec![
            resolved(
                1,
                vec![
                    edge(2, &[DependencyKind::Normal]),
                    edge(3, &[DependencyKind::Build]),
                ],
            ),
            resolved(2, vec![edge(4, &[DependencyKind::Normal])]),
            resolved(3, vec![edge(4, &[DependencyKind::Normal])]),
            resolved(4, vec![]),
        ],
    ))
    .unwrap();

    for id in 0..tree.len() {
        let node = tree.node(NodeId(id)).unwrap();
        match node.parent() {
            Some(parent) => {
                assert!(parent.0 < id);
                let listed = tree.node(parent).unwrap().children();
                assert_eq!(listed.iter().filter(|c| c.0 == id).count(), 1);
            }
            None => assert!(tree.roots().contains(&NodeId(id))),
        }
        for child in node.children() {
            assert_eq!(tree.node(*child).unwrap().parent(), Some(NodeId(id)));
        }
    }
    // shared appears once below a and once below b
    let shared: Vec<usize> = (0..tree.len())
        .filter(|i| name_of(&tree, *i) == "shared")
        .collect();
    assert_eq!(shared.len(), 2);
}

#[test]
fn package_met_twice_below_one_parent_is_added_once() {
    let tree = DependencyTree::build(&graph(
        vec![package(1, "root"), package(2, "a")],
        &[1],
        vec![resolved(
            1,
            vec![
                edge(2, &[DependencyKind::Normal]),
                edge(2, &[DependencyKind::Normal]),
            ],
        )],
    ))
    .unwrap();
    assert_eq!(tree.len(), 2);
    assert_eq!(children_of(&tree, 0), vec![1]);
}

#[test]
fn missing_package_yields_no_node() {
    let tree = DependencyTree::build(&graph(
        vec![package(1, "root"), package(2, "a")],
        &[1],
        vec![resolved(
            1,
            vec![
                edge(9, &[DependencyKind::Normal]),
                edge(2, &[DependencyKind::Normal]),
            ],
        )],
    ))
    .unwrap();
    assert_eq!(tree.len(), 2);
    assert_eq!(children_of(&tree, 0), vec![1]);
    assert_eq!(name_of(&tree, 1), "a");
}

#[test]
fn group_of_a_missing_package_stays_empty() {
    // The header of a kind is made when its first edge is met, whether or
    // not the package of that edge is listed.
    let tree = DependencyTree::build(&graph(
        vec![package(1, "root")],
        &[1],
        vec![resolved(1, vec![edge(9, &[DependencyKind::Build])])],
    ))
    .unwrap();
    assert_eq!(tree.len(), 2);
    assert_eq!(children_of(&tree, 0), vec![1]);
    assert_eq!(name_of(&tree, 1), "[build-dependencies]");
    assert!(children_of(&tree, 1).is_empty());
}

#[test]
fn member_listed_twice_is_one_root_with_its_last_record() {
    let mut again = package(1, "root-again");
    again.version = "2.0.0".to_string();
    let tree = DependencyTree::build(&graph(
        vec![package(1, "root"), package(2, "other"), again],
        &[2, 1],
        vec![],
    ))
    .unwrap();
    let roots: Vec<String> = tree.roots().iter().map(|r| name_of(&tree, r.0)).collect();
    // package 1 comes first in the list and carries its last record
    assert_eq!(roots, vec!["root-again", "other"]);
}

#[test]
fn member_without_resolved_edges_is_a_childless_root() {
    let tree = DependencyTree::build(&graph(
        vec![package(1, "lonely"), package(2, "other")],
        &[1],
        vec![resolved(2, vec![edge(1, &[DependencyKind::Normal])])],
    ))
    .unwrap();
    assert_eq!(tree.len(), 1);
    assert_eq!(name_of(&tree, 0), "lonely");
    assert!(children_of(&tree, 0).is_empty());
    assert_eq!(tree.roots(), &[NodeId(0)]);
}

#[test]
fn only_workspace_members_become_roots_in_package_order() {
    let tree = DependencyTree::build(&graph(
        vec![package(5, "zeta"), package(6, "outside"), package(7, "alpha")],
        &[7, 5],
        vec![],
    ))
    .unwrap();
    let roots: Vec<String> = tree.roots().iter().map(|r| name_of(&tree, r.0)).collect();
    assert_eq!(roots, vec!["zeta", "alpha"]);
    assert_eq!(tree.len(), 2);
}

#[test]
fn missing_resolve_is_an_error() {
    let result = DependencyTree::build(&DependencyGraph {
        root_name: None,
        packages: vec![package(1, "root")],
        workspace_members: vec![1],
        resolve: None,
    });
    assert_eq!(result.err(), Some(GraphError::ResolveMissing));
}

#[test]
fn error_messages() {
    assert_eq!(
        GraphError::ResolveMissing.message(),
        "failed to resolve dependency graph"
    );
    assert_eq!(
        GraphError::ProviderFailed.message(),
        "failed to execute Cargo metadata"
    );
}

#[test]
fn workspace_name_defaults_when_there_is_no_root_package() {
    let named = DependencyTree::build(&graph(vec![package(1, "root")], &[1], vec![])).unwrap();
    assert_eq!(named.workspace_name(), "root");
    let mut anonymous = graph(vec![package(1, "root")], &[1], vec![]);
    anonymous.root_name = None;
    let tree = DependencyTree::build(&anonymous).unwrap();
    assert_eq!(tree.workspace_name(), "workspace");
}

#[test]
fn manifest_dir_is_kept_for_local_packages_only() {
    let mut local = package(1, "root");
    local.is_local = true;
    local.manifest_dir = Some("/work/root".to_string());
    let mut macro_crate = package(2, "derive");
    macro_crate.target_kinds = vec![TargetKind::Other, TargetKind::ProcMacro];
    let tree = DependencyTree::build(&graph(
        vec![local, macro_crate],
        &[1],
        vec![resolved(1, vec![edge(2, &[DependencyKind::Normal])])],
    ))
    .unwrap();

    match tree.node(NodeId(0)).unwrap() {
        DependencyNode::Crate(root) => {
            assert_eq!(root.manifest_dir.as_deref(), Some("/work/root"));
            assert_eq!(root.version, "0.1.0");
            assert!(!root.is_proc_macro);
        }
        DependencyNode::Group(_) => panic!("the root is a crate"),
    }
    match tree.node(NodeId(1)).unwrap() {
        DependencyNode::Crate(derive) => {
            assert_eq!(derive.manifest_dir, None);
            assert!(derive.is_proc_macro);
        }
        DependencyNode::Group(_) => panic!("derive is a crate"),
    }
}

#[test]
fn later_record_of_a_package_id_wins() {
    let mut second = package(2, "renamed");
    second.version = "9.9.9".to_string();
    let tree = DependencyTree::build(&graph(
        vec![package(1, "root"), package(2, "first"), second],
        &[1],
        vec![resolved(1, vec![edge(2, &[DependencyKind::Normal])])],
    ))
    .unwrap();
    assert_eq!(name_of(&tree, 1), "renamed");
}

#[test]
fn cyclic_graph_is_cut_off_at_the_number_of_packages() {
    // a depends on b for development, b depends on a.
    let tree = DependencyTree::build(&graph(
        vec![package(1, "a"), package(2, "b")],
        &[1],
        vec![
            resolved(1, vec![edge(2, &[DependencyKind::Development])]),
            resolved(2, vec![edge(1, &[DependencyKind::Normal])]),
        ],
    ))
    .unwrap();
    // Two packages: edges are followed two levels deep, and the crate that
    // is reached last gets no children.
    let names: Vec<String> = (0..tree.len()).map(|i| name_of(&tree, i)).collect();
    assert_eq!(names, vec!["a", "[dev-dependencies]", "b", "a"]);
    assert_eq!(children_of(&tree, 2), vec![3]);
    assert!(children_of(&tree, 3).is_empty());
}

#[test]
fn edges_are_classified_by_their_first_known_tag() {
    assert_eq!(classify(&vec![]), Some(DependencyType::Normal));
    assert_eq!(
        classify(&vec![DependencyKind::Normal]),
        Some(DependencyType::Normal)
    );
    assert_eq!(
        classify(&vec![DependencyKind::Development]),
        Some(DependencyType::Dev)
    );
    assert_eq!(
        classify(&vec![DependencyKind::Build]),
        Some(DependencyType::Build)
    );
    assert_eq!(
        classify(&vec![DependencyKind::Unknown, DependencyKind::Build]),
        Some(DependencyType::Build)
    );
    assert_eq!(
        classify(&vec![DependencyKind::Normal, DependencyKind::Development]),
        Some(DependencyType::Normal)
    );
    assert_eq!(classify(&vec![DependencyKind::Unknown]), None);
}

#[test]
fn edge_of_unknown_kind_adds_nothing() {
    let tree = DependencyTree::build(&graph(
        vec![package(1, "root"), package(2, "a")],
        &[1],
        vec![resolved(1, vec![edge(2, &[DependencyKind::Unknown])])],
    ))
    .unwrap();
    assert_eq!(tree.len(), 1);
}

#[test]
fn proc_macro_targets_are_found() {
    assert!(!has_proc_macro(&vec![]));
    assert!(!has_proc_macro(&vec![TargetKind::Other, TargetKind::Other]));
    assert!(has_proc_macro(&vec![TargetKind::Other, TargetKind::ProcMacro]));
}

#[test]
fn labels_name_the_manifest_sections() {
    assert_eq!(DependencyType::Normal.label(), "[dependencies]");
    assert_eq!(DependencyType::Dev.label(), "[dev-dependencies]");
    assert_eq!(DependencyType::Build.label(), "[build-dependencies]");
}

#[test]
fn from_parts_refuses_what_is_no_forest() {
    let leaf = |name: &str, parent: Option<usize>, children: Vec<usize>| {
        DependencyNode::Crate(Dependency {
            name: name.to_string(),
            version: String::new(),
            manifest_dir: None,
            is_proc_macro: false,
            parent: parent.map(NodeId),
            children: children.into_iter().map(NodeId).collect(),
        })
    };
    let name = || "w".to_string();

    // a well-formed pair
    assert!(DependencyTree::from_parts(
        name(),
        vec![leaf("r", None, vec![1]), leaf("a", Some(0), vec![])],
        vec![NodeId(0)]
    )
    .is_some());
    // child does not point back
    assert!(DependencyTree::from_parts(
        name(),
        vec![leaf("r", None, vec![1]), leaf("a", None, vec![])],
        vec![NodeId(0), NodeId(1)]
    )
    .is_none());
    // parent does not list the child
    assert!(DependencyTree::from_parts(
        name(),
        vec![leaf("r", None, vec![]), leaf("a", Some(0), vec![])],
        vec![NodeId(0)]
    )
    .is_none());
    // child listed twice
    assert!(DependencyTree::from_parts(
        name(),
        vec![leaf("r", None, vec![1, 1]), leaf("a", Some(0), vec![])],
        vec![NodeId(0)]
    )
    .is_none());
    // child out of the arena
    assert!(
        DependencyTree::from_parts(name(), vec![leaf("r", None, vec![4])], vec![NodeId(0)])
            .is_none()
    );
    // a cycle
    assert!(DependencyTree::from_parts(
        name(),
        vec![leaf("a", Some(1), vec![1]), leaf("b", Some(0), vec![0])],
        vec![]
    )
    .is_none());
    // a root that is not listed
    assert!(
        DependencyTree::from_parts(name(), vec![leaf("r", None, vec![])], vec![]).is_none()
    );
    // a root listed twice
    assert!(DependencyTree::from_parts(
        name(),
        vec![leaf("r", None, vec![])],
        vec![NodeId(0), NodeId(0)]
    )
    .is_none());
    // a group of normal dependencies
    let group = |kind: DependencyType, parent: usize, children: Vec<usize>| {
        DependencyNode::Group(cargo_tree_tui::dependency::DependencyGroup {
            kind,
            parent: Some(NodeId(parent)),
            children: children.into_iter().map(NodeId).collect(),
        })
    };
    assert!(DependencyTree::from_parts(
        name(),
        vec![
            leaf("r", None, vec![1]),
            group(DependencyType::Normal, 0, vec![])
        ],
        vec![NodeId(0)]
    )
    .is_none());
    // two groups of one kind below one crate
    assert!(DependencyTree::from_parts(
        name(),
        vec![
            leaf("r", None, vec![1, 2]),
            group(DependencyType::Dev, 0, vec![]),
            group(DependencyType::Dev, 0, vec![])
        ],
        vec![NodeId(0)]
    )
    .is_none());
    // groups of different kinds are fine
    assert!(DependencyTree::from_parts(
        name(),
        vec![
            leaf("r", None, vec![1, 2]),
            group(DependencyType::Dev, 0, vec![]),
            group(DependencyType::Build, 0, vec![])
        ],
        vec![NodeId(0)]
    )
    .is_some());
    // a group below a group
    assert!(DependencyTree::from_parts(
        name(),
        vec![
            leaf("r", None, vec![1]),
            group(DependencyType::Dev, 0, vec![2]),
            group(DependencyType::Build, 1, vec![])
        ],
        vec![NodeId(0)]
    )
    .is_none());
    // a group without a parent
    assert!(DependencyTree::from_parts(
        name(),
        vec![DependencyNode::Group(
            cargo_tree_tui::dependency::DependencyGroup {
                kind: DependencyType::Dev,
                parent: None,
                children: vec![],
            }
        )],
        vec![NodeId(0)]
    )
    .is_none());
    // a node out of range
    let tree =
        DependencyTree::from_parts(name(), vec![leaf("r", None, vec![])], vec![NodeId(0)]).unwrap();
    assert!(tree.node(NodeId(1)).is_none());
    assert!(tree.node(NodeId(0)).is_some());
}
