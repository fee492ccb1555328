use cargo_tree_tui::dependency::{
    Dependency, DependencyGroup, DependencyNode, DependencyTree, DependencyType, NodeId,
};
use cargo_tree_tui::lineage::{Lineage, LineageSegment};
use cargo_tree_tui::style::{Tone, TreeWidgetStyle};

fn krate(name: &str, parent: Option<usize>, children: &[usize]) -> DependencyNode {
    DependencyNode::Crate(Dependency {
        name: name.to_string(),
        version: String::new(),
        manifest_dir: None,
        is_proc_macro: false,
        parent: parent.map(NodeId),
        children: children.iter().copied().map(NodeId).collect(),
    })
}

/// ```text
/// 0 root
///   1 a
///     2 [build-dependencies]
///       3 cc
///         4 shlex
///   5 b
/// ```
fn tree() -> DependencyTree {
    DependencyTree::from_parts(
        "ws".to_string(),
        vec![
            krate("root", None, &[1, 5]),
            krate("a", Some(0), &[2]),
            DependencyNode::Group(DependencyGroup {
                kind: DependencyType::Build,
                parent: Some(NodeId(1)),
                children: vec![NodeId(3)],
            }),
            krate("cc", Some(2), &[4]),
            krate("shlex", Some(3), &[]),
            krate("b", Some(0), &[]),
        ],
        vec![NodeId(0)],
    )
    .unwrap()
}

#[test]
fn lineage_of_a_root_is_empty() {
    let lineage = Lineage::build(&tree(), NodeId(0), Some(NodeId(0))).unwrap();
    assert_eq!(lineage.depth(), 0);
    assert!(!lineage.has_segments());
    assert!(lineage.is_last);
    assert!(lineage.is_selected);
    assert!(lineage.indent(&TreeWidgetStyle::default()).is_empty());
}

#[test]
fn lineage_lists_the_ancestors_from_the_root_down() {
    let lineage = Lineage::build(&tree(), NodeId(4), Some(NodeId(0))).unwrap();
    assert_eq!(lineage.depth(), 4);
    assert!(lineage.has_segments());
    assert!(lineage.is_last);
    assert!(!lineage.is_selected);
    assert_eq!(
        lineage.segments,
        vec![
            // root: no sibling
            LineageSegment {
                has_more_siblings: false,
                crate_follows: false,
                type_: Some(DependencyType::Normal),
                is_group: false
            },
            // a: b follows
            LineageSegment {
                has_more_siblings: true,
                crate_follows: true,
                type_: Some(DependencyType::Normal),
                is_group: false
            },
            // the group
            LineageSegment {
                has_more_siblings: false,
                crate_follows: false,
                type_: Some(DependencyType::Build),
                is_group: true
            },
            // cc, a build dependency
            LineageSegment {
                has_more_siblings: false,
                crate_follows: false,
                type_: Some(DependencyType::Build),
                is_group: false
            },
        ]
    );
    let guides = lineage.indent(&TreeWidgetStyle::default());
    let texts: Vec<&str> = guides.iter().map(|span| span.text.as_str()).collect();
    assert_eq!(texts, vec!["│  ", "   "]);
    let tones: Vec<Tone> = guides.iter().map(|span| span.tone).collect();
    assert_eq!(
        tones,
        vec![Tone::Plain, Tone::Kind(DependencyType::Build)]
    );
}

#[test]
fn last_means_last_child_of_the_parent() {
    let tree = tree();
    assert!(!Lineage::build(&tree, NodeId(1), None).unwrap().is_last);
    assert!(Lineage::build(&tree, NodeId(5), None).unwrap().is_last);
    assert!(Lineage::build(&tree, NodeId(3), None).unwrap().is_last);
    assert!(Lineage::build(&tree, NodeId(2), None).unwrap().is_last);
}

/// ```text
/// 0 root
///   1 a
///     3 x
///   2 [dev-dependencies]
///     4 d
/// ```
fn crate_before_group() -> DependencyTree {
    DependencyTree::from_parts(
        "ws".to_string(),
        vec![
            krate("root", None, &[1, 2]),
            krate("a", Some(0), &[3]),
            DependencyNode::Group(DependencyGroup {
                kind: DependencyType::Dev,
                parent: Some(NodeId(0)),
                children: vec![NodeId(4)],
            }),
            krate("x", Some(1), &[]),
            krate("d", Some(2), &[]),
        ],
        vec![NodeId(0)],
    )
    .unwrap()
}

#[test]
fn crate_that_only_a_group_follows_is_not_the_last_child() {
    let tree = crate_before_group();
    // a is followed by the group, so it is not the last child
    assert!(!Lineage::build(&tree, NodeId(1), None).unwrap().is_last);
    assert!(Lineage::build(&tree, NodeId(2), None).unwrap().is_last);
    // below a: a has more siblings, but no crate follows it
    let lineage = Lineage::build(&tree, NodeId(3), None).unwrap();
    assert_eq!(
        lineage.segments,
        vec![
            LineageSegment {
                has_more_siblings: false,
                crate_follows: false,
                type_: Some(DependencyType::Normal),
                is_group: false
            },
            LineageSegment {
                has_more_siblings: true,
                crate_follows: false,
                type_: Some(DependencyType::Normal),
                is_group: false
            },
        ]
    );
    // the guide that passes by a is blank, as a closes its connector
    let guides = lineage.indent(&TreeWidgetStyle::default());
    let texts: Vec<&str> = guides.iter().map(|span| span.text.as_str()).collect();
    assert_eq!(texts, vec!["   "]);
}

#[test]
fn unknown_node_has_no_lineage() {
    assert!(Lineage::build(&tree(), NodeId(6), None).is_none());
}

/// ```text
/// 0 first
///   2 a
///     3 b
/// 1 second
/// ```
fn two_roots() -> DependencyTree {
    DependencyTree::from_parts(
        "ws".to_string(),
        vec![
            krate("first", None, &[2]),
            krate("second", None, &[]),
            krate("a", Some(0), &[3]),
            krate("b", Some(2), &[]),
        ],
        vec![NodeId(0), NodeId(1)],
    )
    .unwrap()
}

#[test]
fn every_root_is_last_and_no_root_has_more_siblings() {
    let tree = two_roots();
    // the first root is followed by another root, and is last all the same
    assert!(Lineage::build(&tree, NodeId(0), None).unwrap().is_last);
    assert!(Lineage::build(&tree, NodeId(1), None).unwrap().is_last);
    // below the first root: its segment draws no continuation
    let lineage = Lineage::build(&tree, NodeId(3), None).unwrap();
    assert_eq!(
        lineage.segments,
        vec![
            LineageSegment {
                has_more_siblings: false,
                crate_follows: false,
                type_: Some(DependencyType::Normal),
                is_group: false
            },
            LineageSegment {
                has_more_siblings: false,
                crate_follows: false,
                type_: Some(DependencyType::Normal),
                is_group: false
            },
        ]
    );
    assert!(lineage.is_last);
}
