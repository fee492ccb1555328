use cargo_tree_tui::dependency::{
    Dependency, DependencyGroup, DependencyNode, DependencyTree, DependencyType, NodeId,
};
use cargo_tree_tui::state::TreeWidgetState;
use cargo_tree_tui::viewport::{Area, Viewport};
use cargo_tree_tui::visible::VisibleNode;

fn krate(name: &str, parent: Option<usize>, children: &[usize]) -> DependencyNode {
    DependencyNode::Crate(Dependency {
        name: name.to_string(),
        version: "1.0.0".to_string(),
        manifest_dir: None,
        is_proc_macro: false,
        parent: parent.map(NodeId),
        children: children.iter().copied().map(NodeId).collect(),
    })
}

fn group(kind: DependencyType, parent: usize, children: &[usize]) -> DependencyNode {
    DependencyNode::Group(DependencyGroup {
        kind,
        parent: Some(NodeId(parent)),
        children: children.iter().copied().map(NodeId).collect(),
    })
}

/// ```text
/// 0 root
///   1 alpha
///     3 serde
///     4 [dev-dependencies]
///       5 Tokio
///   2 beta
/// 6 second
///   7 serde_json
/// ```
fn sample() -> DependencyTree {
    DependencyTree::from_parts(
        "ws".to_string(),
        vec![
            krate("root", None, &[1, 2]),
            krate("alpha", Some(0), &[3, 4]),
            krate("beta", Some(0), &[]),
            krate("serde", Some(1), &[]),
            group(DependencyType::Dev, 1, &[5]),
            krate("Tokio", Some(4), &[]),
            krate("second", None, &[7]),
            krate("serde_json", Some(6), &[]),
        ],
        vec![NodeId(0), NodeId(6)],
    )
    .unwrap()
}

fn entries(state: &mut TreeWidgetState, tree: &DependencyTree) -> Vec<(usize, usize)> {
    state
        .visible_nodes(tree)
        .iter()
        .map(|node| (node.id.0, node.depth))
        .collect()
}

fn ids(state: &mut TreeWidgetState, tree: &DependencyTree) -> Vec<usize> {
    entries(state, tree).into_iter().map(|(id, _)| id).collect()
}

fn query_of(state: &TreeWidgetState) -> Option<String> {
    state.search_query().map(|q| q.iter().collect())
}

fn with_height(state: &mut TreeWidgetState, height: u16) {
    let area = Area {
        x: 0,
        y: 0,
        width: 80,
        height,
    };
    state.update_viewport(Viewport::new(area, area));
}

#[test]
fn fresh_state_shows_the_roots() {
    let tree = sample();
    let mut state = TreeWidgetState::default();
    assert_eq!(state.selected, None);
    assert_eq!(state.open_count(), 0);
    assert_eq!(entries(&mut state, &tree), vec![(0, 0), (6, 0)]);
    assert_eq!(query_of(&state), None);
}

#[test]
fn expand_all_walks_every_node_once_in_preorder() {
    let tree = sample();
    let mut state = TreeWidgetState::default();
    state.expand_all(&tree);
    assert_eq!(
        entries(&mut state, &tree),
        vec![
            (0, 0),
            (1, 1),
            (3, 2),
            (4, 2),
            (5, 3),
            (2, 1),
            (6, 0),
            (7, 1)
        ]
    );
    let mut seen = ids(&mut state, &tree);
    seen.sort();
    assert_eq!(seen, (0..tree.len()).collect::<Vec<usize>>());
    // leaves are not marked as open
    assert_eq!(state.open_count(), 4);
    assert!(state.is_open(NodeId(4)));
    assert!(!state.is_open(NodeId(2)));
    assert_eq!(state.selected, Some(NodeId(0)));
}

#[test]
fn collapse_all_shows_only_the_roots() {
    let tree = sample();
    let mut state = TreeWidgetState::default();
    state.expand_all(&tree);
    state.selected = Some(NodeId(5));
    state.collapse_all(&tree);
    assert_eq!(entries(&mut state, &tree), vec![(0, 0), (6, 0)]);
    assert_eq!(state.open_count(), 0);
    // the selection falls back to the first visible node
    assert_eq!(state.selected, Some(NodeId(0)));
}

#[test]
fn open_to_depth_one_opens_nothing() {
    let tree = sample();
    let mut state = TreeWidgetState::default();
    state.expand_all(&tree);
    state.open_to_depth(&tree, 1);
    assert_eq!(state.open_count(), 0);
    assert_eq!(entries(&mut state, &tree), vec![(0, 0), (6, 0)]);
}

#[test]
fn open_to_depth_opens_the_levels_above() {
    let tree = sample();
    let mut state = TreeWidgetState::default();
    state.open_to_depth(&tree, 2);
    assert_eq!(ids(&mut state, &tree), vec![0, 1, 2, 6, 7]);
    state.open_to_depth(&tree, 3);
    assert_eq!(ids(&mut state, &tree), vec![0, 1, 3, 4, 2, 6, 7]);
    state.open_to_depth(&tree, 4);
    assert_eq!(ids(&mut state, &tree), vec![0, 1, 3, 4, 5, 2, 6, 7]);
    assert_eq!(state.open_count(), 4);
}

#[test]
fn open_to_depth_zero_changes_nothing() {
    let tree = sample();
    let mut state = TreeWidgetState::default();
    state.expand_all(&tree);
    state.selected = Some(NodeId(5));
    state.open_to_depth(&tree, 0);
    assert_eq!(state.open_count(), 4);
    assert_eq!(state.selected, Some(NodeId(5)));
}

#[test]
fn incremental_expand_and_collapse_match_a_rebuild() {
    let tree = sample();
    let mut state = TreeWidgetState::default();

    // Each step: select a node, expand or collapse it, and compare the
    // spliced cache with a walk that is made from scratch.
    let script: &[(usize, bool)] = &[
        (0, true),
        (1, true),
        (4, true),
        (1, false),
        (1, true),
        (6, true),
        (0, false),
        (0, true),
        (4, false),
        (6, false),
    ];
    let mut open: Vec<usize> = Vec::new();
    for &(node, expand) in script {
        state.selected = Some(NodeId(node));
        let visible = ids(&mut state, &tree).contains(&node);
        if expand {
            state.expand(&tree);
            if visible && !open.contains(&node) {
                open.push(node);
            }
        } else {
            state.collapse(&tree);
            if visible {
                open.retain(|id| *id != node);
            }
        }
        let mut now_open: Vec<usize> = (0..tree.len())
            .filter(|id| state.is_open(NodeId(*id)))
            .collect();
        now_open.sort();
        open.sort();
        assert_eq!(now_open, open);
        let spliced = entries(&mut state, &tree);
        assert_eq!(spliced, walk_of(&tree, &state));
    }
    assert_eq!(entries(&mut state, &tree), vec![(0, 0), (1, 1), (3, 2), (4, 2), (2, 1), (6, 0)]);
}

fn walk_of(tree: &DependencyTree, state: &TreeWidgetState) -> Vec<(usize, usize)> {
    fn visit(
        tree: &DependencyTree,
        state: &TreeWidgetState,
        id: NodeId,
        depth: usize,
        out: &mut Vec<(usize, usize)>,
    ) {
        out.push((id.0, depth));
        if state.is_open(id) {
            for child in tree.node(id).unwrap().children() {
                visit(tree, state, *child, depth + 1, out);
            }
        }
    }
    let mut out = Vec::new();
    for root in tree.roots() {
        visit(tree, state, *root, 0, &mut out);
    }
    out
}

#[test]
fn expand_keeps_what_was_open_below() {
    let tree = sample();
    let mut state = TreeWidgetState::default();
    state.expand_all(&tree);
    state.selected = Some(NodeId(0));
    state.collapse(&tree);
    assert_eq!(ids(&mut state, &tree), vec![0, 6, 7]);
    assert_eq!(state.selected, Some(NodeId(0)));
    state.expand(&tree);
    // alpha and the group below it were still open
    assert_eq!(
        entries(&mut state, &tree),
        vec![
            (0, 0),
            (1, 1),
            (3, 2),
            (4, 2),
            (5, 3),
            (2, 1),
            (6, 0),
            (7, 1)
        ]
    );
    assert_eq!(state.selected, Some(NodeId(0)));
}

#[test]
fn expand_on_open_node_steps_to_first_child() {
    let tree = sample();
    let mut state = TreeWidgetState::default();
    state.expand_all(&tree);
    state.selected = Some(NodeId(1));
    state.expand(&tree);
    assert_eq!(state.selected, Some(NodeId(3)));
    // a leaf stays
    state.expand(&tree);
    assert_eq!(state.selected, Some(NodeId(3)));
    assert_eq!(state.open_count(), 4);
}

#[test]
fn collapse_on_closed_node_steps_to_parent() {
    let tree = sample();
    let mut state = TreeWidgetState::default();
    state.expand_all(&tree);
    state.selected = Some(NodeId(5));
    state.collapse(&tree);
    assert_eq!(state.selected, Some(NodeId(4)));
    state.collapse(&tree);
    assert_eq!(state.selected, Some(NodeId(4)));
    assert!(!state.is_open(NodeId(4)));
    assert_eq!(ids(&mut state, &tree), vec![0, 1, 3, 4, 2, 6, 7]);
    state.collapse(&tree);
    assert_eq!(state.selected, Some(NodeId(1)));
    // a closed root stays
    state.collapse_all(&tree);
    state.selected = Some(NodeId(6));
    state.collapse(&tree);
    assert_eq!(state.selected, Some(NodeId(6)));
}

#[test]
fn next_then_previous_restores_the_selection() {
    let tree = sample();
    let mut state = TreeWidgetState::default();
    state.expand_all(&tree);
    let walk = ids(&mut state, &tree);
    for (at, id) in walk.iter().enumerate() {
        state.selected = Some(NodeId(*id));
        state.select_next(&tree);
        if at + 1 < walk.len() {
            assert_eq!(state.selected, Some(NodeId(walk[at + 1])));
            state.select_previous(&tree);
        }
        assert_eq!(state.selected, Some(NodeId(*id)));
    }
    // the first node stays on a step back
    state.selected = Some(NodeId(walk[0]));
    state.select_previous(&tree);
    assert_eq!(state.selected, Some(NodeId(walk[0])));
}

#[test]
fn selection_that_is_not_visible_settles_on_the_first_node() {
    let tree = sample();
    let mut state = TreeWidgetState::default();
    state.selected = Some(NodeId(5));
    state.select_next(&tree);
    // settled on root, then moved on
    assert_eq!(state.selected, Some(NodeId(6)));
    state.selected = Some(NodeId(42));
    assert_eq!(state.selected_position(&tree), Some(0));
    assert_eq!(state.selected, Some(NodeId(0)));
    assert!(state.ensure_selection(&tree));
}

#[test]
fn empty_forest_leaves_nothing_to_select() {
    let tree = DependencyTree::from_parts("none".to_string(), vec![], vec![]).unwrap();
    let mut state = TreeWidgetState::default();
    state.selected = Some(NodeId(0));
    state.select_next(&tree);
    assert_eq!(state.selected, None);
    state.expand(&tree);
    state.collapse(&tree);
    state.page_down(&tree);
    state.expand_all(&tree);
    state.search(&tree, "x");
    assert_eq!(state.selected, None);
    assert_eq!(state.selected_position(&tree), None);
    assert!(!state.ensure_selection(&tree));
    assert!(state.visible_nodes(&tree).is_empty());
}

#[test]
fn parent_and_sibling_moves() {
    let tree = sample();
    let mut state = TreeWidgetState::default();
    state.selected = Some(NodeId(5));
    state.select_parent(&tree);
    assert_eq!(state.selected, Some(NodeId(4)));
    state.select_parent(&tree);
    assert_eq!(state.selected, Some(NodeId(1)));
    // siblings do not depend on what is open
    state.select_next_sibling(&tree);
    assert_eq!(state.selected, Some(NodeId(2)));
    state.select_next_sibling(&tree);
    assert_eq!(state.selected, Some(NodeId(2)));
    state.select_previous_sibling(&tree);
    assert_eq!(state.selected, Some(NodeId(1)));
    state.select_previous_sibling(&tree);
    assert_eq!(state.selected, Some(NodeId(1)));
    // roots are siblings of each other
    state.selected = Some(NodeId(0));
    state.select_parent(&tree);
    assert_eq!(state.selected, Some(NodeId(0)));
    state.select_next_sibling(&tree);
    assert_eq!(state.selected, Some(NodeId(6)));
    state.select_previous_sibling(&tree);
    assert_eq!(state.selected, Some(NodeId(0)));
    // a stale id changes nothing
    state.selected = Some(NodeId(99));
    state.select_parent(&tree);
    state.select_next_sibling(&tree);
    assert_eq!(state.selected, Some(NodeId(99)));
}

#[test]
fn paging_moves_by_the_height_of_the_viewport() {
    let tree = sample();
    let mut state = TreeWidgetState::default();
    state.expand_all(&tree);
    // walk: 0 1 3 4 5 2 6 7
    with_height(&mut state, 3);
    assert_eq!(state.viewport().height, 3);
    state.page_down(&tree);
    assert_eq!(state.selected, Some(NodeId(4)));
    state.page_down(&tree);
    assert_eq!(state.selected, Some(NodeId(6)));
    state.page_down(&tree);
    assert_eq!(state.selected, Some(NodeId(7)));
    state.page_up(&tree);
    assert_eq!(state.selected, Some(NodeId(5)));
    with_height(&mut state, 4);
    state.half_page_up(&tree);
    assert_eq!(state.selected, Some(NodeId(3)));
    state.half_page_down(&tree);
    assert_eq!(state.selected, Some(NodeId(5)));
    state.page_up(&tree);
    assert_eq!(state.selected, Some(NodeId(0)));
    // a viewport without height has no page to move by
    with_height(&mut state, 0);
    state.page_down(&tree);
    assert_eq!(state.selected, Some(NodeId(0)));
    with_height(&mut state, 1);
    state.half_page_down(&tree);
    assert_eq!(state.selected, Some(NodeId(0)));
    state.page_down(&tree);
    assert_eq!(state.selected, Some(NodeId(1)));
}

#[test]
fn search_moves_to_the_only_match_and_stays_there() {
    let tree = sample();
    for start in [0usize, 1, 3, 4, 5, 2, 6, 7] {
        let mut state = TreeWidgetState::default();
        state.expand_all(&tree);
        state.selected = Some(NodeId(start));
        state.search(&tree, "beta");
        assert_eq!(state.selected, Some(NodeId(2)));
        assert!(state.is_search_match(NodeId(2)));
        assert!(!state.is_search_match(NodeId(1)));
        state.search(&tree, "beta");
        assert_eq!(state.selected, Some(NodeId(2)));
    }
}

#[test]
fn search_ignores_ascii_case_and_outer_blanks() {
    let tree = sample();
    let mut state = TreeWidgetState::default();
    state.expand_all(&tree);
    state.search(&tree, "  TOK ");
    assert_eq!(query_of(&state).as_deref(), Some("tok"));
    assert_eq!(state.selected, Some(NodeId(5)));
    assert!(state.is_search_match(NodeId(5)));
    // set_query keeps the blanks
    state.set_query(&tree, " Tok");
    assert_eq!(query_of(&state).as_deref(), Some(" tok"));
    assert!(!state.is_search_match(NodeId(5)));
}

#[test]
fn search_prefers_the_match_at_or_behind_the_selection_and_wraps() {
    let tree = sample();
    let mut state = TreeWidgetState::default();
    state.expand_all(&tree);
    // "serde" matches 3 (serde) and 7 (serde_json); walk: 0 1 3 4 5 2 6 7
    state.selected = Some(NodeId(4));
    state.search(&tree, "serde");
    assert_eq!(state.selected, Some(NodeId(7)));
    state.selected = Some(NodeId(3));
    state.search(&tree, "serde");
    assert_eq!(state.selected, Some(NodeId(3)));
    state.selected = Some(NodeId(0));
    state.search(&tree, "serde");
    assert_eq!(state.selected, Some(NodeId(3)));
    // behind the last match the search wraps
    state.open_to_depth(&tree, 3);
    state.selected = Some(NodeId(6));
    state.collapse(&tree);
    assert_eq!(ids(&mut state, &tree), vec![0, 1, 3, 4, 2, 6]);
    state.search(&tree, "serde");
    assert_eq!(state.selected, Some(NodeId(3)));
}

#[test]
fn search_does_not_expand_anything() {
    let tree = sample();
    let mut state = TreeWidgetState::default();
    state.search(&tree, "tokio");
    // the match is recorded, but it is not on display
    assert!(state.is_search_match(NodeId(5)));
    assert_eq!(state.open_count(), 0);
    assert_eq!(ids(&mut state, &tree), vec![0, 6]);
    assert_eq!(state.selected, Some(NodeId(0)));
}

#[test]
fn search_matches_group_headers_by_their_label() {
    let tree = sample();
    let mut state = TreeWidgetState::default();
    state.expand_all(&tree);
    state.search(&tree, "DEV-dep");
    assert_eq!(state.selected, Some(NodeId(4)));
}

#[test]
fn search_without_match_leaves_the_selection() {
    let tree = sample();
    let mut state = TreeWidgetState::default();
    state.expand_all(&tree);
    state.selected = Some(NodeId(99));
    state.search(&tree, "nothing-like-this");
    assert_eq!(state.selected, Some(NodeId(99)));
    assert_eq!(
        query_of(&state).as_deref(),
        Some("nothing-like-this")
    );
    assert!(!state.is_search_match(NodeId(0)));
}

#[test]
fn empty_query_ends_the_search() {
    let tree = sample();
    let mut state = TreeWidgetState::default();
    state.expand_all(&tree);
    state.search(&tree, "serde");
    assert!(state.is_search_match(NodeId(3)));
    state.search(&tree, "   ");
    assert_eq!(query_of(&state), None);
    assert!(!state.is_search_match(NodeId(3)));
    assert_eq!(state.selected, Some(NodeId(3)));
}

#[test]
fn empty_query_through_search_clears_and_keeps_the_selection() {
    let tree = sample();
    let mut state = TreeWidgetState::default();
    state.expand_all(&tree);
    state.search(&tree, "serde");
    state.selected = Some(NodeId(99));
    let before = ids(&mut state, &tree);
    state.selected = Some(NodeId(99));
    state.search(&tree, "");
    assert_eq!(query_of(&state), None);
    for id in 0..tree.len() {
        assert!(!state.is_search_match(NodeId(id)));
    }
    assert_eq!(state.selected, Some(NodeId(99)));
    assert_eq!(state.open_count(), 4);
    assert_eq!(ids(&mut state, &tree), before);
}

#[test]
fn select_and_accessors() {
    let tree = sample();
    let mut state = TreeWidgetState::new();
    state.select(Some(NodeId(6)));
    assert_eq!(state.selected(), Some(NodeId(6)));
    assert_eq!(state.selected_position(&tree), Some(1));
    let cached: Vec<VisibleNode> = state.cached_nodes().to_vec();
    assert_eq!(
        cached,
        vec![
            VisibleNode {
                id: NodeId(0),
                depth: 0
            },
            VisibleNode {
                id: NodeId(6),
                depth: 0
            }
        ]
    );
}
