use cargo_tree_tui::dependency::{
    Dependency, DependencyGroup, DependencyNode, DependencyTree, DependencyType, NodeId,
};
use cargo_tree_tui::render::RenderContext;
use cargo_tree_tui::state::TreeWidgetState;
use cargo_tree_tui::style::{Tone, TreeWidgetStyle};
use cargo_tree_tui::viewport::{Area, Viewport};

pub enum TestNodeKind {
    Crate,
    Group(DependencyType),
}

pub struct TestNode {
    pub name: &'static str,
    pub parent: Option<usize>,
    pub children: &'static [usize],
    pub kind: TestNodeKind,
}

pub fn build_tree(nodes: &[TestNode]) -> DependencyTree {
    let mut arena = Vec::with_capacity(nodes.len());
    for node in nodes {
        let parent = node.parent.map(NodeId);
        let children = node.children.iter().copied().map(NodeId).collect();
        let node = match node.kind {
            TestNodeKind::Crate => DependencyNode::Crate(Dependency {
                name: node.name.to_string(),
                version: String::new(),
                manifest_dir: None,
                is_proc_macro: false,
                parent,
                children,
            }),
            TestNodeKind::Group(kind) => DependencyNode::Group(DependencyGroup {
                kind,
                parent,
                children,
            }),
        };
        arena.push(node);
    }

    let roots = nodes
        .iter()
        .enumerate()
        .filter_map(|(idx, node)| node.parent.is_none().then_some(NodeId(idx)))
        .collect();

    DependencyTree::from_parts("workspace".to_string(), arena, roots)
        .expect("the test nodes describe a forest")
}

fn area(width: u16, height: u16) -> Area {
    Area {
        x: 0,
        y: 0,
        width,
        height,
    }
}

fn render_lines(tree: &DependencyTree, state: &mut TreeWidgetState, area: Area) -> Vec<String> {
    let style = TreeWidgetStyle::default();
    let context = RenderContext::new(tree, &style, None, None);
    let output = context.render(state, area);
    output.lines.iter().map(|line| line.to_text()).collect()
}

pub fn render_tree_context(tree: &DependencyTree) -> String {
    let mut state = TreeWidgetState::default();
    state.expand_all(tree);
    render_lines(tree, &mut state, area(80, 24)).join("\n")
}

fn chain(names: &'static [&'static str]) -> DependencyTree {
    let mut arena = Vec::new();
    for (idx, name) in names.iter().enumerate() {
        arena.push(DependencyNode::Crate(Dependency {
            name: name.to_string(),
            version: String::new(),
            manifest_dir: None,
            is_proc_macro: false,
            parent: if idx == 0 { None } else { Some(NodeId(idx - 1)) },
            children: if idx + 1 < names.len() {
                vec![NodeId(idx + 1)]
            } else {
                Vec::new()
            },
        }));
    }
    DependencyTree::from_parts("workspace".to_string(), arena, vec![NodeId(0)]).unwrap()
}

#[test]
fn basic() {
    let nodes = [
        TestNode {
            name: "root",
            parent: None,
            children: &[1, 2],
            kind: TestNodeKind::Crate,
        },
        TestNode {
            name: "a",
            parent: Some(0),
            children: &[3],
            kind: TestNodeKind::Crate,
        },
        TestNode {
            name: "b",
            parent: Some(0),
            children: &[],
            kind: TestNodeKind::Crate,
        },
        TestNode {
            name: "c",
            parent: Some(1),
            children: &[],
            kind: TestNodeKind::Crate,
        },
    ];

    let expected = r#"
root
├──▾ a
│  └──• c
└──• b
"#;

    let tree = build_tree(&nodes);
    let tree_str = render_tree_context(&tree);
    assert_eq!(expected.trim(), tree_str.trim());
}

#[test]
fn root_dev_dependencies_header() {
    let nodes = [
        TestNode {
            name: "root",
            parent: None,
            children: &[1],
            kind: TestNodeKind::Crate,
        },
        TestNode {
            name: "dev",
            parent: Some(0),
            children: &[2],
            kind: TestNodeKind::Group(DependencyType::Dev),
        },
        TestNode {
            name: "a",
            parent: Some(1),
            children: &[],
            kind: TestNodeKind::Crate,
        },
    ];

    let expected = r#"
root
[dev-dependencies]
└──• a
"#;

    let tree = build_tree(&nodes);
    assert_eq!(expected.trim(), render_tree_context(&tree).trim());
}

#[test]
fn root_normal_deps_then_dev_header() {
    let nodes = [
        TestNode {
            name: "root",
            parent: None,
            children: &[1, 2],
            kind: TestNodeKind::Crate,
        },
        TestNode {
            name: "a",
            parent: Some(0),
            children: &[],
            kind: TestNodeKind::Crate,
        },
        TestNode {
            name: "dev",
            parent: Some(0),
            children: &[3],
            kind: TestNodeKind::Group(DependencyType::Dev),
        },
        TestNode {
            name: "b",
            parent: Some(2),
            children: &[],
            kind: TestNodeKind::Crate,
        },
    ];

    let expected = r#"
root
└──• a
[dev-dependencies]
└──• b
"#;

    let tree = build_tree(&nodes);
    assert_eq!(expected.trim(), render_tree_context(&tree).trim());
}

#[test]
fn nested_dev_dependencies_header() {
    let nodes = [
        TestNode {
            name: "root",
            parent: None,
            children: &[1],
            kind: TestNodeKind::Crate,
        },
        TestNode {
            name: "a",
            parent: Some(0),
            children: &[2],
            kind: TestNodeKind::Crate,
        },
        TestNode {
            name: "dev",
            parent: Some(1),
            children: &[3],
            kind: TestNodeKind::Group(DependencyType::Dev),
        },
        TestNode {
            name: "b",
            parent: Some(2),
            children: &[],
            kind: TestNodeKind::Crate,
        },
    ];

    let expected = r#"
root
└──▾ a
   [dev-dependencies]
   └──• b
"#;

    let tree = build_tree(&nodes);
    assert_eq!(expected.trim(), render_tree_context(&tree).trim());
}

#[test]
fn nested_header_preserves_guides() {
    let nodes = [
        TestNode {
            name: "root",
            parent: None,
            children: &[1, 2],
            kind: TestNodeKind::Crate,
        },
        TestNode {
            name: "x",
            parent: Some(0),
            children: &[],
            kind: TestNodeKind::Crate,
        },
        TestNode {
            name: "a",
            parent: Some(0),
            children: &[3],
            kind: TestNodeKind::Crate,
        },
        TestNode {
            name: "dev",
            parent: Some(2),
            children: &[4],
            kind: TestNodeKind::Group(DependencyType::Dev),
        },
        TestNode {
            name: "b",
            parent: Some(3),
            children: &[],
            kind: TestNodeKind::Crate,
        },
    ];

    let expected = r#"
root
├──• x
└──▾ a
   [dev-dependencies]
   └──• b
"#;

    let tree = build_tree(&nodes);
    assert_eq!(expected.trim(), render_tree_context(&tree).trim());
}

#[test]
fn nested_group_header_with_following_sibling() {
    let nodes = [
        TestNode {
            name: "root",
            parent: None,
            children: &[1, 4],
            kind: TestNodeKind::Crate,
        },
        TestNode {
            name: "x",
            parent: Some(0),
            children: &[2],
            kind: TestNodeKind::Crate,
        },
        TestNode {
            name: "dev",
            parent: Some(1),
            children: &[3],
            kind: TestNodeKind::Group(DependencyType::Dev),
        },
        TestNode {
            name: "b",
            parent: Some(2),
            children: &[],
            kind: TestNodeKind::Crate,
        },
        TestNode {
            name: "a",
            parent: Some(0),
            children: &[],
            kind: TestNodeKind::Crate,
        },
    ];

    let expected = r#"
root
├──▾ x
│  [dev-dependencies]
│  └──• b
└──• a
"#;

    let tree = build_tree(&nodes);
    assert_eq!(expected.trim(), render_tree_context(&tree).trim());
}

#[test]
fn fully_expanded_tree_draws_branches_and_guides() {
    let nodes = [
        TestNode {
            name: "root",
            parent: None,
            children: &[1, 2],
            kind: TestNodeKind::Crate,
        },
        TestNode {
            name: "a",
            parent: Some(0),
            children: &[3],
            kind: TestNodeKind::Crate,
        },
        TestNode {
            name: "b",
            parent: Some(0),
            children: &[],
            kind: TestNodeKind::Crate,
        },
        TestNode {
            name: "c",
            parent: Some(1),
            children: &[],
            kind: TestNodeKind::Crate,
        },
    ];
    let tree = build_tree(&nodes);
    let mut state = TreeWidgetState::default();
    state.expand_all(&tree);
    let style = TreeWidgetStyle::default();
    let context = RenderContext::new(&tree, &style, None, None);
    let output = context.render(&mut state, area(80, 24));

    // Guides and connector, then the name; the marker sits between them.
    let shape: Vec<String> = output
        .lines
        .iter()
        .map(|line| {
            let texts: Vec<&str> = line.spans.iter().map(|span| span.text.as_str()).collect();
            match texts.len() {
                1 => texts[0].to_string(),
                3 => format!("{} {}", texts[0], texts[2]),
                4 => format!("{}{} {}", texts[0], texts[1], texts[3]),
                n => panic!("unexpected number of spans: {n}"),
            }
        })
        .collect();
    assert_eq!(shape, vec!["root", "├── a", "│  └── c", "└── b"]);
    assert_eq!(output.total_lines, 4);
    assert_eq!(output.viewport.offset, 0);
    assert_eq!(output.viewport.max_offset, 0);
}

#[test]
fn crate_before_a_group_header_closes_its_branch() {
    let nodes = [
        TestNode {
            name: "root",
            parent: None,
            children: &[1, 2],
            kind: TestNodeKind::Crate,
        },
        TestNode {
            name: "a",
            parent: Some(0),
            children: &[3],
            kind: TestNodeKind::Crate,
        },
        TestNode {
            name: "dev",
            parent: Some(0),
            children: &[4],
            kind: TestNodeKind::Group(DependencyType::Dev),
        },
        TestNode {
            name: "x",
            parent: Some(1),
            children: &[],
            kind: TestNodeKind::Crate,
        },
        TestNode {
            name: "d",
            parent: Some(2),
            children: &[],
            kind: TestNodeKind::Crate,
        },
    ];
    let expected = "root\n└──▾ a\n   └──• x\n[dev-dependencies]\n└──• d";
    let tree = build_tree(&nodes);
    assert_eq!(expected, render_tree_context(&tree));
}

#[test]
fn bare_branches_draw_the_plain_lines() {
    let tree = build_tree(&[
        TestNode {
            name: "root",
            parent: None,
            children: &[1, 2],
            kind: TestNodeKind::Crate,
        },
        TestNode {
            name: "a",
            parent: Some(0),
            children: &[3],
            kind: TestNodeKind::Crate,
        },
        TestNode {
            name: "b",
            parent: Some(0),
            children: &[],
            kind: TestNodeKind::Crate,
        },
        TestNode {
            name: "c",
            parent: Some(1),
            children: &[],
            kind: TestNodeKind::Crate,
        },
    ]);
    let mut state = TreeWidgetState::default();
    state.expand_all(&tree);
    let mut style = TreeWidgetStyle::default();
    style.node_symbol = String::new();
    style.node_closed_symbol = String::new();
    style.node_open_symbol = String::new();
    let context = RenderContext::new(&tree, &style, None, None);
    let output = context.render(&mut state, area(80, 24));
    let lines: Vec<String> = output.lines.iter().map(|line| line.to_text()).collect();
    assert_eq!(lines, vec!["root", "├── a", "│  └── c", "└── b"]);
}

#[test]
fn collapsed_node_shows_closed_marker() {
    let tree = chain(&["root", "a", "b"]);
    let mut state = TreeWidgetState::default();
    state.open_to_depth(&tree, 2);
    let lines = render_lines(&tree, &mut state, area(80, 24));
    assert_eq!(lines, vec!["root", "└──▸ a"]);
}

#[test]
fn version_and_remarks_follow_the_name() {
    let arena = vec![
        DependencyNode::Crate(Dependency {
            name: "app".to_string(),
            version: "1.2.3".to_string(),
            manifest_dir: Some("/work/app".to_string()),
            is_proc_macro: false,
            parent: None,
            children: vec![NodeId(1), NodeId(2)],
        }),
        DependencyNode::Crate(Dependency {
            name: "derive".to_string(),
            version: "0.1.0".to_string(),
            manifest_dir: Some("/work/derive".to_string()),
            is_proc_macro: true,
            parent: Some(NodeId(0)),
            children: vec![],
        }),
        DependencyNode::Crate(Dependency {
            name: "syn".to_string(),
            version: "2.0.0".to_string(),
            manifest_dir: None,
            is_proc_macro: true,
            parent: Some(NodeId(0)),
            children: vec![],
        }),
    ];
    let tree = DependencyTree::from_parts("app".to_string(), arena, vec![NodeId(0)]).unwrap();
    let mut state = TreeWidgetState::default();
    state.expand_all(&tree);
    let lines = render_lines(&tree, &mut state, area(80, 24));
    assert_eq!(
        lines,
        vec![
            "app v1.2.3 (/work/app)",
            "├──• derive v0.1.0 (/work/derive, proc-macro)",
            "└──• syn v2.0.0 (proc-macro)",
        ]
    );
}

#[test]
fn tones_mark_selection_kind_and_parts() {
    let nodes = [
        TestNode {
            name: "root",
            parent: None,
            children: &[1],
            kind: TestNodeKind::Crate,
        },
        TestNode {
            name: "build",
            parent: Some(0),
            children: &[2],
            kind: TestNodeKind::Group(DependencyType::Build),
        },
        TestNode {
            name: "cc",
            parent: Some(1),
            children: &[],
            kind: TestNodeKind::Crate,
        },
    ];
    let tree = build_tree(&nodes);
    let mut state = TreeWidgetState::default();
    state.expand_all(&tree);
    let style = TreeWidgetStyle::default();
    let context = RenderContext::new(&tree, &style, None, None);
    let output = context.render(&mut state, area(80, 24));

    let tones: Vec<Vec<Tone>> = output
        .lines
        .iter()
        .map(|line| line.spans.iter().map(|span| span.tone).collect())
        .collect();
    assert_eq!(
        tones,
        vec![
            vec![Tone::Highlight],
            vec![Tone::Kind(DependencyType::Build)],
            vec![Tone::Kind(DependencyType::Build), Tone::Plain, Tone::Name],
        ]
    );
    assert_eq!(output.lines[1].to_text(), "[build-dependencies]");
}

#[test]
fn root_label_takes_the_first_line() {
    let tree = chain(&["root", "a"]);
    let mut state = TreeWidgetState::default();
    state.expand_all(&tree);
    let style = TreeWidgetStyle::default();
    let context = RenderContext::new(&tree, &style, Some("workspace"), None);
    let output = context.render(&mut state, area(80, 24));
    let lines: Vec<String> = output.lines.iter().map(|line| line.to_text()).collect();
    assert_eq!(lines, vec!["workspace", "root", "└──• a"]);
    assert_eq!(output.total_lines, 3);
}

#[test]
fn scrolled_window_starts_with_the_trail() {
    let tree = chain(&["root", "a", "b", "c", "d", "e", "f", "g"]);
    let mut state = TreeWidgetState::default();
    state.expand_all(&tree);
    state.selected = Some(NodeId(7));

    let style = TreeWidgetStyle::default();
    let context = RenderContext::new(&tree, &style, None, None);
    let output = context.render(&mut state, area(100, 5));
    let lines: Vec<String> = output.lines.iter().map(|line| line.to_text()).collect();
    // Eight lines in a window of five: the selected line is the eighth, the
    // middle of the window is its third line, and the offset stops at 3.
    assert_eq!(output.viewport.offset, 3);
    assert_eq!(output.viewport.max_offset, 3);
    assert_eq!(output.viewport.height, 5);
    // The trail stands where the fourth line would; lines five to eight
    // follow.
    assert_eq!(
        lines,
        vec![
            "root → a → b → c → d → e → f → g",
            "         └──▾ d",
            "            └──▾ e",
            "               └──▾ f",
            "                  └──• g",
        ]
    );
    assert_eq!(state.viewport(), output.viewport);
}

#[test]
fn trail_in_a_narrow_window_is_shortened() {
    let tree = chain(&["root", "a", "b", "c", "d", "e", "f", "g"]);
    let mut state = TreeWidgetState::default();
    state.expand_all(&tree);
    state.selected = Some(NodeId(7));
    let lines = render_lines(&tree, &mut state, area(21, 5));
    assert_eq!(lines[0], "root → a → b → … → g");
}

#[test]
fn window_without_height_shows_nothing() {
    let tree = chain(&["root", "a"]);
    let mut state = TreeWidgetState::default();
    state.expand_all(&tree);
    let style = TreeWidgetStyle::default();
    let context = RenderContext::new(&tree, &style, None, None);
    let output = context.render(&mut state, area(80, 0));
    assert!(output.lines.is_empty());
    assert_eq!(output.total_lines, 2);
    assert_eq!(output.viewport, Viewport::new(area(0, 0), area(0, 0)));
}

#[test]
fn empty_forest_renders_nothing() {
    let tree = DependencyTree::from_parts("none".to_string(), Vec::new(), Vec::new()).unwrap();
    let mut state = TreeWidgetState::default();
    state.selected = Some(NodeId(3));
    let style = TreeWidgetStyle::default();
    let context = RenderContext::new(&tree, &style, None, None);
    let output = context.render(&mut state, area(80, 24));
    assert!(output.lines.is_empty());
    assert_eq!(output.total_lines, 0);
    assert_eq!(state.selected, None);
}

#[test]
fn frame_inside_a_border_uses_the_inner_height() {
    let tree = chain(&["root", "a", "b", "c", "d", "e"]);
    let mut state = TreeWidgetState::default();
    state.expand_all(&tree);
    let style = TreeWidgetStyle::default();
    let inner = Area {
        x: 1,
        y: 1,
        width: 18,
        height: 3,
    };
    let context = RenderContext::new(&tree, &style, None, Some(inner));
    let output = context.render(&mut state, area(20, 5));
    assert_eq!(output.viewport.height, 3);
    assert_eq!(output.viewport.inner, inner);
    assert_eq!(output.lines.len(), 3);
    assert_eq!(output.viewport.max_offset, 3);
}
