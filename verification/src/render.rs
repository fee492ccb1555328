//! The lines that a widget of a given size shows.

use vstd::prelude::*;
use vstd::string::StringExecFns;

use crate::breadcrumb::elided;
use crate::breadcrumb::minus_one;
use crate::breadcrumb::trail_spans;
use crate::breadcrumb::Breadcrumb;
use crate::dependency::DependencyNode;
use crate::dependency::DependencyTree;
use crate::dependency::NodeId;
use crate::dependency::NodeView;
use crate::dependency::TreeView;
use crate::lineage::guide_of;
use crate::lineage::guides;
use crate::lineage::kind_tone;
use crate::lineage::later_crate;
use crate::lineage::tone_of_kind;
use crate::lineage::Lineage;
use crate::lineage::LineageSegment;
use crate::state::position;
use crate::state::settled;
use crate::state::StateView;
use crate::state::TreeWidgetState;
use crate::style::span;
use crate::style::spans_view;
use crate::style::text_of;
use crate::style::SpanView;
use crate::style::StyledSpan;
use crate::style::TextLine;
use crate::style::Tone;
use crate::style::TreeWidgetStyle;
use crate::viewport::least;
use crate::viewport::Area;
use crate::viewport::Viewport;
use crate::visible::lemma_visible_entries;
use crate::visible::VisibleNode;

verus! {

/// What one frame of the widget shows.
#[derive(Debug)]
pub struct RenderOutput {
    /// The lines of the window, from the top.
    pub lines: Vec<TextLine>,
    /// The number of lines that could be scrolled through.
    pub total_lines: usize,
    /// Where the window lies.
    pub viewport: Viewport,
}

/// The views of `lines`, in order.
pub open spec fn lines_view(lines: Seq<TextLine>) -> Seq<Seq<SpanView>> {
    Seq::new(lines.len(), |i: int| lines[i]@)
}

/// Mathematical content of a [`RenderOutput`].
pub struct FrameView {
    pub lines: Seq<Seq<SpanView>>,
    pub total_lines: usize,
    pub viewport: Viewport,
}

impl View for RenderOutput {
    type V = FrameView;

    open spec fn view(&self) -> FrameView {
        FrameView {
            lines: lines_view(self.lines@),
            total_lines: self.total_lines,
            viewport: self.viewport,
        }
    }
}

/// What is needed to draw a tree.
pub struct RenderContext<'a> {
    pub tree: &'a DependencyTree,
    pub style: &'a TreeWidgetStyle,
    /// A line that is shown above the roots.
    pub root_label: Option<&'a str>,
    /// The area inside the frame of the widget, where it has one.
    pub inner: Option<Area>,
}

/// The marker of a node with the blank behind it: one glyph for a leaf, one
/// for a collapsed and one for an expanded node.
pub open spec fn toggle_of(
    t: TreeView,
    style: TreeWidgetStyle,
    open: Set<NodeId>,
    id: NodeId,
) -> Seq<char> {
    (if t.children(id).len() > 0 {
        if open.contains(id) {
            style.node_open_symbol@
        } else {
            style.node_closed_symbol@
        }
    } else {
        style.node_symbol@
    }) + " "@
}

/// The connector of a node that hangs below a parent, and its marker. The
/// connector is the closing one where no crate follows the node among the
/// children of its parent: a group header that follows draws no connector
/// of its own.
pub open spec fn link_spans(
    t: TreeView,
    style: TreeWidgetStyle,
    open: Set<NodeId>,
    id: NodeId,
) -> Seq<SpanView> {
    seq![
        SpanView {
            text: if t.has_later_crate(id) {
                style.branch_symbol@
            } else {
                style.last_branch_symbol@
            },
            tone: kind_tone(Some(t.kind_of(id))),
        },
        SpanView { text: toggle_of(t, style, open, id), tone: Tone::Plain },
    ]
}

/// The remarks behind a crate: its directory and whether it is a
/// proc-macro, in parentheses and separated by a comma.
pub open spec fn suffix_spans(n: NodeView) -> Seq<SpanView> {
    let lead = SpanView { text: " ("@, tone: Tone::Plain };
    let comma = SpanView { text: ", "@, tone: Tone::Plain };
    let close = SpanView { text: ")"@, tone: Tone::Plain };
    let macro_mark = SpanView { text: "proc-macro"@, tone: Tone::Suffix };
    match n.manifest_dir {
        Some(dir) => if n.is_proc_macro {
            seq![lead, SpanView { text: dir, tone: Tone::Suffix }, comma, macro_mark, close]
        } else {
            seq![lead, SpanView { text: dir, tone: Tone::Suffix }, close]
        },
        None => if n.is_proc_macro {
            seq![lead, macro_mark, close]
        } else {
            Seq::empty()
        },
    }
}

/// The tone of the name of a node.
pub open spec fn name_tone(n: NodeView, is_selected: bool) -> Tone {
    if is_selected {
        Tone::Highlight
    } else {
        match n.group {
            Some(kind) => Tone::Kind(kind),
            None => Tone::Name,
        }
    }
}

/// The version of a crate as it is displayed; nothing for a group and for a
/// crate without a version.
pub open spec fn version_spans(n: NodeView) -> Seq<SpanView> {
    if n.group.is_none() && n.version.len() > 0 {
        seq![SpanView { text: " v"@ + n.version, tone: Tone::Version }]
    } else {
        Seq::empty()
    }
}

/// The line of the node `id`: the guides of its ancestors; for a crate
/// below a parent its connector and marker; its name; for a crate its
/// version and remarks.
pub open spec fn line_of(
    t: TreeView,
    style: TreeWidgetStyle,
    open: Set<NodeId>,
    selected: Option<NodeId>,
    id: NodeId,
) -> Seq<SpanView> {
    let n = t.nodes[id.0 as int];
    let lead = guides(t.lineage(id), style, t.lineage(id).len() as int);
    let link = if n.group.is_none() && n.parent.is_some() {
        link_spans(t, style, open, id)
    } else {
        Seq::empty()
    };
    let name = seq![SpanView { text: n.name, tone: name_tone(n, selected == Some(id)) }];
    lead + link + name + version_spans(n) + suffix_spans(n)
}

/// The lines of the entries `v[from..to]`.
pub open spec fn node_lines(
    t: TreeView,
    style: TreeWidgetStyle,
    open: Set<NodeId>,
    selected: Option<NodeId>,
    v: Seq<VisibleNode>,
    from: int,
    to: int,
) -> Seq<Seq<SpanView>> {
    Seq::new((to - from) as nat, |i: int| line_of(t, style, open, selected, v[from + i].id))
}

/// The line above the roots.
pub open spec fn label_lines(root_label: Option<&str>) -> Seq<Seq<SpanView>> {
    match root_label {
        Some(label) => seq![seq![SpanView { text: label@, tone: Tone::Plain }]],
        None => Seq::empty(),
    }
}

/// The number of lines that the label takes.
pub open spec fn label_count(root_label: Option<&str>) -> int {
    match root_label {
        Some(_) => 1,
        None => 0,
    }
}

/// The views of a concatenation are the views of its parts.
pub proof fn lemma_spans_view_concat(a: Seq<StyledSpan>, b: Seq<StyledSpan>)
    ensures
        spans_view(a + b) == spans_view(a) + spans_view(b),
{
    assert(spans_view(a + b) =~= spans_view(a) + spans_view(b));
}

/// Returns the remarks behind `node`.
fn format_suffixes(node: &DependencyNode) -> (r: Vec<StyledSpan>)
    ensures
        spans_view(r@) == suffix_spans(node@),
{
    let mut spans: Vec<StyledSpan> = Vec::new();
    let record = match node.as_crate() {
        Some(record) => record,
        None => {
            assert(spans_view(spans@) =~= suffix_spans(node@));
            return spans;
        },
    };
    if record.manifest_dir.is_none() && !record.is_proc_macro {
        assert(spans_view(spans@) =~= suffix_spans(node@));
        return spans;
    }
    spans.push(span(" (", Tone::Plain));
    if let Some(dir) = &record.manifest_dir {
        spans.push(span(dir.as_str(), Tone::Suffix));
        if record.is_proc_macro {
            spans.push(span(", ", Tone::Plain));
        }
    }
    if record.is_proc_macro {
        spans.push(span("proc-macro", Tone::Suffix));
    }
    spans.push(span(")", Tone::Plain));
    assert(spans_view(spans@) =~= suffix_spans(node@));
    spans
}

impl<'a> RenderContext<'a> {
    /// Creates the context for drawing `tree`.
    pub fn new(
        tree: &'a DependencyTree,
        style: &'a TreeWidgetStyle,
        root_label: Option<&'a str>,
        inner: Option<Area>,
    ) -> (r: Self)
        ensures
            r.tree == tree,
            r.style == style,
            r.root_label == root_label,
            r.inner == inner,
    {
        Self { tree, style, root_label, inner }
    }

    /// Returns the line of a visible node, or `None` when `node` names no
    /// node of the arena.
    pub fn render_node(&self, state: &TreeWidgetState, node: &VisibleNode) -> (r: Option<TextLine>)
        ensures
            r.is_some() == self.tree@.contains(node.id),
            r matches Some(line) ==> line@ == line_of(
                self.tree@,
                *self.style,
                state@.open,
                state@.selected,
                node.id,
            ),
    {
        let ghost t = self.tree@;
        let data = match self.tree.node(node.id) {
            Some(data) => data,
            None => {
                return None;
            },
        };
        let lineage = match Lineage::build(self.tree, node.id, state.selected()) {
            Some(lineage) => lineage,
            None => {
                return None;
            },
        };
        let is_group = data.is_group();
        let mut spans = lineage.indent(self.style);
        let ghost lead = spans_view(spans@);
        if !is_group && data.parent().is_some() {
            let connector = if later_crate(self.tree, node.id) {
                self.style.branch_symbol.as_str()
            } else {
                self.style.last_branch_symbol.as_str()
            };
            let kind = crate::lineage::kind_of_node(self.tree, node.id, data);
            spans.push(span(connector, tone_of_kind(Some(kind))));
            let symbol = if data.children().len() > 0 {
                if state.is_open(node.id) {
                    self.style.node_open_symbol.as_str()
                } else {
                    self.style.node_closed_symbol.as_str()
                }
            } else {
                self.style.node_symbol.as_str()
            };
            let mut toggle = String::from_str(symbol);
            toggle.append(" ");
            spans.push(StyledSpan { text: toggle, tone: Tone::Plain });
            assert(spans_view(spans@) =~= lead + link_spans(t, *self.style, state@.open, node.id));
        } else {
            assert(spans_view(spans@) =~= lead + Seq::<SpanView>::empty());
        }
        let ghost linked = spans_view(spans@);
        let tone = if lineage.is_selected {
            Tone::Highlight
        } else {
            match data.group_kind() {
                Some(kind) => Tone::Kind(kind),
                None => Tone::Name,
            }
        };
        let name = data.display_name();
        spans.push(StyledSpan { text: name, tone });
        if let Some(record) = data.as_crate() {
            if !record.version.as_str().is_empty() {
                let mut text = String::from_str(" v");
                text.append(record.version.as_str());
                spans.push(StyledSpan { text, tone: Tone::Version });
            }
        }
        assert(spans_view(spans@) =~= linked + seq![
            SpanView { text: data@.name, tone: name_tone(data@, state@.selected == Some(node.id)) },
        ] + version_spans(data@));
        let ghost named = spans_view(spans@);
        let mut suffixes = format_suffixes(data);
        let ghost suffix_part = spans_view(suffixes@);
        proof {
            lemma_spans_view_concat(spans@, suffixes@);
        }
        spans.append(&mut suffixes);
        assert(spans_view(spans@) == named + suffix_part);
        Some(TextLine { spans })
    }
}

/// `a + b`, or the largest machine index where the sum exceeds it.
pub open spec fn plus(a: int, b: int) -> int {
    least(a + b, usize::MAX as int)
}

/// The area in which the lines are displayed.
pub open spec fn inner_of(area: Area, inner: Option<Area>) -> Area {
    match inner {
        Some(inner) => inner,
        None => area,
    }
}

/// The viewport of a frame that shows `shown` entries below `label` label
/// lines, with the entry at `selected_index` selected: the selected line is
/// centred as far as the first and the last line allow.
pub open spec fn frame_viewport(
    area: Area,
    inner: Option<Area>,
    selected_index: int,
    shown: int,
    label: int,
) -> Viewport {
    Viewport::starting(area, inner_of(area, inner)).centered(
        plus(plus(selected_index, label), 1) as usize,
        plus(shown, label) as usize,
        0,
    )
}

/// The line that shows the trail to the selected node.
pub open spec fn trail_line(t: TreeView, selected: Option<NodeId>, width: u16) -> Seq<SpanView> {
    trail_spans(
        elided(t.crumbs_to(selected), minus_one(width)),
        elided(t.crumbs_to(selected), minus_one(width)).len() as int,
    )
}

/// The lines of the window of `viewport`. At the top of the list these are
/// the label and as many entries as fit below it. Further down the trail
/// to the selected node takes the place of the first line, and the entries
/// of the lines behind it follow.
pub open spec fn frame_lines(
    t: TreeView,
    style: TreeWidgetStyle,
    root_label: Option<&str>,
    open: Set<NodeId>,
    selected: Option<NodeId>,
    viewport: Viewport,
) -> Seq<Seq<SpanView>> {
    let v = t.visible(open);
    let label = label_count(root_label);
    if viewport.height == 0 {
        Seq::empty()
    } else if viewport.offset == 0 {
        label_lines(root_label) + node_lines(
            t,
            style,
            open,
            selected,
            v,
            0,
            least(viewport.height - label, v.len() as int),
        )
    } else {
        let from = viewport.offset + 1 - label;
        let window_end = plus(viewport.offset as int, viewport.height as int);
        let to = least(window_end, plus(v.len() as int, label)) - label;
        seq![trail_line(t, selected, viewport.inner.width)] + (if from < to {
            node_lines(t, style, open, selected, v, from, to)
        } else {
            Seq::empty()
        })
    }
}

/// The viewport of the frame that shows the forest `t` in `area` when the
/// widget is in state `st`; a blank one when nothing is on display.
pub open spec fn frame_place(
    t: TreeView,
    root_label: Option<&str>,
    inner: Option<Area>,
    st: StateView,
    area: Area,
) -> Viewport {
    let v = t.visible(st.open);
    match settled(v, st.selected) {
        Some(id) => frame_viewport(
            area,
            inner,
            position(v, id),
            v.len() as int,
            label_count(root_label),
        ),
        None => Viewport::blank(),
    }
}

/// The state of the widget after a frame was drawn: the selection has
/// settled, and where anything is selected the viewport of the frame is
/// recorded.
pub open spec fn frame_state(
    t: TreeView,
    root_label: Option<&str>,
    inner: Option<Area>,
    st: StateView,
    area: Area,
) -> StateView {
    match settled(t.visible(st.open), st.selected) {
        Some(id) => StateView {
            selected: Some(id),
            viewport: frame_place(t, root_label, inner, st, area),
            ..st
        },
        None => StateView { selected: None, ..st },
    }
}

/// What the frame shows: nothing where nothing is selected; else the lines
/// of the window, the number of all lines, and the viewport, which is a
/// blank one where the window has no height.
pub open spec fn frame_output(
    t: TreeView,
    style: TreeWidgetStyle,
    root_label: Option<&str>,
    inner: Option<Area>,
    st: StateView,
    area: Area,
) -> FrameView {
    let v = t.visible(st.open);
    let place = frame_place(t, root_label, inner, st, area);
    match settled(v, st.selected) {
        Some(id) => FrameView {
            lines: frame_lines(t, style, root_label, st.open, Some(id), place),
            total_lines: plus(v.len() as int, label_count(root_label)) as usize,
            viewport: if place.height == 0 {
                Viewport::blank()
            } else {
                place
            },
        },
        None => FrameView { lines: Seq::empty(), total_lines: 0, viewport: Viewport::blank() },
    }
}

impl RenderOutput {
    /// The output of a frame that shows nothing.
    pub fn empty() -> (r: RenderOutput)
        ensures
            r@ == (FrameView { lines: Seq::empty(), total_lines: 0, viewport: Viewport::blank() }),
    {
        let none = Area { x: 0, y: 0, width: 0, height: 0 };
        let r = RenderOutput {
            lines: Vec::new(),
            total_lines: 0,
            viewport: Viewport::new(none, none),
        };
        assert(lines_view(r.lines@) =~= Seq::<Seq<SpanView>>::empty());
        r
    }
}

impl Default for RenderOutput {
    fn default() -> (r: RenderOutput)
        ensures
            r@ == (FrameView { lines: Seq::empty(), total_lines: 0, viewport: Viewport::blank() }),
    {
        RenderOutput::empty()
    }
}

impl<'a> RenderContext<'a> {
    /// Returns the line that shows the trail from the root to the selected
    /// node, shortened to fit `width` columns of which the last stays free.
    pub fn breadcrumb(&self, state: &TreeWidgetState, width: u16) -> (r: TextLine)
        ensures
            r@ == trail_line(self.tree@, state@.selected, width),
    {
        Breadcrumb::new(self.tree, state).render(width)
    }

    /// Appends the lines of the entries `visible[from..to]` to `lines`.
    fn push_node_lines(
        &self,
        state: &TreeWidgetState,
        visible: &[VisibleNode],
        from: usize,
        to: usize,
        lines: &mut Vec<TextLine>,
    )
        requires
            from <= to <= visible@.len(),
            forall|j: int| 0 <= j < visible@.len() ==> self.tree@.contains((#[trigger] visible@[j]).id),
        ensures
            lines_view(final(lines)@) == lines_view(old(lines)@) + node_lines(
                self.tree@,
                *self.style,
                state@.open,
                state@.selected,
                visible@,
                from as int,
                to as int,
            ),
    {
        let ghost start = lines_view(lines@);
        let mut i: usize = from;
        assert(lines_view(lines@) =~= start + node_lines(
            self.tree@,
            *self.style,
            state@.open,
            state@.selected,
            visible@,
            from as int,
            from as int,
        ));
        while i < to
            invariant
                from <= i <= to <= visible@.len(),
                forall|j: int|
                    0 <= j < visible@.len() ==> self.tree@.contains((#[trigger] visible@[j]).id),
                lines_view(lines@) == start + node_lines(
                    self.tree@,
                    *self.style,
                    state@.open,
                    state@.selected,
                    visible@,
                    from as int,
                    i as int,
                ),
            decreases to - i,
        {
            let ghost before = lines_view(lines@);
            assert(self.tree@.contains(visible@[i as int].id));
            match self.render_node(state, &visible[i]) {
                Some(line) => {
                    lines.push(line);
                    proof {
                        let added = line_of(
                            self.tree@,
                            *self.style,
                            state@.open,
                            state@.selected,
                            visible@[i as int].id,
                        );
                        assert(lines_view(lines@) =~= before.push(added));
                        assert(before.push(added) =~= start + node_lines(
                            self.tree@,
                            *self.style,
                            state@.open,
                            state@.selected,
                            visible@,
                            from as int,
                            i + 1,
                        ));
                    }
                },
                None => {},
            }
            i += 1;
        }
    }

    /// Settles the selection, centres the viewport on it and returns the
    /// lines of the window.
    pub fn render(&self, state: &mut TreeWidgetState, area: Area) -> (r: RenderOutput)
        requires
            old(state).wf(self.tree@),
        ensures
            final(state).wf(self.tree@),
            final(state)@ == frame_state(self.tree@, self.root_label, self.inner, old(state)@, area),
            r@ == frame_output(
                self.tree@,
                *self.style,
                self.root_label,
                self.inner,
                old(state)@,
                area,
            ),
    {
        let selected_index = match state.selected_position(self.tree) {
            Some(index) => index,
            None => {
                return RenderOutput::empty();
            },
        };
        let ghost t = self.tree@;
        let ghost open = state@.open;
        let ghost v = t.visible(open);
        let ghost selected = state@.selected;
        proof {
            use_type_invariant(self.tree);
            lemma_visible_entries(t, open);
            crate::visible::lemma_first_unique(
                v,
                selected.unwrap(),
                selected_index as int,
                position(v, selected.unwrap()),
            );
        }
        let label: usize = match self.root_label {
            Some(_) => 1,
            None => 0,
        };
        let shown = state.cached_nodes().len();
        let selected_line = selected_index.saturating_add(label).saturating_add(1);
        let total_lines = shown.saturating_add(label);
        let inner = match self.inner {
            Some(inner) => inner,
            None => area,
        };
        let viewport = Viewport::new(area, inner).center_on(selected_line, total_lines, 0);
        let ghost before = state@;
        let ghost place = frame_place(t, self.root_label, self.inner, before, area);
        let ghost goal = frame_output(t, *self.style, self.root_label, self.inner, before, area);
        proof {
            assert(label == label_count(self.root_label));
            assert(settled(v, before.selected) == before.selected);
            assert(viewport == place);
            assert(goal.total_lines == total_lines);
            assert(goal.lines == frame_lines(
                t,
                *self.style,
                self.root_label,
                open,
                selected,
                viewport,
            ));
        }
        state.update_viewport(viewport);
        let mut lines: Vec<TextLine> = Vec::new();
        if viewport.height == 0 {
            let none = Area { x: 0, y: 0, width: 0, height: 0 };
            assert(lines_view(lines@) =~= Seq::<Seq<SpanView>>::empty());
            return RenderOutput { lines, total_lines, viewport: Viewport::new(none, none) };
        }
        let visible = state.cached_nodes();
        if viewport.offset == 0 {
            if let Some(text) = self.root_label {
                let mut spans: Vec<StyledSpan> = Vec::new();
                spans.push(span(text, Tone::Plain));
                let line = TextLine { spans };
                assert(line@ =~= seq![SpanView { text: text@, tone: Tone::Plain }]);
                lines.push(line);
            }
            assert(lines_view(lines@) =~= label_lines(self.root_label));
            let available = viewport.height - label;
            let count = if available <= visible.len() {
                available
            } else {
                visible.len()
            };
            self.push_node_lines(state, visible, 0, count, &mut lines);
        } else {
            let trail = self.breadcrumb(state, viewport.inner.width);
            lines.push(trail);
            assert(lines_view(lines@) =~= seq![trail_line(t, selected, viewport.inner.width)]);
            let start_flat = viewport.offset + 1;
            let window_end = viewport.offset.saturating_add(viewport.height);
            let end_flat = if window_end <= total_lines {
                window_end
            } else {
                total_lines
            };
            if start_flat < end_flat {
                let from = start_flat - label;
                let to = end_flat - label;
                self.push_node_lines(state, visible, from, to, &mut lines);
            } else {
                assert(lines_view(lines@) =~= lines_view(lines@) + Seq::<Seq<SpanView>>::empty());
            }
        }
        assert(lines_view(lines@) == goal.lines);
        RenderOutput { lines, total_lines, viewport }
    }
}


/// A frame never shows more lines than its window is high.
pub proof fn lemma_frame_fits_window(
    t: TreeView,
    style: TreeWidgetStyle,
    root_label: Option<&str>,
    open: Set<NodeId>,
    selected: Option<NodeId>,
    viewport: Viewport,
)
    ensures
        frame_lines(t, style, root_label, open, selected, viewport).len() <= viewport.height,
{
}


/// A crate node without version, directory or proc-macro target.
pub open spec fn plain_crate(
    name: Seq<char>,
    parent: Option<NodeId>,
    children: Seq<NodeId>,
) -> NodeView {
    NodeView {
        group: None,
        name,
        version: Seq::empty(),
        manifest_dir: None,
        is_proc_macro: false,
        parent,
        children,
    }
}

/// Whether `style` draws box-drawing branches three columns wide and no
/// marker in front of a name.
pub open spec fn bare_branches(style: TreeWidgetStyle) -> bool {
    &&& style.branch_symbol@ == "├──"@
    &&& style.last_branch_symbol@ == "└──"@
    &&& style.continuation_symbol@ == "│  "@
    &&& style.empty_symbol@ == "   "@
    &&& style.node_symbol@ == ""@
    &&& style.node_closed_symbol@ == ""@
    &&& style.node_open_symbol@ == ""@
}

/// Whether `t` is the tree in which `root` has the children `a` and `b`,
/// and `a` has the child `c`.
pub open spec fn small_tree(t: TreeView) -> bool {
    &&& t.roots == seq![NodeId(0)]
    &&& t.nodes == seq![
        plain_crate("root"@, None, seq![NodeId(1), NodeId(2)]),
        plain_crate("a"@, Some(NodeId(0)), seq![NodeId(3)]),
        plain_crate("b"@, Some(NodeId(0)), Seq::empty()),
        plain_crate("c"@, Some(NodeId(1)), Seq::empty()),
    ]
}

/// The tree `root -> {a -> {c}, b}`, with `root` and `a` expanded, shows
/// `root`, `a`, `c`, `b` in this order, and with bare branches (the glyphs
/// `├──`, `└──`, `│  ` and blank padding, no markers) their lines read
/// `root`, `├── a`, `│  └── c` and `└── b`.
pub proof fn lemma_small_tree_lines(
    t: TreeView,
    style: TreeWidgetStyle,
    open: Set<NodeId>,
    selected: Option<NodeId>,
)
    requires
        small_tree(t),
        bare_branches(style),
        open.contains(NodeId(0)),
        open.contains(NodeId(1)),
    ensures
        t.visible(open) == seq![
            VisibleNode { id: NodeId(0), depth: 0 },
            VisibleNode { id: NodeId(1), depth: 1 },
            VisibleNode { id: NodeId(3), depth: 2 },
            VisibleNode { id: NodeId(2), depth: 1 },
        ],
        text_of(line_of(t, style, open, selected, NodeId(0))) == "root"@,
        text_of(line_of(t, style, open, selected, NodeId(1))) == "├── a"@,
        text_of(line_of(t, style, open, selected, NodeId(3))) == "│  └── c"@,
        text_of(line_of(t, style, open, selected, NodeId(2))) == "└── b"@,
{
    reveal_strlit("root");
    reveal_strlit("a");
    reveal_strlit("b");
    reveal_strlit("c");
    reveal_strlit("├──");
    reveal_strlit("└──");
    reveal_strlit("│  ");
    reveal_strlit("   ");
    reveal_strlit("");
    reveal_strlit(" ");
    reveal_strlit("├── a");
    reveal_strlit("│  └── c");
    reveal_strlit("└── b");
    let n0 = NodeId(0);
    let n1 = NodeId(1);
    let n2 = NodeId(2);
    let n3 = NodeId(3);
    let kids0 = seq![n1, n2];
    let kids1 = seq![n3];
    let none = Seq::<NodeId>::empty();
    assert(t.nodes[0].children == kids0);
    assert(t.nodes[1].children == kids1);
    assert(t.nodes[2].children == none);
    assert(t.nodes[3].children == none);

    // the visible sequence
    assert(t.visible_list(open, none, 3, 3) =~= Seq::<VisibleNode>::empty());
    assert(kids1.drop_first() =~= none);
    assert(t.visible_list(open, none, 1, 2) =~= Seq::<VisibleNode>::empty());
    assert(t.visible_list(open, kids1, 1, 2) =~= seq![VisibleNode { id: n3, depth: 2 }]);
    assert(kids0.drop_first() =~= seq![n2]);
    assert(seq![n2].drop_first() =~= none);
    assert(t.visible_list(open, none, 2, 2) =~= Seq::<VisibleNode>::empty());
    assert(t.visible_list(open, none, 0, 1) =~= Seq::<VisibleNode>::empty());
    assert(t.visible_list(open, seq![n2], 0, 1) =~= seq![VisibleNode { id: n2, depth: 1 }]);
    assert(t.visible_list(open, kids0, 0, 1) =~= seq![
        VisibleNode { id: n1, depth: 1 },
        VisibleNode { id: n3, depth: 2 },
        VisibleNode { id: n2, depth: 1 },
    ]);
    assert(seq![n0].drop_first() =~= none);
    assert(t.visible_list(open, none, -1, 0) =~= Seq::<VisibleNode>::empty());
    assert(t.visible(open) =~= seq![
        VisibleNode { id: n0, depth: 0 },
        VisibleNode { id: n1, depth: 1 },
        VisibleNode { id: n3, depth: 2 },
        VisibleNode { id: n2, depth: 1 },
    ]);

    // who is followed by a crate
    kids0.index_of_first_ensures(n1);
    kids0.index_of_first_ensures(n2);
    kids1.index_of_first_ensures(n3);
    assert(kids0[0] == n1 && kids0[1] == n2 && kids1[0] == n3);
    assert(kids0.index_of_first(n1) == Some(0int));
    assert(kids0.index_of_first(n2) == Some(1int));
    assert(kids1.index_of_first(n3) == Some(0int));
    assert(t.has_later_crate(n1)) by {
        assert(t.contains(kids0[1]) && !t.is_group(kids0[1]));
    }
    assert(!t.has_later_crate(n2));
    assert(!t.has_later_crate(n3));

    // the guides
    let s0 = t.segment_of(n0);
    let s1 = t.segment_of(n1);
    assert(t.lineage(n0) =~= Seq::<LineageSegment>::empty());
    assert(t.lineage(n1) =~= seq![s0]);
    assert(t.lineage(n2) =~= seq![s0]);
    assert(t.lineage(n3) =~= seq![s0, s1]);
    assert(guides(seq![s0], style, 0) =~= Seq::<SpanView>::empty());
    assert(guides(seq![s0], style, 1) =~= Seq::<SpanView>::empty());
    assert(guides(seq![s0, s1], style, 0) =~= Seq::<SpanView>::empty());
    assert(guides(seq![s0, s1], style, 1) =~= Seq::<SpanView>::empty());
    assert(guides(seq![s0, s1], style, 2) =~= seq![guide_of(s1, style)]);
    assert(guide_of(s1, style).text == "│  "@);

    // the lines
    let blank = ""@ + " "@;
    assert(toggle_of(t, style, open, n1) == blank);
    assert(toggle_of(t, style, open, n2) == blank);
    assert(toggle_of(t, style, open, n3) == blank);
    let line0 = line_of(t, style, open, selected, n0);
    let line1 = line_of(t, style, open, selected, n1);
    let line2 = line_of(t, style, open, selected, n2);
    let line3 = line_of(t, style, open, selected, n3);
    assert(line0.len() == 1 && line0[0].text == "root"@);
    assert(line1.len() == 3 && line1[0].text == "├──"@ && line1[1].text == blank && line1[2].text
        == "a"@);
    assert(line2.len() == 3 && line2[0].text == "└──"@ && line2[1].text == blank && line2[2].text
        == "b"@);
    assert(line3.len() == 4 && line3[0].text == "│  "@ && line3[1].text == "└──"@
        && line3[2].text == blank && line3[3].text == "c"@);
    lemma_text_of_one(line0);
    lemma_text_of_three(line1);
    lemma_text_of_three(line2);
    lemma_text_of_four(line3);
    assert("├──"@ + blank + "a"@ =~= "├── a"@);
    assert("└──"@ + blank + "b"@ =~= "└── b"@);
    assert("│  "@ + "└──"@ + blank + "c"@ =~= "│  └── c"@);
}

/// The text of a line of one span.
pub proof fn lemma_text_of_one(line: Seq<SpanView>)
    requires
        line.len() == 1,
    ensures
        text_of(line) == line[0].text,
{
    assert(text_of(line.drop_last()) =~= Seq::<char>::empty());
    assert(text_of(line) =~= line[0].text);
}

/// The text of a line of three spans.
pub proof fn lemma_text_of_three(line: Seq<SpanView>)
    requires
        line.len() == 3,
    ensures
        text_of(line) == line[0].text + line[1].text + line[2].text,
{
    let two = line.drop_last();
    let one = two.drop_last();
    lemma_text_of_one(one);
    assert(text_of(two) == text_of(one) + two.last().text);
    assert(text_of(line) == text_of(two) + line.last().text);
}

/// The text of a line of four spans.
pub proof fn lemma_text_of_four(line: Seq<SpanView>)
    requires
        line.len() == 4,
    ensures
        text_of(line) == line[0].text + line[1].text + line[2].text + line[3].text,
{
    let three = line.drop_last();
    lemma_text_of_three(three);
    assert(text_of(line) == text_of(three) + line.last().text);
}


} // verus!
