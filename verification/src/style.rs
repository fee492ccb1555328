//! Styled text as the widget hands it to whatever draws it, and the glyphs
//! that the tree is drawn with.

use vstd::prelude::*;
use vstd::string::StringExecFns;

use crate::dependency::DependencyType;

verus! {

/// How a piece of text is meant to look. What colours stand for a tone is
/// up to the drawing layer.
#[derive(Debug, Clone, Copy, PartialEq, Eq, Structural)]
pub enum Tone {
    /// The base style of the widget.
    Plain,
    /// The selected node.
    Highlight,
    /// A crate name.
    Name,
    /// A crate version.
    Version,
    /// A remark behind a crate, such as its directory.
    Suffix,
    /// Something that belongs to dependencies of one kind.
    Kind(DependencyType),
}

/// A run of text in one tone.
#[derive(Debug)]
pub struct StyledSpan {
    pub text: String,
    pub tone: Tone,
}

/// Mathematical content of a [`StyledSpan`].
pub struct SpanView {
    pub text: Seq<char>,
    pub tone: Tone,
}

impl View for StyledSpan {
    type V = SpanView;

    open spec fn view(&self) -> SpanView {
        SpanView { text: self.text@, tone: self.tone }
    }
}

/// The views of `spans`, in order.
pub open spec fn spans_view(spans: Seq<StyledSpan>) -> Seq<SpanView> {
    Seq::new(spans.len(), |i: int| spans[i]@)
}

/// The text of `spans`, run together.
pub open spec fn text_of(spans: Seq<SpanView>) -> Seq<char>
    decreases spans.len(),
{
    if spans.len() == 0 {
        Seq::empty()
    } else {
        text_of(spans.drop_last()) + spans.last().text
    }
}

/// One line of styled text.
#[derive(Debug)]
pub struct TextLine {
    pub spans: Vec<StyledSpan>,
}

impl View for TextLine {
    type V = Seq<SpanView>;

    open spec fn view(&self) -> Seq<SpanView> {
        spans_view(self.spans@)
    }
}

impl TextLine {
    /// Returns the text of the line without its tones.
    pub fn to_text(&self) -> (r: String)
        ensures
            r@ == text_of(self@),
    {
        let mut out = String::new();
        let mut i: usize = 0;
        while i < self.spans.len()
            invariant
                i <= self.spans.len(),
                out@ == text_of(self@.take(i as int)),
            decreases self.spans.len() - i,
        {
            proof {
                assert(self@.take(i + 1).drop_last() =~= self@.take(i as int));
            }
            out.append(self.spans[i].text.as_str());
            i += 1;
        }
        proof {
            assert(self@.take(i as int) =~= self@);
        }
        out
    }
}

/// Returns a span of `text` in `tone`.
pub fn span(text: &str, tone: Tone) -> (r: StyledSpan)
    ensures
        r@ == (SpanView { text: text@, tone }),
{
    StyledSpan { text: String::from_str(text), tone }
}

/// The glyphs of the tree.
#[derive(Debug)]
pub struct TreeWidgetStyle {
    /// Marks a node without children.
    pub node_symbol: String,
    /// Marks a collapsed node.
    pub node_closed_symbol: String,
    /// Marks an expanded node.
    pub node_open_symbol: String,
    /// Connects a node that has a sibling below.
    pub branch_symbol: String,
    /// Connects the last node among its siblings.
    pub last_branch_symbol: String,
    /// Passes by an ancestor that has a sibling below.
    pub continuation_symbol: String,
    /// Passes by an ancestor that has none.
    pub empty_symbol: String,
}

impl TreeWidgetStyle {
    /// Creates the default glyphs: box-drawing branches three columns wide.
    pub fn new() -> (r: TreeWidgetStyle)
        ensures
            r.node_symbol@ == "•"@,
            r.node_closed_symbol@ == "▸"@,
            r.node_open_symbol@ == "▾"@,
            r.branch_symbol@ == "├──"@,
            r.last_branch_symbol@ == "└──"@,
            r.continuation_symbol@ == "│  "@,
            r.empty_symbol@ == "   "@,
    {
        TreeWidgetStyle {
            node_symbol: String::from_str("•"),
            node_closed_symbol: String::from_str("▸"),
            node_open_symbol: String::from_str("▾"),
            branch_symbol: String::from_str("├──"),
            last_branch_symbol: String::from_str("└──"),
            continuation_symbol: String::from_str("│  "),
            empty_symbol: String::from_str("   "),
        }
    }
}

impl Default for TreeWidgetStyle {
    fn default() -> (r: TreeWidgetStyle)
        ensures
            r.node_symbol@ == "•"@,
            r.node_closed_symbol@ == "▸"@,
            r.node_open_symbol@ == "▾"@,
            r.branch_symbol@ == "├──"@,
            r.last_branch_symbol@ == "└──"@,
            r.continuation_symbol@ == "│  "@,
            r.empty_symbol@ == "   "@,
    {
        TreeWidgetStyle::new()
    }
}

} // verus!
