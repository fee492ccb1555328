//! The trail from a root to the selected node, shortened to fit a width.

use vstd::prelude::*;
use vstd::string::StrSliceExecFns;
use vstd::string::StringExecFns;

use crate::dependency::node_ok;
use crate::dependency::DependencyTree;
use crate::dependency::DependencyType;
use crate::dependency::NodeId;
use crate::dependency::TreeView;
use crate::lineage::kind_tone;
use crate::lineage::tone_of_kind;
use crate::state::TreeWidgetState;
use crate::style::span;
use crate::style::spans_view;
use crate::style::SpanView;
use crate::style::StyledSpan;
use crate::style::TextLine;

verus! {

/// One station of the trail.
#[derive(Debug)]
pub struct Crumb {
    /// Display name of the node.
    pub name: String,
    /// The kind of a group node, `None` for a crate.
    pub group: Option<DependencyType>,
}

/// Mathematical content of a [`Crumb`].
pub struct CrumbView {
    pub name: Seq<char>,
    pub group: Option<DependencyType>,
}

impl View for Crumb {
    type V = CrumbView;

    open spec fn view(&self) -> CrumbView {
        CrumbView { name: self.name@, group: self.group }
    }
}

/// The views of `crumbs`, in order.
pub open spec fn crumbs_view(crumbs: Seq<Crumb>) -> Seq<CrumbView> {
    Seq::new(crumbs.len(), |i: int| crumbs[i]@)
}

/// What stands between two crumbs.
pub open spec fn connector() -> Seq<char> {
    " → "@
}

/// The crumb that stands for the crumbs that were left out.
pub open spec fn ellipsis() -> CrumbView {
    CrumbView { name: "…"@, group: None }
}

/// The number of characters in the names of the first `n` crumbs.
pub open spec fn names_width(crumbs: Seq<CrumbView>, n: int) -> int
    decreases n,
{
    if n <= 0 {
        0
    } else {
        names_width(crumbs, n - 1) + crumbs[n - 1].name.len()
    }
}

/// The number of characters that `crumbs` take when they are joined by
/// connectors of three characters.
pub open spec fn joined_width(crumbs: Seq<CrumbView>) -> int {
    if crumbs.len() == 0 {
        0
    } else {
        names_width(crumbs, crumbs.len() as int) + 3 * (crumbs.len() - 1)
    }
}

/// The number of characters that the first `keep` crumbs, an ellipsis and
/// the last crumb take when they are joined.
pub open spec fn elided_width(crumbs: Seq<CrumbView>, keep: int) -> int {
    names_width(crumbs, keep) + 1 + crumbs.last().name.len() + 3 * (keep + 1)
}

/// The number of leading crumbs that are kept, starting from `keep`: one
/// more as long as a crumb is left to stand between them and the last, and
/// the result still fits `max_width`.
pub open spec fn grown(crumbs: Seq<CrumbView>, max_width: int, keep: int) -> int
    decreases crumbs.len() - keep,
{
    if keep + 1 < crumbs.len() - 1 && elided_width(crumbs, keep + 1) <= max_width {
        grown(crumbs, max_width, keep + 1)
    } else {
        keep
    }
}

/// The trail as it is shown in `max_width` columns. A trail of up to two
/// crumbs, or one that fits, is shown whole. Of any other, the first crumb
/// and the last are kept, with as many crumbs behind the first as fit, and
/// one ellipsis for the rest.
pub open spec fn elided(crumbs: Seq<CrumbView>, max_width: int) -> Seq<CrumbView> {
    if crumbs.len() <= 2 || joined_width(crumbs) <= max_width {
        crumbs
    } else {
        crumbs.take(grown(crumbs, max_width, 1)).push(ellipsis()).push(crumbs.last())
    }
}

impl TreeView {
    /// The nodes from the root above `id` down to `id`.
    pub open spec fn trail(self, id: NodeId) -> Seq<NodeId>
        decreases id.0,
    {
        match self.parent(id) {
            Some(p) => if p.0 < id.0 {
                self.trail(p).push(id)
            } else {
                seq![id]
            },
            None => seq![id],
        }
    }

    /// The trail to the selected node: empty where nothing, or no node of
    /// the arena, is selected.
    pub open spec fn trail_to(self, selected: Option<NodeId>) -> Seq<NodeId> {
        match selected {
            Some(id) => if self.contains(id) {
                self.trail(id)
            } else {
                Seq::empty()
            },
            None => Seq::empty(),
        }
    }

    /// The crumb that stands for `id`.
    pub open spec fn crumb_of(self, id: NodeId) -> CrumbView {
        CrumbView { name: self.nodes[id.0 as int].name, group: self.nodes[id.0 as int].group }
    }

    /// The crumbs of the trail to the selected node.
    pub open spec fn crumbs_to(self, selected: Option<NodeId>) -> Seq<CrumbView> {
        Seq::new(
            self.trail_to(selected).len(),
            |i: int| self.crumb_of(self.trail_to(selected)[i]),
        )
    }
}

/// The first `n` crumbs as spans, each but the last of all followed by a
/// connector.
pub open spec fn trail_spans(crumbs: Seq<CrumbView>, n: int) -> Seq<SpanView>
    decreases n,
{
    if n <= 0 {
        Seq::empty()
    } else {
        let crumb = crumbs[n - 1];
        let named = trail_spans(crumbs, n - 1).push(
            SpanView { text: crumb.name, tone: kind_tone(crumb.group) },
        );
        if n < crumbs.len() {
            named.push(SpanView { text: connector(), tone: kind_tone(crumb.group) })
        } else {
            named
        }
    }
}

/// The names of more crumbs are wider.
pub proof fn lemma_names_width_grows(crumbs: Seq<CrumbView>, a: int, b: int)
    requires
        0 <= a <= b,
    ensures
        0 <= names_width(crumbs, a) <= names_width(crumbs, b),
    decreases b,
{
    if a < b {
        lemma_names_width_grows(crumbs, a, b - 1);
    } else if a > 0 {
        lemma_names_width_grows(crumbs, a - 1, a - 1);
    }
}

/// The names of a prefix are as wide within the prefix as within the whole.
pub proof fn lemma_names_width_prefix(crumbs: Seq<CrumbView>, other: Seq<CrumbView>, n: int)
    requires
        0 <= n <= crumbs.len(),
        n <= other.len(),
        forall|i: int| 0 <= i < n ==> crumbs[i] == other[i],
    ensures
        names_width(crumbs, n) == names_width(other, n),
    decreases n,
{
    if n > 0 {
        lemma_names_width_prefix(crumbs, other, n - 1);
    }
}

/// Growing keeps the number of kept crumbs between where it started and the
/// crumb before the last, and what fitted keeps fitting.
pub proof fn lemma_grown(crumbs: Seq<CrumbView>, max_width: int, keep: int)
    requires
        1 <= keep,
        keep + 1 <= crumbs.len() - 1,
    ensures
        keep <= grown(crumbs, max_width, keep) <= crumbs.len() - 2,
        elided_width(crumbs, keep) <= max_width ==> elided_width(
            crumbs,
            grown(crumbs, max_width, keep),
        ) <= max_width,
    decreases crumbs.len() - keep,
{
    if keep + 1 < crumbs.len() - 1 && elided_width(crumbs, keep + 1) <= max_width {
        lemma_grown(crumbs, max_width, keep + 1);
    }
}

/// A shortened trail of three or more crumbs starts with the first crumb
/// and ends with the last. It fits the width whenever the whole trail fits,
/// or the first crumb, an ellipsis and the last crumb do.
pub proof fn lemma_elided_keeps_ends_and_fits(crumbs: Seq<CrumbView>, max_width: int)
    requires
        crumbs.len() >= 3,
    ensures
        elided(crumbs, max_width).len() >= 3,
        elided(crumbs, max_width).first() == crumbs.first(),
        elided(crumbs, max_width).last() == crumbs.last(),
        joined_width(crumbs) <= max_width || elided_width(crumbs, 1) <= max_width ==> joined_width(
            elided(crumbs, max_width),
        ) <= max_width,
{
    if joined_width(crumbs) > max_width {
        let keep = grown(crumbs, max_width, 1);
        lemma_grown(crumbs, max_width, 1);
        let short = elided(crumbs, max_width);
        assert(short.len() == keep + 2);
        assert(short[0] == crumbs[0]);
        lemma_names_width_prefix(short, crumbs, keep);
        assert(names_width(short, keep + 2) == names_width(short, keep) + 1 + crumbs.last().name.len())
            by {
            reveal_strlit("…");
            assert(names_width(short, keep + 2) == names_width(short, keep + 1) + short[keep
                + 1].name.len());
            assert(names_width(short, keep + 1) == names_width(short, keep) + short[keep].name.len());
        }
        assert(joined_width(short) == elided_width(crumbs, keep));
    }
}

/// Returns `a + b` where that does not exceed `limit`.
fn add_within(a: usize, b: usize, limit: usize) -> (r: Option<usize>)
    ensures
        r.is_some() == (a + b <= limit),
        r matches Some(sum) ==> sum == a + b,
{
    if b > limit || a > limit - b {
        None
    } else {
        Some(a + b)
    }
}

/// Returns the width of the names of the first `n` crumbs where it does not
/// exceed `limit`.
fn names_within(
    widths: &Vec<usize>,
    Ghost(crumbs): Ghost<Seq<CrumbView>>,
    n: usize,
    limit: usize,
) -> (r: Option<usize>)
    requires
        n <= widths.len(),
        widths@.len() == crumbs.len(),
        forall|i: int| 0 <= i < widths@.len() ==> widths@[i] == crumbs[i].name.len(),
    ensures
        r.is_some() == (names_width(crumbs, n as int) <= limit),
        r matches Some(sum) ==> sum == names_width(crumbs, n as int),
{
    let mut sum: usize = 0;
    let mut i: usize = 0;
    while i < n
        invariant
            i <= n <= widths.len(),
            widths@.len() == crumbs.len(),
            forall|j: int| 0 <= j < widths@.len() ==> widths@[j] == crumbs[j].name.len(),
            sum == names_width(crumbs, i as int),
            sum <= limit,
        decreases n - i,
    {
        match add_within(sum, widths[i], limit) {
            Some(next) => {
                sum = next;
            },
            None => {
                proof {
                    lemma_names_width_grows(crumbs, i + 1, n as int);
                }
                return None;
            },
        }
        i += 1;
    }
    Some(sum)
}

/// Returns whether the first `keep` crumbs, an ellipsis and the last crumb
/// fit `max_width` columns.
fn elided_fits(
    widths: &Vec<usize>,
    Ghost(crumbs): Ghost<Seq<CrumbView>>,
    keep: usize,
    max_width: usize,
) -> (r: bool)
    requires
        keep < widths.len(),
        widths@.len() == crumbs.len(),
        forall|i: int| 0 <= i < widths@.len() ==> widths@[i] == crumbs[i].name.len(),
    ensures
        r == (elided_width(crumbs, keep as int) <= max_width),
{
    proof {
        lemma_names_width_grows(crumbs, 0, keep as int);
    }
    let names = match names_within(widths, Ghost(crumbs), keep, max_width) {
        Some(names) => names,
        None => {
            return false;
        },
    };
    let with_ellipsis = match add_within(names, 1, max_width) {
        Some(sum) => sum,
        None => {
            return false;
        },
    };
    let with_last = match add_within(with_ellipsis, widths[widths.len() - 1], max_width) {
        Some(sum) => sum,
        None => {
            return false;
        },
    };
    let mut sum = with_last;
    let mut separators: usize = 0;
    while separators <= keep
        invariant
            separators <= keep + 1,
            with_last == names_width(crumbs, keep as int) + 1 + crumbs.last().name.len(),
            sum == with_last + 3 * separators,
            sum <= max_width,
        decreases keep + 1 - separators,
    {
        match add_within(sum, 3, max_width) {
            Some(next) => {
                sum = next;
            },
            None => {
                return false;
            },
        }
        separators += 1;
    }
    true
}

/// Returns whether the whole trail fits `max_width` columns.
fn joined_fits(
    widths: &Vec<usize>,
    Ghost(crumbs): Ghost<Seq<CrumbView>>,
    max_width: usize,
) -> (r: bool)
    requires
        widths@.len() == crumbs.len(),
        forall|i: int| 0 <= i < widths@.len() ==> widths@[i] == crumbs[i].name.len(),
    ensures
        r == (joined_width(crumbs) <= max_width),
{
    if widths.len() == 0 {
        return true;
    }
    proof {
        lemma_names_width_grows(crumbs, 0, crumbs.len() as int);
    }
    let names = match names_within(widths, Ghost(crumbs), widths.len(), max_width) {
        Some(names) => names,
        None => {
            return false;
        },
    };
    let mut sum = names;
    let mut separators: usize = 0;
    while separators + 1 < widths.len()
        invariant
            separators + 1 <= widths.len(),
            widths@.len() == crumbs.len(),
            names == names_width(crumbs, crumbs.len() as int),
            sum == names + 3 * separators,
            sum <= max_width,
        decreases widths.len() - separators,
    {
        match add_within(sum, 3, max_width) {
            Some(next) => {
                sum = next;
            },
            None => {
                return false;
            },
        }
        separators += 1;
    }
    true
}

/// Shortens a trail to fit `max_width` columns: the first crumb and the last
/// stay, as many crumbs behind the first as fit stay too, and one ellipsis
/// stands for the rest.
pub fn elide_crumbs(crumbs: Vec<Crumb>, max_width: usize) -> (r: Vec<Crumb>)
    ensures
        crumbs_view(r@) == elided(crumbs_view(crumbs@), max_width as int),
{
    let ghost views = crumbs_view(crumbs@);
    let mut crumbs = crumbs;
    if crumbs.len() <= 2 {
        return crumbs;
    }
    let mut widths: Vec<usize> = Vec::new();
    let mut i: usize = 0;
    while i < crumbs.len()
        invariant
            i <= crumbs.len(),
            views == crumbs_view(crumbs@),
            widths@.len() == i,
            forall|j: int| 0 <= j < i ==> widths@[j] == views[j].name.len(),
        decreases crumbs.len() - i,
    {
        widths.push(crumbs[i].name.as_str().unicode_len());
        i += 1;
    }
    if joined_fits(&widths, Ghost(views), max_width) {
        return crumbs;
    }
    let last_index = crumbs.len() - 1;
    let mut keep: usize = 1;
    while keep + 1 < last_index && elided_fits(&widths, Ghost(views), keep + 1, max_width)
        invariant
            1 <= keep < last_index,
            last_index == crumbs.len() - 1,
            views == crumbs_view(crumbs@),
            widths@.len() == views.len(),
            forall|j: int| 0 <= j < widths@.len() ==> widths@[j] == views[j].name.len(),
            grown(views, max_width as int, keep as int) == grown(views, max_width as int, 1),
        decreases last_index - keep,
    {
        keep += 1;
    }
    let last = match crumbs.pop() {
        Some(last) => last,
        None => {
            return crumbs;
        },
    };
    crumbs.truncate(keep);
    proof {
        reveal_strlit("…");
    }
    crumbs.push(Crumb { name: String::from_str("…"), group: None });
    crumbs.push(last);
    proof {
        assert(crumbs_view(crumbs@) =~= views.take(keep as int).push(ellipsis()).push(views.last()));
    }
    crumbs
}

/// The trail from a root to the selected node of a widget.
pub struct Breadcrumb<'a> {
    tree: &'a DependencyTree,
    state: &'a TreeWidgetState,
}

impl<'a> Breadcrumb<'a> {
    /// Creates the breadcrumb for the current selection of `state`.
    pub fn new(tree: &'a DependencyTree, state: &'a TreeWidgetState) -> (r: Self)
        ensures
            r.tree_view() == tree@,
            r.selected() == state@.selected,
    {
        Self { tree, state }
    }

    /// The forest that the trail runs through.
    pub closed spec fn tree_view(&self) -> TreeView {
        self.tree@
    }

    /// The node that the trail leads to.
    pub closed spec fn selected(&self) -> Option<NodeId> {
        self.state@.selected
    }

    /// Collects the crumbs from the root down to the selected node.
    pub fn collect_crumbs(&self) -> (r: Vec<Crumb>)
        ensures
            crumbs_view(r@) == self.tree_view().crumbs_to(self.selected()),
    {
        let ghost t = self.tree@;
        let selected = self.state.selected();
        let mut upward: Vec<Crumb> = Vec::new();
        let ghost mut ids: Seq<NodeId> = Seq::empty();
        let mut current = match selected {
            Some(id) => match self.tree.node(id) {
                Some(_) => Some(id),
                None => None,
            },
            None => None,
        };
        let ghost goal = t.trail_to(selected);
        while current.is_some()
            invariant
                t == self.tree@,
                current matches Some(id) ==> t.contains(id),
                upward@.len() == ids.len(),
                forall|j: int| 0 <= j < ids.len() ==> upward@[j]@ == t.crumb_of(#[trigger] ids[j]),
                goal == (match current {
                    Some(id) => t.trail(id),
                    None => Seq::empty(),
                }) + ids.reverse(),
            decreases
                    (match current {
                        Some(id) => id.0 + 1,
                        None => 0,
                    }),
        {
            let id = current.unwrap();
            let node = match self.tree.node(id) {
                Some(node) => node,
                None => {
                    return Vec::new();
                },
            };
            proof {
                assert(node_ok(t.nodes, id.0 as int));
                let up = match node@.parent {
                    Some(p) => t.trail(p),
                    None => Seq::empty(),
                };
                assert(t.trail(id) =~= up.push(id));
                assert(ids.push(id).reverse() =~= seq![id] + ids.reverse());
                assert(up.push(id) + ids.reverse() =~= up + (seq![id] + ids.reverse()));
                ids = ids.push(id);
            }
            upward.push(Crumb { name: node.display_name(), group: node.group_kind() });
            current = node.parent();
        }
        let ghost collected = upward@;
        let mut crumbs: Vec<Crumb> = Vec::new();
        while upward.len() > 0
            invariant
                upward@.len() <= collected.len(),
                upward@ == collected.take(upward@.len() as int),
                crumbs@.len() == collected.len() - upward@.len(),
                forall|j: int|
                    0 <= j < crumbs@.len() ==> crumbs@[j] == collected[collected.len() - 1 - j],
            decreases upward.len(),
        {
            let ghost before = upward@;
            match upward.pop() {
                Some(crumb) => {
                    crumbs.push(crumb);
                },
                None => {},
            }
            proof {
                assert(upward@ =~= collected.take(upward@.len() as int));
            }
        }
        proof {
            assert(goal =~= ids.reverse());
            assert(crumbs_view(crumbs@) =~= t.crumbs_to(selected));
        }
        crumbs
    }

    /// Returns the trail as one line that fits `width` columns, of which the
    /// last stays free.
    pub fn render(&self, width: u16) -> (r: TextLine)
        ensures
            r@ == trail_spans(
                elided(self.tree_view().crumbs_to(self.selected()), minus_one(width)),
                elided(self.tree_view().crumbs_to(self.selected()), minus_one(width)).len() as int,
            ),
    {
        let max_width: usize = if width > 0 {
            (width - 1) as usize
        } else {
            0
        };
        let crumbs = elide_crumbs(self.collect_crumbs(), max_width);
        let ghost views = crumbs_view(crumbs@);
        let mut spans: Vec<StyledSpan> = Vec::new();
        let mut i: usize = 0;
        assert(spans_view(spans@) =~= trail_spans(views, 0));
        proof {
            reveal_strlit(" → ");
        }
        while i < crumbs.len()
            invariant
                i <= crumbs.len(),
                views == crumbs_view(crumbs@),
                spans_view(spans@) == trail_spans(views, i as int),
            decreases crumbs.len() - i,
        {
            let tone = tone_of_kind(crumbs[i].group);
            let ghost before = spans_view(spans@);
            spans.push(span(crumbs[i].name.as_str(), tone));
            proof {
                assert(spans_view(spans@) =~= before.push(
                    SpanView { text: views[i as int].name, tone },
                ));
            }
            if i + 1 < crumbs.len() {
                let ghost named = spans_view(spans@);
                spans.push(span(" → ", tone));
                proof {
                    assert(spans_view(spans@) =~= named.push(SpanView { text: connector(), tone }));
                }
            }
            i += 1;
        }
        TextLine { spans }
    }
}

/// The width that is left of `width` columns when one stays free.
pub open spec fn minus_one(width: u16) -> int {
    if width > 0 {
        width - 1
    } else {
        0
    }
}

/// In a forest, the trail to a node starts at a root, ends at that node, and
/// has one station for the node and each of its ancestors.
pub proof fn lemma_trail_ends(t: TreeView, id: NodeId)
    requires
        t.wf(),
        t.contains(id),
    ensures
        t.trail(id).len() == t.level(id) + 1,
        t.trail(id).last() == id,
        t.contains(t.trail(id).first()),
        t.parent(t.trail(id).first()).is_none(),
    decreases id.0,
{
    assert(node_ok(t.nodes, id.0 as int));
    match t.parent(id) {
        Some(p) => {
            lemma_trail_ends(t, p);
            assert(t.trail(id) == t.trail(p).push(id));
            assert(t.trail(id).first() == t.trail(p).first());
        },
        None => {},
    }
}


} // verus!
