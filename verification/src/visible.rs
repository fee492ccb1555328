//! Which nodes of a forest are on display, and in which order.
//!
//! The visible sequence of a forest is its pre-order walk in which only the
//! children of expanded nodes are entered. This module defines that sequence
//! and proves what navigation relies on: every entry carries the level of its
//! node as its depth, no node is listed twice, and expanding or collapsing one
//! node changes the sequence by one contiguous run.

use vstd::prelude::*;

use crate::dependency::distinct;
use crate::dependency::node_ok;
use crate::dependency::NodeId;
use crate::dependency::TreeView;

verus! {

/// One line of the visible sequence: a node and how deep it hangs.
#[derive(Debug, Clone, Copy, PartialEq, Eq, Structural)]
pub struct VisibleNode {
    /// Node identifier.
    pub id: NodeId,
    /// Number of ancestors of the node.
    pub depth: usize,
}

/// Whether some entry of `v` stands for `id`.
pub open spec fn occurs(v: Seq<VisibleNode>, id: NodeId) -> bool {
    exists|i: int| 0 <= i < v.len() && (#[trigger] v[i]).id == id
}

/// Whether `i` is the first position of `v` that stands for `id`.
pub open spec fn is_first_at(v: Seq<VisibleNode>, id: NodeId, i: int) -> bool {
    &&& 0 <= i < v.len()
    &&& v[i].id == id
    &&& forall|j: int| 0 <= j < i ==> (#[trigger] v[j]).id != id
}

/// Whether no node has two entries in `v`.
pub open spec fn distinct_ids(v: Seq<VisibleNode>) -> bool {
    forall|i: int, j: int| 0 <= i < j < v.len() ==> (#[trigger] v[i]).id != (#[trigger] v[j]).id
}

/// The entries that list `ids` at `depth`, in order.
pub open spec fn at_depth(ids: Seq<NodeId>, depth: usize) -> Seq<VisibleNode> {
    Seq::new(ids.len(), |i: int| VisibleNode { id: ids[i], depth })
}

impl TreeView {
    /// The number of ancestors of `id`.
    pub open spec fn level(self, id: NodeId) -> nat
        decreases id.0,
    {
        match self.parent(id) {
            Some(p) => if p.0 < id.0 {
                self.level(p) + 1
            } else {
                0
            },
            None => 0,
        }
    }

    /// The ancestor of `id` that has `level` ancestors itself; `id` when it
    /// has no more than `level` ancestors.
    pub open spec fn ancestor_at(self, id: NodeId, level: nat) -> NodeId
        decreases id.0,
    {
        if self.level(id) <= level {
            id
        } else {
            match self.parent(id) {
                Some(p) => if p.0 < id.0 {
                    self.ancestor_at(p, level)
                } else {
                    id
                },
                None => id,
            }
        }
    }

    /// The pre-order walk of the trees rooted at `ids`, all of them at
    /// `depth`, that enters the children of the nodes in `open` only. `above`
    /// is the index of the common parent, -1 for roots.
    pub open spec fn visible_list(
        self,
        open: Set<NodeId>,
        ids: Seq<NodeId>,
        above: int,
        depth: usize,
    ) -> Seq<VisibleNode>
        decreases self.nodes.len() - above, ids.len(),
    {
        if ids.len() == 0 {
            Seq::empty()
        } else {
            let first = ids[0];
            let below = if open.contains(first) && above < first.0 < self.nodes.len() {
                self.visible_list(
                    open,
                    self.nodes[first.0 as int].children,
                    first.0 as int,
                    (depth + 1) as usize,
                )
            } else {
                Seq::empty()
            };
            seq![VisibleNode { id: first, depth }] + below + self.visible_list(
                open,
                ids.drop_first(),
                above,
                depth,
            )
        }
    }

    /// What is on display below `id` when `id`, shown at `depth`, is
    /// expanded.
    pub open spec fn visible_below(self, open: Set<NodeId>, id: NodeId, depth: usize) -> Seq<
        VisibleNode,
    > {
        self.visible_list(open, self.children(id), id.0 as int, (depth + 1) as usize)
    }

    /// The visible sequence of the forest when the nodes in `open` are
    /// expanded.
    pub open spec fn visible(self, open: Set<NodeId>) -> Seq<VisibleNode> {
        self.visible_list(open, self.roots, -1, 0)
    }

    /// The nodes that have children.
    pub open spec fn parents(self) -> Set<NodeId> {
        Set::new(|id: NodeId| self.contains(id) && self.children(id).len() > 0)
    }

    /// The pre-order walk of the whole forest.
    pub open spec fn preorder(self) -> Seq<VisibleNode> {
        self.visible(self.parents())
    }

    /// Whether `ids` are distinct nodes of the arena that lie beyond `above`
    /// and have `depth` ancestors each.
    pub open spec fn siblings(self, ids: Seq<NodeId>, above: int, depth: usize) -> bool {
        &&& distinct(ids)
        &&& -1 <= above
        &&& depth as int <= above + 1
        &&& forall|k: int|
            0 <= k < ids.len() ==> {
                &&& above < (#[trigger] ids[k]).0 < self.nodes.len()
                &&& self.level(ids[k]) == depth
            }
    }

    /// `v` with, behind each entry that stands for `id`, what is on display
    /// below `id` under `open`.
    pub open spec fn spliced(self, v: Seq<VisibleNode>, open: Set<NodeId>, id: NodeId) -> Seq<
        VisibleNode,
    >
        decreases v.len(),
    {
        if v.len() == 0 {
            Seq::empty()
        } else {
            let below = if v[0].id == id {
                self.visible_below(open, id, v[0].depth)
            } else {
                Seq::empty()
            };
            seq![v[0]] + below + self.spliced(v.drop_first(), open, id)
        }
    }
}

impl TreeView {
    /// Whether `e` stands for a node of the arena at its level, not above
    /// `depth`, in the tree below one of `ids`.
    pub open spec fn entry_under(self, e: VisibleNode, ids: Seq<NodeId>, depth: usize) -> bool {
        &&& self.contains(e.id)
        &&& e.depth == self.level(e.id)
        &&& e.depth >= depth
        &&& ids.contains(self.ancestor_at(e.id, depth as nat))
    }
}

/// An entry of a concatenation is an entry of one of its parts.
pub proof fn lemma_occurs_concat(a: Seq<VisibleNode>, b: Seq<VisibleNode>, id: NodeId)
    ensures
        occurs(a + b, id) == (occurs(a, id) || occurs(b, id)),
{
    if occurs(a, id) {
        let i = choose|i: int| 0 <= i < a.len() && (#[trigger] a[i]).id == id;
        assert((a + b)[i].id == id);
    }
    if occurs(b, id) {
        let i = choose|i: int| 0 <= i < b.len() && (#[trigger] b[i]).id == id;
        assert((a + b)[a.len() + i].id == id);
    }
    if occurs(a + b, id) {
        let i = choose|i: int| 0 <= i < (a + b).len() && (#[trigger] (a + b)[i]).id == id;
        if i < a.len() {
            assert(a[i].id == id);
        } else {
            assert(b[i - a.len()].id == id);
        }
    }
}

/// A child lies one level below its parent, and beyond it in the arena.
pub proof fn lemma_child(t: TreeView, p: NodeId, k: int)
    requires
        t.wf(),
        t.contains(p),
        0 <= k < t.children(p).len(),
    ensures
        t.parent(t.children(p)[k]) == Some(p),
        p.0 < t.children(p)[k].0 < t.nodes.len(),
        t.level(t.children(p)[k]) == t.level(p) + 1,
        t.ancestor_at(t.children(p)[k], t.level(p)) == p,
{
    let c = t.children(p)[k];
    assert(node_ok(t.nodes, p.0 as int));
    assert(node_ok(t.nodes, c.0 as int));
    assert(t.ancestor_at(p, t.level(p)) == p);
}

/// The children of a node are siblings one level below it.
pub proof fn lemma_children_siblings(t: TreeView, p: NodeId, depth: usize)
    requires
        t.wf(),
        t.contains(p),
        t.level(p) == depth,
        depth <= p.0,
    ensures
        depth + 1 <= usize::MAX,
        t.siblings(t.children(p), p.0 as int, (depth + 1) as usize),
{
    assert(node_ok(t.nodes, p.0 as int));
    assert forall|k: int| 0 <= k < t.children(p).len() implies {
        &&& p.0 < (#[trigger] t.children(p)[k]).0 < t.nodes.len()
        &&& t.level(t.children(p)[k]) == depth + 1
    } by {
        lemma_child(t, p, k);
    }
}

/// The roots are siblings at level 0.
pub proof fn lemma_roots_siblings(t: TreeView)
    requires
        t.wf(),
    ensures
        t.siblings(t.roots, -1, 0),
{
}

/// Going up to level `l` passes through the ancestor at level `l + 1`.
pub proof fn lemma_ancestor_step(t: TreeView, x: NodeId, l: nat)
    requires
        t.level(x) > l,
    ensures
        t.level(t.ancestor_at(x, l + 1)) == l + 1,
        t.ancestor_at(x, l) == t.ancestor_at(t.ancestor_at(x, l + 1), l),
    decreases x.0,
{
    if t.level(x) > l + 1 {
        let p = t.parent(x).unwrap();
        lemma_ancestor_step(t, p, l);
    }
}

/// Every entry of a walk stands for a node of the arena, carries the level
/// of that node as its depth, and lies in the tree below one of the nodes
/// that the walk started from.
pub proof fn lemma_entries(
    t: TreeView,
    open: Set<NodeId>,
    ids: Seq<NodeId>,
    above: int,
    depth: usize,
)
    requires
        t.wf(),
        t.siblings(ids, above, depth),
    ensures
        forall|j: int|
            0 <= j < t.visible_list(open, ids, above, depth).len() ==> t.entry_under(
                #[trigger] t.visible_list(open, ids, above, depth)[j],
                ids,
                depth,
            ),
    decreases t.nodes.len() - above, ids.len(),
{
    let walk = t.visible_list(open, ids, above, depth);
    if ids.len() > 0 {
        let first = ids[0];
        let head = seq![VisibleNode { id: first, depth }];
        let kids = t.nodes[first.0 as int].children;
        let below = if open.contains(first) && above < first.0 < t.nodes.len() {
            t.visible_list(open, kids, first.0 as int, (depth + 1) as usize)
        } else {
            Seq::empty()
        };
        let rest_ids = ids.drop_first();
        let rest = t.visible_list(open, rest_ids, above, depth);
        assert(walk == head + below + rest);
        assert(t.siblings(rest_ids, above, depth)) by {
            assert forall|k: int| 0 <= k < rest_ids.len() implies {
                &&& above < (#[trigger] rest_ids[k]).0 < t.nodes.len()
                &&& t.level(rest_ids[k]) == depth
            } by {
                assert(rest_ids[k] == ids[k + 1]);
            }
            assert forall|a: int, b: int| 0 <= a < b < rest_ids.len() implies rest_ids[a]
                != rest_ids[b] by {
                assert(rest_ids[a] == ids[a + 1]);
                assert(rest_ids[b] == ids[b + 1]);
            }
        }
        lemma_entries(t, open, rest_ids, above, depth);
        if open.contains(first) {
            lemma_children_siblings(t, first, depth);
            lemma_entries(t, open, kids, first.0 as int, (depth + 1) as usize);
        }
        assert forall|j: int| 0 <= j < walk.len() implies t.entry_under(
            #[trigger] walk[j],
            ids,
            depth,
        ) by {
            let e = walk[j];
            if j == 0 {
                assert(t.ancestor_at(first, depth as nat) == first);
                assert(ids[0] == first);
            } else if j <= below.len() {
                assert(e == below[j - 1]);
                assert(t.entry_under(e, kids, (depth + 1) as usize));
                let c = t.ancestor_at(e.id, (depth + 1) as nat);
                let k = choose|k: int| 0 <= k < kids.len() && kids[k] == c;
                lemma_child(t, first, k);
                lemma_ancestor_step(t, e.id, depth as nat);
                assert(t.ancestor_at(e.id, depth as nat) == first);
                assert(ids[0] == first);
            } else {
                assert(e == rest[j - 1 - below.len()]);
                assert(t.entry_under(e, rest_ids, depth));
                let a = t.ancestor_at(e.id, depth as nat);
                let k = choose|k: int| 0 <= k < rest_ids.len() && rest_ids[k] == a;
                assert(ids[k + 1] == a);
            }
        }
    }
}


impl TreeView {
    /// Whether `e` stands for a node of the arena at its level, in the tree
    /// below `top`, which has `depth` ancestors, and is not `top` itself.
    pub open spec fn entry_below(self, e: VisibleNode, top: NodeId, depth: usize) -> bool {
        &&& self.contains(e.id)
        &&& e.depth == self.level(e.id)
        &&& e.depth > depth
        &&& self.ancestor_at(e.id, depth as nat) == top
    }
}

/// A suffix of a list of siblings is a list of siblings.
pub proof fn lemma_siblings_rest(t: TreeView, ids: Seq<NodeId>, above: int, depth: usize)
    requires
        t.siblings(ids, above, depth),
        ids.len() > 0,
    ensures
        t.siblings(ids.drop_first(), above, depth),
{
    let rest_ids = ids.drop_first();
    assert forall|k: int| 0 <= k < rest_ids.len() implies {
        &&& above < (#[trigger] rest_ids[k]).0 < t.nodes.len()
        &&& t.level(rest_ids[k]) == depth
    } by {
        assert(rest_ids[k] == ids[k + 1]);
    }
    assert forall|a: int, b: int| 0 <= a < b < rest_ids.len() implies rest_ids[a] != rest_ids[b] by {
        assert(rest_ids[a] == ids[a + 1]);
        assert(rest_ids[b] == ids[b + 1]);
    }
}

/// What is on display below a node lies in the tree below that node.
pub proof fn lemma_below_entries(t: TreeView, open: Set<NodeId>, top: NodeId, depth: usize)
    requires
        t.wf(),
        t.contains(top),
        t.level(top) == depth,
        depth <= top.0,
    ensures
        forall|j: int|
            0 <= j < t.visible_below(open, top, depth).len() ==> t.entry_below(
                #[trigger] t.visible_below(open, top, depth)[j],
                top,
                depth,
            ),
{
    let kids = t.children(top);
    let below = t.visible_below(open, top, depth);
    lemma_children_siblings(t, top, depth);
    lemma_entries(t, open, kids, top.0 as int, (depth + 1) as usize);
    assert forall|j: int| 0 <= j < below.len() implies t.entry_below(
        #[trigger] below[j],
        top,
        depth,
    ) by {
        let e = below[j];
        assert(t.entry_under(e, kids, (depth + 1) as usize));
        let c = t.ancestor_at(e.id, (depth + 1) as nat);
        let k = choose|k: int| 0 <= k < kids.len() && kids[k] == c;
        lemma_child(t, top, k);
        lemma_ancestor_step(t, e.id, depth as nat);
    }
}

/// No node has two entries in a walk.
pub proof fn lemma_distinct_entries(
    t: TreeView,
    open: Set<NodeId>,
    ids: Seq<NodeId>,
    above: int,
    depth: usize,
)
    requires
        t.wf(),
        t.siblings(ids, above, depth),
    ensures
        distinct_ids(t.visible_list(open, ids, above, depth)),
    decreases t.nodes.len() - above, ids.len(),
{
    let walk = t.visible_list(open, ids, above, depth);
    if ids.len() > 0 {
        let first = ids[0];
        let head = seq![VisibleNode { id: first, depth }];
        let kids = t.nodes[first.0 as int].children;
        let below = if open.contains(first) && above < first.0 < t.nodes.len() {
            t.visible_list(open, kids, first.0 as int, (depth + 1) as usize)
        } else {
            Seq::empty()
        };
        let rest_ids = ids.drop_first();
        let rest = t.visible_list(open, rest_ids, above, depth);
        assert(walk == head + below + rest);
        lemma_siblings_rest(t, ids, above, depth);
        lemma_distinct_entries(t, open, rest_ids, above, depth);
        lemma_entries(t, open, rest_ids, above, depth);
        if open.contains(first) {
            lemma_children_siblings(t, first, depth);
            lemma_distinct_entries(t, open, kids, first.0 as int, (depth + 1) as usize);
            lemma_below_entries(t, open, first, depth);
            assert(below == t.visible_below(open, first, depth));
        }
        assert(t.ancestor_at(first, depth as nat) == first);
        assert forall|i: int, j: int| 0 <= i < j < walk.len() implies (#[trigger] walk[i]).id != (
        #[trigger] walk[j]).id by {
            let a = walk[i];
            let b = walk[j];
            if j <= below.len() {
                assert(b == below[j - 1]);
                assert(t.entry_below(b, first, depth));
                if i > 0 {
                    assert(a == below[i - 1]);
                }
            } else {
                assert(b == rest[j - 1 - below.len()]);
                assert(t.entry_under(b, rest_ids, depth));
                let top = t.ancestor_at(b.id, depth as nat);
                let k = choose|k: int| 0 <= k < rest_ids.len() && rest_ids[k] == top;
                assert(ids[k + 1] == top);
                assert(ids[0] == first);
                if i == 0 {
                } else if i <= below.len() {
                    assert(a == below[i - 1]);
                    assert(t.entry_below(a, first, depth));
                } else {
                    assert(a == rest[i - 1 - below.len()]);
                }
            }
        }
    }
}

/// Splicing a concatenation splices its parts.
pub proof fn lemma_spliced_concat(
    t: TreeView,
    a: Seq<VisibleNode>,
    b: Seq<VisibleNode>,
    open: Set<NodeId>,
    id: NodeId,
)
    ensures
        t.spliced(a + b, open, id) == t.spliced(a, open, id) + t.spliced(b, open, id),
    decreases a.len(),
{
    if a.len() == 0 {
        assert(a + b =~= b);
        assert(t.spliced(a, open, id) + t.spliced(b, open, id) =~= t.spliced(b, open, id));
    } else {
        assert((a + b).drop_first() =~= a.drop_first() + b);
        lemma_spliced_concat(t, a.drop_first(), b, open, id);
        assert(t.spliced(a + b, open, id) =~= t.spliced(a, open, id) + t.spliced(b, open, id));
    }
}

/// Splicing changes nothing where the node has no entry.
pub proof fn lemma_spliced_absent(t: TreeView, v: Seq<VisibleNode>, open: Set<NodeId>, id: NodeId)
    requires
        !occurs(v, id),
    ensures
        t.spliced(v, open, id) == v,
    decreases v.len(),
{
    if v.len() > 0 {
        assert(v[0].id != id);
        assert forall|i: int| 0 <= i < v.drop_first().len() implies (#[trigger] v.drop_first()[i]).id
            != id by {
            assert(v[i + 1].id != id);
        }
        lemma_spliced_absent(t, v.drop_first(), open, id);
        assert(t.spliced(v, open, id) =~= v);
    } else {
        assert(t.spliced(v, open, id) =~= v);
    }
}

/// Where a node has one entry, splicing inserts one run behind it.
pub proof fn lemma_spliced_once(
    t: TreeView,
    v: Seq<VisibleNode>,
    open: Set<NodeId>,
    id: NodeId,
    at: int,
)
    requires
        distinct_ids(v),
        is_first_at(v, id, at),
    ensures
        t.spliced(v, open, id) == v.take(at + 1) + t.visible_below(open, id, v[at].depth) + v.skip(
            at + 1,
        ),
{
    let before = v.take(at);
    let one = seq![v[at]];
    let after = v.skip(at + 1);
    assert(v =~= before + one + after);
    lemma_spliced_concat(t, before + one, after, open, id);
    lemma_spliced_concat(t, before, one, open, id);
    assert(!occurs(before, id)) by {
        if occurs(before, id) {
            let i = choose|i: int| 0 <= i < before.len() && (#[trigger] before[i]).id == id;
            assert(v[i].id == id);
        }
    }
    assert(!occurs(after, id)) by {
        if occurs(after, id) {
            let i = choose|i: int| 0 <= i < after.len() && (#[trigger] after[i]).id == id;
            assert(v[at + 1 + i].id == id);
        }
    }
    lemma_spliced_absent(t, before, open, id);
    lemma_spliced_absent(t, after, open, id);
    assert(one.drop_first() =~= Seq::<VisibleNode>::empty());
    assert(t.spliced(one.drop_first(), open, id) =~= Seq::<VisibleNode>::empty());
    assert(t.spliced(one, open, id) =~= one + t.visible_below(open, id, v[at].depth));
    assert(v.take(at + 1) =~= before + one);
    assert(t.spliced(v, open, id) =~= v.take(at + 1) + t.visible_below(open, id, v[at].depth)
        + after);
}

/// Expanding one more node splices what is on display below it behind each
/// of its entries.
pub proof fn lemma_expand_splices(
    t: TreeView,
    open: Set<NodeId>,
    id: NodeId,
    ids: Seq<NodeId>,
    above: int,
    depth: usize,
)
    requires
        t.wf(),
        t.siblings(ids, above, depth),
        !open.contains(id),
    ensures
        t.visible_list(open.insert(id), ids, above, depth) == t.spliced(
            t.visible_list(open, ids, above, depth),
            open.insert(id),
            id,
        ),
    decreases t.nodes.len() - above, ids.len(),
{
    let wider = open.insert(id);
    let walk = t.visible_list(open, ids, above, depth);
    let walk2 = t.visible_list(wider, ids, above, depth);
    if ids.len() == 0 {
        assert(t.spliced(walk, wider, id) =~= walk2);
    } else {
        let first = ids[0];
        let head = seq![VisibleNode { id: first, depth }];
        let kids = t.nodes[first.0 as int].children;
        let below = if open.contains(first) {
            t.visible_list(open, kids, first.0 as int, (depth + 1) as usize)
        } else {
            Seq::empty()
        };
        let below2 = if wider.contains(first) {
            t.visible_list(wider, kids, first.0 as int, (depth + 1) as usize)
        } else {
            Seq::empty()
        };
        let rest_ids = ids.drop_first();
        let rest = t.visible_list(open, rest_ids, above, depth);
        let rest2 = t.visible_list(wider, rest_ids, above, depth);
        assert(walk == head + below + rest);
        assert(walk2 == head + below2 + rest2);
        lemma_siblings_rest(t, ids, above, depth);
        lemma_expand_splices(t, open, id, rest_ids, above, depth);
        lemma_children_siblings(t, first, depth);
        if open.contains(first) {
            lemma_expand_splices(t, open, id, kids, first.0 as int, (depth + 1) as usize);
        }
        lemma_spliced_concat(t, head + below, rest, wider, id);
        lemma_spliced_concat(t, head, below, wider, id);
        assert(head.drop_first() =~= Seq::<VisibleNode>::empty());
        assert(t.spliced(head.drop_first(), wider, id) =~= Seq::<VisibleNode>::empty());
        if first == id {
            assert(t.children(id) == kids);
            assert(t.spliced(head, wider, id) =~= head + below2);
            assert(t.spliced(below, wider, id) =~= below);
        } else {
            assert(t.spliced(head, wider, id) =~= head);
        }
        assert(t.spliced(walk, wider, id) =~= walk2);
    }
}

/// A walk starts with its first node, and behind an entry of a node that is
/// not expanded comes no deeper entry.
pub proof fn lemma_depths(
    t: TreeView,
    open: Set<NodeId>,
    ids: Seq<NodeId>,
    above: int,
    depth: usize,
)
    requires
        t.wf(),
        t.siblings(ids, above, depth),
    ensures
        ids.len() > 0 ==> t.visible_list(open, ids, above, depth).len() > 0 && t.visible_list(
            open,
            ids,
            above,
            depth,
        )[0] == (VisibleNode { id: ids[0], depth }),
        forall|j: int|
            0 <= j && j + 1 < t.visible_list(open, ids, above, depth).len() && !open.contains(
                (#[trigger] t.visible_list(open, ids, above, depth)[j]).id,
            ) ==> t.visible_list(open, ids, above, depth)[j + 1].depth <= t.visible_list(
                open,
                ids,
                above,
                depth,
            )[j].depth,
    decreases t.nodes.len() - above, ids.len(),
{
    let walk = t.visible_list(open, ids, above, depth);
    if ids.len() > 0 {
        let first = ids[0];
        let head = seq![VisibleNode { id: first, depth }];
        let kids = t.nodes[first.0 as int].children;
        let below = if open.contains(first) && above < first.0 < t.nodes.len() {
            t.visible_list(open, kids, first.0 as int, (depth + 1) as usize)
        } else {
            Seq::empty()
        };
        let rest_ids = ids.drop_first();
        let rest = t.visible_list(open, rest_ids, above, depth);
        assert(walk == head + below + rest);
        lemma_siblings_rest(t, ids, above, depth);
        lemma_depths(t, open, rest_ids, above, depth);
        lemma_entries(t, open, rest_ids, above, depth);
        if open.contains(first) {
            lemma_children_siblings(t, first, depth);
            lemma_depths(t, open, kids, first.0 as int, (depth + 1) as usize);
            lemma_below_entries(t, open, first, depth);
            assert(below == t.visible_below(open, first, depth));
        }
        assert forall|j: int|
            0 <= j && j + 1 < walk.len() && !open.contains((#[trigger] walk[j]).id) implies walk[j
            + 1].depth <= walk[j].depth by {
            if j == 0 {
                assert(below.len() == 0);
                assert(walk[1] == rest[0]);
            } else if j < below.len() {
                assert(walk[j] == below[j - 1]);
                assert(walk[j + 1] == below[j]);
            } else if j == below.len() {
                assert(walk[j] == below[j - 1]);
                assert(t.entry_below(below[j - 1], first, depth));
                assert(walk[j + 1] == rest[0]);
            } else {
                assert(walk[j] == rest[j - 1 - below.len()]);
                assert(walk[j + 1] == rest[j - below.len()]);
            }
        }
    }
}

/// Every node that a walk starts from has an entry in it.
pub proof fn lemma_heads_occur(
    t: TreeView,
    open: Set<NodeId>,
    ids: Seq<NodeId>,
    above: int,
    depth: usize,
    k: int,
)
    requires
        0 <= k < ids.len(),
    ensures
        occurs(t.visible_list(open, ids, above, depth), ids[k]),
    decreases ids.len(),
{
    let walk = t.visible_list(open, ids, above, depth);
    let rest = t.visible_list(open, ids.drop_first(), above, depth);
    if k == 0 {
        assert(walk[0].id == ids[0]);
    } else {
        lemma_heads_occur(t, open, ids.drop_first(), above, depth, k - 1);
        let i = choose|i: int| 0 <= i < rest.len() && (#[trigger] rest[i]).id == ids[k];
        assert(walk[walk.len() - rest.len() + i] == rest[i]);
    }
}

/// Where an expanded node has an entry, each of its children has one.
pub proof fn lemma_children_occur(
    t: TreeView,
    open: Set<NodeId>,
    ids: Seq<NodeId>,
    above: int,
    depth: usize,
    p: NodeId,
    k: int,
)
    requires
        t.wf(),
        t.siblings(ids, above, depth),
        occurs(t.visible_list(open, ids, above, depth), p),
        open.contains(p),
        0 <= k < t.children(p).len(),
    ensures
        occurs(t.visible_list(open, ids, above, depth), t.children(p)[k]),
    decreases t.nodes.len() - above, ids.len(),
{
    let walk = t.visible_list(open, ids, above, depth);
    let c = t.children(p)[k];
    if ids.len() > 0 {
        let first = ids[0];
        let head = seq![VisibleNode { id: first, depth }];
        let kids = t.nodes[first.0 as int].children;
        let below = if open.contains(first) && above < first.0 < t.nodes.len() {
            t.visible_list(open, kids, first.0 as int, (depth + 1) as usize)
        } else {
            Seq::empty()
        };
        let rest_ids = ids.drop_first();
        let rest = t.visible_list(open, rest_ids, above, depth);
        assert(walk == head + below + rest);
        lemma_occurs_concat(head + below, rest, p);
        lemma_occurs_concat(head, below, p);
        lemma_occurs_concat(head + below, rest, c);
        lemma_occurs_concat(head, below, c);
        if occurs(head, p) {
            let i = choose|i: int| 0 <= i < head.len() && (#[trigger] head[i]).id == p;
            assert(first == p);
            lemma_heads_occur(t, open, kids, first.0 as int, (depth + 1) as usize, k);
        } else if occurs(below, p) {
            lemma_children_siblings(t, first, depth);
            lemma_children_occur(t, open, kids, first.0 as int, (depth + 1) as usize, p, k);
        } else {
            lemma_siblings_rest(t, ids, above, depth);
            lemma_children_occur(t, open, rest_ids, above, depth, p, k);
        }
    }
}

/// When every node that has children is expanded, every node is on display.
pub proof fn lemma_all_occur(t: TreeView, open: Set<NodeId>, x: NodeId)
    requires
        t.wf(),
        t.parents().subset_of(open),
        t.contains(x),
    ensures
        occurs(t.visible(open), x),
    decreases x.0,
{
    assert(node_ok(t.nodes, x.0 as int));
    match t.parent(x) {
        None => {
            let k = choose|k: int| 0 <= k < t.roots.len() && t.roots[k] == x;
            lemma_heads_occur(t, open, t.roots, -1, 0, k);
        },
        Some(p) => {
            lemma_all_occur(t, open, p);
            let k = choose|k: int| 0 <= k < t.children(p).len() && t.children(p)[k] == x;
            assert(t.parents().contains(p));
            lemma_children_occur(t, open, t.roots, -1, 0, p, k);
        },
    }
}

/// A walk from nodes that are not expanded lists just these nodes.
pub proof fn lemma_closed_walk(
    t: TreeView,
    open: Set<NodeId>,
    ids: Seq<NodeId>,
    above: int,
    depth: usize,
)
    requires
        forall|k: int| 0 <= k < ids.len() ==> !open.contains(#[trigger] ids[k]),
    ensures
        t.visible_list(open, ids, above, depth) == at_depth(ids, depth),
    decreases ids.len(),
{
    if ids.len() > 0 {
        let rest_ids = ids.drop_first();
        assert forall|k: int| 0 <= k < rest_ids.len() implies !open.contains(
            #[trigger] rest_ids[k],
        ) by {
            assert(rest_ids[k] == ids[k + 1]);
        }
        lemma_closed_walk(t, open, rest_ids, above, depth);
        assert(!open.contains(ids[0]));
        assert(t.visible_list(open, ids, above, depth) =~= at_depth(ids, depth));
    } else {
        assert(t.visible_list(open, ids, above, depth) =~= at_depth(ids, depth));
    }
}


/// The first position that stands for a node is unique.
pub proof fn lemma_first_unique(v: Seq<VisibleNode>, id: NodeId, i: int, j: int)
    requires
        is_first_at(v, id, i),
        is_first_at(v, id, j),
    ensures
        i == j,
{
    if i < j {
        assert(v[i].id != id);
    }
    if j < i {
        assert(v[j].id != id);
    }
}

/// What holds of every visible sequence of a forest: each entry stands for a
/// node of the arena and carries the number of its ancestors as its depth,
/// and no node is listed twice.
pub proof fn lemma_visible_entries(t: TreeView, open: Set<NodeId>)
    requires
        t.wf(),
    ensures
        distinct_ids(t.visible(open)),
        forall|j: int|
            0 <= j < t.visible(open).len() ==> {
                &&& t.contains((#[trigger] t.visible(open)[j]).id)
                &&& t.visible(open)[j].depth == t.level(t.visible(open)[j].id)
                &&& t.visible(open)[j].depth <= t.visible(open)[j].id.0
            },
        t.roots.len() > 0 ==> t.visible(open).len() > 0,
{
    lemma_roots_siblings(t);
    lemma_distinct_entries(t, open, t.roots, -1, 0);
    lemma_entries(t, open, t.roots, -1, 0);
    lemma_depths(t, open, t.roots, -1, 0);
    let v = t.visible(open);
    assert forall|j: int| 0 <= j < v.len() implies {
        &&& t.contains((#[trigger] v[j]).id)
        &&& v[j].depth == t.level(v[j].id)
        &&& v[j].depth <= v[j].id.0
    } by {
        assert(t.entry_under(v[j], t.roots, 0));
        lemma_level_bound(t, v[j].id);
    }
}

/// A node has no more ancestors than nodes lie before it in the arena.
pub proof fn lemma_level_bound(t: TreeView, x: NodeId)
    ensures
        t.level(x) <= x.0,
    decreases x.0,
{
    match t.parent(x) {
        Some(p) => {
            if p.0 < x.0 {
                lemma_level_bound(t, p);
            }
        },
        None => {},
    }
}

/// Expanding a node that is on display inserts what is on display below it
/// right behind its entry, and changes nothing else.
pub proof fn lemma_expand_run(t: TreeView, open: Set<NodeId>, id: NodeId, at: int)
    requires
        t.wf(),
        !open.contains(id),
        is_first_at(t.visible(open), id, at),
    ensures
        t.visible(open.insert(id)) == t.visible(open).take(at + 1) + t.visible_below(
            open.insert(id),
            id,
            t.visible(open)[at].depth,
        ) + t.visible(open).skip(at + 1),
{
    lemma_roots_siblings(t);
    lemma_expand_splices(t, open, id, t.roots, -1, 0);
    lemma_distinct_entries(t, open, t.roots, -1, 0);
    lemma_spliced_once(t, t.visible(open), open.insert(id), id, at);
}

/// Collapsing a node that is on display removes the run of deeper entries
/// right behind its entry, and changes nothing else. The run ends where the
/// sequence ends or an entry is no deeper than the node.
pub proof fn lemma_collapse_run(t: TreeView, open: Set<NodeId>, id: NodeId, at: int)
    requires
        t.wf(),
        open.contains(id),
        is_first_at(t.visible(open), id, at),
    ensures
        is_first_at(t.visible(open.remove(id)), id, at),
        t.visible(open) == t.visible(open.remove(id)).take(at + 1) + t.visible_below(
            open,
            id,
            t.visible(open)[at].depth,
        ) + t.visible(open.remove(id)).skip(at + 1),
        t.visible(open.remove(id))[at] == t.visible(open)[at],
        forall|j: int|
            0 <= j < t.visible_below(open, id, t.visible(open)[at].depth).len() ==> (
            #[trigger] t.visible_below(open, id, t.visible(open)[at].depth)[j]).depth > t.visible(
                open,
            )[at].depth,
        at + 1 < t.visible(open.remove(id)).len() ==> t.visible(open.remove(id))[at + 1].depth
            <= t.visible(open)[at].depth,
{
    let fewer = open.remove(id);
    let v = t.visible(open);
    let w = t.visible(fewer);
    assert(fewer.insert(id) =~= open);
    lemma_roots_siblings(t);
    lemma_expand_splices(t, fewer, id, t.roots, -1, 0);
    lemma_distinct_entries(t, fewer, t.roots, -1, 0);
    assert(v == t.spliced(w, open, id));
    if !occurs(w, id) {
        lemma_spliced_absent(t, w, open, id);
        assert(w[at].id == id);
    }
    let s = choose|s: int| 0 <= s < w.len() && (#[trigger] w[s]).id == id;
    assert(is_first_at(w, id, s)) by {
        assert forall|j: int| 0 <= j < s implies (#[trigger] w[j]).id != id by {}
    }
    lemma_spliced_once(t, w, open, id, s);
    let x = t.visible_below(open, id, w[s].depth);
    assert(v == w.take(s + 1) + x + w.skip(s + 1));
    assert(is_first_at(v, id, s)) by {
        assert(v[s] == w[s]);
        assert forall|j: int| 0 <= j < s implies (#[trigger] v[j]).id != id by {
            assert(v[j] == w[j]);
        }
    }
    lemma_first_unique(v, id, s, at);
    lemma_visible_entries(t, fewer);
    lemma_below_entries(t, open, id, w[s].depth);
    lemma_depths(t, fewer, t.roots, -1, 0);
}


/// In a forest, the parent of a node lies before it in the arena and lists
/// it among its children.
pub proof fn lemma_parent_lists_child(t: TreeView, id: NodeId)
    requires
        t.wf(),
        t.contains(id),
        t.parent(id).is_some(),
    ensures
        t.contains(t.parent(id).unwrap()),
        t.parent(id).unwrap().0 < id.0,
        t.children(t.parent(id).unwrap()).contains(id),
{
    assert(node_ok(t.nodes, id.0 as int));
}

/// When every node that has children is expanded, the visible sequence
/// lists every node of the arena, each exactly once and at its level, and
/// nothing else.
pub proof fn lemma_preorder_lists_every_node_once(t: TreeView)
    requires
        t.wf(),
    ensures
        distinct_ids(t.preorder()),
        forall|id: NodeId| occurs(t.preorder(), id) <==> t.contains(id),
        forall|j: int|
            0 <= j < t.preorder().len() ==> (#[trigger] t.preorder()[j]).depth == t.level(
                t.preorder()[j].id,
            ),
{
    let v = t.preorder();
    lemma_visible_entries(t, t.parents());
    assert forall|id: NodeId| occurs(v, id) <==> t.contains(id) by {
        if t.contains(id) {
            lemma_all_occur(t, t.parents(), id);
        }
        if occurs(v, id) {
            let j = choose|j: int| 0 <= j < v.len() && (#[trigger] v[j]).id == id;
            assert(t.contains(v[j].id));
        }
    }
}

/// When no node is expanded, the visible sequence lists the roots.
pub proof fn lemma_collapsed_lists_roots(t: TreeView)
    ensures
        t.visible(Set::empty()) == at_depth(t.roots, 0),
{
    lemma_closed_walk(t, Set::empty(), t.roots, -1, 0);
}


} // verus!
