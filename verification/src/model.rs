//! The mathematical model of the arena tree.
//!
//! A tree is modelled as a sequence of slots, each either holding a node or
//! empty, together with an optional root handle.  All contracts of the
//! executable container in `tree` are stated over this model.

use vstd::prelude::*;

verus! {

/// Stable handle to a node slot inside a tree arena.
///
/// Two handles are equal iff their indices are equal.  A handle is only
/// meaningful for the arena that issued it; handing it to another arena is a
/// caller error that the design does not detect.
#[derive(Debug, Copy, Clone, Eq, PartialEq, Hash, Structural)]
pub struct NodeId(pub usize);

/// Model of one live node: its payload, its optional parent handle
/// (`None` only for the root), and its child handles in insertion order.
#[verifier::ext_equal]
pub struct NodeV<T> {
    pub data: T,
    pub parent: Option<NodeId>,
    pub children: Seq<NodeId>,
}

/// Model of the whole arena: the slot sequence and the optional root handle.
#[verifier::ext_equal]
pub struct TreeV<T> {
    pub nodes: Seq<Option<NodeV<T>>>,
    pub root: Option<NodeId>,
}

/// How often the handle `v` occurs in `s`.
pub open spec fn occ(s: Seq<NodeId>, v: NodeId) -> nat
    decreases s.len(),
{
    if s.len() == 0 {
        0
    } else {
        (if s.first() == v {
            1nat
        } else {
            0nat
        }) + occ(s.drop_first(), v)
    }
}

impl<T> TreeV<T> {
    /// The handle refers to a slot that holds a node.
    pub open spec fn live(self, id: NodeId) -> bool {
        id.0 < self.nodes.len() && self.nodes[id.0 as int] is Some
    }

    /// The node a live handle refers to.
    pub open spec fn node_at(self, id: NodeId) -> NodeV<T>
        recommends
            self.live(id),
    {
        self.nodes[id.0 as int]->0
    }

    /// The handle the next allocated node will get.
    pub open spec fn next_id(self) -> NodeId {
        NodeId(self.nodes.len() as usize)
    }

    /// The `k`-th child entry of `p` names a live node that was allocated
    /// after `p` and points back at `p` as its parent.
    pub open spec fn child_ok(self, p: NodeId, k: int) -> bool
        recommends
            self.live(p),
            0 <= k < self.node_at(p).children.len(),
    {
        let c = self.node_at(p).children[k];
        &&& p.0 < c.0 < self.nodes.len()
        &&& self.nodes[c.0 as int] is Some
        &&& self.node_at(c).parent == Some(p)
    }

    /// Local well-formedness of one live node: a non-root node was allocated
    /// after its live parent and is listed exactly once among that parent's
    /// children; a parentless node is the root; and every child entry is
    /// sound (`child_ok`).
    pub open spec fn node_ok(self, id: NodeId) -> bool
        recommends
            self.live(id),
    {
        &&& match self.node_at(id).parent {
            Some(p) => p.0 < id.0 && self.live(p) && occ(self.node_at(p).children, id) == 1,
            None => self.root == Some(id),
        }
        &&& forall|k: int|
            0 <= k < self.node_at(id).children.len() ==> #[trigger] self.child_ok(id, k)
    }

    /// Well-formedness of the whole arena.  The root, when present, is live
    /// and parentless; without a root the arena is empty; and every live node
    /// is locally well-formed.  Since every child was allocated after its
    /// parent, parent links strictly decrease and child links strictly
    /// increase, so the tree is acyclic and every node reaches the root.
    pub open spec fn wf(self) -> bool {
        &&& match self.root {
            Some(r) => self.live(r) && self.node_at(r).parent is None,
            None => self.nodes.len() == 0,
        }
        &&& forall|id: NodeId| #[trigger] self.live(id) ==> self.node_ok(id)
    }

    /// The model step of `set_root`: one fresh parentless node, made the root.
    pub open spec fn root_set(self, d: T) -> TreeV<T> {
        TreeV {
            nodes: self.nodes.push(Some(NodeV { data: d, parent: None, children: Seq::empty() })),
            root: Some(self.next_id()),
        }
    }

    /// The model step of `add_child`: a fresh node whose parent is `p`,
    /// appended to the arena and to the end of `p`'s child list.
    pub open spec fn child_added(self, p: NodeId, d: T) -> TreeV<T>
        recommends
            self.live(p),
    {
        let c = self.next_id();
        let pn = self.node_at(p);
        TreeV {
            nodes: self.nodes.update(
                p.0 as int,
                Some(NodeV { data: pn.data, parent: pn.parent, children: pn.children.push(c) }),
            ).push(Some(NodeV { data: d, parent: Some(p), children: Seq::empty() })),
            root: self.root,
        }
    }

    /// The model step of writing through `get_mut`: one payload replaced,
    /// all structure untouched.
    pub open spec fn payload_set(self, id: NodeId, d: T) -> TreeV<T>
        recommends
            self.live(id),
    {
        let n = self.node_at(id);
        TreeV {
            nodes: self.nodes.update(
                id.0 as int,
                Some(NodeV { data: d, parent: n.parent, children: n.children }),
            ),
            root: self.root,
        }
    }
}

impl<T> TreeV<T> {
    /// Side condition of the child-list traversals: every handle in `ch` is
    /// live and was allocated after `p`.  Well-formedness gives it for the
    /// child list of any live node (`lemma_children_conds`).
    pub open spec fn list_conds(self, p: NodeId, ch: Seq<NodeId>) -> bool {
        forall|k: int|
            0 <= k < ch.len() ==> p.0 < (#[trigger] ch[k]).0 < self.nodes.len() && self.live(
                ch[k],
            )
    }

    /// Pre-order depth-first listing of the subtree rooted at `id`: the node
    /// itself, then the subtrees of its children, left to right.
    pub open spec fn dfs_from(self, id: NodeId) -> Seq<NodeId>
        decreases self.nodes.len() - id.0, 1int, 0int
            when self.wf() && self.live(id)
    {
        seq![id] + self.dfs_list(id, self.node_at(id).children)
    }

    /// Concatenation of the depth-first listings of the subtrees rooted at
    /// the handles in `ch` (a suffix of the child list of `p`).
    pub open spec fn dfs_list(self, p: NodeId, ch: Seq<NodeId>) -> Seq<NodeId>
        decreases self.nodes.len() - p.0, 0int, ch.len()
            when self.wf() && self.live(p) && self.list_conds(p, ch)
    {
        if ch.len() == 0 {
            Seq::empty()
        } else {
            self.dfs_from(ch.first()) + self.dfs_list(p, ch.drop_first())
        }
    }

    /// Pre-order depth-first listing of the whole tree, starting at the root;
    /// empty when there is no root.
    pub open spec fn dfs(self) -> Seq<NodeId> {
        match self.root {
            Some(r) => self.dfs_from(r),
            None => Seq::empty(),
        }
    }

    /// Number of nodes in the subtree rooted at `id`.
    pub open spec fn size_of(self, id: NodeId) -> nat
        recommends
            self.wf(),
            self.live(id),
    {
        self.dfs_from(id).len()
    }

    /// Total number of nodes in the subtrees rooted at the handles in `q`.
    pub open spec fn size_list(self, q: Seq<NodeId>) -> nat
        decreases q.len(),
    {
        if q.len() == 0 {
            0
        } else {
            self.size_of(q.first()) + self.size_list(q.drop_first())
        }
    }

    /// Every handle in `q` is live.
    pub open spec fn all_live(self, q: Seq<NodeId>) -> bool {
        forall|k: int| 0 <= k < q.len() ==> self.live(#[trigger] q[k])
    }

    /// Level-order listing driven by a first-in-first-out queue: emit the
    /// front handle, enqueue its children, repeat until the queue is empty.
    pub open spec fn bfs_from(self, q: Seq<NodeId>) -> Seq<NodeId>
        decreases self.size_list(q)
            when self.wf() && self.all_live(q)
    {
        if q.len() == 0 {
            Seq::empty()
        } else {
            proof {
                lemma_bfs_queue_shrinks(self, q);
            }
            seq![q.first()] + self.bfs_from(q.drop_first() + self.node_at(q.first()).children)
        }
    }

    /// Level-order listing of the whole tree, seeded with the root; empty
    /// when there is no root.
    pub open spec fn bfs(self) -> Seq<NodeId> {
        match self.root {
            Some(r) => self.bfs_from(seq![r]),
            None => Seq::empty(),
        }
    }
}

/// The connector printed before a non-root node's label: one form for a
/// node that is its parent's last child, another for the rest.
pub open spec fn connector(last: bool) -> Seq<char> {
    if last {
        "└── "@
    } else {
        "├── "@
    }
}

/// The indentation passed on to a node's children: below a last child the
/// column is blank, below any other child it carries a continuation bar.
pub open spec fn child_prefix(prefix: Seq<char>, last: bool) -> Seq<char> {
    prefix + if last {
        "    "@
    } else {
        "│   "@
    }
}

impl<T> TreeV<T> {
    /// One rendered line plus the rendered subtrees of the node's children.
    /// `labels` holds the display text of each slot, indexed by handle;
    /// `last` says whether the node is its parent's last child.
    pub open spec fn render_from(
        self,
        labels: Seq<Seq<char>>,
        id: NodeId,
        prefix: Seq<char>,
        last: bool,
    ) -> Seq<char>
        decreases self.nodes.len() - id.0, 1int, 0int
            when self.wf() && self.live(id)
    {
        prefix + connector(last) + labels[id.0 as int] + "\n"@ + self.render_list(
            labels,
            id,
            self.node_at(id).children,
            child_prefix(prefix, last),
        )
    }

    /// Concatenation of the renderings of the subtrees rooted at the handles
    /// in `ch` (a suffix of the child list of `p`); the last one gets the
    /// closing connector.
    pub open spec fn render_list(
        self,
        labels: Seq<Seq<char>>,
        p: NodeId,
        ch: Seq<NodeId>,
        prefix: Seq<char>,
    ) -> Seq<char>
        decreases self.nodes.len() - p.0, 0int, ch.len()
            when self.wf() && self.live(p) && self.list_conds(p, ch)
    {
        if ch.len() == 0 {
            Seq::empty()
        } else {
            self.render_from(labels, ch.first(), prefix, ch.len() == 1) + self.render_list(
                labels,
                p,
                ch.drop_first(),
                prefix,
            )
        }
    }

    /// The whole rendered text: the root's bare label on the first line,
    /// then the root's subtrees with an empty indentation; empty when there
    /// is no root.
    pub open spec fn render(self, labels: Seq<Seq<char>>) -> Seq<char> {
        match self.root {
            Some(r) => labels[r.0 as int] + "\n"@ + self.render_list(
                labels,
                r,
                self.node_at(r).children,
                Seq::empty(),
            ),
            None => Seq::empty(),
        }
    }
}

/// Every child entry of a live node names a live node allocated after it.
pub proof fn lemma_children_conds<T>(t: TreeV<T>, p: NodeId)
    requires
        t.wf(),
        t.live(p),
    ensures
        t.list_conds(p, t.node_at(p).children),
{
    let ch = t.node_at(p).children;
    assert forall|k: int| 0 <= k < ch.len() implies p.0 < (#[trigger] ch[k]).0 < t.nodes.len()
        && t.live(ch[k]) by {
        assert(t.node_ok(p));
        assert(t.child_ok(p, k));
    }
}

/// The side conditions survive dropping a prefix of the list.
pub proof fn lemma_list_conds_skip<T>(t: TreeV<T>, p: NodeId, ch: Seq<NodeId>, n: int)
    requires
        t.list_conds(p, ch),
        0 <= n <= ch.len(),
    ensures
        t.list_conds(p, ch.skip(n)),
{
    assert forall|k: int| 0 <= k < ch.skip(n).len() implies p.0 < (#[trigger] ch.skip(n)[k]).0
        < t.nodes.len() && t.live(ch.skip(n)[k]) by {
        assert(ch.skip(n)[k] == ch[k + n]);
    }
}

/// The depth-first listing of a list of subtrees has one entry per node.
pub proof fn lemma_dfs_list_len<T>(t: TreeV<T>, p: NodeId, ch: Seq<NodeId>)
    requires
        t.wf(),
        t.live(p),
        t.list_conds(p, ch),
    ensures
        t.dfs_list(p, ch).len() == t.size_list(ch),
    decreases ch.len(),
{
    if ch.len() > 0 {
        assert forall|k: int| 0 <= k < ch.drop_first().len() implies p.0 < (#[trigger] ch
            .drop_first()[k]).0 < t.nodes.len() && t.live(ch.drop_first()[k]) by {
            assert(ch.drop_first()[k] == ch[k + 1]);
        }
        lemma_dfs_list_len(t, p, ch.drop_first());
    }
}

/// A subtree holds its root and the subtrees of the root's children.
pub proof fn lemma_size_of_unfold<T>(t: TreeV<T>, id: NodeId)
    requires
        t.wf(),
        t.live(id),
    ensures
        t.size_of(id) == 1 + t.size_list(t.node_at(id).children),
{
    lemma_children_conds(t, id);
    assert(t.dfs_from(id) == seq![id] + t.dfs_list(id, t.node_at(id).children));
    lemma_dfs_list_len(t, id, t.node_at(id).children);
}

/// Subtree counts add up over list concatenation.
pub proof fn lemma_size_list_concat<T>(t: TreeV<T>, a: Seq<NodeId>, b: Seq<NodeId>)
    ensures
        t.size_list(a + b) == t.size_list(a) + t.size_list(b),
    decreases a.len(),
{
    if a.len() == 0 {
        assert(a + b =~= b);
    } else {
        assert((a + b).first() == a.first());
        assert((a + b).drop_first() =~= a.drop_first() + b);
        lemma_size_list_concat(t, a.drop_first(), b);
    }
}

/// One step of the level-order queue strictly shrinks the number of nodes
/// still to be listed.
pub proof fn lemma_bfs_queue_shrinks<T>(t: TreeV<T>, q: Seq<NodeId>)
    requires
        t.wf(),
        t.all_live(q),
        q.len() > 0,
    ensures
        t.size_list(q.drop_first() + t.node_at(q.first()).children) < t.size_list(q),
{
    lemma_size_list_concat(t, q.drop_first(), t.node_at(q.first()).children);
    lemma_size_of_unfold(t, q.first());
}

/// One step of a child loop: the depth-first listing of the child suffix
/// from `k` is the subtree of child `k` followed by the suffix from `k + 1`.
pub proof fn lemma_dfs_list_step<T>(t: TreeV<T>, p: NodeId, k: int)
    requires
        t.wf(),
        t.live(p),
        0 <= k < t.node_at(p).children.len(),
    ensures
        t.dfs_list(p, t.node_at(p).children.skip(k)) == t.dfs_from(t.node_at(p).children[k])
            + t.dfs_list(p, t.node_at(p).children.skip(k + 1)),
{
    let ch = t.node_at(p).children;
    lemma_children_conds(t, p);
    lemma_list_conds_skip(t, p, ch, k);
    assert(ch.skip(k).first() == ch[k]);
    assert(ch.skip(k).drop_first() =~= ch.skip(k + 1));
}

/// One step of the level-order queue: the front handle is emitted, its
/// children join the queue live and in order, and the queue's node count
/// strictly falls.
pub proof fn lemma_bfs_step<T>(t: TreeV<T>, q: Seq<NodeId>)
    requires
        t.wf(),
        t.all_live(q),
        q.len() > 0,
    ensures
        t.all_live(q.drop_first() + t.node_at(q.first()).children),
        t.bfs_from(q) == seq![q.first()] + t.bfs_from(
            q.drop_first() + t.node_at(q.first()).children,
        ),
        t.size_list(q.drop_first() + t.node_at(q.first()).children) < t.size_list(q),
{
    let rest = q.drop_first() + t.node_at(q.first()).children;
    lemma_children_conds(t, q.first());
    assert forall|k: int| 0 <= k < rest.len() implies t.live(#[trigger] rest[k]) by {
        if k < q.drop_first().len() {
            assert(rest[k] == q[k + 1]);
        } else {
            assert(rest[k] == t.node_at(q.first()).children[k - q.drop_first().len()]);
        }
    }
    lemma_bfs_queue_shrinks(t, q);
}

/// One step of a child loop while rendering: the rendering of the child
/// suffix from `k` is the rendering of child `k` (with the closing connector
/// iff it is the last child) followed by the suffix from `k + 1`.
pub proof fn lemma_render_list_step<T>(
    t: TreeV<T>,
    labels: Seq<Seq<char>>,
    p: NodeId,
    prefix: Seq<char>,
    k: int,
)
    requires
        t.wf(),
        t.live(p),
        0 <= k < t.node_at(p).children.len(),
    ensures
        t.render_list(labels, p, t.node_at(p).children.skip(k), prefix) == t.render_from(
            labels,
            t.node_at(p).children[k],
            prefix,
            k == t.node_at(p).children.len() - 1,
        ) + t.render_list(labels, p, t.node_at(p).children.skip(k + 1), prefix),
{
    let ch = t.node_at(p).children;
    lemma_children_conds(t, p);
    lemma_list_conds_skip(t, p, ch, k);
    assert(ch.skip(k).first() == ch[k]);
    assert(ch.skip(k).drop_first() =~= ch.skip(k + 1));
    assert((ch.skip(k).len() == 1) == (k == ch.len() - 1));
}

/// The level-order listing of a queue has one entry per node in the
/// subtrees of the queued handles.
pub proof fn lemma_bfs_len<T>(t: TreeV<T>, q: Seq<NodeId>)
    requires
        t.wf(),
        t.all_live(q),
    ensures
        t.bfs_from(q).len() == t.size_list(q),
    decreases t.size_list(q),
{
    if q.len() > 0 {
        lemma_bfs_step(t, q);
        let rest = q.drop_first() + t.node_at(q.first()).children;
        lemma_bfs_len(t, rest);
        lemma_size_list_concat(t, q.drop_first(), t.node_at(q.first()).children);
        lemma_size_of_unfold(t, q.first());
    }
}

impl<T> TreeV<T> {
    /// `a` lies on the parent chain of `e`, `e` itself included.
    pub open spec fn anc(self, a: NodeId, e: NodeId) -> bool
        decreases e.0
            when self.wf() && self.live(e)
    {
        e == a || match self.node_at(e).parent {
            Some(p) => self.anc(a, p),
            None => false,
        }
    }
}

/// Handle occurrences add up over concatenation.
pub proof fn lemma_occ_concat(a: Seq<NodeId>, b: Seq<NodeId>, v: NodeId)
    ensures
        occ(a + b, v) == occ(a, v) + occ(b, v),
    decreases a.len(),
{
    if a.len() == 0 {
        assert(a + b =~= b);
    } else {
        assert((a + b).first() == a.first());
        assert((a + b).drop_first() =~= a.drop_first() + b);
        lemma_occ_concat(a.drop_first(), b, v);
    }
}

/// An element of a sequence occurs in it at least once.
pub proof fn lemma_occ_index(s: Seq<NodeId>, k: int)
    requires
        0 <= k < s.len(),
    ensures
        occ(s, s[k]) >= 1,
    decreases s.len(),
{
    if k > 0 {
        lemma_occ_index(s.drop_first(), k - 1);
        assert(s.drop_first()[k - 1] == s[k]);
    }
}

/// A handle found at two positions occurs at least twice.
pub proof fn lemma_occ_dup(s: Seq<NodeId>, k1: int, k2: int)
    requires
        0 <= k1 < k2 < s.len(),
        s[k1] == s[k2],
    ensures
        occ(s, s[k1]) >= 2,
    decreases s.len(),
{
    if k1 == 0 {
        lemma_occ_index(s.drop_first(), k2 - 1);
        assert(s.drop_first()[k2 - 1] == s[k2]);
    } else {
        lemma_occ_dup(s.drop_first(), k1 - 1, k2 - 1);
        assert(s.drop_first()[k1 - 1] == s[k1]);
    }
}

/// A handle that occurs can be found at some position.
pub proof fn lemma_occ_exists(s: Seq<NodeId>, v: NodeId)
    requires
        occ(s, v) >= 1,
    ensures
        exists|k: int| 0 <= k < s.len() && s[k] == v,
    decreases s.len(),
{
    if s.first() == v {
        assert(s[0] == v);
    } else {
        lemma_occ_exists(s.drop_first(), v);
        let k = choose|k: int| 0 <= k < s.drop_first().len() && s.drop_first()[k] == v;
        assert(s[k + 1] == v);
    }
}

/// An ancestor is live and was allocated no later than its descendant.
pub proof fn lemma_anc_index<T>(t: TreeV<T>, a: NodeId, e: NodeId)
    requires
        t.wf(),
        t.live(e),
        t.anc(a, e),
    ensures
        a.0 <= e.0,
        t.live(a),
    decreases e.0,
{
    if e != a {
        assert(t.node_ok(e));
        let p = t.node_at(e).parent->0;
        lemma_anc_index(t, a, p);
    }
}

/// The root is an ancestor of every live node.
pub proof fn lemma_anc_root<T>(t: TreeV<T>, h: NodeId)
    requires
        t.wf(),
        t.live(h),
        t.root is Some,
    ensures
        t.anc(t.root->0, h),
    decreases h.0,
{
    if h != t.root->0 {
        assert(t.node_ok(h));
        match t.node_at(h).parent {
            Some(p) => lemma_anc_root(t, p),
            None => assert(t.root == Some(h)),
        }
    }
}

/// Two ancestors of one node lie on one parent chain.
pub proof fn lemma_anc_linear<T>(t: TreeV<T>, a: NodeId, b: NodeId, e: NodeId)
    requires
        t.wf(),
        t.live(e),
        t.anc(a, e),
        t.anc(b, e),
    ensures
        t.anc(a, b) || t.anc(b, a),
    decreases e.0,
{
    if e != a && e != b {
        assert(t.node_ok(e));
        let p = t.node_at(e).parent->0;
        lemma_anc_linear(t, a, b, p);
    }
}

/// Distinct children of one parent head disjoint subtrees: no node descends
/// from both.
pub proof fn lemma_siblings_disjoint<T>(t: TreeV<T>, c1: NodeId, c2: NodeId, h: NodeId)
    requires
        t.wf(),
        t.live(c1),
        t.live(c2),
        t.live(h),
        c1 != c2,
        t.node_at(c1).parent == t.node_at(c2).parent,
    ensures
        !(t.anc(c1, h) && t.anc(c2, h)),
{
    if t.anc(c1, h) && t.anc(c2, h) {
        assert(t.node_ok(c1));
        assert(t.node_ok(c2));
        if t.node_at(c1).parent is None {
            // both would be parentless, hence both the root
            assert(t.root == Some(c1) && t.root == Some(c2));
        } else {
            lemma_anc_linear(t, c1, c2, h);
            if t.anc(c1, c2) {
                let p = t.node_at(c2).parent->0;
                lemma_anc_index(t, c1, p);
            } else {
                let p = t.node_at(c1).parent->0;
                lemma_anc_index(t, c2, p);
            }
        }
    }
}

/// A strict descendant of `id` descends from one of `id`'s children.
pub proof fn lemma_anc_child<T>(t: TreeV<T>, id: NodeId, h: NodeId)
    requires
        t.wf(),
        t.live(id),
        t.live(h),
        t.anc(id, h),
        h != id,
    ensures
        exists|c: NodeId|
            t.live(c) && (#[trigger] t.node_at(c).parent) == Some(id) && t.anc(c, h),
    decreases h.0,
{
    assert(t.node_ok(h));
    let p = t.node_at(h).parent->0;
    if p == id {
        assert(t.node_at(h).parent == Some(id) && t.anc(h, h));
    } else {
        lemma_anc_child(t, id, p);
        let c = choose|c: NodeId|
            t.live(c) && (#[trigger] t.node_at(c).parent) == Some(id) && t.anc(c, p);
        assert(t.anc(c, h));
    }
}

/// Descent through a child lifts to its parent: whatever descends from a
/// child of `id` descends from `id`.
pub proof fn lemma_anc_lift<T>(t: TreeV<T>, id: NodeId, c: NodeId, h: NodeId)
    requires
        t.wf(),
        t.live(h),
        t.live(c),
        t.live(id),
        t.node_at(c).parent == Some(id),
        t.anc(c, h),
    ensures
        t.anc(id, h),
    decreases h.0,
{
    if h == c {
        assert(t.anc(id, id));
        assert(t.anc(id, c));
    } else {
        assert(t.node_ok(h));
        let p = t.node_at(h).parent->0;
        lemma_anc_lift(t, id, c, p);
    }
}

/// The subtree listing of `id` names `h` exactly once when `h` descends
/// from `id`, and not at all otherwise.
pub proof fn lemma_dfs_from_occ<T>(t: TreeV<T>, id: NodeId, h: NodeId)
    requires
        t.wf(),
        t.live(id),
        t.live(h),
    ensures
        occ(t.dfs_from(id), h) == if t.anc(id, h) {
            1nat
        } else {
            0nat
        },
    decreases t.nodes.len() - id.0, 1int, 0int,
{
    let ch = t.node_at(id).children;
    lemma_children_conds(t, id);
    assert forall|k: int|
        0 <= k < ch.len() implies (#[trigger] t.node_at(ch[k]).parent) == Some(id) && t.live(
        ch[k],
    ) by {
        assert(t.node_ok(id));
        assert(t.child_ok(id, k));
    }
    assert forall|k1: int, k2: int| 0 <= k1 < k2 < ch.len() implies ch[k1] != ch[k2] by {
        if ch[k1] == ch[k2] {
            lemma_occ_dup(ch, k1, k2);
            assert(t.child_ok(id, k1));
            assert(t.live(ch[k1]));
            assert(t.node_ok(ch[k1]));
        }
    }
    assert(t.dfs_from(id) == seq![id] + t.dfs_list(id, ch));
    lemma_occ_concat(seq![id], t.dfs_list(id, ch), h);
    assert(seq![id].drop_first() =~= Seq::<NodeId>::empty());
    assert(occ(Seq::<NodeId>::empty(), h) == 0);
    assert(seq![id].first() == id);
    assert(occ(seq![id], h) == if id == h {
        1nat
    } else {
        0nat
    });
    lemma_dfs_list_occ(t, id, ch, h);
    if h == id {
        assert(t.anc(id, id));
        assert forall|k: int| 0 <= k < ch.len() implies !t.anc(ch[k], id) by {
            if t.anc(ch[k], id) {
                lemma_anc_index(t, ch[k], id);
                assert(t.child_ok(id, k));
            }
        }
        assert(!(exists|k: int| 0 <= k < ch.len() && #[trigger] t.anc(ch[k], id)));
    } else {
        if t.anc(id, h) {
            lemma_anc_child(t, id, h);
            let c = choose|c: NodeId|
                t.live(c) && (#[trigger] t.node_at(c).parent) == Some(id) && t.anc(c, h);
            assert(t.node_ok(c));
            lemma_occ_exists(ch, c);
            let k = choose|k: int| 0 <= k < ch.len() && ch[k] == c;
            assert(t.anc(ch[k], h));
            assert(exists|k2: int| 0 <= k2 < ch.len() && #[trigger] t.anc(ch[k2], h));
        } else {
            assert forall|k: int| 0 <= k < ch.len() implies !t.anc(ch[k], h) by {
                if t.anc(ch[k], h) {
                    lemma_anc_lift(t, id, ch[k], h);
                }
            }
            assert(!(exists|k: int| 0 <= k < ch.len() && #[trigger] t.anc(ch[k], h)));
        }
    }
}

/// The listing of the subtrees of `ch` (distinct children of `p`) names `h`
/// exactly once when `h` descends from one of them, else not at all.
pub proof fn lemma_dfs_list_occ<T>(t: TreeV<T>, p: NodeId, ch: Seq<NodeId>, h: NodeId)
    requires
        t.wf(),
        t.live(p),
        t.live(h),
        t.list_conds(p, ch),
        forall|k: int| 0 <= k < ch.len() ==> (#[trigger] t.node_at(ch[k]).parent) == Some(p),
        forall|k1: int, k2: int| 0 <= k1 < k2 < ch.len() ==> ch[k1] != ch[k2],
    ensures
        occ(t.dfs_list(p, ch), h) == if exists|k: int|
            0 <= k < ch.len() && #[trigger] t.anc(ch[k], h) {
            1nat
        } else {
            0nat
        },
    decreases t.nodes.len() - p.0, 0int, ch.len(),
{
    if ch.len() == 0 {
        assert(occ(Seq::<NodeId>::empty(), h) == 0);
    } else {
        let rest = ch.drop_first();
        assert forall|k: int|
            0 <= k < rest.len() implies p.0 < (#[trigger] rest[k]).0 < t.nodes.len() && t.live(
            rest[k],
        ) by {
            assert(rest[k] == ch[k + 1]);
        }
        assert forall|k: int|
            0 <= k < rest.len() implies (#[trigger] t.node_at(rest[k]).parent) == Some(p) by {
            assert(rest[k] == ch[k + 1]);
        }
        assert forall|k1: int, k2: int| 0 <= k1 < k2 < rest.len() implies rest[k1] != rest[k2] by {
            assert(rest[k1] == ch[k1 + 1]);
            assert(rest[k2] == ch[k2 + 1]);
        }
        lemma_occ_concat(t.dfs_from(ch.first()), t.dfs_list(p, rest), h);
        lemma_dfs_from_occ(t, ch.first(), h);
        lemma_dfs_list_occ(t, p, rest, h);
        if t.anc(ch[0], h) {
            assert forall|k: int| 0 <= k < rest.len() implies !t.anc(rest[k], h) by {
                assert(rest[k] == ch[k + 1]);
                assert(ch[k + 1] != ch[0]);
                lemma_siblings_disjoint(t, ch[0], ch[k + 1], h);
            }
            assert(!(exists|k: int| 0 <= k < rest.len() && #[trigger] t.anc(rest[k], h)));
            assert(exists|k: int| 0 <= k < ch.len() && #[trigger] t.anc(ch[k], h)) by {
                assert(t.anc(ch[0], h));
            }
        } else {
            if exists|k: int| 0 <= k < rest.len() && #[trigger] t.anc(rest[k], h) {
                let k = choose|k: int| 0 <= k < rest.len() && #[trigger] t.anc(rest[k], h);
                assert(rest[k] == ch[k + 1]);
                assert(t.anc(ch[k + 1], h));
                assert(exists|k2: int| 0 <= k2 < ch.len() && #[trigger] t.anc(ch[k2], h));
            } else {
                if exists|k: int| 0 <= k < ch.len() && #[trigger] t.anc(ch[k], h) {
                    let k = choose|k: int| 0 <= k < ch.len() && #[trigger] t.anc(ch[k], h);
                    assert(k != 0);
                    assert(rest[k - 1] == ch[k]);
                    assert(t.anc(rest[k - 1], h));
                }
            }
        }
    }
}

impl<T> TreeV<T> {
    /// No handle in `q` descends from another: the subtrees rooted at the
    /// queued handles are pairwise disjoint.  Holds of every queue the
    /// level-order traversal builds.
    pub open spec fn independent(self, q: Seq<NodeId>) -> bool {
        forall|k1: int, k2: int|
            0 <= k1 < q.len() && 0 <= k2 < q.len() && k1 != k2 ==> !self.anc(
                #[trigger] q[k1],
                #[trigger] q[k2],
            )
    }
}

/// The level-order listing of a queue of independent live handles names `h`
/// exactly once when `h` descends from a queued handle, else not at all.
pub proof fn lemma_bfs_occ<T>(t: TreeV<T>, q: Seq<NodeId>, h: NodeId)
    requires
        t.wf(),
        t.all_live(q),
        t.independent(q),
        t.live(h),
    ensures
        occ(t.bfs_from(q), h) == if exists|k: int| 0 <= k < q.len() && #[trigger] t.anc(q[k], h) {
            1nat
        } else {
            0nat
        },
    decreases t.size_list(q),
{
    if q.len() == 0 {
        assert(t.bfs_from(q) == Seq::<NodeId>::empty());
        assert(occ(Seq::<NodeId>::empty(), h) == 0);
    } else {
        let q0 = q.first();
        let ch = t.node_at(q0).children;
        let rest = q.drop_first() + ch;
        lemma_bfs_step(t, q);
        lemma_children_conds(t, q0);
        assert(t.live(q0)) by {
            assert(q[0] == q0);
        }
        // children of q0 are its children, distinct, and allocated later
        assert forall|k: int|
            0 <= k < ch.len() implies (#[trigger] t.node_at(ch[k]).parent) == Some(q0) && t.live(
            ch[k],
        ) && q0.0 < ch[k].0 by {
            assert(t.node_ok(q0));
            assert(t.child_ok(q0, k));
        }
        assert forall|k1: int, k2: int| 0 <= k1 < k2 < ch.len() implies ch[k1] != ch[k2] by {
            if ch[k1] == ch[k2] {
                lemma_occ_dup(ch, k1, k2);
                assert(t.child_ok(q0, k1));
                assert(t.live(ch[k1]));
                assert(t.node_ok(ch[k1]));
            }
        }
        // the new queue is again independent
        assert forall|k1: int, k2: int|
            0 <= k1 < rest.len() && 0 <= k2 < rest.len() && k1 != k2 implies !t.anc(
            #[trigger] rest[k1],
            #[trigger] rest[k2],
        ) by {
            let d = q.drop_first().len() as int;
            if t.anc(rest[k1], rest[k2]) {
                if k1 < d && k2 < d {
                    assert(rest[k1] == q[k1 + 1] && rest[k2] == q[k2 + 1]);
                } else if k1 < d {
                    // a survivor cannot claim a fresh child: lifting would
                    // make it claim the dequeued handle as well
                    assert(rest[k2] == ch[k2 - d]);
                    lemma_anc_lift(t, q0, ch[k2 - d], rest[k1]);
                    assert(rest[k1] == q[k1 + 1] && q0 == q[0]);
                } else if k2 < d {
                    assert(rest[k1] == ch[k1 - d]);
                    lemma_anc_lift(t, q0, ch[k1 - d], rest[k2]);
                    assert(rest[k2] == q[k2 + 1] && q0 == q[0]);
                } else {
                    // two distinct fresh siblings
                    assert(rest[k1] == ch[k1 - d] && rest[k2] == ch[k2 - d]);
                    assert(t.anc(rest[k2], rest[k2]));
                    lemma_siblings_disjoint(t, rest[k1], rest[k2], rest[k2]);
                }
            }
        }
        assert forall|k: int| 0 <= k < rest.len() implies t.live(#[trigger] rest[k]) by {
            if k < q.drop_first().len() {
                assert(rest[k] == q[k + 1]);
            } else {
                assert(rest[k] == ch[k - q.drop_first().len()]);
            }
        }
        lemma_bfs_occ(t, rest, h);
        lemma_occ_concat(seq![q0], t.bfs_from(rest), h);
        assert(seq![q0].drop_first() =~= Seq::<NodeId>::empty());
        assert(occ(Seq::<NodeId>::empty(), h) == 0);
        assert(seq![q0].first() == q0);
        assert(occ(seq![q0], h) == if q0 == h {
            1nat
        } else {
            0nat
        });
        let d = q.drop_first().len() as int;
        if h == q0 {
            assert(t.anc(q0, q0));
            assert(q[0] == q0);
            assert(exists|k: int| 0 <= k < q.len() && #[trigger] t.anc(q[k], h));
            // nothing in the new queue reaches back up to the dequeued handle
            assert forall|k: int| 0 <= k < rest.len() implies !t.anc(rest[k], q0) by {
                if t.anc(rest[k], q0) {
                    if k < d {
                        assert(rest[k] == q[k + 1] && q0 == q[0]);
                    } else {
                        assert(rest[k] == ch[k - d]);
                        lemma_anc_index(t, rest[k], q0);
                    }
                }
            }
            assert(!(exists|k: int| 0 <= k < rest.len() && #[trigger] t.anc(rest[k], q0)));
        } else {
            if exists|k: int| 0 <= k < rest.len() && #[trigger] t.anc(rest[k], h) {
                let k = choose|k: int| 0 <= k < rest.len() && #[trigger] t.anc(rest[k], h);
                if k < d {
                    assert(rest[k] == q[k + 1]);
                    assert(t.anc(q[k + 1], h));
                } else {
                    assert(rest[k] == ch[k - d]);
                    lemma_anc_lift(t, q0, ch[k - d], h);
                    assert(q[0] == q0);
                    assert(t.anc(q[0], h));
                }
                assert(exists|k2: int| 0 <= k2 < q.len() && #[trigger] t.anc(q[k2], h));
            } else {
                if exists|k: int| 0 <= k < q.len() && #[trigger] t.anc(q[k], h) {
                    let k = choose|k: int| 0 <= k < q.len() && #[trigger] t.anc(q[k], h);
                    if k == 0 {
                        // h strictly below the dequeued handle: some fresh
                        // child claims it
                        lemma_anc_child(t, q0, h);
                        let c = choose|c: NodeId|
                            t.live(c) && (#[trigger] t.node_at(c).parent) == Some(q0) && t.anc(
                                c,
                                h,
                            );
                        assert(t.node_ok(c));
                        lemma_occ_exists(ch, c);
                        let j = choose|j: int| 0 <= j < ch.len() && ch[j] == c;
                        assert(rest[d + j] == c);
                        assert(t.anc(rest[d + j], h));
                    } else {
                        assert(rest[k - 1] == q[k]);
                        assert(t.anc(rest[k - 1], h));
                    }
                    assert(exists|k2: int| 0 <= k2 < rest.len() && #[trigger] t.anc(rest[k2], h));
                }
            }
        }
    }
}

/// `push` adds one occurrence of the pushed handle and none of any other.
pub proof fn lemma_occ_push(s: Seq<NodeId>, x: NodeId, v: NodeId)
    ensures
        occ(s.push(x), v) == occ(s, v) + (if x == v {
            1nat
        } else {
            0nat
        }),
    decreases s.len(),
{
    if s.len() == 0 {
        assert(s.push(x).drop_first() =~= s);
    } else {
        assert(s.push(x).drop_first() =~= s.drop_first().push(x));
        lemma_occ_push(s.drop_first(), x, v);
    }
}

/// A handle that matches no element of the sequence occurs zero times.
pub proof fn lemma_occ_absent(s: Seq<NodeId>, v: NodeId)
    requires
        forall|k: int| 0 <= k < s.len() ==> s[k] != v,
    ensures
        occ(s, v) == 0,
    decreases s.len(),
{
    if s.len() > 0 {
        lemma_occ_absent(s.drop_first(), v);
    }
}

/// Unfolding of `render_from` for a live node of a well-formed tree: its
/// own line, then its children's subtrees under the widened indentation.
pub proof fn lemma_render_from_unfold<T>(
    t: TreeV<T>,
    labels: Seq<Seq<char>>,
    id: NodeId,
    prefix: Seq<char>,
    last: bool,
)
    requires
        t.wf(),
        t.live(id),
    ensures
        t.render_from(labels, id, prefix, last) == prefix + connector(last) + labels[id.0 as int]
            + "\n"@ + t.render_list(labels, id, t.node_at(id).children, child_prefix(prefix, last)),
{
    lemma_children_conds(t, id);
}

} // verus!
