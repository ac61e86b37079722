//! The executable arena tree.
//!
//! `Tree<T>` owns a growable vector of node slots and an optional root
//! handle.  Every public operation is specified against the model in
//! `model`: the view of a tree is a `TreeV<T>`, and all contracts are stated
//! over that view.

use std::collections::VecDeque;

use vstd::prelude::*;
use vstd::string::StringExecFns;

use crate::model::{NodeId, NodeV, TreeV};
use crate::slots::{slots_view, Node};

verus! {

broadcast use
    crate::slots::lemma_slots_view_push,
    crate::slots::lemma_slots_view_update,
    vstd::std_specs::vec::axiom_spec_len;

/// The views of a vector of label strings, one per arena slot.
pub open spec fn str_views(ls: Seq<String>) -> Seq<Seq<char>> {
    ls.map_values(|s: String| s@)
}

/// `labels` assigns every live node of `t` a text that the label function
/// `f` can return for that node's payload.
pub open spec fn labels_for<T, F: Fn(&T) -> String>(
    t: TreeV<T>,
    f: F,
    labels: Seq<Seq<char>>,
) -> bool {
    &&& labels.len() == t.nodes.len()
    &&& forall|i: NodeId|
        #[trigger] t.live(i) ==> exists|s: String|
            call_ensures(f, (&t.node_at(i).data,), s) && s@ == labels[i.0 as int]
}

/// A safe, generic rooted tree backed by an arena of slots.
#[derive(Debug)]
pub struct Tree<T> {
    nodes: Vec<Option<Node<T>>>,
    root: Option<NodeId>,
}

impl<T> View for Tree<T> {
    type V = TreeV<T>;

    closed spec fn view(&self) -> TreeV<T> {
        TreeV { nodes: slots_view(self.nodes@), root: self.root }
    }
}

impl<T> Tree<T> {
    /// The tree's invariant: its model is well-formed.
    pub open spec fn wf(&self) -> bool {
        self@.wf()
    }

    /// Create an empty tree.
    pub fn new() -> (t: Self)
        ensures
            t.wf(),
            t@.nodes == Seq::<Option<NodeV<T>>>::empty(),
            t@.root is None,
    {
        let t = Tree { nodes: Vec::new(), root: None };
        proof {
            assert(t@.nodes =~= Seq::<Option<NodeV<T>>>::empty());
        }
        t
    }
}

impl<T> Tree<T> {
    /// Append a fresh slot holding `node` and return its handle.
    fn alloc_slot(&mut self, node: Node<T>) -> (id: NodeId)
        ensures
            final(self)@.nodes == old(self)@.nodes.push(Some(node@)),
            final(self)@.root == old(self)@.root,
            id.0 == old(self)@.nodes.len(),
    {
        let id = NodeId(self.nodes.len());
        self.nodes.push(Some(node));
        id
    }

    /// Shared access to the node a live handle refers to.
    fn node(&self, id: NodeId) -> (n: &Node<T>)
        requires
            self@.live(id),
        ensures
            n@ == self@.node_at(id),
    {
        match &self.nodes[id.0] {
            Some(n) => n,
            None => unreached(),
        }
    }

    /// Exclusive access to the node a live handle refers to.
    fn node_mut(&mut self, id: NodeId) -> (n: &mut Node<T>)
        requires
            old(self)@.live(id),
        ensures
            (*n)@ == old(self)@.node_at(id),
            final(self)@.nodes == old(self)@.nodes.update(id.0 as int, Some((*final(n))@)),
            final(self)@.root == old(self)@.root,
    {
        match &mut self.nodes[id.0] {
            Some(n) => n,
            None => unreached(),
        }
    }

    /// Create the root node and return its handle.  Calling this on a tree
    /// that already has a root is a caller fault, excluded here by
    /// precondition: a verified caller cannot set the root twice.
    pub fn set_root(&mut self, data: T) -> (id: NodeId)
        requires
            old(self).wf(),
            old(self)@.root is None,
        ensures
            final(self).wf(),
            final(self)@ == old(self)@.root_set(data),
            id == old(self)@.next_id(),
            final(self)@.root == Some(id),
            final(self)@.live(id),
            final(self)@.node_at(id).data == data,
    {
        let node = Node { data, parent: None, children: Vec::new() };
        proof {
            crate::laws::lemma_root_set_wf(self@, node@.data);
        }
        let ghost t0 = self@;
        let ghost nv = node@;
        let id = self.alloc_slot(node);
        self.root = Some(id);
        proof {
            assert(self@ =~~= t0.root_set(nv.data));
        }
        id
    }

    /// Add a child carrying `data` under the live node `parent`; the new
    /// handle is returned and appended at the end of the parent's child
    /// list.  A dead or out-of-range parent handle is a caller fault,
    /// excluded here by precondition.
    pub fn add_child(&mut self, parent: NodeId, data: T) -> (id: NodeId)
        requires
            old(self).wf(),
            old(self)@.live(parent),
        ensures
            final(self).wf(),
            final(self)@ == old(self)@.child_added(parent, data),
            id == old(self)@.next_id(),
            final(self)@.live(id),
            final(self)@.node_at(id).parent == Some(parent),
            final(self)@.node_at(id).data == data,
            final(self)@.node_at(id).children == Seq::<NodeId>::empty(),
            final(self)@.node_at(parent).children == old(self)@.node_at(parent).children.push(id),
            final(self)@.root == old(self)@.root,
    {
        let ghost t0 = self@;
        let node = Node { data, parent: Some(parent), children: Vec::new() };
        proof {
            assert(self.nodes.len() == self@.nodes.len());
            crate::laws::lemma_child_added_wf(self@, parent, node@.data);
        }
        let ghost nv = node@;
        let id = self.alloc_slot(node);
        let p = self.node_mut(parent);
        p.children.push(id);
        proof {
            assert(self@ =~~= t0.child_added(parent, nv.data));
        }
        id
    }

    /// Read access to the payload of a live node.  A dead or out-of-range
    /// handle is a caller fault, excluded here by precondition.
    pub fn get(&self, id: NodeId) -> (d: &T)
        requires
            self.wf(),
            self@.live(id),
        ensures
            *d == self@.node_at(id).data,
    {
        &self.node(id).data
    }

    /// Write access to the payload of a live node: the final tree holds
    /// whatever the caller leaves behind the returned reference, and no
    /// other slot changes.  `laws::lemma_payload_set_wf` shows that any such
    /// write keeps the tree well-formed.
    pub fn get_mut(&mut self, id: NodeId) -> (d: &mut T)
        requires
            old(self).wf(),
            old(self)@.live(id),
        ensures
            *d == old(self)@.node_at(id).data,
            final(self)@ == old(self)@.payload_set(id, *final(d)),
    {
        &mut self.node_mut(id).data
    }

    /// Pre-order depth-first listing of all handles, starting at the root:
    /// each node before its children, children left to right in insertion
    /// order.  Empty when the tree has no root.
    pub fn dfs(&self) -> (out: Vec<NodeId>)
        requires
            self.wf(),
        ensures
            out@ == self@.dfs(),
    {
        let mut out: Vec<NodeId> = Vec::new();
        if let Some(root) = self.root {
            self.dfs_rec(root, &mut out);
            proof {
                assert(out@ =~= self@.dfs_from(root));
            }
        }
        out
    }

    /// Append the pre-order listing of the subtree at `id` to `out`.
    fn dfs_rec(&self, id: NodeId, out: &mut Vec<NodeId>)
        requires
            self.wf(),
            self@.live(id),
        ensures
            final(out)@ == old(out)@ + self@.dfs_from(id),
        decreases self@.nodes.len() - id.0,
    {
        out.push(id);
        let ch: &Vec<NodeId> = &self.node(id).children;
        let n = ch.len();
        proof {
            crate::model::lemma_children_conds(self@, id);
            assert(ch@.skip(0) =~= ch@);
            assert((old(out)@ + seq![id]) + self@.dfs_list(id, ch@) =~= old(out)@ + (seq![id]
                + self@.dfs_list(id, ch@)));
            assert(out@ =~= old(out)@ + seq![id]);
        }
        for k in 0..n
            invariant
                self.wf(),
                self@.live(id),
                n == ch@.len(),
                ch@ == self@.node_at(id).children,
                out@ + self@.dfs_list(id, ch@.skip(k as int)) == old(out)@ + self@.dfs_from(id),
        {
            proof {
                assert(self@.node_ok(id));
                assert(self@.child_ok(id, k as int));
                crate::model::lemma_dfs_list_step(self@, id, k as int);
            }
            let ghost pre_out = out@;
            self.dfs_rec(ch[k], out);
            proof {
                assert(out@ + self@.dfs_list(id, ch@.skip(k as int + 1)) =~= pre_out
                    + self@.dfs_list(id, ch@.skip(k as int)));
            }
        }
        proof {
            assert(ch@.skip(n as int) =~= Seq::<NodeId>::empty());
            assert(out@ + self@.dfs_list(id, Seq::<NodeId>::empty()) =~= out@);
        }
    }

    /// Level-order listing of all handles: the root, then its children in
    /// insertion order, then all grandchildren grouped by parent, and so on,
    /// driven by a first-in-first-out queue.  Empty when the tree has no
    /// root.
    #[verifier::rlimit(60)]
    pub fn bfs(&self) -> (out: Vec<NodeId>)
        requires
            self.wf(),
        ensures
            out@ == self@.bfs(),
    {
        let mut out: Vec<NodeId> = Vec::new();
        if let Some(root) = self.root {
            let mut queue: VecDeque<NodeId> = VecDeque::new();
            queue.push_back(root);
            proof {
                assert(queue@ =~= seq![root]);
                assert(out@ + self@.bfs_from(queue@) =~= self@.bfs_from(seq![root]));
            }
            while queue.len() != 0
                invariant
                    self.wf(),
                    self@.root == Some(root),
                    self@.all_live(queue@),
                    out@ + self@.bfs_from(queue@) == self@.bfs_from(seq![root]),
                decreases self@.size_list(queue@),
            {
                let ghost qpre = queue@;
                let ghost opre = out@;
                proof {
                    crate::model::lemma_bfs_step(self@, qpre);
                    assert(self@.live(qpre[0]));
                }
                let id = queue.pop_front().unwrap();
                out.push(id);
                let ch: &Vec<NodeId> = &self.node(id).children;
                let n = ch.len();
                proof {
                    assert(queue@ =~= qpre.drop_first() + ch@.take(0));
                }
                for k in 0..n
                    invariant
                        self.wf(),
                        self@.live(id),
                        n == ch@.len(),
                        ch@ == self@.node_at(id).children,
                        queue@ == qpre.drop_first() + ch@.take(k as int),
                {
                    queue.push_back(ch[k]);
                    proof {
                        assert(queue@ =~= qpre.drop_first() + ch@.take(k as int + 1));
                    }
                }
                proof {
                    assert(queue@ =~= qpre.drop_first() + self@.node_at(id).children);
                    assert(out@ =~= opre + seq![id]);
                    assert(out@ + self@.bfs_from(queue@) =~= opre + self@.bfs_from(qpre));
                }
            }
            proof {
                assert(self@.bfs_from(queue@) =~= Seq::<NodeId>::empty());
                assert(out@ + Seq::<NodeId>::empty() =~= out@);
            }
        }
        out
    }

    /// Render the whole tree as one text block in the conventional
    /// directory-listing style: one line per node in `dfs` order, the root's
    /// bare label first, every other node indented by its ancestors'
    /// continuation columns and introduced by a branch connector.  `label`
    /// maps a payload to its display text; the contract promises exactly the
    /// rendering of some per-node labels the function can return.  Empty
    /// when the tree has no root.
    pub fn fmt_tree<F: Fn(&T) -> String>(&self, label: F) -> (out: String)
        requires
            self.wf(),
            forall|i: NodeId|
                #[trigger] self@.live(i) ==> call_requires(label, (&self@.node_at(i).data,)),
        ensures
            exists|labels: Seq<Seq<char>>|
                #[trigger] labels_for(self@, label, labels) && out@ == self@.render(labels),
    {
        let nlen = self.nodes.len();
        let mut labels: Vec<String> = Vec::new();
        for i in 0..nlen
            invariant
                self.wf(),
                forall|j: NodeId|
                    #[trigger] self@.live(j) ==> call_requires(label, (&self@.node_at(j).data,)),
                nlen == self@.nodes.len(),
                labels@.len() == i,
                forall|j: NodeId|
                    j.0 < i && #[trigger] self@.live(j) ==> exists|s: String|
                        call_ensures(label, (&self@.node_at(j).data,), s) && s@ == labels@[
                            j.0 as int
                        ]@,
        {
            match &self.nodes[i] {
                Some(n) => {
                    proof {
                        assert(self@.live(NodeId(i)));
                        assert(self@.node_at(NodeId(i)) == n@);
                    }
                    let s = label(&n.data);
                    labels.push(s);
                }
                None => {
                    labels.push(String::new());
                },
            }
        }
        let ghost glabels = str_views(labels@);
        proof {
            assert(labels_for(self@, label, glabels));
        }
        let mut out = String::new();
        if let Some(root) = self.root {
            out.append(labels[root.0].as_str());
            out.append("\n");
            let prefix = String::new();
            self.fmt_children(&labels, root, &prefix, &mut out);
            proof {
                assert(out@ =~= self@.render(glabels));
            }
        }
        out
    }

    /// Append one rendered line for the non-root node `id`, and the rendered
    /// subtrees of its children, to `out`.
    fn fmt_node(
        &self,
        labels: &Vec<String>,
        id: NodeId,
        prefix: &String,
        last: bool,
        out: &mut String,
    )
        requires
            self.wf(),
            self@.live(id),
            labels@.len() == self@.nodes.len(),
        ensures
            final(out)@ == old(out)@ + self@.render_from(str_views(labels@), id, prefix@, last),
        decreases self@.nodes.len() - id.0, 1int,
    {
        out.append(prefix.as_str());
        if last {
            out.append("└── ");
        } else {
            out.append("├── ");
        }
        out.append(labels[id.0].as_str());
        out.append("\n");
        let mut cp = prefix.clone();
        if last {
            cp.append("    ");
        } else {
            cp.append("│   ");
        }
        proof {
            assert(cp@ == crate::model::child_prefix(prefix@, last));
            assert(out@ =~= old(out)@ + (prefix@ + crate::model::connector(last) + str_views(
                labels@,
            )[id.0 as int] + "\n"@));
        }
        self.fmt_children(labels, id, &cp, out);
        proof {
            let lv = str_views(labels@);
            let line = prefix@ + crate::model::connector(last) + lv[id.0 as int] + "\n"@;
            let rl = self@.render_list(
                lv,
                id,
                self@.node_at(id).children,
                crate::model::child_prefix(prefix@, last),
            );
            crate::model::lemma_render_from_unfold(self@, lv, id, prefix@, last);
            assert(out@ =~= (old(out)@ + line) + rl);
            assert((old(out)@ + line) + rl =~= old(out)@ + (line + rl));
        }
    }

    /// Append the rendered subtrees of `p`'s children to `out`, each line
    /// indented by `prefix`.
    fn fmt_children(&self, labels: &Vec<String>, p: NodeId, prefix: &String, out: &mut String)
        requires
            self.wf(),
            self@.live(p),
            labels@.len() == self@.nodes.len(),
        ensures
            final(out)@ == old(out)@ + self@.render_list(
                str_views(labels@),
                p,
                self@.node_at(p).children,
                prefix@,
            ),
        decreases self@.nodes.len() - p.0, 0int,
    {
        let ch: &Vec<NodeId> = &self.node(p).children;
        let n = ch.len();
        proof {
            crate::model::lemma_children_conds(self@, p);
            assert(ch@.skip(0) =~= ch@);
        }
        for k in 0..n
            invariant
                self.wf(),
                self@.live(p),
                labels@.len() == self@.nodes.len(),
                n == ch@.len(),
                ch@ == self@.node_at(p).children,
                out@ + self@.render_list(str_views(labels@), p, ch@.skip(k as int), prefix@)
                    == old(out)@ + self@.render_list(str_views(labels@), p, ch@, prefix@),
        {
            proof {
                assert(self@.node_ok(p));
                assert(self@.child_ok(p, k as int));
                crate::model::lemma_render_list_step(
                    self@,
                    str_views(labels@),
                    p,
                    prefix@,
                    k as int,
                );
            }
            let is_last = k + 1 == n;
            let ghost pre_out = out@;
            self.fmt_node(labels, ch[k], prefix, is_last, out);
            proof {
                assert(out@ + self@.render_list(
                    str_views(labels@),
                    p,
                    ch@.skip(k as int + 1),
                    prefix@,
                ) =~= pre_out + self@.render_list(
                    str_views(labels@),
                    p,
                    ch@.skip(k as int),
                    prefix@,
                ));
            }
        }
        proof {
            assert(ch@.skip(n as int) =~= Seq::<NodeId>::empty());
            assert(out@ + self@.render_list(
                str_views(labels@),
                p,
                Seq::<NodeId>::empty(),
                prefix@,
            ) =~= out@);
        }
    }

    /// The parent handle of a live node, or `None` for the root.
    pub fn parent(&self, id: NodeId) -> (p: Option<NodeId>)
        requires
            self.wf(),
            self@.live(id),
        ensures
            p == self@.node_at(id).parent,
    {
        self.node(id).parent
    }

    /// The child handles of a live node, in insertion order.
    pub fn children(&self, id: NodeId) -> (ch: &Vec<NodeId>)
        requires
            self.wf(),
            self@.live(id),
        ensures
            ch@ == self@.node_at(id).children,
    {
        &self.node(id).children
    }
}

impl<T> Default for Tree<T> {
    /// An empty tree, the same value `new` returns.
    fn default() -> (t: Self)
        ensures
            t.wf(),
            t@.nodes == Seq::<Option<NodeV<T>>>::empty(),
            t@.root is None,
    {
        Tree::new()
    }
}

} // verus!
