//! Laws of the arena tree, proved over the model in `model`.

use vstd::prelude::*;

use crate::model::{lemma_occ_absent, lemma_occ_push, occ, NodeId, NodeV, TreeV};

verus! {

/// Law: setting the root of an empty, well-formed tree yields a well-formed
/// tree whose only node is the new parentless, childless root.
pub proof fn lemma_root_set_wf<T>(t: TreeV<T>, d: T)
    requires
        t.wf(),
        t.root is None,
    ensures
        t.root_set(d).wf(),
        t.root_set(d).live(t.next_id()),
        t.root_set(d).node_at(t.next_id()).data == d,
        t.root_set(d).node_at(t.next_id()).parent is None,
        t.root_set(d).node_at(t.next_id()).children == Seq::<NodeId>::empty(),
{
    let t2 = t.root_set(d);
    let r = t.next_id();
    assert(t.nodes.len() == 0);
    assert forall|id: NodeId| t2.live(id) implies t2.node_ok(id) by {
        assert(id.0 == 0);
        assert(id == r);
        assert forall|k: int| 0 <= k < t2.node_at(id).children.len() implies #[trigger] t2.child_ok(
            id,
            k,
        ) by {}
    }
}

/// Law: adding a child under a live parent of a well-formed tree yields a
/// well-formed tree; the fresh node carries the given payload, points at its
/// parent, has no children yet, and stands appended at the end of the
/// parent's child list; the root and every other node are untouched.
#[verifier::rlimit(100)]
pub proof fn lemma_child_added_wf<T>(t: TreeV<T>, p: NodeId, d: T)
    requires
        t.wf(),
        t.live(p),
        t.nodes.len() <= usize::MAX,
    ensures
        t.child_added(p, d).wf(),
        t.child_added(p, d).live(t.next_id()),
        t.child_added(p, d).node_at(t.next_id()) == (NodeV {
            data: d,
            parent: Some(p),
            children: Seq::<NodeId>::empty(),
        }),
        t.child_added(p, d).node_at(p).children == t.node_at(p).children.push(t.next_id()),
        t.child_added(p, d).node_at(p).data == t.node_at(p).data,
        t.child_added(p, d).node_at(p).parent == t.node_at(p).parent,
        t.child_added(p, d).root == t.root,
        forall|j: NodeId|
            t.live(j) && j != p ==> t.child_added(p, d).nodes[j.0 as int] == t.nodes[j.0 as int],
{
    let t2 = t.child_added(p, d);
    let c = t.next_id();
    assert(t.node_ok(p));
    assert forall|id: NodeId| t2.live(id) implies t2.node_ok(id) by {
        if id == c {
            // the fresh child: listed exactly once at the end of p's list
            assert forall|k: int|
                0 <= k < t.node_at(p).children.len() implies t.node_at(p).children[k] != c by {
                assert(t.child_ok(p, k));
            }
            lemma_occ_absent(t.node_at(p).children, c);
            lemma_occ_push(t.node_at(p).children, c, c);
        } else if id == p {
            // the parent: its own links are unchanged, its list grew by c
            if t.node_at(p).parent is Some {
                let pp = t.node_at(p).parent->0;
                assert(t2.node_at(pp).children == t.node_at(pp).children);
            }
            assert forall|k: int|
                0 <= k < t2.node_at(p).children.len() implies #[trigger] t2.child_ok(p, k) by {
                if k < t.node_at(p).children.len() {
                    assert(t.child_ok(p, k));
                    assert(t2.node_at(p).children[k] == t.node_at(p).children[k]);
                } else {
                    assert(t2.node_at(p).children[k] == c);
                }
            }
        } else {
            // any other node: untouched, and its parent's list only ever
            // grew at the far end when that parent is p
            assert(t.live(id));
            assert(t.node_ok(id));
            assert(t2.node_at(id) == t.node_at(id));
            if t.node_at(id).parent is Some {
                let pp = t.node_at(id).parent->0;
                if pp == p {
                    lemma_occ_push(t.node_at(p).children, c, id);
                } else {
                    assert(t2.node_at(pp).children == t.node_at(pp).children);
                }
            }
            assert forall|k: int|
                0 <= k < t2.node_at(id).children.len() implies #[trigger] t2.child_ok(id, k) by {
                assert(t.child_ok(id, k));
            }
        }
    }
}

/// Law: the parent of a freshly added child is exactly the handle it was
/// added under.
pub proof fn lemma_added_child_parent<T>(t: TreeV<T>, p: NodeId, d: T)
    requires
        t.wf(),
        t.live(p),
        t.nodes.len() <= usize::MAX,
    ensures
        t.child_added(p, d).node_at(t.next_id()).parent == Some(p),
{
}

/// Law: in a well-formed tree, every live handle other than the root appears
/// exactly once in the child list of its parent, and that parent is live.
pub proof fn lemma_child_listed_once<T>(t: TreeV<T>, h: NodeId)
    requires
        t.wf(),
        t.live(h),
        t.root != Some(h),
    ensures
        t.node_at(h).parent is Some,
        t.live(t.node_at(h).parent->0),
        occ(t.node_at(t.node_at(h).parent->0).children, h) == 1,
{
    assert(t.node_ok(h));
}

/// Law: writing one node's payload preserves well-formedness, changes that
/// payload to the written value, and leaves every link and every other
/// node's slot exactly as it was.
pub proof fn lemma_payload_set_wf<T>(t: TreeV<T>, id: NodeId, d: T)
    requires
        t.wf(),
        t.live(id),
    ensures
        t.payload_set(id, d).wf(),
        t.payload_set(id, d).live(id),
        t.payload_set(id, d).node_at(id).data == d,
        t.payload_set(id, d).node_at(id).parent == t.node_at(id).parent,
        t.payload_set(id, d).node_at(id).children == t.node_at(id).children,
        t.payload_set(id, d).root == t.root,
        t.payload_set(id, d).nodes.len() == t.nodes.len(),
        forall|j: NodeId|
            t.live(j) && j != id ==> t.payload_set(id, d).nodes[j.0 as int] == t.nodes[j.0 as int],
{
    let t2 = t.payload_set(id, d);
    assert forall|j: NodeId| t2.live(j) implies t2.node_ok(j) by {
        assert(t.live(j));
        assert(t.node_ok(j));
        assert(t2.node_at(j).parent == t.node_at(j).parent);
        assert(t2.node_at(j).children == t.node_at(j).children);
        if t.node_at(j).parent is Some {
            let pp = t.node_at(j).parent->0;
            assert(t2.node_at(pp).children == t.node_at(pp).children);
        }
        assert forall|k: int|
            0 <= k < t2.node_at(j).children.len() implies #[trigger] t2.child_ok(j, k) by {
            assert(t.child_ok(j, k));
        }
    }
}

/// Law: the depth-first listing visits every node of the tree exactly once
/// — every live handle appears in `dfs()`, and none appears twice.
pub proof fn lemma_dfs_lists_each_node_once<T>(t: TreeV<T>, h: NodeId)
    requires
        t.wf(),
        t.live(h),
    ensures
        occ(t.dfs(), h) == 1,
{
    let r = t.root->0;
    crate::model::lemma_anc_root(t, h);
    crate::model::lemma_dfs_from_occ(t, r, h);
}

/// Law: the level-order listing, too, visits every node of the tree exactly
/// once — every live handle appears in `bfs()`, and none appears twice.
pub proof fn lemma_bfs_lists_each_node_once<T>(t: TreeV<T>, h: NodeId)
    requires
        t.wf(),
        t.live(h),
    ensures
        occ(t.bfs(), h) == 1,
{
    let r = t.root->0;
    assert(t.all_live(seq![r])) by {
        assert forall|k: int| 0 <= k < seq![r].len() implies t.live(#[trigger] seq![r][k]) by {
            assert(seq![r][k] == r);
        }
    }
    assert(t.independent(seq![r]));
    crate::model::lemma_anc_root(t, h);
    crate::model::lemma_bfs_occ(t, seq![r], h);
    assert(exists|k: int| 0 <= k < seq![r].len() && #[trigger] t.anc(seq![r][k], h)) by {
        assert(seq![r][0] == r);
        assert(t.anc(seq![r][0], h));
    }
}

/// Law: both traversals list the same number of handles — one entry per
/// node of the tree, whatever order each of them chooses.
pub proof fn lemma_traversals_same_length<T>(t: TreeV<T>)
    requires
        t.wf(),
    ensures
        t.dfs().len() == t.bfs().len(),
{
    if t.root is Some {
        let r = t.root->0;
        assert(t.all_live(seq![r])) by {
            assert forall|k: int| 0 <= k < seq![r].len() implies t.live(#[trigger] seq![r][k]) by {
                assert(seq![r][k] == r);
            }
        }
        crate::model::lemma_bfs_len(t, seq![r]);
        assert(t.size_list(seq![r]) == t.size_of(r) + t.size_list(seq![r].drop_first()));
        assert(seq![r].drop_first() =~= Seq::<NodeId>::empty());
    }
}

/// Law: a well-formed tree without a root holds no nodes: both traversals
/// and any rendering of it are empty.
pub proof fn lemma_empty_tree<T>(t: TreeV<T>, labels: Seq<Seq<char>>)
    requires
        t.wf(),
        t.root is None,
    ensures
        t.dfs() == Seq::<NodeId>::empty(),
        t.bfs() == Seq::<NodeId>::empty(),
        t.render(labels) == Seq::<char>::empty(),
{
}

/// Law: in a well-formed tree holding only a root, both traversals list
/// exactly the root, and the rendering is the root's label and a line break.
pub proof fn lemma_root_only_tree<T>(t: TreeV<T>, r: NodeId, labels: Seq<Seq<char>>)
    requires
        t.wf(),
        t.root == Some(r),
        t.nodes.len() == 1,
    ensures
        t.dfs() == seq![r],
        t.bfs() == seq![r],
        t.render(labels) == labels[r.0 as int] + "\n"@,
{
    assert(t.node_ok(r));
    let ch = t.node_at(r).children;
    assert(ch.len() == 0) by {
        if ch.len() > 0 {
            assert(t.child_ok(r, 0));
        }
    }
    crate::model::lemma_children_conds(t, r);
    assert(t.dfs_from(r) =~= seq![r]);
    assert(t.all_live(seq![r])) by {
        assert forall|k: int| 0 <= k < seq![r].len() implies t.live(#[trigger] seq![r][k]) by {
            assert(seq![r][k] == r);
        }
    }
    crate::model::lemma_bfs_step(t, seq![r]);
    assert(seq![r].drop_first() + ch =~= Seq::<NodeId>::empty());
    assert(t.bfs_from(Seq::<NodeId>::empty()) == Seq::<NodeId>::empty());
    assert(t.bfs() =~= seq![r]);
    assert(t.render(labels) =~= labels[r.0 as int] + "\n"@);
}

} // verus!
