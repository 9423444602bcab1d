//! Mathematical model of the scene graph: ghost views of nodes and of the
//! whole store, the well-formedness predicate, and the transformers that the
//! executable operations are specified against.

use vstd::prelude::*;

verus! {

/// Model of one node: its own identifier, the identifier of its parent (if
/// attached), and the identifiers of its direct children in display order.
#[verifier::ext_equal]
pub struct NodeView {
    pub id: u128,
    pub parent: Option<u128>,
    pub childs: Seq<u128>,
}

/// Model of the whole store: the node map and the distinguished root.
#[verifier::ext_equal]
pub struct GraphView {
    pub nodes: Map<u128, NodeView>,
    pub root: u128,
}

/// A child entry `c` under `p` is sound: the child exists and points back at
/// `p` as its parent.
pub open spec fn child_ok(nodes: Map<u128, NodeView>, p: u128, c: u128) -> bool {
    &&& nodes.contains_key(c)
    &&& nodes[c].parent == Some(p)
}

/// One node is sound: it records its own key as its identifier, lists no
/// child twice, and every listed child exists and points back at it.
pub open spec fn node_ok(nodes: Map<u128, NodeView>, p: u128) -> bool {
    &&& nodes[p].id == p
    &&& nodes[p].childs.no_duplicates()
    &&& forall|i: int|
        0 <= i < nodes[p].childs.len() ==> child_ok(nodes, p, #[trigger] nodes[p].childs[i])
}

/// Well-formedness of the store: the root is present with no parent, and
/// every node is sound. Parent links are allowed to dangle (a node orphaned
/// by a non-recursive delete keeps its stale parent id), but child lists
/// never do: every listed child exists and points back at its parent.
pub open spec fn graph_wf(g: GraphView) -> bool {
    &&& g.nodes.contains_key(g.root)
    &&& g.nodes[g.root].parent is None
    &&& forall|p: u128| #[trigger] g.nodes.contains_key(p) ==> node_ok(g.nodes, p)
}

/// The store after adding a brand-new detached node under identifier `id`.
pub open spec fn with_new_node(g: GraphView, id: u128) -> GraphView {
    GraphView {
        nodes: g.nodes.insert(id, NodeView { id, parent: None, childs: Seq::empty() }),
        root: g.root,
    }
}

/// The store after detaching `id`: `id` leaves its former parent's child
/// list and its parent link is cleared. Unknown ids change nothing, and a
/// dangling parent link is simply cleared.
pub open spec fn detach(g: GraphView, id: u128) -> GraphView {
    if !g.nodes.contains_key(id) {
        g
    } else {
        let n1 = match g.nodes[id].parent {
            Some(p) => if g.nodes.contains_key(p) {
                g.nodes.insert(
                    p,
                    NodeView {
                        id: g.nodes[p].id,
                        parent: g.nodes[p].parent,
                        childs: g.nodes[p].childs.remove_value(id),
                    },
                )
            } else {
                g.nodes
            },
            None => g.nodes,
        };
        GraphView {
            nodes: n1.insert(
                id,
                NodeView { id: n1[id].id, parent: None, childs: n1[id].childs },
            ),
            root: g.root,
        }
    }
}

/// The store after attaching a detached node `id` below `parent`: `id`'s
/// parent link is set, and `id` is appended at the end of `parent`'s child
/// list when `parent` exists. An unknown `id` changes nothing.
pub open spec fn attach(g: GraphView, id: u128, parent: u128) -> GraphView {
    if !g.nodes.contains_key(id) {
        g
    } else {
        let n1 = g.nodes.insert(
            id,
            NodeView { id: g.nodes[id].id, parent: Some(parent), childs: g.nodes[id].childs },
        );
        if n1.contains_key(parent) {
            GraphView {
                nodes: n1.insert(
                    parent,
                    NodeView {
                        id: n1[parent].id,
                        parent: n1[parent].parent,
                        childs: n1[parent].childs.push(id),
                    },
                ),
                root: g.root,
            }
        } else {
            GraphView { nodes: n1, root: g.root }
        }
    }
}

/// The store after deleting `id` outright: `id` is detached from its former
/// parent and removed from the map. Its own children stay behind with their
/// now-dangling parent links.
pub open spec fn without_node(g: GraphView, id: u128) -> GraphView {
    GraphView { nodes: detach(g, id).nodes.remove(id), root: g.root }
}

/// The store after moving `id` to position `index` among its siblings: `id`
/// leaves its current position in its parent's child list and is reinserted
/// at `index`, clamped to the end of the list. A node with no parent, an
/// unknown node, or one whose parent is unknown is left unchanged.
pub open spec fn reordered(g: GraphView, index: int, id: u128) -> GraphView {
    if !g.nodes.contains_key(id) {
        g
    } else {
        match g.nodes[id].parent {
            Some(p) => if g.nodes.contains_key(p) {
                let removed = g.nodes[p].childs.remove_value(id);
                let at = if index <= removed.len() {
                    index
                } else {
                    removed.len() as int
                };
                GraphView {
                    nodes: g.nodes.insert(
                        p,
                        NodeView {
                            id: g.nodes[p].id,
                            parent: g.nodes[p].parent,
                            childs: removed.insert(at, id),
                        },
                    ),
                    root: g.root,
                }
            } else {
                g
            },
            None => g,
        }
    }
}

/// What removing the first occurrence of `v` does to a duplicate-free
/// sequence: the result is duplicate-free, no longer holds `v`, and holds
/// exactly the other elements.
pub proof fn lemma_remove_value_props(s: Seq<u128>, v: u128)
    requires
        s.no_duplicates(),
    ensures
        s.remove_value(v).no_duplicates(),
        !s.remove_value(v).contains(v),
        forall|x: u128| x != v ==> (s.remove_value(v).contains(x) <==> s.contains(x)),
        forall|i: int|
            0 <= i < s.remove_value(v).len() ==> s.contains(#[trigger] s.remove_value(v)[i]),
        !s.contains(v) ==> s.remove_value(v) == s,
        s.contains(v) ==> s.remove_value(v).len() == s.len() - 1,
{
    s.index_of_first_ensures(v);
    match s.index_of_first(v) {
        Some(n) => {
            s.remove_ensures(n);
            let r = s.remove(n);
            assert forall|i: int| 0 <= i < r.len() implies s.contains(#[trigger] r[i]) by {
                if i < n {
                    assert(r[i] == s[i]);
                } else {
                    assert(r[i] == s[i + 1]);
                }
            };
            assert forall|i: int, j: int|
                0 <= i < r.len() && 0 <= j < r.len() && i != j implies r[i] != r[j] by {
                let si: int = if i < n { i } else { i + 1 };
                let sj: int = if j < n { j } else { j + 1 };
                assert(r[i] == s[si] && r[j] == s[sj]);
            };
            assert forall|i: int| 0 <= i < r.len() implies r[i] != v by {
                let si: int = if i < n { i } else { i + 1 };
                assert(r[i] == s[si]);
                assert(s[si] != s[n]);
            };
            assert forall|x: u128| x != v && s.contains(x) implies r.contains(x) by {
                let i = choose|i: int| 0 <= i < s.len() && s[i] == x;
                if i < n {
                    assert(r[i] == x);
                } else {
                    assert(r[i - 1] == x);
                }
            };
        },
        None => {},
    }
}

/// What inserting `v` at a position does to a duplicate-free sequence that
/// lacks `v`: the result is duplicate-free and holds the old elements plus
/// `v`.
pub proof fn lemma_insert_props(s: Seq<u128>, at: int, v: u128)
    requires
        s.no_duplicates(),
        !s.contains(v),
        0 <= at <= s.len(),
    ensures
        s.insert(at, v).no_duplicates(),
        s.insert(at, v).contains(v),
        forall|i: int|
            0 <= i < s.insert(at, v).len() ==> (s.contains(#[trigger] s.insert(at, v)[i])
                || s.insert(at, v)[i] == v),
        forall|x: u128| s.contains(x) ==> s.insert(at, v).contains(x),
{
    s.insert_ensures(at, v);
    let r = s.insert(at, v);
    assert forall|i: int| 0 <= i < r.len() implies (s.contains(#[trigger] r[i]) || r[i] == v) by {
        if i < at {
            assert(r[i] == s[i]);
        } else if i == at {
        } else {
            assert(r[i] == s[i - 1]);
        }
    };
    assert forall|i: int, j: int|
        0 <= i < r.len() && 0 <= j < r.len() && i != j implies r[i] != r[j] by {
        if i < at {
            assert(r[i] == s[i]);
        } else if i > at {
            assert(r[i] == s[i - 1]);
        }
        if j < at {
            assert(r[j] == s[j]);
        } else if j > at {
            assert(r[j] == s[j - 1]);
        }
    };
    assert(r[at] == v);
    assert forall|x: u128| s.contains(x) implies r.contains(x) by {
        let i = choose|i: int| 0 <= i < s.len() && s[i] == x;
        if i < at {
            assert(r[i] == x);
        } else {
            assert(r[i + 1] == x);
        }
    };
}

/// Adding a brand-new node preserves well-formedness: the newcomer is
/// detached and childless, and no existing child list can name it.
pub proof fn lemma_with_new_node_wf(g: GraphView, id: u128)
    requires
        graph_wf(g),
        !g.nodes.contains_key(id),
    ensures
        graph_wf(with_new_node(g, id)),
{
    let g2 = with_new_node(g, id);
    assert forall|p: u128| #[trigger] g2.nodes.contains_key(p) implies node_ok(g2.nodes, p) by {
        if p == id {
            assert(g2.nodes[p].childs.len() == 0);
        } else {
            assert(node_ok(g.nodes, p));
            assert forall|i: int|
                0 <= i < g2.nodes[p].childs.len() implies child_ok(
                g2.nodes,
                p,
                #[trigger] g2.nodes[p].childs[i],
            ) by {
                assert(child_ok(g.nodes, p, g.nodes[p].childs[i]));
            };
        }
    };
}

/// What a recursive subtree deletion does. `g0` is the store before, `g1`
/// the store after, `id` the deletion target, and `order` the sequence of
/// deleted identifiers in deletion order. Child lists are read in
/// `detach(g0, id)`, the store as it stands once `id` has left its parent.
/// The clauses say: nothing but nodes is touched; an unknown target changes
/// nothing; otherwise `id` itself goes, last; every deleted node is listed
/// exactly once; survivors keep their post-detach value; every child listed
/// under a deleted node is deleted too, and earlier than its parent; every
/// deleted node other than `id` is listed under some node deleted after
/// it; the children of any one deleted node go in their stored order; and
/// each deleted node with children comes immediately after its last listed
/// child. Together these pin the deleted set to exactly the subtree of
/// `id` and the deletion order to the post-order walk of that subtree,
/// children in display order before their parent.
/// `x` occurs in `order` somewhere before position `j`.
pub open spec fn listed_before(order: Seq<u128>, j: int, x: u128) -> bool {
    exists|t: int| 0 <= t < j && order[t] == x
}

/// The entry at position `j` of `order` is listed as a child of some entry
/// that comes after it.
pub open spec fn child_listed_later(
    nodes: Map<u128, NodeView>,
    order: Seq<u128>,
    j: int,
) -> bool {
    exists|t: int, i: int|
        j < t < order.len() && 0 <= i < nodes[order[t]].childs.len() && nodes[order[t]].childs[i]
            == order[j]
}

pub open spec fn subtree_removal_ok(
    g0: GraphView,
    g1: GraphView,
    id: u128,
    order: Seq<u128>,
) -> bool {
    let d = detach(g0, id);
    &&& g1.root == g0.root
    &&& g1.nodes.dom().subset_of(g0.nodes.dom())
    &&& (!g0.nodes.contains_key(id) ==> g1 == g0 && order == Seq::<u128>::empty())
    &&& (g0.nodes.contains_key(id) ==> order.len() > 0 && order.last() == id)
    &&& order.no_duplicates()
    &&& (forall|i: int|
        0 <= i < order.len() ==> g0.nodes.contains_key(#[trigger] order[i])
            && !g1.nodes.contains_key(order[i]))
    &&& (forall|k: u128|
        g0.nodes.contains_key(k) && !g1.nodes.contains_key(k) ==> order.contains(k))
    &&& (forall|k: u128| #[trigger] g1.nodes.contains_key(k) ==> g1.nodes[k] == d.nodes[k])
    &&& (forall|j: int, i: int|
        0 <= j < order.len() && 0 <= i < d.nodes[order[j]].childs.len()
            ==> !g1.nodes.contains_key(#[trigger] d.nodes[order[j]].childs[i]))
    &&& (forall|j: int, i: int|
        0 <= j < order.len() && 0 <= i < d.nodes[order[j]].childs.len() ==> listed_before(
            order,
            j,
            #[trigger] d.nodes[order[j]].childs[i],
        ))
    &&& (forall|j: int|
        0 <= j < order.len() && #[trigger] order[j] != id ==> child_listed_later(d.nodes, order, j))
    &&& (forall|jp: int, i1: int, i2: int, t1: int, t2: int|
        #![trigger d.nodes[order[jp]].childs[i1], d.nodes[order[jp]].childs[i2], order[t1], order[t2]]
        0 <= jp < order.len() && 0 <= i1 < i2 < d.nodes[order[jp]].childs.len() && 0 <= t1
            < order.len() && 0 <= t2 < order.len() && order[t1] == d.nodes[order[jp]].childs[i1]
            && order[t2] == d.nodes[order[jp]].childs[i2] ==> t1 < t2)
    &&& (forall|jp: int|
        0 <= jp < order.len() && d.nodes[#[trigger] order[jp]].childs.len() > 0 ==> jp >= 1
            && order[jp - 1] == d.nodes[order[jp]].childs.last())
}

/// Concatenating two duplicate-free sequences with no common element gives
/// a duplicate-free sequence.
pub proof fn lemma_concat_no_dup(a: Seq<u128>, b: Seq<u128>)
    requires
        a.no_duplicates(),
        b.no_duplicates(),
        forall|x: u128| a.contains(x) ==> !b.contains(x),
    ensures
        (a + b).no_duplicates(),
{
    let r = a + b;
    assert forall|i: int, j: int|
        0 <= i < r.len() && 0 <= j < r.len() && i != j implies r[i] != r[j] by {
        if i < a.len() && j < a.len() {
            assert(r[i] == a[i] && r[j] == a[j]);
        } else if i < a.len() {
            assert(r[i] == a[i] && r[j] == b[j - a.len()]);
            assert(a.contains(a[i]));
            if r[i] == r[j] {
                assert(b.contains(a[i]));
            }
        } else if j < a.len() {
            assert(r[j] == a[j] && r[i] == b[i - a.len()]);
            assert(a.contains(a[j]));
            if r[i] == r[j] {
                assert(b.contains(a[j]));
            }
        } else {
            assert(r[i] == b[i - a.len()] && r[j] == b[j - a.len()]);
        }
    };
}

/// In a well-formed store, a node with no parent link (or no entry at all)
/// sits in nobody's child list.
pub proof fn lemma_unlisted(g: GraphView, id: u128)
    requires
        graph_wf(g),
        g.nodes.contains_key(id) ==> g.nodes[id].parent is None,
    ensures
        forall|q: u128, i: int|
            g.nodes.contains_key(q) && 0 <= i < g.nodes[q].childs.len() ==> #[trigger] g.nodes[q].childs[i]
                != id,
{
    assert forall|q: u128, i: int|
        g.nodes.contains_key(q) && 0 <= i < g.nodes[q].childs.len() implies #[trigger] g.nodes[q].childs[i]
        != id by {
        assert(child_ok(g.nodes, q, g.nodes[q].childs[i]));
    };
}

/// Detaching preserves well-formedness, keeps the root and the key set, and
/// leaves the detached id in nobody's child list.
pub proof fn lemma_detach_wf(g: GraphView, id: u128)
    requires
        graph_wf(g),
    ensures
        graph_wf(detach(g, id)),
        detach(g, id).root == g.root,
        detach(g, id).nodes.dom() =~= g.nodes.dom(),
        forall|q: u128, i: int|
            detach(g, id).nodes.contains_key(q) && 0 <= i < detach(g, id).nodes[q].childs.len()
                ==> #[trigger] detach(g, id).nodes[q].childs[i] != id,
{
    let g2 = detach(g, id);
    if !g.nodes.contains_key(id) {
        lemma_unlisted(g, id);
    } else {
        match g.nodes[id].parent {
            None => {
                assert(g2.nodes =~= g.nodes);
                lemma_unlisted(g, id);
            },
            Some(p) => {
                if g.nodes.contains_key(p) {
                    lemma_remove_value_props(g.nodes[p].childs, id);
                    assert(g2.nodes.dom() =~= g.nodes.dom());
                    assert forall|q: u128| #[trigger] g2.nodes.contains_key(q) implies node_ok(
                        g2.nodes,
                        q,
                    ) by {
                        assert(node_ok(g.nodes, q));
                        assert forall|i: int|
                            0 <= i < g2.nodes[q].childs.len() implies child_ok(
                            g2.nodes,
                            q,
                            #[trigger] g2.nodes[q].childs[i],
                        ) by {
                            let c = g2.nodes[q].childs[i];
                            assert(g.nodes[q].childs.contains(c) || (q == p
                                && g.nodes[p].childs.remove_value(id).contains(c)));
                            assert(g.nodes[q].childs.contains(c));
                            let j = choose|j: int|
                                0 <= j < g.nodes[q].childs.len() && g.nodes[q].childs[j] == c;
                            assert(child_ok(g.nodes, q, c));
                            assert(c != id || q == p);
                        };
                    };
                    assert forall|q: u128, i: int|
                        g2.nodes.contains_key(q) && 0 <= i < g2.nodes[q].childs.len() implies #[trigger] g2.nodes[q].childs[i]
                        != id by {
                        let c = g2.nodes[q].childs[i];
                        if q != p {
                            assert(g.nodes[q].childs[i] == c);
                            assert(child_ok(g.nodes, q, c));
                        }
                    };
                } else {
                    assert(g2.nodes.dom() =~= g.nodes.dom());
                    assert forall|q: u128| #[trigger] g2.nodes.contains_key(q) implies node_ok(
                        g2.nodes,
                        q,
                    ) by {
                        assert(node_ok(g.nodes, q));
                        assert forall|i: int|
                            0 <= i < g2.nodes[q].childs.len() implies child_ok(
                            g2.nodes,
                            q,
                            #[trigger] g2.nodes[q].childs[i],
                        ) by {
                            let c = g2.nodes[q].childs[i];
                            assert(g.nodes[q].childs[i] == c);
                            assert(child_ok(g.nodes, q, c));
                        };
                    };
                    assert forall|q: u128, i: int|
                        g2.nodes.contains_key(q) && 0 <= i < g2.nodes[q].childs.len() implies #[trigger] g2.nodes[q].childs[i]
                        != id by {
                        let c = g2.nodes[q].childs[i];
                        assert(g.nodes[q].childs[i] == c);
                        assert(child_ok(g.nodes, q, c));
                    };
                }
            },
        }
    }
}

/// Attaching a detached non-root node preserves well-formedness.
pub proof fn lemma_attach_wf(g: GraphView, id: u128, parent: u128)
    requires
        graph_wf(g),
        id != g.root,
        g.nodes.contains_key(id) ==> g.nodes[id].parent is None,
    ensures
        graph_wf(attach(g, id, parent)),
        attach(g, id, parent).root == g.root,
        attach(g, id, parent).nodes.dom() =~= g.nodes.dom(),
{
    let g2 = attach(g, id, parent);
    lemma_unlisted(g, id);
    if g.nodes.contains_key(id) {
        assert(g2.nodes.dom() =~= g.nodes.dom());
        assert forall|q: u128| #[trigger] g2.nodes.contains_key(q) implies node_ok(g2.nodes, q) by {
            assert(node_ok(g.nodes, q));
            if g.nodes.contains_key(parent) && q == parent {
                let oldc = g.nodes[parent].childs;
                let newc = g2.nodes[parent].childs;
                assert(newc == oldc.push(id));
                assert forall|i: int| 0 <= i < newc.len() implies child_ok(
                    g2.nodes,
                    q,
                    #[trigger] newc[i],
                ) by {
                    if i < oldc.len() {
                        assert(newc[i] == oldc[i]);
                        assert(child_ok(g.nodes, q, oldc[i]));
                        assert(oldc[i] != id);
                    } else {
                        assert(newc[i] == id);
                    }
                };
                assert forall|i: int, j: int|
                    0 <= i < newc.len() && 0 <= j < newc.len() && i != j implies newc[i]
                    != newc[j] by {
                    if i < oldc.len() && j < oldc.len() {
                        assert(newc[i] == oldc[i] && newc[j] == oldc[j]);
                    } else if i < oldc.len() {
                        assert(newc[i] == oldc[i] && newc[j] == id && oldc[i] != id);
                    } else if j < oldc.len() {
                        assert(newc[j] == oldc[j] && newc[i] == id && oldc[j] != id);
                    }
                };
            } else {
                assert(g2.nodes[q].childs == g.nodes[q].childs);
                assert forall|i: int|
                    0 <= i < g2.nodes[q].childs.len() implies child_ok(
                    g2.nodes,
                    q,
                    #[trigger] g2.nodes[q].childs[i],
                ) by {
                    let c = g2.nodes[q].childs[i];
                    assert(g.nodes[q].childs[i] == c);
                    assert(child_ok(g.nodes, q, c));
                    assert(c != id);
                };
            }
        };
    }
}

/// Deleting a non-root node outright preserves well-formedness: after the
/// detach nobody lists the node, so no surviving child entry dangles.
pub proof fn lemma_without_node_wf(g: GraphView, id: u128)
    requires
        graph_wf(g),
        id != g.root,
    ensures
        graph_wf(without_node(g, id)),
        without_node(g, id).root == g.root,
        without_node(g, id).nodes.dom() =~= g.nodes.dom().remove(id),
{
    lemma_detach_wf(g, id);
    let g2 = detach(g, id);
    let g3 = without_node(g, id);
    assert forall|q: u128| #[trigger] g3.nodes.contains_key(q) implies node_ok(g3.nodes, q) by {
        assert(node_ok(g2.nodes, q));
        assert forall|i: int|
            0 <= i < g3.nodes[q].childs.len() implies child_ok(
            g3.nodes,
            q,
            #[trigger] g3.nodes[q].childs[i],
        ) by {
            let c = g3.nodes[q].childs[i];
            assert(g2.nodes[q].childs[i] == c);
            assert(child_ok(g2.nodes, q, c));
            assert(c != id);
        };
    };
}

/// Moving a node among its siblings preserves well-formedness.
pub proof fn lemma_reordered_wf(g: GraphView, index: int, id: u128)
    requires
        graph_wf(g),
        0 <= index,
    ensures
        graph_wf(reordered(g, index, id)),
        reordered(g, index, id).root == g.root,
        reordered(g, index, id).nodes.dom() =~= g.nodes.dom(),
{
    let g2 = reordered(g, index, id);
    if g.nodes.contains_key(id) && g.nodes[id].parent is Some {
        match g.nodes[id].parent {
            Some(p) => {
                if g.nodes.contains_key(p) {
                    let oldc = g.nodes[p].childs;
                    lemma_remove_value_props(oldc, id);
                    let removed = oldc.remove_value(id);
                    let at: int = if index <= removed.len() {
                        index
                    } else {
                        removed.len() as int
                    };
                    lemma_insert_props(removed, at, id);
                    let newc = removed.insert(at, id);
                    assert(g2.nodes.dom() =~= g.nodes.dom());
                    assert(id != g.root);
                    assert forall|q: u128| #[trigger] g2.nodes.contains_key(q) implies node_ok(
                        g2.nodes,
                        q,
                    ) by {
                        assert(node_ok(g.nodes, q));
                        assert forall|i: int|
                            0 <= i < g2.nodes[q].childs.len() implies child_ok(
                            g2.nodes,
                            q,
                            #[trigger] g2.nodes[q].childs[i],
                        ) by {
                            let c = g2.nodes[q].childs[i];
                            if q == p {
                                assert(newc[i] == c);
                                if c == id {
                                    assert(child_ok(g.nodes, p, c)) by {
                                        assert(g.nodes[id].parent == Some(p));
                                    };
                                } else {
                                    assert(removed.contains(c) || c == id);
                                    assert(oldc.contains(c));
                                    let j = choose|j: int| 0 <= j < oldc.len() && oldc[j] == c;
                                    assert(child_ok(g.nodes, p, c));
                                }
                            } else {
                                assert(g.nodes[q].childs[i] == c);
                                assert(child_ok(g.nodes, q, c));
                            }
                        };
                    };
                }
            },
            None => {},
        }
    }
}

/// The parent chain from `id` comes to rest within `fuel` steps: it reaches
/// a node with no parent link, or leaves the map through a dangling link,
/// before the fuel runs out.
pub open spec fn chain_stops(nodes: Map<u128, NodeView>, id: u128, fuel: nat) -> bool
    decreases fuel,
{
    if !nodes.contains_key(id) {
        true
    } else if fuel == 0 {
        false
    } else {
        match nodes[id].parent {
            None => true,
            Some(p) => chain_stops(nodes, p, (fuel - 1) as nat),
        }
    }
}

/// The parent chain from `id` passes through `x` within `fuel` steps,
/// counting `id` itself.
pub open spec fn chain_hits(nodes: Map<u128, NodeView>, id: u128, x: u128, fuel: nat) -> bool
    decreases fuel,
{
    if !nodes.contains_key(id) || fuel == 0 {
        false
    } else if id == x {
        true
    } else {
        match nodes[id].parent {
            None => false,
            Some(p) => chain_hits(nodes, p, x, (fuel - 1) as nat),
        }
    }
}

/// No parent chain loops: following parent links from any node comes to
/// rest. Together with well-formedness this makes the attached part of the
/// store a tree rooted at the root.
pub open spec fn acyclic(g: GraphView) -> bool {
    forall|id: u128|
        g.nodes.contains_key(id) ==> (exists|fuel: nat| chain_stops(g.nodes, id, fuel))
}

/// A chain that comes to rest still does with more fuel.
pub proof fn lemma_chain_stops_monotone(nodes: Map<u128, NodeView>, id: u128, f1: nat, f2: nat)
    requires
        chain_stops(nodes, id, f1),
        f1 <= f2,
    ensures
        chain_stops(nodes, id, f2),
    decreases f1,
{
    if nodes.contains_key(id) {
        match nodes[id].parent {
            None => {},
            Some(p) => {
                lemma_chain_stops_monotone(nodes, p, (f1 - 1) as nat, (f2 - 1) as nat);
            },
        }
    }
}

/// Chains keep coming to rest when nodes are dropped from the map or lose
/// their parent link, and no other parent link changes: a chain in the new
/// map either mirrors the old one or stops early.
pub proof fn lemma_chain_stops_shrink(
    m: Map<u128, NodeView>,
    m2: Map<u128, NodeView>,
    id: u128,
    fuel: nat,
)
    requires
        chain_stops(m, id, fuel),
        forall|y: u128| #[trigger] m2.contains_key(y) ==> m.contains_key(y) && (m2[y].parent
            == m[y].parent || m2[y].parent is None),
    ensures
        chain_stops(m2, id, fuel),
    decreases fuel,
{
    if m2.contains_key(id) {
        match m2[id].parent {
            None => {},
            Some(p) => {
                lemma_chain_stops_shrink(m, m2, p, (fuel - 1) as nat);
            },
        }
    }
}

/// Chains keep coming to rest when a fresh parentless node is added: a
/// chain that used to leave the map through the new identifier now stops at
/// it one step later.
pub proof fn lemma_chain_stops_grow(
    m: Map<u128, NodeView>,
    id: u128,
    n: NodeView,
    x: u128,
    fuel: nat,
)
    requires
        chain_stops(m, x, fuel),
        !m.contains_key(id),
        n.parent is None,
    ensures
        chain_stops(m.insert(id, n), x, fuel + 1),
    decreases fuel,
{
    let m2 = m.insert(id, n);
    if m2.contains_key(x) {
        if x == id {
        } else {
            match m[x].parent {
                None => {},
                Some(p) => {
                    lemma_chain_stops_grow(m, id, n, p, (fuel - 1) as nat);
                },
            }
        }
    }
}

/// A chain that comes to rest without passing through `id` is unaffected by
/// a change to `id`'s entry alone.
pub proof fn lemma_chain_stops_avoiding(
    m: Map<u128, NodeView>,
    m2: Map<u128, NodeView>,
    id: u128,
    x: u128,
    fuel: nat,
)
    requires
        chain_stops(m, x, fuel),
        !chain_hits(m, x, id, fuel),
        m2.dom() == m.dom(),
        forall|y: u128| #[trigger] m.contains_key(y) && y != id ==> m2[y].parent == m[y].parent,
    ensures
        chain_stops(m2, x, fuel),
    decreases fuel,
{
    if m2.contains_key(x) {
        assert(x != id);
        match m[x].parent {
            None => {},
            Some(p) => {
                lemma_chain_stops_avoiding(m, m2, id, p, (fuel - 1) as nat);
            },
        }
    }
}

/// A chain that reaches `id` comes to rest in the map where `id`'s parent
/// was redirected to `parent`, provided the chain of `parent` itself comes
/// to rest there.
pub proof fn lemma_chain_stops_through(
    m: Map<u128, NodeView>,
    m2: Map<u128, NodeView>,
    id: u128,
    x: u128,
    fuel: nat,
    rest: nat,
)
    requires
        chain_hits(m, x, id, fuel),
        m2.dom() == m.dom(),
        forall|y: u128| #[trigger] m.contains_key(y) && y != id ==> m2[y].parent == m[y].parent,
        m2.contains_key(id) ==> chain_stops(m2, m2[id].parent.unwrap(), rest) || m2[id].parent
            is None,
    ensures
        chain_stops(m2, x, fuel + rest),
    decreases fuel,
{
    if x == id {
        match m2[id].parent {
            None => {},
            Some(p) => {
                lemma_chain_stops_monotone(m2, p, rest, (fuel + rest - 1) as nat);
            },
        }
    } else {
        match m[x].parent {
            None => {},
            Some(p) => {
                lemma_chain_stops_through(m, m2, id, p, (fuel - 1) as nat, rest);
                assert(m2[x].parent == Some(p));
            },
        }
    }
}

/// Adding a brand-new detached node keeps parent chains loop-free.
pub proof fn lemma_acyclic_with_new_node(g: GraphView, id: u128)
    requires
        acyclic(g),
        !g.nodes.contains_key(id),
    ensures
        acyclic(with_new_node(g, id)),
{
    let g2 = with_new_node(g, id);
    assert forall|x: u128| g2.nodes.contains_key(x) implies (exists|fuel: nat|
        chain_stops(g2.nodes, x, fuel)) by {
        if x == id {
            assert(chain_stops(g2.nodes, x, 1));
        } else {
            let f = choose|f: nat| chain_stops(g.nodes, x, f);
            lemma_chain_stops_grow(
                g.nodes,
                id,
                NodeView { id, parent: None, childs: Seq::empty() },
                x,
                f,
            );
            assert(chain_stops(g2.nodes, x, f + 1));
        }
    };
}

/// Detaching keeps parent chains loop-free: the detached node's chain now
/// stops at once, and every other chain mirrors its old run or stops early.
pub proof fn lemma_acyclic_detach(g: GraphView, id: u128)
    requires
        acyclic(g),
    ensures
        acyclic(detach(g, id)),
{
    let g2 = detach(g, id);
    assert forall|x: u128| g2.nodes.contains_key(x) implies (exists|fuel: nat|
        chain_stops(g2.nodes, x, fuel)) by {
        assert(g.nodes.contains_key(x));
        let f = choose|f: nat| chain_stops(g.nodes, x, f);
        lemma_chain_stops_shrink(g.nodes, g2.nodes, x, f);
        assert(chain_stops(g2.nodes, x, f));
    };
}

/// Dropping nodes from the map keeps parent chains loop-free. This covers
/// single deletion and recursive subtree deletion: the survivors' entries
/// keep their parent links (or lose them), and chains that ran through a
/// deleted node now leave the map there.
pub proof fn lemma_acyclic_shrink(g: GraphView, g2: GraphView)
    requires
        acyclic(g),
        forall|y: u128| #[trigger] g2.nodes.contains_key(y) ==> g.nodes.contains_key(y) && (
        g2.nodes[y].parent == g.nodes[y].parent || g2.nodes[y].parent is None),
    ensures
        acyclic(g2),
{
    assert forall|x: u128| g2.nodes.contains_key(x) implies (exists|fuel: nat|
        chain_stops(g2.nodes, x, fuel)) by {
        assert(g.nodes.contains_key(x));
        let f = choose|f: nat| chain_stops(g.nodes, x, f);
        lemma_chain_stops_shrink(g.nodes, g2.nodes, x, f);
        assert(chain_stops(g2.nodes, x, f));
    };
}

/// Attaching a detached node below `parent` keeps parent chains loop-free,
/// provided `parent`'s own ancestor chain does not pass through the node
/// being attached — the one way a caller of `set_parent` can tie a knot,
/// which this hypothesis excludes.
pub proof fn lemma_acyclic_attach(g: GraphView, id: u128, parent: u128)
    requires
        acyclic(g),
        forall|f: nat| !chain_hits(g.nodes, parent, id, f),
    ensures
        acyclic(attach(g, id, parent)),
{
    let g2 = attach(g, id, parent);
    if g.nodes.contains_key(id) {
        assert(g2.nodes.dom() =~= g.nodes.dom());
        assert(forall|y: u128|
            #[trigger] g.nodes.contains_key(y) && y != id ==> g2.nodes[y].parent
                == g.nodes[y].parent);
        assert(g2.nodes[id].parent == Some(parent));
        let rest: nat = if g.nodes.contains_key(parent) {
            let fp = choose|fp: nat| chain_stops(g.nodes, parent, fp);
            lemma_chain_stops_avoiding(g.nodes, g2.nodes, id, parent, fp);
            fp
        } else {
            0
        };
        assert(chain_stops(g2.nodes, parent, rest));
        assert forall|x: u128| g2.nodes.contains_key(x) implies (exists|fuel: nat|
            chain_stops(g2.nodes, x, fuel)) by {
            assert(g.nodes.contains_key(x));
            if exists|f: nat| chain_hits(g.nodes, x, id, f) {
                let fh = choose|fh: nat| chain_hits(g.nodes, x, id, fh);
                lemma_chain_stops_through(g.nodes, g2.nodes, id, x, fh, rest);
                assert(chain_stops(g2.nodes, x, fh + rest));
            } else {
                let fs = choose|fs: nat| chain_stops(g.nodes, x, fs);
                lemma_chain_stops_avoiding(g.nodes, g2.nodes, id, x, fs);
                assert(chain_stops(g2.nodes, x, fs));
            }
        };
    }
}

/// Re-parenting (a detach followed by an attach) keeps parent chains
/// loop-free, provided the new parent's ancestor chain, read after the
/// detach, does not pass through the node being moved.
pub proof fn lemma_acyclic_set_parent(g: GraphView, id: u128, parent: u128)
    requires
        acyclic(g),
        forall|f: nat| !chain_hits(detach(g, id).nodes, parent, id, f),
    ensures
        acyclic(attach(detach(g, id), id, parent)),
{
    lemma_acyclic_detach(g, id);
    lemma_acyclic_attach(detach(g, id), id, parent);
}

/// In a well-formed store a node is listed as a child at most once across
/// the whole store: the child lists form a forest, so an attached node has
/// exactly one incoming edge and hence one parent path step.
pub proof fn lemma_child_listed_at_most_once(
    g: GraphView,
    p1: u128,
    i1: int,
    p2: u128,
    i2: int,
)
    requires
        graph_wf(g),
        g.nodes.contains_key(p1),
        g.nodes.contains_key(p2),
        0 <= i1 < g.nodes[p1].childs.len(),
        0 <= i2 < g.nodes[p2].childs.len(),
        g.nodes[p1].childs[i1] == g.nodes[p2].childs[i2],
    ensures
        p1 == p2,
        i1 == i2,
{
    assert(child_ok(g.nodes, p1, g.nodes[p1].childs[i1]));
    assert(child_ok(g.nodes, p2, g.nodes[p2].childs[i2]));
    assert(g.nodes[p1].childs.no_duplicates());
}

/// A finite set that holds every value from `0` through `n` holds more than
/// `n` values; taken the other way round, a set of at most `n` values
/// misses one of `0..=n`.
pub proof fn lemma_dense_prefix_len(s: Set<u128>, n: u128)
    requires
        s.finite(),
        forall|j: u128| j <= n ==> s.contains(j),
    ensures
        s.len() > n,
    decreases n,
{
    if n == 0 {
        assert(s.contains(0));
        assert(s.len() == s.remove(0u128).len() + 1);
    } else {
        let s2 = s.remove(n);
        assert forall|j: u128| j <= n - 1 implies s2.contains(j) by {
            assert(s.contains(j));
        };
        lemma_dense_prefix_len(s2, (n - 1) as u128);
        assert(s.len() == s2.len() + 1);
    }
}

/// The identifiers of a flat node list, in list order.
pub open spec fn entry_ids(s: Seq<NodeView>) -> Seq<u128> {
    s.map_values(|n: NodeView| n.id)
}

/// The node map a flat node list decodes to: each entry keyed by its own
/// identifier (on duplicate identifiers the later entry wins, but decoding
/// rejects duplicates before this matters).
pub open spec fn entries_map(s: Seq<NodeView>) -> Map<u128, NodeView>
    decreases s.len(),
{
    if s.len() == 0 {
        Map::empty()
    } else {
        entries_map(s.drop_last()).insert(s.last().id, s.last())
    }
}

/// The keys of a decoded node list are exactly the identifiers it lists.
pub proof fn lemma_entries_map_dom(s: Seq<NodeView>)
    ensures
        forall|x: u128|
            entries_map(s).contains_key(x) <==> (exists|j: int| 0 <= j < s.len() && s[j].id == x),
    decreases s.len(),
{
    if s.len() > 0 {
        lemma_entries_map_dom(s.drop_last());
        assert forall|x: u128| entries_map(s).contains_key(x) implies (exists|j: int|
            0 <= j < s.len() && s[j].id == x) by {
            if x == s.last().id {
                assert(s[s.len() - 1].id == x);
            } else {
                assert(entries_map(s) == entries_map(s.drop_last()).insert(s.last().id, s.last()));
                assert(entries_map(s.drop_last()).contains_key(x));
                let j = choose|j: int| 0 <= j < s.drop_last().len() && s.drop_last()[j].id == x;
                assert(s.drop_last()[j] == s[j]);
                assert(s[j].id == x);
            }
        };
        assert forall|x: u128| (exists|j: int| 0 <= j < s.len() && s[j].id == x)
            implies entries_map(s).contains_key(x) by {
            let j = choose|j: int| 0 <= j < s.len() && s[j].id == x;
            assert(entries_map(s) == entries_map(s.drop_last()).insert(s.last().id, s.last()));
            if j < s.len() - 1 {
                assert(s.drop_last()[j] == s[j]);
                assert(s.drop_last()[j].id == x);
                assert(entries_map(s.drop_last()).contains_key(x));
            } else {
                assert(x == s.last().id);
            }
        };
    }
}

/// A duplicate-free node list that lists exactly the entries of a map, in
/// any order, decodes back to that map. This is what makes the serialized
/// form faithful: the unspecified order in which the store is walked cannot
/// change what the list decodes to.
pub proof fn lemma_entries_determine_store(s: Seq<NodeView>, m: Map<u128, NodeView>)
    requires
        entry_ids(s).no_duplicates(),
        forall|i: int|
            0 <= i < s.len() ==> m.contains_key(#[trigger] s[i].id) && m[s[i].id] == s[i],
        forall|k: u128| #[trigger] m.contains_key(k) ==> (exists|i: int|
            0 <= i < s.len() && s[i].id == k),
    ensures
        entries_map(s) == m,
    decreases s.len(),
{
    if s.len() == 0 {
        assert forall|k: u128| !(#[trigger] m.contains_key(k)) by {
            if m.contains_key(k) {
                let i = choose|i: int| 0 <= i < s.len() && s[i].id == k;
            }
        };
        assert(entries_map(s) =~= m);
    } else {
        let s0 = s.drop_last();
        let last = s.last();
        let m0 = m.remove(last.id);
        assert(entry_ids(s0) =~= entry_ids(s).drop_last());
        assert forall|i: int|
            0 <= i < s0.len() implies m0.contains_key(#[trigger] s0[i].id) && m0[s0[i].id]
            == s0[i] by {
            assert(s[i] == s0[i]);
            assert(entry_ids(s)[i] == s0[i].id);
            assert(entry_ids(s)[s.len() - 1] == last.id);
            assert(s0[i].id != last.id);
        };
        assert forall|k: u128| #[trigger] m0.contains_key(k) implies (exists|i: int|
            0 <= i < s0.len() && s0[i].id == k) by {
            let i = choose|i: int| 0 <= i < s.len() && s[i].id == k;
            assert(entry_ids(s)[s.len() - 1] == last.id);
            assert(entry_ids(s)[i] == k);
            assert(i < s.len() - 1);
            assert(s0[i].id == k);
        };
        lemma_entries_determine_store(s0, m0);
        assert(s[s.len() - 1].id == last.id);
        assert(m.contains_key(last.id) && m[last.id] == last);
        assert(entries_map(s) =~= m);
    }
}

/// The round trip law: for a well-formed store, any duplicate-free listing
/// of exactly its nodes decodes back to the same node map, and the decoded
/// pair passes the same well-formedness that guards decoding. Same root,
/// same identifiers, same parent and child relationships.
pub proof fn lemma_round_trip(g: GraphView, s: Seq<NodeView>)
    requires
        graph_wf(g),
        entry_ids(s).no_duplicates(),
        forall|i: int|
            0 <= i < s.len() ==> g.nodes.contains_key(#[trigger] s[i].id) && g.nodes[s[i].id]
                == s[i],
        forall|k: u128| #[trigger] g.nodes.contains_key(k) ==> (exists|i: int|
            0 <= i < s.len() && s[i].id == k),
    ensures
        entries_map(s) == g.nodes,
        graph_wf(GraphView { nodes: entries_map(s), root: g.root }),
{
    lemma_entries_determine_store(s, g.nodes);
}

} // verus!
