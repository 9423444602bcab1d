//! The executable scene graph store: a map from identifier to node plus a
//! distinguished root, with every operation specified against the model in
//! `model` and proved to preserve well-formedness.

use std::collections::HashMap;
use vstd::prelude::*;
use vstd::std_specs::iter::IteratorSpec;

use crate::model::{
    attach, child_listed_later, child_ok, detach, entries_map, entry_ids, graph_wf, listed_before,
    node_ok, reordered, subtree_removal_ok, with_new_node, without_node, GraphView, NodeView,
};

verus! {

broadcast use vstd::std_specs::hash::group_hash_axioms;

/// One tree element: its own identifier, the identifier of its parent (if
/// any), and the identifiers of its direct children in display order.
pub struct Node {
    pub instanceid: u128,
    pub parentid: Option<u128>,
    pub childs: Vec<u128>,
}

impl View for Node {
    type V = NodeView;

    open spec fn view(&self) -> NodeView {
        NodeView { id: self.instanceid, parent: self.parentid, childs: self.childs@ }
    }
}

/// The owning container of all nodes plus the designated root identifier.
pub struct SceneGraph {
    nodes: HashMap<u128, Node>,
    root: u128,
}

/// The model of a concrete node map: the same keys, each mapped to the
/// node's view.
pub open spec fn nodes_view(m: Map<u128, Node>) -> Map<u128, NodeView> {
    Map::new(|k: u128| m.contains_key(k), |k: u128| m[k]@)
}

impl View for SceneGraph {
    type V = GraphView;

    closed spec fn view(&self) -> GraphView {
        GraphView { nodes: nodes_view(self.nodes@), root: self.root }
    }
}

/// What `get_sibling_index` returns: the first position of `id` in its
/// parent's child list, or `None` when there is no such list or it does not
/// hold `id`.
pub open spec fn sibling_index_spec(g: GraphView, id: u128, r: Option<usize>) -> bool {
    match r {
        Some(i) => {
            &&& g.nodes.contains_key(id)
            &&& g.nodes[id].parent is Some
            &&& g.nodes.contains_key(g.nodes[id].parent.unwrap())
            &&& 0 <= i < g.nodes[g.nodes[id].parent.unwrap()].childs.len()
            &&& g.nodes[g.nodes[id].parent.unwrap()].childs[i as int] == id
            &&& forall|j: int|
                0 <= j < i ==> g.nodes[g.nodes[id].parent.unwrap()].childs[j] != id
        },
        None => !g.nodes.contains_key(id) || g.nodes[id].parent is None || !g.nodes.contains_key(
            g.nodes[id].parent.unwrap(),
        ) || !g.nodes[g.nodes[id].parent.unwrap()].childs.contains(id),
    }
}

/// Removes the first occurrence of `x` from `v`, if any.
fn vec_remove_value(v: &mut Vec<u128>, x: u128)
    ensures
        final(v)@ == old(v)@.remove_value(x),
{
    let mut i: usize = 0;
    while i < v.len()
        invariant
            i <= v@.len(),
            v@ == old(v)@,
            forall|j: int| 0 <= j < i ==> v@[j] != x,
        decreases v@.len() - i,
    {
        if v[i] == x {
            v.remove(i);
            proof {
                old(v)@.index_of_first_ensures(x);
                assert(old(v)@.contains(x));
                assert(old(v)@.index_of_first(x) == Some(i as int));
            }
            return;
        }
        i += 1;
    }
    proof {
        old(v)@.index_of_first_ensures(x);
        assert(!old(v)@.contains(x));
    }
}

/// The views of a flat node list, in list order.
pub open spec fn node_views(s: Seq<Node>) -> Seq<NodeView> {
    s.map_values(|n: Node| n@)
}

/// All keys of the map, each exactly once, in whatever order the map
/// yields them.
fn collect_keys(m: &HashMap<u128, Node>) -> (r: Vec<u128>)
    ensures
        r@.no_duplicates(),
        forall|k: u128| r@.contains(k) <==> m@.contains_key(k),
        r@.len() == m@.dom().len(),
{
    let keys_iter = m.keys();
    let mut it = vstd::std_specs::iter::VerusForLoopWrapper::new(keys_iter, Ghost(None));
    let mut r: Vec<u128> = Vec::new();
    let mut done = false;
    while !done
        invariant
            it.iter.obeys_prophetic_iter_laws(),
            it.wf(),
            it.snapshot@ == vstd::std_specs::hash::spec_keys_iter(m),
            r@.len() == it.index(),
            forall|j: int| 0 <= j < r@.len() ==> r@[j] == *(it.seq()[j]),
            done ==> it.index() == it.seq().len(),
            it.iter.decrease() is Some,
        decreases (if done {
            0int
        } else {
            1int
        }), it.iter.decrease()->0,
    {
        match it.next() {
            Some(k) => {
                r.push(*k);
            },
            None => {
                done = true;
            },
        }
    }
    proof {
        let rem = vstd::std_specs::hash::spec_keys_iter(m).remaining();
        assert(it.seq() == rem);
        assert(r@.len() == rem.len());
        assert(r@.len() == m@.dom().len());
        assert forall|i: int, j: int|
            0 <= i < r@.len() && 0 <= j < r@.len() && i != j implies r@[i] != r@[j] by {
            assert(r@[i] == *(rem[i]) && r@[j] == *(rem[j]));
            assert(rem[i] != rem[j]);
        };
        assert forall|k: u128| r@.contains(k) implies m@.contains_key(k) by {
            let j = choose|j: int| 0 <= j < r@.len() && r@[j] == k;
            assert(rem.unref()[j] == k);
            assert(rem.unref().contains(k));
            assert(rem.unref().to_set().contains(k));
        };
        assert forall|k: u128| m@.contains_key(k) implies r@.contains(k) by {
            assert(rem.unref().to_set().contains(k));
            assert(rem.unref().contains(k));
            let j = choose|j: int| 0 <= j < rem.unref().len() && rem.unref()[j] == k;
            assert(r@[j] == *(rem[j]));
            assert(r@[j] == k);
        };
    }
    r
}

/// Decides whether a node map together with a root identifier is well
/// formed, by checking every node against [`graph_wf`]'s clauses.
fn check_graph_wf(m: &HashMap<u128, Node>, root: u128) -> (ok: bool)
    ensures
        ok == graph_wf(GraphView { nodes: nodes_view(m@), root }),
{
    let ghost g = GraphView { nodes: nodes_view(m@), root };
    match m.get(&root) {
        Some(rn) => {
            if rn.parentid.is_some() {
                return false;
            }
        },
        None => {
            return false;
        },
    }
    let ks = collect_keys(m);
    let mut i: usize = 0;
    #[verifier::loop_isolation(false)]
    while i < ks.len()
        invariant
            i <= ks@.len(),
            forall|j: int| 0 <= j < i ==> node_ok(g.nodes, #[trigger] ks@[j]),
        decreases ks@.len() - i,
    {
        let k = ks[i];
        proof {
            assert(ks@.contains(ks@[i as int]));
        }
        let n = m.get(&k).unwrap();
        if n.instanceid != k {
            proof {
                assert(!node_ok(g.nodes, k));
            }
            return false;
        }
        let mut a: usize = 0;
        #[verifier::loop_isolation(false)]
        while a < n.childs.len()
            invariant
                a <= n.childs@.len(),
                forall|x: int, y: int| 0 <= x < y < a ==> n.childs@[x] != n.childs@[y],
                forall|x: int| 0 <= x < a ==> child_ok(g.nodes, k, #[trigger] n.childs@[x]),
            decreases n.childs@.len() - a,
        {
            let c = n.childs[a];
            let mut b: usize = 0;
            #[verifier::loop_isolation(false)]
            while b < a
                invariant
                    b <= a,
                    forall|x: int| 0 <= x < b ==> n.childs@[x] != c,
                decreases a - b,
            {
                if n.childs[b] == c {
                    proof {
                        assert(n.childs@[b as int] == n.childs@[a as int]);
                        assert(!n.childs@.no_duplicates());
                        assert(!node_ok(g.nodes, k));
                    }
                    return false;
                }
                b += 1;
            }
            match m.get(&c) {
                Some(cn) => {
                    match cn.parentid {
                        Some(p) => {
                            if p != k {
                                proof {
                                    assert(!child_ok(g.nodes, k, n.childs@[a as int]));
                                    assert(!node_ok(g.nodes, k));
                                }
                                return false;
                            }
                        },
                        None => {
                            proof {
                                assert(!child_ok(g.nodes, k, n.childs@[a as int]));
                                assert(!node_ok(g.nodes, k));
                            }
                            return false;
                        },
                    }
                },
                None => {
                    proof {
                        assert(!child_ok(g.nodes, k, n.childs@[a as int]));
                        assert(!node_ok(g.nodes, k));
                    }
                    return false;
                },
            }
            proof {
                assert(child_ok(g.nodes, k, n.childs@[a as int]));
            }
            a += 1;
        }
        proof {
            assert(n.childs@.no_duplicates());
            assert(node_ok(g.nodes, ks@[i as int]));
        }
        i += 1;
    }
    proof {
        assert forall|p: u128| #[trigger] g.nodes.contains_key(p) implies node_ok(g.nodes, p) by {
            assert(ks@.contains(p));
            let j = choose|j: int| 0 <= j < ks@.len() && ks@[j] == p;
        };
        assert(graph_wf(g));
    }
    true
}

/// A deep copy of one node.
fn clone_node(n: &Node) -> (r: Node)
    ensures
        r@ == n@,
{
    let mut cs: Vec<u128> = Vec::new();
    let mut i: usize = 0;
    #[verifier::loop_isolation(false)]
    while i < n.childs.len()
        invariant
            i <= n.childs@.len(),
            cs@ == n.childs@.take(i as int),
        decreases n.childs@.len() - i,
    {
        let c = n.childs[i];
        cs.push(c);
        proof {
            assert(n.childs@.take(i + 1) =~= n.childs@.take(i as int).push(n.childs@[i as int]));
        }
        i += 1;
    }
    proof {
        assert(cs@ =~= n.childs@);
    }
    Node { instanceid: n.instanceid, parentid: n.parentid, childs: cs }
}

/// Relies on `uuid::Uuid::new_v4` for a fresh random 128-bit identifier;
/// the value is random, so nothing is promised of it.
#[verifier::external_body]
fn fresh_id() -> u128 {
    uuid::Uuid::new_v4().as_u128()
}

impl Default for SceneGraph {
    /// A new store holding exactly one node, the root, which is parentless
    /// and childless.
    fn default() -> (g: SceneGraph)
        ensures
            g.wf(),
            g@.nodes.dom() =~= set![g@.root],
            g@.nodes[g@.root] == (NodeView { id: g@.root, parent: None, childs: Seq::empty() }),
    {
        let root_id = fresh_id();
        let mut nodes: HashMap<u128, Node> = HashMap::new();
        nodes.insert(
            root_id,
            Node { instanceid: root_id, parentid: None, childs: Vec::new() },
        );
        let g = SceneGraph { nodes, root: root_id };
        proof {
            assert(g@.nodes =~= map![root_id => NodeView {
                id: root_id,
                parent: None,
                childs: Seq::empty(),
            }]);
        }
        g
    }
}

impl SceneGraph {
    /// The store's invariant: see [`graph_wf`].
    pub open spec fn wf(&self) -> bool {
        graph_wf(self@)
    }

    /// Looks a node up by identifier; absent identifiers yield `None`.
    pub fn get(&self, instance_id: u128) -> (r: Option<&Node>)
        ensures
            match r {
                Some(n) => self@.nodes.contains_key(instance_id) && n@ == self@.nodes[instance_id],
                None => !self@.nodes.contains_key(instance_id),
            },
    {
        self.nodes.get(&instance_id)
    }

    /// The root node; present in every well-formed store.
    pub fn get_root(&self) -> (r: Option<&Node>)
        ensures
            match r {
                Some(n) => self@.nodes.contains_key(self@.root) && n@ == self@.nodes[self@.root],
                None => !self@.nodes.contains_key(self@.root),
            },
            self.wf() ==> r is Some,
    {
        self.nodes.get(&self.root)
    }

    /// The root's identifier.
    pub fn get_root_id(&self) -> (r: u128)
        ensures
            r == self@.root,
    {
        self.root
    }

    /// How many nodes the store holds, the root included.
    pub fn node_count(&self) -> (r: usize)
        ensures
            r == self@.nodes.dom().len(),
    {
        proof {
            assert(self@.nodes.dom() =~= self.nodes@.dom());
        }
        self.nodes.len()
    }

    /// Creates a fresh detached node (no parent, no children) and returns
    /// its identifier: one that named no node before the call. The
    /// identifier is drawn at random; in the vanishing case that the draw
    /// already names a node, the smallest unused key stands in, so a node
    /// is inserted either way and nothing is overwritten.
    pub fn create_node(&mut self) -> (r: u128)
        requires
            old(self).wf(),
        ensures
            final(self).wf(),
            !old(self)@.nodes.contains_key(r),
            final(self)@ == with_new_node(old(self)@, r),
            final(self)@.root == old(self)@.root,
    {
        let id = fresh_id();
        if !self.nodes.contains_key(&id) {
            self.nodes.insert(
                id,
                Node { instanceid: id, parentid: None, childs: Vec::new() },
            );
            proof {
                assert(self@ =~~= with_new_node(old(self)@, id));
                crate::model::lemma_with_new_node_wf(old(self)@, id);
            }
            return id;
        }
        let n = self.nodes.len();
        proof {
            assert(self@.nodes.dom() =~= self.nodes@.dom());
        }
        let mut k: u128 = 0;
        #[verifier::loop_isolation(false)]
        while k <= n as u128
            invariant
                k <= n as u128 + 1,
                forall|j: u128| j < k ==> self@.nodes.contains_key(j),
                *self == *old(self),
            decreases n as int + 1 - k,
        {
            if !self.nodes.contains_key(&k) {
                self.nodes.insert(
                    k,
                    Node { instanceid: k, parentid: None, childs: Vec::new() },
                );
                proof {
                    assert(self@ =~~= with_new_node(old(self)@, k));
                    crate::model::lemma_with_new_node_wf(old(self)@, k);
                }
                return k;
            }
            k += 1;
        }
        proof {
            crate::model::lemma_dense_prefix_len(self@.nodes.dom(), n as u128);
            assert(false);
        }
        k
    }

    /// The number of direct children of `this_id`; `0` for an unknown id.
    pub fn child_len(&self, this_id: u128) -> (r: usize)
        ensures
            self@.nodes.contains_key(this_id) ==> r == self@.nodes[this_id].childs.len(),
            !self@.nodes.contains_key(this_id) ==> r == 0,
    {
        if let Some(instance) = self.nodes.get(&this_id) {
            instance.childs.len()
        } else {
            0
        }
    }

    /// The identifier of `this_id`'s parent; `None` for a detached, root, or
    /// unknown id.
    pub fn get_parent_id(&self, this_id: u128) -> (r: Option<u128>)
        ensures
            self@.nodes.contains_key(this_id) ==> r == self@.nodes[this_id].parent,
            !self@.nodes.contains_key(this_id) ==> r is None,
    {
        if let Some(instance) = self.get(this_id) {
            instance.parentid
        } else {
            None
        }
    }

    /// Detaches `this_id` from its parent: `this_id` leaves its former
    /// parent's child list and its own parent link is cleared. Idempotent,
    /// and a no-op on unknown ids.
    pub fn remove_parent(&mut self, this_id: u128)
        requires
            old(self).wf(),
        ensures
            final(self).wf(),
            final(self)@ == detach(old(self)@, this_id),
    {
        let parent_opt = self.get_parent_id(this_id);
        if let Some(p) = parent_opt {
            if self.nodes.contains_key(&p) {
                let mut pn = self.nodes.remove(&p).unwrap();
                vec_remove_value(&mut pn.childs, this_id);
                self.nodes.insert(p, pn);
            }
        }
        if self.nodes.contains_key(&this_id) {
            let mut n = self.nodes.remove(&this_id).unwrap();
            n.parentid = None;
            self.nodes.insert(this_id, n);
        }
        proof {
            assert(self@ =~~= detach(old(self)@, this_id));
            crate::model::lemma_detach_wf(old(self)@, this_id);
        }
    }

    /// Re-parents `this_id` below `parent_id`: detaches it from any current
    /// parent, points its parent link at `parent_id`, and, when both nodes
    /// exist, appends it at the end of `parent_id`'s children. Unknown ids
    /// leave the store unchanged.
    pub fn set_parent(&mut self, this_id: u128, parent_id: u128)
        requires
            old(self).wf(),
            this_id != old(self)@.root,
        ensures
            final(self).wf(),
            final(self)@ == attach(detach(old(self)@, this_id), this_id, parent_id),
            final(self)@.root == old(self)@.root,
            final(self)@.nodes.dom() == old(self)@.nodes.dom(),
    {
        self.remove_parent(this_id);
        let ghost d = detach(old(self)@, this_id);
        if self.nodes.contains_key(&this_id) {
            let mut n = self.nodes.remove(&this_id).unwrap();
            n.parentid = Some(parent_id);
            self.nodes.insert(this_id, n);
            if self.nodes.contains_key(&parent_id) {
                let mut pn = self.nodes.remove(&parent_id).unwrap();
                pn.childs.push(this_id);
                self.nodes.insert(parent_id, pn);
            }
        }
        proof {
            assert(self@ =~~= attach(d, this_id, parent_id));
            crate::model::lemma_detach_wf(old(self)@, this_id);
            crate::model::lemma_attach_wf(d, this_id, parent_id);
            assert(self@.nodes.dom() =~= old(self)@.nodes.dom());
        }
    }

    /// Re-parents `this_id` directly below the root.
    pub fn set_parent_root(&mut self, this_id: u128)
        requires
            old(self).wf(),
            this_id != old(self)@.root,
        ensures
            final(self).wf(),
            final(self)@ == attach(detach(old(self)@, this_id), this_id, old(self)@.root),
            final(self)@.root == old(self)@.root,
    {
        let r = self.root;
        self.set_parent(this_id, r);
    }

    /// Deletes `this_id` alone: it leaves its parent's child list and the
    /// map. Its own children stay behind, orphaned with their stale parent
    /// link, unless the recursive form is used instead. No-op on unknown
    /// ids.
    pub fn delete_node(&mut self, this_id: u128)
        requires
            old(self).wf(),
            this_id != old(self)@.root,
        ensures
            final(self).wf(),
            final(self)@ == without_node(old(self)@, this_id),
            final(self)@.root == old(self)@.root,
            !final(self)@.nodes.contains_key(this_id),
    {
        self.remove_parent(this_id);
        self.nodes.remove(&this_id);
        proof {
            assert(self@ =~~= without_node(old(self)@, this_id));
            crate::model::lemma_without_node_wf(old(self)@, this_id);
        }
    }

    /// Moves `this_id` to position `index` among its siblings; an index past
    /// the end appends. A detached, root, or unknown id is left untouched.
    pub fn change_sibling_index(&mut self, index: usize, this_id: u128)
        requires
            old(self).wf(),
        ensures
            final(self).wf(),
            final(self)@ == reordered(old(self)@, index as int, this_id),
    {
        let parent_opt = self.get_parent_id(this_id);
        if let Some(p) = parent_opt {
            if self.nodes.contains_key(&p) {
                let mut pn = self.nodes.remove(&p).unwrap();
                vec_remove_value(&mut pn.childs, this_id);
                let at = if index <= pn.childs.len() {
                    index
                } else {
                    pn.childs.len()
                };
                pn.childs.insert(at, this_id);
                self.nodes.insert(p, pn);
            }
        }
        proof {
            assert(self@ =~~= reordered(old(self)@, index as int, this_id));
            crate::model::lemma_reordered_wf(old(self)@, index as int, this_id);
        }
    }

    /// Deletes the whole subtree rooted at `this_id` and returns the deleted
    /// identifiers in deletion order: each node's descendants come first, in
    /// stored child order, and `this_id` comes last. A no-op returning an
    /// empty list on unknown ids.
    #[verifier::rlimit(100)]
    pub fn delete_subtree_postorder(&mut self, this_id: u128) -> (order: Vec<u128>)
        requires
            old(self).wf(),
            this_id != old(self)@.root,
        ensures
            final(self).wf(),
            subtree_removal_ok(old(self)@, final(self)@, this_id, order@),
        decreases old(self)@.nodes.dom().len(),
    {
        let mut order: Vec<u128> = Vec::new();
        if !self.nodes.contains_key(&this_id) {
            return order;
        }
        proof {
            assert(old(self)@.nodes.dom() =~= old(self).nodes@.dom());
            assert(old(self)@.nodes.dom().finite());
        }
        let ghost g0 = old(self)@;
        self.remove_parent(this_id);
        let ghost d = detach(g0, this_id);
        proof {
            crate::model::lemma_detach_wf(g0, this_id);
        }
        let node = self.nodes.remove(&this_id).unwrap();
        let ghost m2 = self@;
        proof {
            assert(m2 =~~= without_node(g0, this_id));
            crate::model::lemma_without_node_wf(g0, this_id);
            assert(m2.nodes =~= d.nodes.remove(this_id));
            assert(m2.nodes.dom() =~= g0.nodes.dom().remove(this_id));
        }
        let childs = node.childs;
        proof {
            assert(node_ok(d.nodes, this_id));
            assert(childs@ =~= d.nodes[this_id].childs);
            assert forall|t: int| 0 <= t < childs@.len() implies m2.nodes.contains_key(
                #[trigger] childs@[t],
            ) by {
                assert(child_ok(d.nodes, this_id, childs@[t]));
                assert(d.nodes[childs@[t]].parent == Some(this_id));
                assert(d.nodes[this_id].parent is None);
            };
        }
        let mut k: usize = 0;
        #[verifier::loop_isolation(false)]
        while k < childs.len()
            invariant
                k <= childs@.len(),
                self.wf(),
                self@.root == g0.root,
                self@.nodes.dom().subset_of(m2.nodes.dom()),
                forall|q: u128| #[trigger] self@.nodes.contains_key(q) ==> self@.nodes[q]
                    == m2.nodes[q],
                order@.no_duplicates(),
                !order@.contains(this_id),
                forall|i: int|
                    0 <= i < order@.len() ==> m2.nodes.contains_key(#[trigger] order@[i])
                        && !self@.nodes.contains_key(order@[i]),
                forall|q: u128|
                    m2.nodes.contains_key(q) && !self@.nodes.contains_key(q)
                        ==> order@.contains(q),
                forall|t: int|
                    k <= t < childs@.len() ==> self@.nodes.contains_key(#[trigger] childs@[t]),
                forall|t: int|
                    0 <= t < k ==> !self@.nodes.contains_key(#[trigger] childs@[t])
                        && order@.contains(childs@[t]),
                forall|j: int, i: int|
                    0 <= j < order@.len() && 0 <= i < d.nodes[order@[j]].childs.len()
                        ==> !self@.nodes.contains_key(#[trigger] d.nodes[order@[j]].childs[i]),
                forall|j: int, i: int|
                    0 <= j < order@.len() && 0 <= i < d.nodes[order@[j]].childs.len()
                        ==> listed_before(order@, j, #[trigger] d.nodes[order@[j]].childs[i]),
                forall|j: int|
                    0 <= j < order@.len() ==> (child_listed_later(d.nodes, order@, j)
                        || childs@.contains(#[trigger] order@[j])),
                forall|jp: int, i1: int, i2: int, t1: int, t2: int|
                    #![trigger d.nodes[order@[jp]].childs[i1], d.nodes[order@[jp]].childs[i2], order@[t1], order@[t2]]
                    0 <= jp < order@.len() && 0 <= i1 < i2 < d.nodes[order@[jp]].childs.len()
                        && 0 <= t1 < order@.len() && 0 <= t2 < order@.len() && order@[t1]
                        == d.nodes[order@[jp]].childs[i1] && order@[t2]
                        == d.nodes[order@[jp]].childs[i2] ==> t1 < t2,
                forall|t1: int, t2: int, p1: int, p2: int|
                    #![trigger childs@[t1], childs@[t2], order@[p1], order@[p2]]
                    0 <= t1 < t2 < k && 0 <= p1 < order@.len() && 0 <= p2 < order@.len()
                        && order@[p1] == childs@[t1] && order@[p2] == childs@[t2] ==> p1 < p2,
                forall|jp: int|
                    0 <= jp < order@.len() && d.nodes[#[trigger] order@[jp]].childs.len() > 0
                        ==> jp >= 1 && order@[jp - 1] == d.nodes[order@[jp]].childs.last(),
                k > 0 ==> order@.len() > 0 && order@.last() == childs@[k - 1],
            decreases childs@.len() - k,
        {
            let c = childs[k];
            proof {
                assert(childs@.contains(childs@[k as int]));
                assert(self@.nodes.contains_key(c));
                assert(child_ok(d.nodes, this_id, c));
                assert(self@.nodes[c] == m2.nodes[c]);
                assert(m2.nodes[c] == d.nodes[c]);
                assert(self@.nodes[c].parent == Some(this_id));
                assert(self@.nodes.contains_key(self@.root));
                assert(self@.nodes[self@.root].parent is None);
                assert(c != self@.root);
                vstd::set_lib::lemma_len_subset(self@.nodes.dom(), m2.nodes.dom());
                assert(m2.nodes.dom().len() < g0.nodes.dom().len());
            }
            let ghost cur = self@;
            let ghost ord0 = order@;
            let mut sub = self.delete_subtree_postorder(c);
            proof {
                let dsub = detach(cur, c);
                let cur2 = self@;
                // detaching `c` in `cur` only clears `c`'s dangling parent link
                assert(!cur.nodes.contains_key(this_id));
                assert(dsub.nodes =~= cur.nodes.insert(
                    c,
                    NodeView {
                        id: cur.nodes[c].id,
                        parent: None,
                        childs: cur.nodes[c].childs,
                    },
                ));
                assert(forall|q: u128|
                    dsub.nodes.contains_key(q) == cur.nodes.contains_key(q));
                assert(forall|q: u128|
                    cur.nodes.contains_key(q) && q != c ==> dsub.nodes[q] == cur.nodes[q]);
                assert(dsub.nodes[c].childs == cur.nodes[c].childs);
                // every node still present in `cur` carries its `m2` entry,
                // hence its `d` entry
                assert forall|q: u128| #[trigger] cur.nodes.contains_key(q) implies cur.nodes[q]
                    == d.nodes[q] by {
                    assert(cur.nodes[q] == m2.nodes[q]);
                };
                // the subcall deleted `c`
                assert(sub@.len() > 0 && sub@.last() == c);
                assert(sub@.contains(c));
                assert(!cur2.nodes.contains_key(c));
                // prefix and suffix of the concatenation
                let both = ord0 + sub@;
                assert(forall|t: int| 0 <= t < ord0.len() ==> both[t] == ord0[t]);
                assert(forall|t: int|
                    0 <= t < sub@.len() ==> both[ord0.len() + t] == sub@[t]);
                // sub elements live in `cur`, so they are disjoint from ord0
                assert forall|x: u128| ord0.contains(x) implies !sub@.contains(x) by {
                    if sub@.contains(x) {
                        let j = choose|j: int| 0 <= j < sub@.len() && sub@[j] == x;
                        assert(cur.nodes.contains_key(x));
                    }
                };
                crate::model::lemma_concat_no_dup(ord0, sub@);
                assert(both.no_duplicates());
                // membership in the concatenation
                assert forall|x: u128| ord0.contains(x) || sub@.contains(x) implies both.contains(
                    x,
                ) by {
                    if ord0.contains(x) {
                        let j = choose|j: int| 0 <= j < ord0.len() && ord0[j] == x;
                        assert(both[j] == x);
                    } else {
                        let j = choose|j: int| 0 <= j < sub@.len() && sub@[j] == x;
                        assert(both[ord0.len() + j] == x);
                    }
                };
                assert(!both.contains(this_id)) by {
                    if both.contains(this_id) {
                        let j = choose|j: int| 0 <= j < both.len() && both[j] == this_id;
                        if j < ord0.len() {
                            assert(ord0[j] == this_id);
                        } else {
                            assert(sub@[j - ord0.len()] == this_id);
                            assert(cur.nodes.contains_key(this_id));
                        }
                    }
                };
                // every element of the concatenation is a removed `m2` node
                assert forall|i: int| 0 <= i < both.len() implies m2.nodes.contains_key(
                    #[trigger] both[i],
                ) && !cur2.nodes.contains_key(both[i]) by {
                    if i < ord0.len() {
                        assert(both[i] == ord0[i]);
                        assert(!cur.nodes.contains_key(ord0[i]));
                        assert(cur2.nodes.dom().subset_of(cur.nodes.dom()));
                    } else {
                        assert(both[i] == sub@[i - ord0.len()]);
                        assert(cur.nodes.contains_key(sub@[i - ord0.len()]));
                    }
                };
                // and every removed `m2` node is listed
                assert forall|q: u128|
                    m2.nodes.contains_key(q) && !cur2.nodes.contains_key(q) implies both.contains(
                    q,
                ) by {
                    if cur.nodes.contains_key(q) {
                        assert(sub@.contains(q));
                    } else {
                        assert(ord0.contains(q));
                    }
                };
                // unprocessed siblings survive the subcall
                assert forall|t: int|
                    k + 1 <= t < childs@.len() implies cur2.nodes.contains_key(
                    #[trigger] childs@[t],
                ) by {
                    let ct = childs@[t];
                    assert(cur.nodes.contains_key(ct));
                    if !cur2.nodes.contains_key(ct) {
                        assert(sub@.contains(ct));
                        let j = choose|j: int| 0 <= j < sub@.len() && sub@[j] == ct;
                        assert(childs@.no_duplicates());
                        assert(childs@[k as int] == c);
                        assert(ct != c);
                        assert(sub@[j] != c);
                        assert(child_listed_later(dsub.nodes, sub@, j));
                        let (t2, i2) = choose|t2: int, i2: int|
                            j < t2 < sub@.len() && 0 <= i2 < dsub.nodes[sub@[t2]].childs.len()
                                && dsub.nodes[sub@[t2]].childs[i2] == sub@[j];
                        let q = sub@[t2];
                        assert(cur.nodes.contains_key(q));
                        assert(dsub.nodes[q].childs == cur.nodes[q].childs);
                        assert(cur.nodes[q] == d.nodes[q]);
                        assert(d.nodes[q].childs[i2] == ct);
                        assert(node_ok(d.nodes, q));
                        assert(child_ok(d.nodes, q, ct));
                        assert(d.nodes[ct].parent == Some(q));
                        assert(child_ok(d.nodes, this_id, ct));
                        assert(d.nodes[ct].parent == Some(this_id));
                        assert(q == this_id);
                        assert(false);
                    }
                };
                // closure carries over: child lists of `sub` nodes match `d`
                assert forall|j: int, i: int|
                    0 <= j < both.len() && 0 <= i < d.nodes[both[j]].childs.len()
                        implies !cur2.nodes.contains_key(
                    #[trigger] d.nodes[both[j]].childs[i],
                ) by {
                    if j < ord0.len() {
                        assert(both[j] == ord0[j]);
                        assert(!cur.nodes.contains_key(d.nodes[ord0[j]].childs[i]));
                        assert(cur2.nodes.dom().subset_of(cur.nodes.dom()));
                    } else {
                        let q = sub@[j - ord0.len()];
                        assert(both[j] == q);
                        assert(cur.nodes.contains_key(q));
                        assert(cur.nodes[q] == d.nodes[q]);
                        assert(dsub.nodes[q].childs == d.nodes[q].childs);
                        assert(!cur2.nodes.contains_key(dsub.nodes[q].childs[i]));
                    }
                };
                // ordering carries over
                assert forall|j: int, i: int|
                    0 <= j < both.len() && 0 <= i < d.nodes[both[j]].childs.len()
                        implies listed_before(both, j, #[trigger] d.nodes[both[j]].childs[i]) by {
                    if j < ord0.len() {
                        assert(both[j] == ord0[j]);
                        assert(listed_before(ord0, j, d.nodes[ord0[j]].childs[i]));
                        let t = choose|t: int|
                            0 <= t < j && ord0[t] == d.nodes[ord0[j]].childs[i];
                        assert(both[t] == d.nodes[both[j]].childs[i]);
                    } else {
                        let q = sub@[j - ord0.len()];
                        assert(both[j] == q);
                        assert(cur.nodes.contains_key(q));
                        assert(cur.nodes[q] == d.nodes[q]);
                        assert(dsub.nodes[q].childs == d.nodes[q].childs);
                        assert(listed_before(sub@, j - ord0.len(), dsub.nodes[q].childs[i]));
                        let t = choose|t: int|
                            0 <= t < j - ord0.len() && sub@[t] == dsub.nodes[q].childs[i];
                        assert(both[ord0.len() + t] == d.nodes[both[j]].childs[i]);
                        assert(0 <= ord0.len() + t < j);
                    }
                };
                // upward witnesses carry over
                assert forall|j: int|
                    0 <= j < both.len() implies (child_listed_later(d.nodes, both, j)
                    || childs@.contains(#[trigger] both[j])) by {
                    if j < ord0.len() {
                        if !childs@.contains(ord0[j]) {
                            assert(child_listed_later(d.nodes, ord0, j));
                            let (t, i) = choose|t: int, i: int|
                                j < t < ord0.len() && 0 <= i < d.nodes[ord0[t]].childs.len()
                                    && d.nodes[ord0[t]].childs[i] == ord0[j];
                            assert(both[t] == ord0[t]);
                            assert(j < t < both.len() && 0 <= i < d.nodes[both[t]].childs.len()
                                && d.nodes[both[t]].childs[i] == both[j]);
                        }
                    } else {
                        let js = j - ord0.len();
                        if sub@[js] == c {
                            assert(childs@[k as int] == c);
                            assert(childs@.contains(both[j]));
                        } else {
                            assert(child_listed_later(dsub.nodes, sub@, js));
                            let (t, i) = choose|t: int, i: int|
                                js < t < sub@.len() && 0 <= i < dsub.nodes[sub@[t]].childs.len()
                                    && dsub.nodes[sub@[t]].childs[i] == sub@[js];
                            let q = sub@[t];
                            assert(cur.nodes.contains_key(q));
                            assert(cur.nodes[q] == d.nodes[q]);
                            assert(dsub.nodes[q].childs == d.nodes[q].childs);
                            assert(both[ord0.len() + t] == q);
                            assert(j < ord0.len() + t < both.len());
                            assert(d.nodes[both[ord0.len() + t]].childs[i] == both[j]);
                        }
                    }
                };
                // sibling order carries over
                assert forall|jp: int, i1: int, i2: int, t1: int, t2: int|
                    #![trigger d.nodes[both[jp]].childs[i1], d.nodes[both[jp]].childs[i2], both[t1], both[t2]]
                    0 <= jp < both.len() && 0 <= i1 < i2 < d.nodes[both[jp]].childs.len() && 0
                        <= t1 < both.len() && 0 <= t2 < both.len() && both[t1]
                        == d.nodes[both[jp]].childs[i1] && both[t2]
                        == d.nodes[both[jp]].childs[i2] implies t1 < t2 by {
                    let x1 = d.nodes[both[jp]].childs[i1];
                    let x2 = d.nodes[both[jp]].childs[i2];
                    if jp < ord0.len() {
                        let q = ord0[jp];
                        assert(both[jp] == q);
                        assert(m2.nodes.contains_key(q));
                        assert(node_ok(m2.nodes, q));
                        assert(m2.nodes[q] == d.nodes[q]);
                        assert(child_ok(m2.nodes, q, x1) && child_ok(m2.nodes, q, x2));
                        assert(!cur.nodes.contains_key(x1) && !cur.nodes.contains_key(x2));
                        assert(ord0.contains(x1) && ord0.contains(x2));
                        assert(t1 < ord0.len()) by {
                            if t1 >= ord0.len() {
                                assert(sub@[t1 - ord0.len()] == x1);
                                assert(cur.nodes.contains_key(x1));
                            }
                        };
                        assert(t2 < ord0.len()) by {
                            if t2 >= ord0.len() {
                                assert(sub@[t2 - ord0.len()] == x2);
                                assert(cur.nodes.contains_key(x2));
                            }
                        };
                        assert(ord0[t1] == x1 && ord0[t2] == x2);
                    } else {
                        let q = sub@[jp - ord0.len()];
                        assert(both[jp] == q);
                        assert(cur.nodes.contains_key(q));
                        assert(cur.nodes[q] == d.nodes[q]);
                        assert(dsub.nodes[q].childs == d.nodes[q].childs);
                        assert(node_ok(cur.nodes, q));
                        assert(child_ok(cur.nodes, q, x1) && child_ok(cur.nodes, q, x2));
                        assert(!cur2.nodes.contains_key(x1) && !cur2.nodes.contains_key(x2));
                        assert(sub@.contains(x1) && sub@.contains(x2));
                        assert(t1 >= ord0.len()) by {
                            if t1 < ord0.len() {
                                assert(ord0.contains(x1));
                            }
                        };
                        assert(t2 >= ord0.len()) by {
                            if t2 < ord0.len() {
                                assert(ord0.contains(x2));
                            }
                        };
                        let qc = dsub.nodes[sub@[jp - ord0.len()]].childs;
                        assert(sub@[t1 - ord0.len()] == qc[i1]);
                        assert(sub@[t2 - ord0.len()] == qc[i2]);
                        assert(t1 - ord0.len() < t2 - ord0.len());
                    }
                };
                // positions of the processed top-level children stay in order
                assert forall|t1: int, t2: int, p1: int, p2: int|
                    #![trigger childs@[t1], childs@[t2], both[p1], both[p2]]
                    0 <= t1 < t2 < k + 1 && 0 <= p1 < both.len() && 0 <= p2 < both.len()
                        && both[p1] == childs@[t1] && both[p2] == childs@[t2]
                        implies p1 < p2 by {
                    assert(!cur.nodes.contains_key(childs@[t1]));
                    assert(ord0.contains(childs@[t1]));
                    assert(p1 < ord0.len()) by {
                        if p1 >= ord0.len() {
                            assert(sub@[p1 - ord0.len()] == childs@[t1]);
                            assert(cur.nodes.contains_key(childs@[t1]));
                        }
                    };
                    if t2 < k {
                        assert(!cur.nodes.contains_key(childs@[t2]));
                        assert(ord0.contains(childs@[t2]));
                        assert(p2 < ord0.len()) by {
                            if p2 >= ord0.len() {
                                assert(sub@[p2 - ord0.len()] == childs@[t2]);
                                assert(cur.nodes.contains_key(childs@[t2]));
                            }
                        };
                        assert(ord0[p1] == childs@[t1] && ord0[p2] == childs@[t2]);
                    } else {
                        assert(childs@[t2] == c);
                        assert(p2 >= ord0.len()) by {
                            if p2 < ord0.len() {
                                assert(ord0[p2] == c);
                                assert(ord0.contains(c));
                                assert(!cur.nodes.contains_key(c));
                            }
                        };
                    }
                };
                // each deleted node with children directly follows its last child
                assert forall|jp: int|
                    0 <= jp < both.len() && d.nodes[#[trigger] both[jp]].childs.len() > 0
                        implies jp >= 1 && both[jp - 1] == d.nodes[both[jp]].childs.last() by {
                    if jp < ord0.len() {
                        assert(both[jp] == ord0[jp]);
                        assert(ord0[jp - 1] == d.nodes[ord0[jp]].childs.last());
                        assert(both[jp - 1] == ord0[jp - 1]);
                    } else {
                        let q = sub@[jp - ord0.len()];
                        assert(both[jp] == q);
                        assert(cur.nodes.contains_key(q));
                        assert(cur.nodes[q] == d.nodes[q]);
                        assert(dsub.nodes[q].childs == d.nodes[q].childs);
                        assert(jp - ord0.len() >= 1 && sub@[jp - ord0.len() - 1]
                            == dsub.nodes[sub@[jp - ord0.len()]].childs.last());
                        assert(both[jp - 1] == sub@[jp - ord0.len() - 1]);
                    }
                };
                // the appended block ends with the child just processed
                assert(both[both.len() - 1] == sub@[sub@.len() - 1]);
                assert(both.last() == childs@[k as int]);
            }
            order.append(&mut sub);
            k += 1;
        }
        let ghost ordfin = order@;
        order.push(this_id);
        proof {
            let g1 = self@;
            let fin = ordfin.push(this_id);
            assert(order@ == fin);
            assert(fin.last() == this_id);
            assert(forall|t: int| 0 <= t < ordfin.len() ==> fin[t] == ordfin[t]);
            assert forall|i: int, j: int|
                0 <= i < fin.len() && 0 <= j < fin.len() && i != j implies fin[i] != fin[j] by {
                if i < ordfin.len() && j < ordfin.len() {
                } else if i < ordfin.len() {
                    assert(ordfin.contains(ordfin[i]));
                } else if j < ordfin.len() {
                    assert(ordfin.contains(ordfin[j]));
                }
            };
            assert forall|x: u128| ordfin.contains(x) implies fin.contains(x) by {
                let t = choose|t: int| 0 <= t < ordfin.len() && ordfin[t] == x;
                assert(fin[t] == x);
            };
            assert(g1.nodes.dom().subset_of(g0.nodes.dom()));
            assert forall|i: int| 0 <= i < fin.len() implies g0.nodes.contains_key(
                #[trigger] fin[i],
            ) && !g1.nodes.contains_key(fin[i]) by {
                if i < ordfin.len() {
                    assert(m2.nodes.contains_key(ordfin[i]));
                } else {
                    assert(fin[i] == this_id);
                }
            };
            assert forall|q: u128|
                g0.nodes.contains_key(q) && !g1.nodes.contains_key(q) implies fin.contains(
                q,
            ) by {
                if q == this_id {
                    assert(fin[fin.len() - 1] == this_id);
                } else {
                    assert(m2.nodes.contains_key(q));
                    assert(ordfin.contains(q));
                }
            };
            assert forall|q: u128| #[trigger] g1.nodes.contains_key(q) implies g1.nodes[q]
                == d.nodes[q] by {
                assert(g1.nodes[q] == m2.nodes[q]);
            };
            assert forall|j: int, i: int|
                0 <= j < fin.len() && 0 <= i < d.nodes[fin[j]].childs.len()
                    implies !g1.nodes.contains_key(#[trigger] d.nodes[fin[j]].childs[i]) by {
                if j == ordfin.len() {
                    assert(fin[j] == this_id);
                    assert(d.nodes[this_id].childs[i] == childs@[i]);
                    assert(!g1.nodes.contains_key(childs@[i]));
                }
            };
            assert forall|j: int, i: int|
                0 <= j < fin.len() && 0 <= i < d.nodes[fin[j]].childs.len()
                    implies listed_before(fin, j, #[trigger] d.nodes[fin[j]].childs[i]) by {
                if j < ordfin.len() {
                    assert(listed_before(ordfin, j, d.nodes[ordfin[j]].childs[i]));
                    let t = choose|t: int|
                        0 <= t < j && ordfin[t] == d.nodes[ordfin[j]].childs[i];
                    assert(fin[t] == d.nodes[fin[j]].childs[i]);
                } else {
                    assert(fin[j] == this_id);
                    assert(d.nodes[this_id].childs[i] == childs@[i]);
                    assert(ordfin.contains(childs@[i]));
                    let t = choose|t: int| 0 <= t < ordfin.len() && ordfin[t] == childs@[i];
                    assert(fin[t] == d.nodes[fin[j]].childs[i]);
                }
            };
            assert forall|j: int|
                0 <= j < fin.len() && #[trigger] fin[j] != this_id
                    implies child_listed_later(d.nodes, fin, j) by {
                assert(j < ordfin.len());
                if childs@.contains(ordfin[j]) {
                    let i = choose|i: int| 0 <= i < childs@.len() && childs@[i] == ordfin[j];
                    let t = fin.len() - 1;
                    assert(fin[t] == this_id);
                    assert(d.nodes[this_id].childs[i] == fin[j]);
                    assert(j < t < fin.len() && 0 <= i < d.nodes[fin[t]].childs.len()
                        && d.nodes[fin[t]].childs[i] == fin[j]);
                } else {
                    assert(child_listed_later(d.nodes, ordfin, j));
                    let (t, i) = choose|t: int, i: int|
                        j < t < ordfin.len() && 0 <= i < d.nodes[ordfin[t]].childs.len()
                            && d.nodes[ordfin[t]].childs[i] == ordfin[j];
                    assert(fin[t] == ordfin[t]);
                    assert(j < t < fin.len() && 0 <= i < d.nodes[fin[t]].childs.len()
                        && d.nodes[fin[t]].childs[i] == fin[j]);
                }
            };
            assert forall|jp: int, i1: int, i2: int, t1: int, t2: int|
                #![trigger d.nodes[fin[jp]].childs[i1], d.nodes[fin[jp]].childs[i2], fin[t1], fin[t2]]
                0 <= jp < fin.len() && 0 <= i1 < i2 < d.nodes[fin[jp]].childs.len() && 0 <= t1
                    < fin.len() && 0 <= t2 < fin.len() && fin[t1] == d.nodes[fin[jp]].childs[i1]
                    && fin[t2] == d.nodes[fin[jp]].childs[i2] implies t1 < t2 by {
                let x1 = d.nodes[fin[jp]].childs[i1];
                let x2 = d.nodes[fin[jp]].childs[i2];
                assert(d.nodes.contains_key(fin[jp]));
                assert(x1 != this_id && x2 != this_id);
                assert(t1 < ordfin.len() && t2 < ordfin.len());
                assert(ordfin[t1] == x1 && ordfin[t2] == x2);
                if jp < ordfin.len() {
                    assert(fin[jp] == ordfin[jp]);
                } else {
                    assert(fin[jp] == this_id);
                    assert(x1 == childs@[i1] && x2 == childs@[i2]);
                }
            };
            assert forall|jp: int|
                0 <= jp < fin.len() && d.nodes[#[trigger] fin[jp]].childs.len() > 0 implies jp
                >= 1 && fin[jp - 1] == d.nodes[fin[jp]].childs.last() by {
                if jp < ordfin.len() {
                    assert(fin[jp] == ordfin[jp]);
                    assert(ordfin[jp - 1] == d.nodes[ordfin[jp]].childs.last());
                    assert(fin[jp - 1] == ordfin[jp - 1]);
                } else {
                    assert(fin[jp] == this_id);
                    assert(d.nodes[this_id].childs == childs@);
                    assert(childs@.len() > 0);
                    assert(ordfin.len() > 0 && ordfin.last() == childs@[childs@.len() - 1]);
                    assert(fin[jp - 1] == ordfin[ordfin.len() - 1]);
                }
            };
            assert(subtree_removal_ok(g0, g1, this_id, order@));
        }
        order
    }

    /// Deletes `this_id` alone, as `delete_node` does, invoking the
    /// caller's hook with its identifier just before the removal. The hook
    /// fires exactly once per deleted node, so not at all for an unknown
    /// id.
    pub fn delete_node_call<F: Fn(u128)>(&mut self, this_id: u128, on_delete_func: &F)
        requires
            old(self).wf(),
            this_id != old(self)@.root,
            forall|x: u128| #[trigger] call_requires(*on_delete_func, (x,)),
        ensures
            final(self).wf(),
            final(self)@ == without_node(old(self)@, this_id),
            final(self)@.root == old(self)@.root,
    {
        if self.nodes.contains_key(&this_id) {
            (*on_delete_func)(this_id);
            self.delete_node(this_id);
        } else {
            proof {
                assert(self@ =~~= without_node(old(self)@, this_id));
            }
        }
    }

    /// Deletes the whole subtree rooted at `this_id`, each node's
    /// descendants before it. No-op on unknown ids.
    pub fn delete_node_recursive(&mut self, this_id: u128)
        requires
            old(self).wf(),
            this_id != old(self)@.root,
        ensures
            final(self).wf(),
            exists|ord: Seq<u128>|
                subtree_removal_ok(old(self)@, final(self)@, this_id, ord),
    {
        let order = self.delete_subtree_postorder(this_id);
        proof {
            assert(subtree_removal_ok(old(self)@, self@, this_id, order@));
        }
    }

    /// Deletes the whole subtree rooted at `this_id` and invokes the
    /// caller's hook once per deleted node, in deletion order: each node's
    /// descendants strictly before it, `this_id` last.
    pub fn delete_node_recursive_call<F: Fn(u128)>(&mut self, this_id: u128, on_delete_func: &F)
        requires
            old(self).wf(),
            this_id != old(self)@.root,
            forall|x: u128| #[trigger] call_requires(*on_delete_func, (x,)),
        ensures
            final(self).wf(),
            exists|ord: Seq<u128>|
                subtree_removal_ok(old(self)@, final(self)@, this_id, ord),
    {
        let order = self.delete_subtree_postorder(this_id);
        proof {
            assert(subtree_removal_ok(old(self)@, self@, this_id, order@));
        }
        let mut i: usize = 0;
        #[verifier::loop_isolation(false)]
        while i < order.len()
            decreases order@.len() - i,
        {
            (*on_delete_func)(order[i]);
            i += 1;
        }
    }

    /// All nodes of the store as a flat list, one entry per identifier, in
    /// an unspecified order: the serializable form of the store. The list
    /// decodes back to exactly this store's node map.
    pub fn to_nodes(&self) -> (r: Vec<Node>)
        requires
            self.wf(),
        ensures
            r@.len() == self@.nodes.dom().len(),
            entry_ids(node_views(r@)).no_duplicates(),
            forall|i: int|
                0 <= i < r@.len() ==> self@.nodes.contains_key(#[trigger] node_views(r@)[i].id)
                    && self@.nodes[node_views(r@)[i].id] == node_views(r@)[i],
            forall|k: u128| #[trigger] self@.nodes.contains_key(k) ==> (exists|i: int|
                0 <= i < r@.len() && node_views(r@)[i].id == k),
            entries_map(node_views(r@)) == self@.nodes,
    {
        let ids = collect_keys(&self.nodes);
        let mut r: Vec<Node> = Vec::new();
        let mut i: usize = 0;
        #[verifier::loop_isolation(false)]
        while i < ids.len()
            invariant
                i <= ids@.len(),
                r@.len() == i,
                forall|j: int| 0 <= j < i ==> (#[trigger] r@[j]@) == self@.nodes[ids@[j]],
            decreases ids@.len() - i,
        {
            let k = ids[i];
            proof {
                assert(ids@.contains(ids@[i as int]));
            }
            let n = self.nodes.get(&k).unwrap();
            let cn = clone_node(n);
            r.push(cn);
            i += 1;
        }
        proof {
            assert forall|j: int| 0 <= j < r@.len() implies (#[trigger] node_views(r@)[j]).id
                == ids@[j] by {
                assert(ids@.contains(ids@[j]));
                assert(self@.nodes.contains_key(ids@[j]));
                assert(node_ok(self@.nodes, ids@[j]));
                assert(node_views(r@)[j] == r@[j]@);
            };
            assert(entry_ids(node_views(r@)) =~= ids@);
            assert forall|j: int|
                0 <= j < node_views(r@).len() implies self@.nodes.contains_key(
                #[trigger] node_views(r@)[j].id,
            ) && self@.nodes[node_views(r@)[j].id] == node_views(r@)[j] by {
                assert(ids@.contains(ids@[j]));
                assert(self@.nodes.contains_key(ids@[j]));
                assert(node_views(r@)[j] == r@[j]@);
            };
            assert forall|k: u128| #[trigger] self@.nodes.contains_key(k) implies (exists|i2: int|
                0 <= i2 < r@.len() && node_views(r@)[i2].id == k) by {
                assert(ids@.contains(k));
                let j = choose|j: int| 0 <= j < ids@.len() && ids@[j] == k;
                assert(node_views(r@)[j].id == k);
            };
            crate::model::lemma_entries_determine_store(node_views(r@), self@.nodes);
            assert(self@.nodes.dom() =~= self.nodes@.dom());
        }
        r
    }

    /// Rebuilds a store from a flat node list and a root identifier, as
    /// decoded from the serialized form. Succeeds exactly when the list
    /// names no identifier twice and the decoded pair is well formed (root
    /// present and parentless, child lists duplicate-free and consistent
    /// with parent links); anything else yields `None`.
    pub fn from_nodes(nodes: &Vec<Node>, root: u128) -> (r: Option<SceneGraph>)
        ensures
            (r is Some) == (entry_ids(node_views(nodes@)).no_duplicates() && graph_wf(
                GraphView { nodes: entries_map(node_views(nodes@)), root },
            )),
            (match r {
                Some(g) => {
                    &&& g.wf()
                    &&& g@.nodes == entries_map(node_views(nodes@))
                    &&& g@.root == root
                },
                None => true,
            }),
    {
        let mut m: HashMap<u128, Node> = HashMap::new();
        let mut i: usize = 0;
        proof {
            assert(node_views(nodes@.take(0)) =~= Seq::<NodeView>::empty());
            assert(nodes_view(m@) =~= entries_map(node_views(nodes@.take(0))));
        }
        #[verifier::loop_isolation(false)]
        while i < nodes.len()
            invariant
                i <= nodes@.len(),
                nodes_view(m@) == entries_map(node_views(nodes@.take(i as int))),
                entry_ids(node_views(nodes@.take(i as int))).no_duplicates(),
                forall|x: u128| m@.contains_key(x) <==> entries_map(
                    node_views(nodes@.take(i as int)),
                ).contains_key(x),
            decreases nodes@.len() - i,
        {
            let cn = clone_node(&nodes[i]);
            let ghost pre = node_views(nodes@.take(i as int));
            let ghost now = node_views(nodes@.take(i + 1));
            proof {
                assert(now =~= pre.push(nodes@[i as int]@));
                assert(now.drop_last() =~= pre);
                assert(now.last() == nodes@[i as int]@);
                assert(entry_ids(now) =~= entry_ids(pre).push(nodes@[i as int]@.id));
                crate::model::lemma_entries_map_dom(pre);
            }
            if m.contains_key(&cn.instanceid) {
                proof {
                    let j = choose|j: int| 0 <= j < pre.len() && pre[j].id == cn.instanceid;
                    let full = node_views(nodes@);
                    assert(entry_ids(full)[j] == full[j].id);
                    assert(full[j] == nodes@[j]@);
                    assert(nodes@.take(i as int)[j] == nodes@[j]);
                    assert(entry_ids(full)[j] == cn.instanceid);
                    assert(entry_ids(full)[i as int] == cn.instanceid);
                    assert(!entry_ids(full).no_duplicates());
                }
                return None;
            }
            m.insert(cn.instanceid, cn);
            proof {
                assert(nodes_view(m@) =~= entries_map(now));
                assert forall|x: int, y: int|
                    0 <= x < y < entry_ids(now).len() implies entry_ids(now)[x] != entry_ids(
                    now,
                )[y] by {
                    if y < entry_ids(pre).len() {
                    } else {
                        assert(entry_ids(now)[y] == nodes@[i as int]@.id);
                        assert(entry_ids(now)[x] == pre[x].id);
                        if entry_ids(now)[x] == entry_ids(now)[y] {
                            assert(entries_map(pre).contains_key(pre[x].id));
                        }
                    }
                };
                assert(entry_ids(now).no_duplicates());
            }
            i += 1;
        }
        proof {
            assert(nodes@.take(nodes@.len() as int) =~= nodes@);
        }
        if !check_graph_wf(&m, root) {
            return None;
        }
        Some(SceneGraph { nodes: m, root })
    }

    /// The full child list of `this_id`'s parent, `this_id` included;
    /// `None` when `this_id` is unknown, detached, or its parent link
    /// dangles.
    pub fn get_siblings(&self, this_id: u128) -> (r: Option<&Vec<u128>>)
        ensures
            match r {
                Some(v) => {
                    &&& self@.nodes.contains_key(this_id)
                    &&& self@.nodes[this_id].parent is Some
                    &&& self@.nodes.contains_key(self@.nodes[this_id].parent.unwrap())
                    &&& v@ == self@.nodes[self@.nodes[this_id].parent.unwrap()].childs
                },
                None => !self@.nodes.contains_key(this_id) || self@.nodes[this_id].parent is None
                    || !self@.nodes.contains_key(self@.nodes[this_id].parent.unwrap()),
            },
    {
        if let Some(parent_id) = self.get_parent_id(this_id) {
            return self.get_childs(parent_id);
        }
        None
    }

    /// The position of `this_id` in its siblings list: `Some(i)` exactly
    /// when a siblings list exists and holds `this_id`, `i` being the first
    /// position; `None` for a root, detached, or unknown id.
    pub fn get_sibling_index(&self, this_id: u128) -> (r: Option<usize>)
        ensures
            sibling_index_spec(self@, this_id, r),
    {
        if let Some(siblings) = self.get_siblings(this_id) {
            let mut i: usize = 0;
            while i < siblings.len()
                invariant
                    i <= siblings@.len(),
                    forall|j: int| 0 <= j < i ==> siblings@[j] != this_id,
                    self@.nodes.contains_key(this_id),
                    self@.nodes[this_id].parent is Some,
                    self@.nodes.contains_key(self@.nodes[this_id].parent.unwrap()),
                    siblings@ == self@.nodes[self@.nodes[this_id].parent.unwrap()].childs,
                decreases siblings@.len() - i,
            {
                if siblings[i] == this_id {
                    return Some(i);
                }
                i += 1;
            }
            assert(!siblings@.contains(this_id));
            return None;
        }
        None
    }

    /// `get_sibling_index` behind a mutable borrow; the store is untouched.
    pub fn get_mut_sibling_index(&mut self, this_id: u128) -> (r: Option<usize>)
        ensures
            *final(self) == *old(self),
            sibling_index_spec(old(self)@, this_id, r),
    {
        self.get_sibling_index(this_id)
    }

    /// The ordered child list of `this_id`; `None` only when `this_id` is
    /// unknown (an existing leaf yields an empty list).
    pub fn get_childs(&self, this_id: u128) -> (r: Option<&Vec<u128>>)
        ensures
            match r {
                Some(v) => self@.nodes.contains_key(this_id) && v@ == self@.nodes[this_id].childs,
                None => !self@.nodes.contains_key(this_id),
            },
    {
        if let Some(instance) = self.get(this_id) {
            Some(&instance.childs)
        } else {
            None
        }
    }
}

} // verus!
