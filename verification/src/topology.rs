//! Directed reachability graph between overlay nodes.
//!
//! A [`Topology`] records which node can talk directly to which other node.
//! Edges may be one-way or paired; the graph answers one-hop queries and
//! whether every node can reach every other node along directed edges. A node
//! belongs to the graph only while it has at least one edge, outbound or
//! inbound.
use vstd::prelude::*;

use crate::flags::{count_true, lemma_count_prefix, lemma_count_true_bound, lemma_count_true_set};
use crate::ordered_map::{strictly_increasing, OrderedMap};
use crate::types::NodeId;

verus! {

/// A direct edge from `a` to `b` in the adjacency map `g`.
pub open spec fn has_edge(g: Map<u64, Set<u64>>, a: u64, b: u64) -> bool {
    g.contains_key(a) && g[a].contains(b)
}

/// Step `i` of the walk `p` follows an edge of `g`.
pub open spec fn step_ok(g: Map<u64, Set<u64>>, p: Seq<u64>, i: int) -> bool {
    has_edge(g, p[i], p[i + 1])
}

/// `p` is a non-empty walk along the edges of `g`.
pub open spec fn is_path(g: Map<u64, Set<u64>>, p: Seq<u64>) -> bool {
    &&& p.len() >= 1
    &&& forall|i: int| 0 <= i < p.len() - 1 ==> #[trigger] step_ok(g, p, i)
}

/// Some walk of `g` leads from `a` to `b`; every node reaches itself.
pub open spec fn reaches(g: Map<u64, Set<u64>>, a: u64, b: u64) -> bool {
    exists|p: Seq<u64>| #[trigger] is_path(g, p) && p[0] == a && p.last() == b
}

/// Every node of `g` reaches every node of `g`.
pub open spec fn strongly_connected(g: Map<u64, Set<u64>>) -> bool {
    forall|a: u64, b: u64| g.contains_key(a) && g.contains_key(b) ==> #[trigger] reaches(g, a, b)
}

/// `g` with the edge `from → to`; both ends become nodes if they were not already.
pub open spec fn with_edge(g: Map<u64, Set<u64>>, from: u64, to: u64) -> Map<u64, Set<u64>> {
    let out = if g.contains_key(from) { g[from] } else { Set::<u64>::empty() };
    let g1 = g.insert(from, out.insert(to));
    if g1.contains_key(to) { g1 } else { g1.insert(to, Set::<u64>::empty()) }
}

/// `g` without the edge `from → to`, before nodes left without edges are dropped.
pub open spec fn without_edge(g: Map<u64, Set<u64>>, from: u64, to: u64) -> Map<u64, Set<u64>> {
    if g.contains_key(from) { g.insert(from, g[from].remove(to)) } else { g }
}

/// `g` without the node `n` and without every edge into or out of it, before
/// nodes left without edges are dropped.
pub open spec fn without_node(g: Map<u64, Set<u64>>, n: u64) -> Map<u64, Set<u64>> {
    Map::new(|k: u64| g.contains_key(k) && k != n, |k: u64| g[k].remove(n))
}

/// `x` has an edge of `g`, outbound or inbound.
pub open spec fn touched(g: Map<u64, Set<u64>>, x: u64) -> bool {
    (exists|b: u64| #[trigger] has_edge(g, x, b)) || (exists|a: u64| #[trigger] has_edge(g, a, x))
}

/// `g` without the nodes that have no edge left.
pub open spec fn pruned(g: Map<u64, Set<u64>>) -> Map<u64, Set<u64>> {
    Map::new(|x: u64| g.contains_key(x) && touched(g, x), |x: u64| g[x])
}

/// Node ids in strictly increasing order.
pub open spec fn ids_increasing(s: Seq<NodeId>) -> bool {
    forall|i: int, j: int| 0 <= i < j < s.len() ==> s[i].0 < s[j].0
}

proof fn lemma_path_push(g: Map<u64, Set<u64>>, p: Seq<u64>, b: u64)
    requires
        is_path(g, p),
        has_edge(g, p.last(), b),
    ensures
        is_path(g, p.push(b)),
        p.push(b)[0] == p[0],
        p.push(b).last() == b,
{
    let q = p.push(b);
    assert forall|i: int| 0 <= i < q.len() - 1 implies #[trigger] step_ok(g, q, i) by {
        if i < p.len() - 1 {
            assert(step_ok(g, p, i));
        }
    }
}

proof fn lemma_path_prepend(g: Map<u64, Set<u64>>, a: u64, p: Seq<u64>)
    requires
        is_path(g, p),
        has_edge(g, a, p[0]),
    ensures
        is_path(g, seq![a] + p),
        (seq![a] + p)[0] == a,
        (seq![a] + p).last() == p.last(),
{
    let q = seq![a] + p;
    assert forall|i: int| 0 <= i < q.len() - 1 implies #[trigger] step_ok(g, q, i) by {
        if i > 0 {
            assert(step_ok(g, p, i - 1));
            assert(q[i] == p[i - 1]);
            assert(q[i + 1] == p[i]);
        } else {
            assert(q[1] == p[0]);
        }
    }
}

proof fn lemma_path_concat(g: Map<u64, Set<u64>>, p: Seq<u64>, q: Seq<u64>)
    requires
        is_path(g, p),
        is_path(g, q),
        p.last() == q[0],
    ensures
        is_path(g, p + q.skip(1)),
        (p + q.skip(1))[0] == p[0],
        (p + q.skip(1)).last() == q.last(),
{
    let r = p + q.skip(1);
    assert forall|i: int| 0 <= i < r.len() - 1 implies #[trigger] step_ok(g, r, i) by {
        if i < p.len() - 1 {
            assert(step_ok(g, p, i));
        } else {
            let j = i - (p.len() - 1);
            assert(step_ok(g, q, j));
            assert(r[i] == q[j]);
            assert(r[i + 1] == q[j + 1]);
        }
    }
}

/// A walk that starts inside a set closed under edges stays inside it.
proof fn lemma_closed_walk(g: Map<u64, Set<u64>>, s: Set<u64>, p: Seq<u64>)
    requires
        is_path(g, p),
        s.contains(p[0]),
        forall|x: u64, y: u64| s.contains(x) && #[trigger] has_edge(g, x, y) ==> s.contains(y),
    ensures
        s.contains(p.last()),
    decreases p.len(),
{
    if p.len() > 1 {
        let q = p.drop_last();
        assert forall|i: int| 0 <= i < q.len() - 1 implies #[trigger] step_ok(g, q, i) by {
            assert(step_ok(g, p, i));
        }
        lemma_closed_walk(g, s, q);
        assert(step_ok(g, p, p.len() - 2));
    }
}

proof fn lemma_reaches_step(g: Map<u64, Set<u64>>, a: u64, b: u64, c: u64)
    requires
        reaches(g, a, b),
        has_edge(g, b, c),
    ensures
        reaches(g, a, c),
{
    let p = choose|p: Seq<u64>| #[trigger] is_path(g, p) && p[0] == a && p.last() == b;
    lemma_path_push(g, p, c);
}

proof fn lemma_reaches_prepend(g: Map<u64, Set<u64>>, a: u64, b: u64, c: u64)
    requires
        has_edge(g, a, b),
        reaches(g, b, c),
    ensures
        reaches(g, a, c),
{
    let p = choose|p: Seq<u64>| #[trigger] is_path(g, p) && p[0] == b && p.last() == c;
    lemma_path_prepend(g, a, p);
}

proof fn lemma_reaches_trans(g: Map<u64, Set<u64>>, a: u64, b: u64, c: u64)
    requires
        reaches(g, a, b),
        reaches(g, b, c),
    ensures
        reaches(g, a, c),
{
    let p = choose|p: Seq<u64>| #[trigger] is_path(g, p) && p[0] == a && p.last() == b;
    let q = choose|q: Seq<u64>| #[trigger] is_path(g, q) && q[0] == b && q.last() == c;
    lemma_path_concat(g, p, q);
}

proof fn lemma_reaches_self(g: Map<u64, Set<u64>>, a: u64)
    ensures
        reaches(g, a, a),
{
    let p = seq![a];
    assert(is_path(g, p));
}

/// Directed graph of node-to-node reachability.
#[derive(Debug, Clone)]
pub struct Topology {
    /// Each node with the set of nodes it has a direct edge to.
    edges: OrderedMap<OrderedMap<()>>,
}

impl Topology {
    /// Each node of the graph with the set of nodes it has a direct edge to.
    pub closed spec fn view(&self) -> Map<u64, Set<u64>> {
        Map::new(|k: u64| self.edges@.contains_key(k), |k: u64| self.edges@[k]@.dom())
    }

    /// Neighbour sets are well formed and every edge ends at a node of the graph.
    closed spec fn raw_ok(&self) -> bool {
        &&& self.edges.wf()
        &&& forall|k: u64| self.edges@.contains_key(k) ==> (#[trigger] self.edges@[k]).wf()
        &&& forall|a: u64, b: u64| #[trigger] has_edge(self@, a, b) ==> self@.contains_key(b)
    }

    /// Neighbour sets are well formed, every edge ends at a node of the graph,
    /// and every node of the graph has at least one edge, outbound or inbound.
    pub closed spec fn wf(&self) -> bool {
        &&& self.raw_ok()
        &&& forall|k: u64| #[trigger] self@.contains_key(k) ==> touched(self@, k)
    }

    /// Every edge of a well-formed topology ends at one of its nodes.
    pub proof fn lemma_edges_end_at_nodes(&self)
        requires
            self.wf(),
        ensures
            forall|a: u64, b: u64| #[trigger] has_edge(self@, a, b) ==> self@.contains_key(b),
            self@.dom().finite(),
    {
        self.edges.lemma_view();
        assert(self@.dom() =~= self.edges@.dom());
    }

    /// Edge from the `i`-th smallest node to the `k`-th smallest node.
    spec fn idx_edge(&self, i: int, k: int) -> bool {
        has_edge(self@, self.edges.key_seq()[i], self.edges.key_seq()[k])
    }

    /// Facts relating positions among the nodes to the adjacency map.
    proof fn lemma_positions(&self)
        requires
            self.wf(),
        ensures
            strictly_increasing(self.edges.key_seq()),
            self.edges.key_seq().len() == self.edges.val_seq().len(),
            forall|i: int| 0 <= i < self.edges.key_seq().len() ==> self@.contains_key(#[trigger] self.edges.key_seq()[i]),
            forall|i: int| 0 <= i < self.edges.key_seq().len() ==> (#[trigger] self.edges.val_seq()[i]).wf()
                && self@[self.edges.key_seq()[i]] == self.edges.val_seq()[i]@.dom(),
            forall|x: u64| #[trigger] self@.contains_key(x) ==> exists|i: int| 0 <= i < self.edges.key_seq().len() && self.edges.key_seq()[i] == x,
            self@.dom().len() == self.edges.key_seq().len(),
    {
        self.edges.lemma_view();
        assert forall|i: int| 0 <= i < self.edges.key_seq().len() implies (#[trigger] self.edges.val_seq()[i]).wf()
            && self@[self.edges.key_seq()[i]] == self.edges.val_seq()[i]@.dom() by {
            assert(self.edges@[self.edges.key_seq()[i]] == self.edges.val_seq()[i]);
        }
        assert forall|x: u64| #[trigger] self@.contains_key(x) implies exists|i: int| 0 <= i < self.edges.key_seq().len() && self.edges.key_seq()[i] == x by {
            assert(self.edges.key_seq().contains(x));
        }
        assert(self@.dom() =~= self.edges@.dom());
    }

    /// Create an empty topology with no nodes or edges.
    pub fn new() -> (r: Self)
        ensures
            r.wf(),
            r@ == Map::<u64, Set<u64>>::empty(),
    {
        let r = Topology { edges: OrderedMap::new() };
        assert(r@ =~= Map::<u64, Set<u64>>::empty());
        r
    }

    /// Add a directed edge from `from` to `to`; both endpoints become nodes.
    pub fn add_edge(&mut self, from: NodeId, to: NodeId)
        requires
            old(self).wf(),
        ensures
            final(self).wf(),
            final(self)@ == with_edge(old(self)@, from.0, to.0),
    {
        let ghost g0 = self@;
        let mut out = match self.edges.remove(from.0) {
            Some(m) => m,
            None => OrderedMap::new(),
        };
        out.insert(to.0, ());
        self.edges.insert(from.0, out);
        if !self.edges.contains_key(to.0) {
            self.edges.insert(to.0, OrderedMap::new());
        }
        proof {
            let g = with_edge(g0, from.0, to.0);
            assert(self@.dom() =~= g.dom());
            assert forall|k: u64| #[trigger] self@.contains_key(k) implies self@[k] == g[k] by {
                if k == from.0 {
                    assert(self@[k] =~= g[k]);
                }
            }
            assert(self@ =~= g);
            assert forall|k: u64| self.edges@.contains_key(k) implies (#[trigger] self.edges@[k]).wf() by {
                if k != from.0 && k != to.0 {
                    assert(old(self).edges@.contains_key(k));
                }
            }
            assert forall|a: u64, b: u64| #[trigger] has_edge(self@, a, b) implies self@.contains_key(b) by {
                if a == from.0 && b == to.0 {
                } else if a == from.0 {
                    assert(has_edge(g0, a, b));
                } else {
                    assert(has_edge(g0, a, b));
                }
            }
            assert forall|k: u64| #[trigger] self@.contains_key(k) implies touched(self@, k) by {
                if k == from.0 || k == to.0 {
                    assert(has_edge(self@, from.0, to.0));
                } else {
                    assert(g0.contains_key(k));
                    assert(touched(g0, k));
                    if exists|b: u64| #[trigger] has_edge(g0, k, b) {
                        let b = choose|b: u64| #[trigger] has_edge(g0, k, b);
                        assert(has_edge(self@, k, b));
                    } else {
                        let a = choose|a: u64| #[trigger] has_edge(g0, a, k);
                        assert(has_edge(self@, a, k));
                    }
                }
            }
        }
    }

    /// Add edges in both directions between `a` and `b`.
    pub fn add_bidirectional(&mut self, a: NodeId, b: NodeId)
        requires
            old(self).wf(),
        ensures
            final(self).wf(),
            final(self)@ == with_edge(with_edge(old(self)@, a.0, b.0), b.0, a.0),
    {
        self.add_edge(a, b);
        self.add_edge(b, a);
    }

    /// Remove a single directed edge; an endpoint left without any edge
    /// leaves the graph.
    pub fn remove_edge(&mut self, from: NodeId, to: NodeId)
        requires
            old(self).wf(),
        ensures
            final(self).wf(),
            final(self)@ == pruned(without_edge(old(self)@, from.0, to.0)),
    {
        self.drop_edge(from, to);
        self.prune();
    }

    /// Remove a single directed edge, keeping both endpoints.
    fn drop_edge(&mut self, from: NodeId, to: NodeId)
        requires
            old(self).raw_ok(),
        ensures
            final(self).raw_ok(),
            final(self)@ == without_edge(old(self)@, from.0, to.0),
    {
        let ghost g0 = self@;
        match self.edges.remove(from.0) {
            Some(m) => {
                let mut out = m;
                out.remove(to.0);
                self.edges.insert(from.0, out);
                proof {
                    let g = without_edge(g0, from.0, to.0);
                    assert(self@.dom() =~= g.dom());
                    assert forall|k: u64| #[trigger] self@.contains_key(k) implies self@[k] == g[k] by {
                        if k == from.0 {
                            assert(self@[k] =~= g[k]);
                        }
                    }
                    assert(self@ =~= g);
                    assert forall|k: u64| self.edges@.contains_key(k) implies (#[trigger] self.edges@[k]).wf() by {
                        if k != from.0 {
                            assert(old(self).edges@.contains_key(k));
                        }
                    }
                    assert forall|a: u64, b: u64| #[trigger] has_edge(self@, a, b) implies self@.contains_key(b) by {
                        assert(has_edge(g0, a, b));
                    }
                }
            },
            None => {
                proof {
                    assert(self@ =~= g0);
                }
            },
        }
    }

    /// Remove the edges in both directions between `a` and `b`; a node left
    /// without any edge leaves the graph.
    pub fn remove_bidirectional(&mut self, a: NodeId, b: NodeId)
        requires
            old(self).wf(),
        ensures
            final(self).wf(),
            final(self)@ == pruned(without_edge(without_edge(old(self)@, a.0, b.0), b.0, a.0)),
    {
        self.drop_edge(a, b);
        self.drop_edge(b, a);
        self.prune();
    }

    /// Remove `node_id` and every edge into or out of it; a node left without
    /// any edge leaves the graph too.
    pub fn remove_node(&mut self, node_id: NodeId)
        requires
            old(self).wf(),
        ensures
            final(self).wf(),
            final(self)@ == pruned(without_node(old(self)@, node_id.0)),
    {
        self.drop_node(node_id);
        self.prune();
    }

    /// Whether some node has an edge to `x`.
    fn has_inbound(&self, x: u64) -> (r: bool)
        requires
            self.raw_ok(),
        ensures
            r == exists|a: u64| #[trigger] has_edge(self@, a, x),
    {
        proof {
            self.edges.lemma_view();
        }
        let n = self.edges.len();
        let mut j: usize = 0;
        while j < n
            invariant
                self.raw_ok(),
                n == self.edges.key_seq().len(),
                self.edges.key_seq().len() == self.edges.val_seq().len(),
                j <= n,
                forall|t: int| 0 <= t < j ==> !has_edge(self@, #[trigger] self.edges.key_seq()[t], x),
            decreases n - j,
        {
            let out = self.edges.value_at(j);
            proof {
                self.edges.lemma_view();
                assert(self.edges.key_seq().contains(self.edges.key_seq()[j as int]));
                let kj = self.edges.key_seq()[j as int];
                assert(self.edges@.contains_key(kj));
                assert(self.raw_ok());
                assert(self.edges@[kj].wf());
                assert(*out == self.edges@[kj]);
                assert(out.wf());
            }
            if out.contains_key(x) {
                proof {
                    assert(has_edge(self@, self.edges.key_seq()[j as int], x));
                }
                return true;
            }
            j = j + 1;
        }
        proof {
            assert forall|a: u64| !has_edge(self@, a, x) by {
                if has_edge(self@, a, x) {
                    assert(self.edges.key_seq().contains(a));
                    let t = self.edges.key_seq().index_of(a);
                    assert(self.edges.key_seq()[t] == a);
                }
            }
        }
        false
    }

    /// Whether `x`, a node at position `i`, has an edge out of it.
    fn has_outbound(&self, i: usize) -> (r: bool)
        requires
            self.raw_ok(),
            i < self.edges.key_seq().len(),
        ensures
            r == exists|b: u64| #[trigger] has_edge(self@, self.edges.key_seq()[i as int], b),
    {
        proof {
            self.edges.lemma_view();
        }
        let x = self.edges.key_at(i);
        let out = self.edges.value_at(i);
        proof {
            assert(self.edges.key_seq().contains(x));
            assert(self.edges@.contains_key(x));
            assert(self.raw_ok());
            assert(self.edges@[x].wf());
            assert(*out == self.edges@[x]);
            assert(out.wf());
            out.lemma_view();
        }
        if out.len() > 0 {
            proof {
                let b = out.key_seq()[0];
                assert(out.key_seq().contains(b));
                assert(has_edge(self@, x, b));
            }
            true
        } else {
            proof {
                assert forall|b: u64| !has_edge(self@, x, b) by {
                    if has_edge(self@, x, b) {
                        assert(out@.contains_key(b));
                        assert(out.key_seq().contains(b));
                    }
                }
            }
            false
        }
    }

    /// Drop every node that has no edge, outbound or inbound.
    fn prune(&mut self)
        requires
            old(self).raw_ok(),
        ensures
            final(self).wf(),
            final(self)@ == pruned(old(self)@),
    {
        let ghost g0 = self@;
        let ghost e0 = self.edges@;
        proof {
            self.edges.lemma_view();
            assert forall|k: u64| #[trigger] g0.contains_key(k) <==> e0.contains_key(k) by {}
            assert forall|k: u64| #[trigger] g0.contains_key(k) ==> g0[k] == e0[k]@.dom() by {}
        }
        let keys = self.edges.keys();
        let mut iso: Vec<u64> = Vec::new();
        let mut i: usize = 0;
        while i < keys.len()
            invariant
                self.raw_ok(),
                self@ == g0,
                keys@ == self.edges.key_seq(),
                i <= keys@.len(),
                forall|x: u64| #[trigger] iso@.contains(x) <==> exists|t: int| 0 <= t < i && keys@[t] == x && !touched(g0, x),
            decreases keys.len() - i,
        {
            let x = keys[i];
            let outbound = self.has_outbound(i);
            let inbound = if outbound { true } else { self.has_inbound(x) };
            let ghost before = iso@;
            if !outbound && !inbound {
                iso.push(x);
            }
            proof {
                assert forall|y: u64| #[trigger] iso@.contains(y) <==> exists|t: int| 0 <= t < i + 1 && keys@[t] == y && !touched(g0, y) by {
                    if iso@.contains(y) && !before.contains(y) {
                        assert(y == x);
                        assert(keys@[i as int] == y);
                    }
                    if before.contains(y) {
                        assert(iso@.contains(y) == true) by {
                            let a = before.index_of(y);
                            assert(iso@[a] == y);
                        }
                    }
                    if exists|t: int| 0 <= t < i + 1 && keys@[t] == y && !touched(g0, y) {
                        let t = choose|t: int| 0 <= t < i + 1 && keys@[t] == y && !touched(g0, y);
                        if t == i {
                            assert(iso@[iso@.len() - 1] == y);
                        } else {
                            assert(before.contains(y));
                            let a = before.index_of(y);
                            assert(iso@[a] == y);
                        }
                    }
                }
            }
            i = i + 1;
        }
        let mut j: usize = 0;
        while j < iso.len()
            invariant
                self.edges.wf(),
                j <= iso@.len(),
                forall|x: u64| #[trigger] iso@.contains(x) <==> exists|t: int| 0 <= t < keys@.len() && keys@[t] == x && !touched(g0, x),
                forall|k: u64| #[trigger] e0.contains_key(k) <==> keys@.contains(k),
                forall|k: u64| #[trigger] self.edges@.contains_key(k) <==> e0.contains_key(k) && forall|t: int| 0 <= t < j ==> iso@[t] != k,
                forall|k: u64| #[trigger] self.edges@.contains_key(k) ==> self.edges@[k] == e0[k],
            decreases iso.len() - j,
        {
            let x = iso[j];
            let ghost prev = self.edges@;
            self.edges.remove(x);
            proof {
                assert forall|k: u64| #[trigger] self.edges@.contains_key(k) <==> e0.contains_key(k) && forall|t: int| 0 <= t < j + 1 ==> iso@[t] != k by {
                    assert(self.edges@.contains_key(k) <==> prev.contains_key(k) && k != x);
                    if prev.contains_key(k) && k != x {
                        assert forall|t: int| 0 <= t < j + 1 implies iso@[t] != k by {
                            if t < j {
                            } else {
                                assert(iso@[t] == x);
                            }
                        }
                    }
                }
                assert forall|k: u64| #[trigger] self.edges@.contains_key(k) implies self.edges@[k] == e0[k] by {
                    assert(prev.contains_key(k));
                }
            }
            j = j + 1;
        }
        proof {
            assert forall|k: u64| #[trigger] iso@.contains(k) <==> exists|t: int| 0 <= t < j && iso@[t] == k by {
                if iso@.contains(k) {
                    let t = iso@.index_of(k);
                }
            }
            let g = pruned(g0);
            assert forall|k: u64| #[trigger] self@.contains_key(k) <==> g.contains_key(k) by {
                assert(self@.contains_key(k) <==> self.edges@.contains_key(k));
                if e0.contains_key(k) {
                    assert(keys@.contains(k));
                    let t = keys@.index_of(k);
                    assert(keys@[t] == k);
                    if touched(g0, k) {
                        assert forall|t2: int| 0 <= t2 < j implies iso@[t2] != k by {
                            if iso@[t2] == k {
                                assert(iso@.contains(k));
                            }
                        }
                    } else {
                        assert(iso@.contains(k));
                        let t2 = iso@.index_of(k);
                        assert(iso@[t2] == k);
                    }
                }
            }
            assert(self@.dom() =~= g.dom());
            assert forall|k: u64| #[trigger] self@.contains_key(k) implies self@[k] == g[k] by {}
            assert(self@ =~= g);
            assert forall|k: u64| self.edges@.contains_key(k) implies (#[trigger] self.edges@[k]).wf() by {
                assert(e0.contains_key(k));
            }
            assert forall|a: u64, b: u64| #[trigger] has_edge(self@, a, b) implies self@.contains_key(b) by {
                assert(has_edge(g0, a, b));
                assert(touched(g0, b));
                assert(g0.contains_key(b));
            }
            assert forall|k: u64| #[trigger] self@.contains_key(k) implies touched(self@, k) by {
                assert(touched(g0, k));
                if exists|b: u64| #[trigger] has_edge(g0, k, b) {
                    let b = choose|b: u64| #[trigger] has_edge(g0, k, b);
                    assert(has_edge(self@, k, b));
                } else {
                    let a = choose|a: u64| #[trigger] has_edge(g0, a, k);
                    assert(touched(g0, a));
                    assert(self@.contains_key(a));
                    assert(has_edge(self@, a, k));
                }
            }
        }
    }

    /// Remove `node_id` and every edge into or out of it, keeping the other nodes.
    fn drop_node(&mut self, node_id: NodeId)
        requires
            old(self).raw_ok(),
        ensures
            final(self).raw_ok(),
            final(self)@ == without_node(old(self)@, node_id.0),
    {
        let ghost g0 = self@;
        let n = node_id.0;
        self.edges.remove(n);
        let ghost ks = self.edges.key_seq();
        let ghost vs = self.edges.val_seq();
        let ghost m1 = self.edges@;
        proof {
            self.edges.lemma_view();
            assert forall|i: int| 0 <= i < vs.len() implies (#[trigger] vs[i]).wf()
                && vs[i] == old(self).edges@[ks[i]] by {
                assert(self.edges@[ks[i]] == vs[i]);
                assert(ks.contains(ks[i]));
                assert(self.edges@.contains_key(ks[i]));
                assert(old(self).edges@.contains_key(ks[i]));
            }
        }
        let len = self.edges.len();
        let mut i: usize = 0;
        while i < len
            invariant
                self.edges.wf(),
                self.edges.key_seq() == ks,
                len == ks.len(),
                vs.len() == ks.len(),
                i <= len,
                self.edges.val_seq().len() == vs.len(),
                forall|j: int| 0 <= j < i ==> (#[trigger] self.edges.val_seq()[j]).wf()
                    && self.edges.val_seq()[j]@ == vs[j]@.remove(n),
                forall|j: int| i <= j < len ==> #[trigger] self.edges.val_seq()[j] == vs[j],
                forall|j: int| 0 <= j < vs.len() ==> (#[trigger] vs[j]).wf(),
            decreases len - i,
        {
            let out = self.edges.value_at_mut(i);
            out.remove(n);
            i = i + 1;
        }
        proof {
            self.edges.lemma_view();
            let g = without_node(g0, n);
            assert forall|k: u64| #[trigger] self@.contains_key(k) <==> g.contains_key(k) by {
                assert(self.edges@.contains_key(k) <==> ks.contains(k));
            }
            assert(self@.dom() =~= g.dom());
            assert forall|k: u64| #[trigger] self@.contains_key(k) implies self@[k] == g[k] by {
                let j = ks.index_of(k);
                assert(self.edges@[ks[j]] == self.edges.val_seq()[j]);
                assert(vs[j] == old(self).edges@[ks[j]]);
                assert(self@[k] =~= g[k]);
            }
            assert(self@ =~= g);
            assert forall|k: u64| self.edges@.contains_key(k) implies (#[trigger] self.edges@[k]).wf() by {
                let j = ks.index_of(k);
                assert(self.edges@[ks[j]] == self.edges.val_seq()[j]);
            }
            assert forall|a: u64, b: u64| #[trigger] has_edge(self@, a, b) implies self@.contains_key(b) by {
                assert(has_edge(g0, a, b));
            }
        }
    }

    /// Whether there is a direct edge from `from` to `to`.
    pub fn can_reach(&self, from: NodeId, to: NodeId) -> (r: bool)
        requires
            self.wf(),
        ensures
            r == has_edge(self@, from.0, to.0),
    {
        match self.edges.get(from.0) {
            Some(out) => out.contains_key(to.0),
            None => false,
        }
    }

    /// The nodes reachable in one hop from `node_id`, in increasing order.
    pub fn neighbors(&self, node_id: NodeId) -> (r: Vec<NodeId>)
        requires
            self.wf(),
        ensures
            ids_increasing(r@),
            forall|x: NodeId| r@.contains(x) <==> has_edge(self@, node_id.0, x.0),
    {
        let mut r: Vec<NodeId> = Vec::new();
        match self.edges.get(node_id.0) {
            Some(out) => {
                proof {
                    out.lemma_view();
                }
                let ks = out.keys();
                let mut i: usize = 0;
                while i < ks.len()
                    invariant
                        out.wf(),
                        ks@ == out.key_seq(),
                        strictly_increasing(ks@),
                        i <= ks@.len(),
                        r@.len() == i,
                        forall|j: int| 0 <= j < i ==> (#[trigger] r@[j]).0 == ks@[j],
                    decreases ks.len() - i,
                {
                    r.push(NodeId(ks[i]));
                    i = i + 1;
                }
                proof {
                    assert forall|x: NodeId| r@.contains(x) <==> has_edge(self@, node_id.0, x.0) by {
                        if r@.contains(x) {
                            let j = r@.index_of(x);
                            assert(ks@.contains(x.0));
                        }
                        if has_edge(self@, node_id.0, x.0) {
                            assert(out@.contains_key(x.0));
                            let j = ks@.index_of(x.0);
                            assert(r@[j] == x);
                        }
                    }
                }
            },
            None => {},
        }
        r
    }

    /// Number of nodes in the graph.
    pub fn node_count(&self) -> (n: usize)
        requires
            self.wf(),
        ensures
            n == self@.dom().len(),
    {
        proof {
            self.lemma_positions();
        }
        self.edges.len()
    }

    /// For each node position, the positions of the nodes it has an edge to.
    fn successor_indices(&self) -> (succ: Vec<Vec<usize>>)
        requires
            self.wf(),
        ensures
            succ@.len() == self.edges.key_seq().len(),
            forall|i: int, j: int| 0 <= i < succ@.len() && 0 <= j < succ@[i]@.len()
                ==> (#[trigger] succ@[i]@[j]) < succ@.len() && self.idx_edge(i, succ@[i]@[j] as int),
            forall|i: int, k: int| 0 <= i < succ@.len() && 0 <= k < succ@.len() && #[trigger] self.idx_edge(i, k)
                ==> succ@[i]@.contains(k as usize),
    {
        proof {
            self.lemma_positions();
            self.lemma_edges_end_at_nodes();
        }
        let ghost ks = self.edges.key_seq();
        let n = self.edges.len();
        let mut succ: Vec<Vec<usize>> = Vec::new();
        let mut i: usize = 0;
        while i < n
            invariant
                self.wf(),
                ks == self.edges.key_seq(),
                n == ks.len(),
                strictly_increasing(ks),
                i <= n,
                succ@.len() == i,
                forall|x: u64| #[trigger] self@.contains_key(x) ==> exists|t: int| 0 <= t < ks.len() && ks[t] == x,
                forall|a: u64, b: u64| #[trigger] has_edge(self@, a, b) ==> self@.contains_key(b),
                forall|t: int| 0 <= t < ks.len() ==> (#[trigger] self.edges.val_seq()[t]).wf()
                    && self@[ks[t]] == self.edges.val_seq()[t]@.dom(),
                forall|t: int| 0 <= t < ks.len() ==> self@.contains_key(#[trigger] ks[t]),
                forall|a: int, j: int| 0 <= a < i && 0 <= j < succ@[a]@.len()
                    ==> (#[trigger] succ@[a]@[j]) < n && self.idx_edge(a, succ@[a]@[j] as int),
                forall|a: int, k: int| 0 <= a < i && 0 <= k < n && #[trigger] self.idx_edge(a, k)
                    ==> succ@[a]@.contains(k as usize),
            decreases n - i,
        {
            let out = self.edges.value_at(i);
            let nk = out.keys();
            proof {
                out.lemma_view();
            }
            let mut row: Vec<usize> = Vec::new();
            let mut j: usize = 0;
            while j < nk.len()
                invariant
                    self.wf(),
                    ks == self.edges.key_seq(),
                    n == ks.len(),
                    i < n,
                    *out == self.edges.val_seq()[i as int],
                    out.wf(),
                    nk@ == out.key_seq(),
                    forall|k: u64| #[trigger] out@.contains_key(k) <==> out.key_seq().contains(k),
                    self@[ks[i as int]] == out@.dom(),
                    self@.contains_key(ks[i as int]),
                    forall|x: u64| #[trigger] self@.contains_key(x) ==> exists|t: int| 0 <= t < ks.len() && ks[t] == x,
                    forall|a: u64, b: u64| #[trigger] has_edge(self@, a, b) ==> self@.contains_key(b),
                    j <= nk@.len(),
                    row@.len() == j,
                    forall|jj: int| 0 <= jj < j ==> (#[trigger] row@[jj]) < n && ks[row@[jj] as int] == nk@[jj],
                decreases nk.len() - j,
            {
                proof {
                    assert(out.key_seq().contains(nk@[j as int]));
                    assert(has_edge(self@, ks[i as int], nk@[j as int]));
                }
                let t = self.edges.find(nk[j]);
                row.push(t.unwrap());
                j = j + 1;
            }
            proof {
                let a = i as int;
                assert forall|jj: int| 0 <= jj < row@.len() implies (#[trigger] row@[jj]) < n && self.idx_edge(a, row@[jj] as int) by {
                    assert(out.key_seq().contains(nk@[jj]));
                }
                assert forall|k: int| 0 <= k < n && #[trigger] self.idx_edge(a, k) implies row@.contains(k as usize) by {
                    assert(out@.contains_key(ks[k]));
                    let jj = nk@.index_of(ks[k]);
                    let t = row@[jj] as int;
                    assert(ks[t] == ks[k]);
                    if t < k {
                        assert(ks[t] < ks[k]);
                    } else if k < t {
                        assert(ks[k] < ks[t]);
                    }
                }
            }
            succ.push(row);
            i = i + 1;
        }
        succ
    }

    /// Marks, by node position, every node that the node at position `s` reaches.
    fn reach_forward(&self, succ: &Vec<Vec<usize>>, s: usize) -> (vis: Vec<bool>)
        requires
            self.wf(),
            succ@.len() == self.edges.key_seq().len(),
            forall|i: int, j: int| 0 <= i < succ@.len() && 0 <= j < succ@[i]@.len()
                ==> (#[trigger] succ@[i]@[j]) < succ@.len() && self.idx_edge(i, succ@[i]@[j] as int),
            forall|i: int, k: int| 0 <= i < succ@.len() && 0 <= k < succ@.len() && #[trigger] self.idx_edge(i, k)
                ==> succ@[i]@.contains(k as usize),
            s < succ@.len(),
        ensures
            vis@.len() == succ@.len(),
            forall|k: int| 0 <= k < vis@.len() ==> (#[trigger] vis@[k] <==> reaches(
                self@,
                self.edges.key_seq()[s as int],
                self.edges.key_seq()[k],
            )),
    {
        let ghost g = self@;
        let ghost ks = self.edges.key_seq();
        let ghost src = ks[s as int];
        let n = succ.len();
        let mut vis: Vec<bool> = Vec::new();
        let mut c: usize = 0;
        while c < n
            invariant
                c <= n,
                vis@.len() == c,
                forall|k: int| 0 <= k < c ==> #[trigger] vis@[k] == (k == s),
            decreases n - c,
        {
            vis.push(c == s);
            c = c + 1;
        }
        proof {
            lemma_reaches_self(g, src);
            assert(count_true(vis@.take(0)) == 0);
            assert forall|m: int| 0 <= m <= n implies #[trigger] count_true(vis@.take(m)) == if m > s { 1nat } else { 0nat } by {
                lemma_count_prefix(vis@, s as int, m);
            }
            assert(vis@.take(n as int) =~= vis@);
        }
        let mut count: usize = 1;
        loop
            invariant
                self.wf(),
                g == self@,
                ks == self.edges.key_seq(),
                n == succ@.len(),
                n == ks.len(),
                s < n,
                src == ks[s as int],
                vis@.len() == n,
                vis@[s as int],
                count == count_true(vis@),
                forall|i: int, j: int| 0 <= i < n && 0 <= j < succ@[i]@.len()
                    ==> (#[trigger] succ@[i]@[j]) < n && self.idx_edge(i, succ@[i]@[j] as int),
                forall|k: int| 0 <= k < n && #[trigger] vis@[k] ==> reaches(g, src, ks[k]),
            ensures
                vis@.len() == n,
                vis@[s as int],
                forall|k: int| 0 <= k < n && #[trigger] vis@[k] ==> reaches(g, src, ks[k]),
                forall|i: int, j: int| 0 <= i < n && vis@[i] && 0 <= j < succ@[i]@.len()
                    ==> #[trigger] vis@[succ@[i]@[j] as int],
            decreases n - count,
        {
            let ghost start = vis@;
            proof {
                lemma_count_true_bound(vis@);
            }
            let mut changed = false;
            let mut i: usize = 0;
            while i < n
                invariant
                    self.wf(),
                    g == self@,
                    ks == self.edges.key_seq(),
                    n == succ@.len(),
                    n == ks.len(),
                    s < n,
                    src == ks[s as int],
                    i <= n,
                    vis@.len() == n,
                    start.len() == n,
                    count == count_true(vis@),
                    count_true(start) <= count,
                    !changed ==> vis@ == start,
                    changed ==> count_true(start) < count,
                    forall|k: int| 0 <= k < n && start[k] ==> #[trigger] vis@[k],
                    forall|i2: int, j: int| 0 <= i2 < n && 0 <= j < succ@[i2]@.len()
                        ==> (#[trigger] succ@[i2]@[j]) < n && self.idx_edge(i2, succ@[i2]@[j] as int),
                    forall|k: int| 0 <= k < n && #[trigger] vis@[k] ==> reaches(g, src, ks[k]),
                    forall|a: int, j: int| 0 <= a < i && start[a] && 0 <= j < succ@[a]@.len()
                        ==> #[trigger] vis@[succ@[a]@[j] as int],
                decreases n - i,
            {
                if vis[i] {
                    let row = &succ[i];
                    let mut j: usize = 0;
                    while j < row.len()
                        invariant
                            self.wf(),
                            g == self@,
                            ks == self.edges.key_seq(),
                            n == succ@.len(),
                            n == ks.len(),
                            i < n,
                            *row == succ@[i as int],
                            vis@.len() == n,
                            vis@[i as int],
                            start.len() == n,
                            count == count_true(vis@),
                            count_true(start) <= count,
                            !changed ==> vis@ == start,
                            changed ==> count_true(start) < count,
                            forall|k: int| 0 <= k < n && start[k] ==> #[trigger] vis@[k],
                            forall|i2: int, j2: int| 0 <= i2 < n && 0 <= j2 < succ@[i2]@.len()
                                ==> (#[trigger] succ@[i2]@[j2]) < n && self.idx_edge(i2, succ@[i2]@[j2] as int),
                            forall|k: int| 0 <= k < n && #[trigger] vis@[k] ==> reaches(g, src, ks[k]),
                            forall|a: int, j2: int| 0 <= a < i && start[a] && 0 <= j2 < succ@[a]@.len()
                                ==> #[trigger] vis@[succ@[a]@[j2] as int],
                            j <= row@.len(),
                            forall|j2: int| 0 <= j2 < j ==> #[trigger] vis@[row@[j2] as int],
                        decreases row.len() - j,
                    {
                        let t = row[j];
                        assert(t < n && self.idx_edge(i as int, t as int));
                        if !vis[t] {
                            proof {
                                lemma_count_true_set(vis@, t as int);
                                lemma_count_true_bound(vis@.update(t as int, true));
                                lemma_reaches_step(g, src, ks[i as int], ks[t as int]);
                            }
                            vis.set(t, true);
                            count = count + 1;
                            changed = true;
                        }
                        j = j + 1;
                    }
                }
                i = i + 1;
            }
            if !changed {
                break;
            }
            proof {
                lemma_count_true_bound(vis@);
            }
        }
        proof {
            let vset = Set::new(|x: u64| exists|i: int| 0 <= i < n && ks[i] == x && vis@[i]);
            self.lemma_positions();
            self.lemma_edges_end_at_nodes();
            assert forall|x: u64, y: u64| vset.contains(x) && #[trigger] has_edge(g, x, y) implies vset.contains(y) by {
                let i = choose|i: int| 0 <= i < n && ks[i] == x && vis@[i];
                let k = choose|k: int| 0 <= k < ks.len() && ks[k] == y;
                assert(self.idx_edge(i, k));
                assert(succ@[i]@.contains(k as usize));
                let j = succ@[i]@.index_of(k as usize);
                assert(vis@[succ@[i]@[j] as int]);
            }
            assert forall|k: int| 0 <= k < n && reaches(g, src, ks[k]) implies #[trigger] vis@[k] by {
                let p = choose|p: Seq<u64>| #[trigger] is_path(g, p) && p[0] == src && p.last() == ks[k];
                assert(vset.contains(src));
                lemma_closed_walk(g, vset, p);
                let i = choose|i: int| 0 <= i < n && ks[i] == ks[k] && vis@[i];
                if i < k {
                    assert(ks[i] < ks[k]);
                } else if k < i {
                    assert(ks[k] < ks[i]);
                }
            }
        }
        vis
    }

    /// Marks, by node position, every node that reaches the node at position `s`.
    fn reach_backward(&self, succ: &Vec<Vec<usize>>, s: usize) -> (vis: Vec<bool>)
        requires
            self.wf(),
            succ@.len() == self.edges.key_seq().len(),
            forall|i: int, j: int| 0 <= i < succ@.len() && 0 <= j < succ@[i]@.len()
                ==> (#[trigger] succ@[i]@[j]) < succ@.len() && self.idx_edge(i, succ@[i]@[j] as int),
            forall|i: int, k: int| 0 <= i < succ@.len() && 0 <= k < succ@.len() && #[trigger] self.idx_edge(i, k)
                ==> succ@[i]@.contains(k as usize),
            s < succ@.len(),
        ensures
            vis@.len() == succ@.len(),
            forall|k: int| 0 <= k < vis@.len() ==> (#[trigger] vis@[k] <==> reaches(
                self@,
                self.edges.key_seq()[k],
                self.edges.key_seq()[s as int],
            )),
    {
        let ghost g = self@;
        let ghost ks = self.edges.key_seq();
        let ghost dst = ks[s as int];
        let n = succ.len();
        let mut vis: Vec<bool> = Vec::new();
        let mut c: usize = 0;
        while c < n
            invariant
                c <= n,
                vis@.len() == c,
                forall|k: int| 0 <= k < c ==> #[trigger] vis@[k] == (k == s),
            decreases n - c,
        {
            vis.push(c == s);
            c = c + 1;
        }
        proof {
            lemma_reaches_self(g, dst);
            assert forall|m: int| 0 <= m <= n implies #[trigger] count_true(vis@.take(m)) == if m > s { 1nat } else { 0nat } by {
                lemma_count_prefix(vis@, s as int, m);
            }
            assert(vis@.take(n as int) =~= vis@);
        }
        let mut count: usize = 1;
        loop
            invariant
                self.wf(),
                g == self@,
                ks == self.edges.key_seq(),
                n == succ@.len(),
                n == ks.len(),
                s < n,
                dst == ks[s as int],
                vis@.len() == n,
                vis@[s as int],
                count == count_true(vis@),
                forall|i: int, j: int| 0 <= i < n && 0 <= j < succ@[i]@.len()
                    ==> (#[trigger] succ@[i]@[j]) < n && self.idx_edge(i, succ@[i]@[j] as int),
                forall|k: int| 0 <= k < n && #[trigger] vis@[k] ==> reaches(g, ks[k], dst),
            ensures
                vis@.len() == n,
                vis@[s as int],
                forall|k: int| 0 <= k < n && #[trigger] vis@[k] ==> reaches(g, ks[k], dst),
                forall|i: int, j: int| 0 <= i < n && !vis@[i] && 0 <= j < succ@[i]@.len()
                    ==> !(#[trigger] vis@[succ@[i]@[j] as int]),
            decreases n - count,
        {
            let ghost start = vis@;
            proof {
                lemma_count_true_bound(vis@);
            }
            let mut changed = false;
            let mut i: usize = 0;
            while i < n
                invariant
                    self.wf(),
                    g == self@,
                    ks == self.edges.key_seq(),
                    n == succ@.len(),
                    n == ks.len(),
                    s < n,
                    dst == ks[s as int],
                    i <= n,
                    vis@.len() == n,
                    start.len() == n,
                    count == count_true(vis@),
                    count_true(start) <= count,
                    !changed ==> vis@ == start,
                    changed ==> count_true(start) < count,
                    forall|k: int| 0 <= k < n && start[k] ==> #[trigger] vis@[k],
                    forall|i2: int, j: int| 0 <= i2 < n && 0 <= j < succ@[i2]@.len()
                        ==> (#[trigger] succ@[i2]@[j]) < n && self.idx_edge(i2, succ@[i2]@[j] as int),
                    forall|k: int| 0 <= k < n && #[trigger] vis@[k] ==> reaches(g, ks[k], dst),
                    forall|a: int, j: int| 0 <= a < i && !vis@[a] && 0 <= j < succ@[a]@.len()
                        ==> !start[#[trigger] succ@[a]@[j] as int],
                decreases n - i,
            {
                if !vis[i] {
                    let row = &succ[i];
                    let mut j: usize = 0;
                    let mut hit: usize = row.len();
                    while j < row.len()
                        invariant
                            n == succ@.len(),
                            i < n,
                            *row == succ@[i as int],
                            vis@.len() == n,
                            forall|i2: int, j2: int| 0 <= i2 < n && 0 <= j2 < succ@[i2]@.len()
                                ==> (#[trigger] succ@[i2]@[j2]) < n,
                            j <= row@.len(),
                            hit == row@.len() || (hit < j && vis@[row@[hit as int] as int]),
                            hit == row@.len() ==> forall|j2: int| 0 <= j2 < j ==> !#[trigger] vis@[row@[j2] as int],
                        decreases row.len() - j,
                    {
                        if hit == row.len() && vis[row[j]] {
                            hit = j;
                        }
                        j = j + 1;
                    }
                    if hit < row.len() {
                        proof {
                            let t = row@[hit as int] as int;
                            assert(self.idx_edge(i as int, t));
                            lemma_count_true_set(vis@, i as int);
                            lemma_count_true_bound(vis@.update(i as int, true));
                            lemma_reaches_prepend(g, ks[i as int], ks[t], dst);
                        }
                        vis.set(i, true);
                        count = count + 1;
                        changed = true;
                    } else {
                        proof {
                            assert forall|j2: int| 0 <= j2 < succ@[i as int]@.len() implies !start[
                                #[trigger] succ@[i as int]@[j2] as int] by {
                                assert(!vis@[row@[j2] as int]);
                            }
                        }
                    }
                }
                i = i + 1;
            }
            if !changed {
                break;
            }
            proof {
                lemma_count_true_bound(vis@);
            }
        }
        proof {
            let uset = Set::new(|x: u64| exists|i: int| 0 <= i < n && ks[i] == x && !vis@[i]);
            self.lemma_positions();
            self.lemma_edges_end_at_nodes();
            assert forall|x: u64, y: u64| uset.contains(x) && #[trigger] has_edge(g, x, y) implies uset.contains(y) by {
                let i = choose|i: int| 0 <= i < n && ks[i] == x && !vis@[i];
                let k = choose|k: int| 0 <= k < ks.len() && ks[k] == y;
                assert(self.idx_edge(i, k));
                assert(succ@[i]@.contains(k as usize));
                let j = succ@[i]@.index_of(k as usize);
                assert(!vis@[succ@[i]@[j] as int]);
            }
            assert forall|k: int| 0 <= k < n && reaches(g, ks[k], dst) implies #[trigger] vis@[k] by {
                if !vis@[k] {
                    let p = choose|p: Seq<u64>| #[trigger] is_path(g, p) && p[0] == ks[k] && p.last() == dst;
                    assert(uset.contains(ks[k]));
                    lemma_closed_walk(g, uset, p);
                    let i = choose|i: int| 0 <= i < n && ks[i] == dst && !vis@[i];
                    if i < s {
                        assert(ks[i] < ks[s as int]);
                    } else if s < i {
                        assert(ks[s as int] < ks[i]);
                    }
                }
            }
        }
        vis
    }

    /// Whether the graph is strongly connected: every node reaches every other
    /// node along directed edges. An empty graph or a single node counts as connected.
    pub fn is_fully_connected(&self) -> (r: bool)
        requires
            self.wf(),
        ensures
            r == strongly_connected(self@),
    {
        let ghost g = self@;
        let ghost ks = self.edges.key_seq();
        proof {
            self.lemma_positions();
        }
        let n = self.edges.len();
        if n <= 1 {
            proof {
                assert forall|a: u64, b: u64| g.contains_key(a) && g.contains_key(b) implies #[trigger] reaches(g, a, b) by {
                    let i = choose|i: int| 0 <= i < ks.len() && ks[i] == a;
                    let k = choose|k: int| 0 <= k < ks.len() && ks[k] == b;
                    lemma_reaches_self(g, a);
                }
            }
            return true;
        }
        let succ = self.successor_indices();
        let fwd = self.reach_forward(&succ, 0);
        let mut k: usize = 0;
        while k < n
            invariant
                n == fwd@.len(),
                n == ks.len(),
                n > 1,
                g == self@,
                ks == self.edges.key_seq(),
                forall|i: int| 0 <= i < ks.len() ==> g.contains_key(#[trigger] ks[i]),
                forall|k2: int| 0 <= k2 < n ==> (#[trigger] fwd@[k2] <==> reaches(g, ks[0], ks[k2])),
                k <= n,
                forall|k2: int| 0 <= k2 < k ==> #[trigger] fwd@[k2],
            decreases n - k,
        {
            if !fwd[k] {
                proof {
                    assert(g.contains_key(ks[0]) && g.contains_key(ks[k as int]));
                    assert(!reaches(g, ks[0], ks[k as int]));
                }
                return false;
            }
            k = k + 1;
        }
        let bwd = self.reach_backward(&succ, 0);
        let mut k: usize = 0;
        while k < n
            invariant
                n == bwd@.len(),
                n == ks.len(),
                n > 1,
                g == self@,
                ks == self.edges.key_seq(),
                forall|i: int| 0 <= i < ks.len() ==> g.contains_key(#[trigger] ks[i]),
                forall|k2: int| 0 <= k2 < n ==> (#[trigger] bwd@[k2] <==> reaches(g, ks[k2], ks[0])),
                k <= n,
                forall|k2: int| 0 <= k2 < k ==> #[trigger] bwd@[k2],
            decreases n - k,
        {
            if !bwd[k] {
                proof {
                    assert(g.contains_key(ks[0]) && g.contains_key(ks[k as int]));
                    assert(!reaches(g, ks[k as int], ks[0]));
                }
                return false;
            }
            k = k + 1;
        }
        proof {
            assert forall|a: u64, b: u64| g.contains_key(a) && g.contains_key(b) implies #[trigger] reaches(g, a, b) by {
                let i = choose|i: int| 0 <= i < ks.len() && ks[i] == a;
                let j = choose|j: int| 0 <= j < ks.len() && ks[j] == b;
                assert(bwd@[i]);
                assert(fwd@[j]);
                lemma_reaches_trans(g, a, ks[0], b);
            }
        }
        true
    }
}

impl Default for Topology {
    fn default() -> (r: Self)
        ensures
            r.wf(),
            r@ == Map::<u64, Set<u64>>::empty(),
    {
        Self::new()
    }
}

} // verus!
