//! The graph aggregate: node store, edge store, pair index and counters.

use vstd::prelude::*;
use crate::arith::clip64;
use crate::arith::clip_add_i64;
use crate::edge::{edge_ok, edge_pair, edges_distinct, pair_in_edges, Edge};
use crate::node::Node;
use crate::pairs::{ordered_pair, PairIndex};
use crate::rng::{rand_below, rand_index};

verus! {

/// Per-node structural soundness at position `i` of the store: the stable
/// 1-based identity, and an empty pulse accumulator outside a tick.
pub open spec fn node_ok(n: Node, i: int) -> bool {
    &&& n.id == i + 1
    &&& n.temp_charge == 0
}

/// What the random bootstrap stamps on every node: a fresh clock and
/// cooldown, and dynamics parameters drawn from fixed ranges — in the
/// crate's fixed-point scaling, a threshold below 10.00, a charge below
/// 5.00, a cooldown of 1 to 5 ticks, consumption below 20x plus a fixed
/// part below 3.00, and decay below 0.05x plus a fixed part below 0.20.
pub open spec fn bootstrap_node(n: Node) -> bool {
    &&& 0 <= n.threshold < 1000
    &&& 0 <= n.charge < 500
    &&& 1 <= n.cooldown <= 5
    &&& n.cooldown_remaining == 0
    &&& n.since_last_fire == 0
    &&& n.consumption_percentage < 2000
    &&& n.consumption_fixed < 300
    &&& n.decay_percentage < 5
    &&& n.decay_fixed < 20
}

/// The whole simulation: all nodes, all edges, the pair index and the
/// process-wide counters. Nodes are never removed; edges come and go.
pub struct MorassWeb {
    pub nodes: Vec<Node>,
    pub edges: Vec<Edge>,
    pub pairs: PairIndex,
    /// Cumulative count of pulses fired.
    pub op_counter: u64,
    /// Cumulative count of edges added by growth.
    pub edges_added_counter: u64,
}

impl MorassWeb {
    /// The aggregate invariant: sound nodes and edges, no duplicate and no
    /// self-referential pair, and a pair index that mirrors the live edges
    /// exactly.
    pub open spec fn wf(self) -> bool {
        &&& forall|i: int| 0 <= i < self.nodes@.len() ==> node_ok(#[trigger] self.nodes@[i], i)
        &&& forall|k: int|
            0 <= k < self.edges@.len() ==> edge_ok(
                #[trigger] self.edges@[k],
                self.nodes@.len() as int,
            )
        &&& edges_distinct(self.edges@)
        &&& self.pairs.wf()
        &&& forall|p: (usize, usize)|
            #[trigger] self.pairs@.contains(p) <==> pair_in_edges(self.edges@, p)
    }

    /// An empty simulation.
    pub fn new() -> (w: MorassWeb)
        ensures
            w.wf(),
            w.nodes@.len() == 0,
            w.edges@.len() == 0,
            w.op_counter == 0,
            w.edges_added_counter == 0,
    {
        let w = MorassWeb {
            nodes: Vec::new(),
            edges: Vec::new(),
            pairs: PairIndex::new(),
            op_counter: 0,
            edges_added_counter: 0,
        };
        proof {
            assert forall|p: (usize, usize)| #[trigger]
                w.pairs@.contains(p) <==> pair_in_edges(w.edges@, p) by {
                assert(!w.pairs@.contains(p));
            }
        }
        w
    }

    /// Append one node with the given dynamics parameters. Identities are
    /// 1-based and assigned in order, never reused.
    pub fn add_node(
        &mut self,
        threshold: i64,
        charge: i64,
        cooldown: u64,
        consumption_percentage: u32,
        consumption_fixed: u32,
        decay_percentage: u32,
        decay_fixed: u32,
    )
        requires
            old(self).wf(),
            old(self).nodes@.len() < usize::MAX,
        ensures
            final(self).wf(),
            final(self).nodes@.len() == old(self).nodes@.len() + 1,
            forall|i: int|
                0 <= i < old(self).nodes@.len() ==> final(self).nodes@[i] == old(self).nodes@[i],
            final(self).nodes@.last().id == old(self).nodes@.len() + 1,
            final(self).nodes@.last().threshold == threshold,
            final(self).nodes@.last().charge == charge,
            final(self).nodes@.last().cooldown == cooldown,
            final(self).nodes@.last().cooldown_remaining == 0,
            final(self).nodes@.last().since_last_fire == 0,
            final(self).nodes@.last().temp_charge == 0,
            final(self).nodes@.last().consumption_percentage == consumption_percentage,
            final(self).nodes@.last().consumption_fixed == consumption_fixed,
            final(self).nodes@.last().decay_percentage == decay_percentage,
            final(self).nodes@.last().decay_fixed == decay_fixed,
            final(self).edges@ == old(self).edges@,
            final(self).pairs@ == old(self).pairs@,
            final(self).op_counter == old(self).op_counter,
            final(self).edges_added_counter == old(self).edges_added_counter,
    {
        let node = Node {
            id: self.nodes.len() + 1,
            threshold,
            charge,
            cooldown,
            cooldown_remaining: 0,
            since_last_fire: 0,
            temp_charge: 0,
            consumption_percentage,
            consumption_fixed,
            decay_percentage,
            decay_fixed,
        };
        self.nodes.push(node);
        proof {
            assert forall|k: int|
                0 <= k < self.edges@.len() implies edge_ok(
                #[trigger] self.edges@[k],
                self.nodes@.len() as int,
            ) by {
                assert(edge_ok(self.edges@[k], old(self).nodes@.len() as int));
            }
        }
    }

    /// Insert one edge, rejecting a self-referential pair, an unordered pair
    /// already joined in either orientation, an out-of-range endpoint, a dead
    /// starting health, or an empty fire window. Returns whether the edge was
    /// added, so a shortfall is a smaller result, never an error.
    pub fn add_edge(&mut self, e: Edge) -> (added: bool)
        requires
            old(self).wf(),
        ensures
            final(self).wf(),
            added == (edge_ok(e, old(self).nodes@.len() as int) && !old(self).pairs@.contains(
                edge_pair(e),
            )),
            final(self).nodes@ == old(self).nodes@,
            final(self).op_counter == old(self).op_counter,
            final(self).edges_added_counter == old(self).edges_added_counter,
            added ==> final(self).edges@ == old(self).edges@.push(e) && final(self).pairs@ == old(
                self,
            ).pairs@.insert(edge_pair(e)),
            !added ==> *final(self) == *old(self),
    {
        let n = self.nodes.len();
        if !(e.start_node < n && e.end_node < n && e.start_node != e.end_node && e.edge_health >= 1
            && e.fire_within >= 1) {
            return false;
        }
        if self.pairs.contains_pair(e.start_node, e.end_node) {
            return false;
        }
        self.pairs.insert_pair(e.start_node, e.end_node);
        self.edges.push(e);
        proof {
            let pre = old(self).edges@;
            assert forall|k: int| 0 <= k < pre.len() implies edge_pair(#[trigger] pre[k])
                != edge_pair(e) by {
                assert(pair_in_edges(pre, edge_pair(pre[k])));
                assert(old(self).pairs@.contains(edge_pair(pre[k])));
            }
            assert(edges_distinct(self.edges@)) by {
                assert forall|k: int, l: int|
                    0 <= k < l < self.edges@.len() implies edge_pair(#[trigger] self.edges@[k])
                    != edge_pair(#[trigger] self.edges@[l]) by {
                    if l < pre.len() {
                        assert(self.edges@[k] == pre[k] && self.edges@[l] == pre[l]);
                    } else {
                        assert(self.edges@[k] == pre[k] && self.edges@[l] == e);
                    }
                }
            }
            assert forall|p: (usize, usize)| #[trigger]
                self.pairs@.contains(p) <==> pair_in_edges(self.edges@, p) by {
                if self.pairs@.contains(p) {
                    if p == edge_pair(e) {
                        assert(self.edges@[pre.len() as int] == e);
                        assert(pair_in_edges(self.edges@, p));
                    } else {
                        assert(old(self).pairs@.contains(p));
                        let k = choose|k: int| 0 <= k < pre.len() && p == edge_pair(pre[k]);
                        assert(self.edges@[k] == pre[k]);
                        assert(pair_in_edges(self.edges@, p));
                    }
                }
                if pair_in_edges(self.edges@, p) {
                    let k = choose|k: int|
                        0 <= k < self.edges@.len() && p == edge_pair(self.edges@[k]);
                    if k < pre.len() {
                        assert(pair_in_edges(pre, p));
                        assert(old(self).pairs@.contains(p));
                    } else {
                        assert(p == edge_pair(e));
                    }
                }
            }
        }
        true
    }

    /// A fresh edge between the given node indices: randomized pulse
    /// transform, full health, and the default reliability windows.
    pub fn default_edge(start_node: usize, end_node: usize) -> (e: Edge)
        ensures
            e.start_node == start_node,
            e.end_node == end_node,
            e.out_percentage < 100,
            e.out_fixed < 500,
            e.edge_health == 3,
            e.last_fire == 0,
            e.fire_within == 5,
            e.end_node_fire_within == 3,
    {
        Edge {
            out_percentage: rand_below(100) as u32,
            out_fixed: rand_below(500) as u32,
            edge_health: 3,
            last_fire: 0,
            fire_within: 5,
            end_node_fire_within: 3,
            start_node,
            end_node,
        }
    }

    /// Build a graph of `num_nodes` randomized nodes and attempt to wire
    /// `num_edges` unique, non-self, unordered pairs. If the retry budget
    /// runs out first, the graph simply carries fewer edges: a shortfall is
    /// not an error.
    pub fn make_random_web(num_nodes: usize, num_edges: usize) -> (w: MorassWeb)
        requires
            num_nodes < usize::MAX,
        ensures
            w.wf(),
            w.nodes@.len() == num_nodes,
            w.edges@.len() <= num_edges,
            w.op_counter == 0,
            w.edges_added_counter == 0,
            forall|i: int| 0 <= i < num_nodes ==> bootstrap_node(#[trigger] w.nodes@[i]),
    {
        let mut w = MorassWeb::new();
        let mut i: usize = 0;
        while i < num_nodes
            invariant
                w.wf(),
                num_nodes < usize::MAX,
                i <= num_nodes,
                w.nodes@.len() == i,
                w.edges@.len() == 0,
                w.op_counter == 0,
                w.edges_added_counter == 0,
                forall|j: int| 0 <= j < i ==> bootstrap_node(#[trigger] w.nodes@[j]),
            decreases num_nodes - i,
        {
            let threshold: i64 = rand_below(1000) as i64;
            let charge: i64 = rand_below(500) as i64;
            let cooldown: u64 = rand_below(5) + 1;
            let consumption_percentage: u32 = rand_below(2000) as u32;
            let consumption_fixed: u32 = rand_below(300) as u32;
            let decay_percentage: u32 = rand_below(5) as u32;
            let decay_fixed: u32 = rand_below(20) as u32;
            w.add_node(
                threshold,
                charge,
                cooldown,
                consumption_percentage,
                consumption_fixed,
                decay_percentage,
                decay_fixed,
            );
            i += 1;
        }
        if num_nodes >= 2 {
            let mut added: usize = 0;
            let mut tries: usize = 0;
            while added < num_edges && tries < 1000
                invariant
                    w.wf(),
                    w.nodes@.len() == num_nodes,
                    num_nodes >= 2,
                    w.edges@.len() == added,
                    added <= num_edges,
                    w.op_counter == 0,
                    w.edges_added_counter == 0,
                    forall|j: int| 0 <= j < num_nodes ==> bootstrap_node(#[trigger] w.nodes@[j]),
                decreases 1000 - tries,
            {
                tries += 1;
                let a = rand_index(num_nodes);
                let b = rand_index(num_nodes);
                let e = MorassWeb::default_edge(a, b);
                if w.add_edge(e) {
                    added += 1;
                }
            }
        }
        w
    }

    /// Add `input` directly to the charge of the node at `index`, outside the
    /// tick cycle; the caller answers for the index being in range.
    pub fn inject_node_index(&mut self, index: usize, input: i64)
        requires
            old(self).wf(),
            index < old(self).nodes@.len(),
        ensures
            final(self).wf(),
            final(self).nodes@.len() == old(self).nodes@.len(),
            final(self).nodes@[index as int].charge as int == clip64(
                old(self).nodes@[index as int].charge as int + input as int,
            ),
            forall|i: int|
                0 <= i < old(self).nodes@.len() && i != index ==> final(self).nodes@[i] == old(
                    self,
                ).nodes@[i],
            final(self).nodes@[index as int].id == old(self).nodes@[index as int].id,
            final(self).nodes@[index as int].temp_charge == old(
                self,
            ).nodes@[index as int].temp_charge,
            final(self).edges@ == old(self).edges@,
            final(self).pairs@ == old(self).pairs@,
            final(self).op_counter == old(self).op_counter,
            final(self).edges_added_counter == old(self).edges_added_counter,
    {
        let mut node = self.nodes[index];
        node.charge = clip_add_i64(node.charge, input);
        self.nodes[index] = node;
    }

    /// The current charge of every node, as `(identity, charge)` rows.
    pub fn show_nodes(&self) -> (r: Vec<(usize, i64)>)
        ensures
            r@.len() == self.nodes@.len(),
            forall|i: int|
                0 <= i < r@.len() ==> (#[trigger] r@[i]).0 == self.nodes@[i].id && r@[i].1
                    == self.nodes@[i].charge,
    {
        let mut r: Vec<(usize, i64)> = Vec::new();
        let mut i: usize = 0;
        while i < self.nodes.len()
            invariant
                i <= self.nodes@.len(),
                r@.len() == i,
                forall|j: int|
                    0 <= j < i ==> (#[trigger] r@[j]).0 == self.nodes@[j].id && r@[j].1
                        == self.nodes@[j].charge,
            decreases self.nodes@.len() - i,
        {
            let n = &self.nodes[i];
            r.push((n.id, n.charge));
            i += 1;
        }
        r
    }

    /// The current topology, as `(start identity, end identity, out
    /// percentage, out fixed)` rows.
    pub fn show_edges(&self) -> (r: Vec<(usize, usize, u32, u32)>)
        requires
            self.wf(),
        ensures
            r@.len() == self.edges@.len(),
            forall|k: int|
                0 <= k < r@.len() ==> (#[trigger] r@[k]).0 == self.edges@[k].start_node + 1
                    && r@[k].1 == self.edges@[k].end_node + 1 && r@[k].2
                    == self.edges@[k].out_percentage && r@[k].3 == self.edges@[k].out_fixed,
    {
        let mut r: Vec<(usize, usize, u32, u32)> = Vec::new();
        let mut k: usize = 0;
        while k < self.edges.len()
            invariant
                self.wf(),
                k <= self.edges@.len(),
                r@.len() == k,
                forall|j: int|
                    0 <= j < k ==> (#[trigger] r@[j]).0 == self.edges@[j].start_node + 1 && r@[j].1
                        == self.edges@[j].end_node + 1 && r@[j].2 == self.edges@[j].out_percentage
                        && r@[j].3 == self.edges@[j].out_fixed,
            decreases self.edges@.len() - k,
        {
            let e = &self.edges[k];
            let node_count = self.nodes.len();
            assert(edge_ok(self.edges@[k as int], self.nodes@.len() as int));
            assert(e.start_node < node_count && e.end_node < node_count);
            r.push((e.start_node + 1, e.end_node + 1, e.out_percentage, e.out_fixed));
            k += 1;
        }
        r
    }

    /// Whether the unordered pair of node indices `{a, b}` is currently
    /// joined by a live edge.
    pub fn has_pair(&self, a: usize, b: usize) -> (r: bool)
        ensures
            r == self.pairs@.contains(ordered_pair(a, b)),
    {
        self.pairs.contains_pair(a, b)
    }

    /// Cumulative count of pulses fired.
    pub fn get_op_counter(&self) -> (r: u64)
        ensures
            r == self.op_counter,
    {
        self.op_counter
    }

    /// Cumulative count of edges added by growth.
    pub fn get_added_edges(&self) -> (r: u64)
        ensures
            r == self.edges_added_counter,
    {
        self.edges_added_counter
    }

    /// How many nodes the web holds.
    pub fn show_node_counter(&self) -> (r: usize)
        ensures
            r == self.nodes@.len(),
    {
        self.nodes.len()
    }

    /// How many edges the web holds.
    pub fn show_edge_counter(&self) -> (r: usize)
        ensures
            r == self.edges@.len(),
    {
        self.edges.len()
    }

} // impl MorassWeb

} // verus!
