//! Edges: directed, weighted links between two nodes, with a reliability
//! counter that prunes them once it reaches zero.

use vstd::prelude::*;
use crate::pairs::ordered_pair;

verus! {

/// A directed link. Endpoints are stable indices into the node store; the
/// arena owns every record, so no reference cycles can arise.
#[derive(Clone, Copy)]
pub struct Edge {
    /// Pulse transform: the pulse is `charge*out_percentage/100 + out_fixed`.
    pub out_percentage: u32,
    pub out_fixed: u32,
    /// Reliability counter; the edge is destroyed when it reaches zero.
    pub edge_health: u64,
    /// Ticks since this edge last carried a positive pulse.
    pub last_fire: u64,
    /// Going this many consecutive ticks without firing costs one health.
    pub fire_within: u64,
    /// The destination going this many ticks without firing costs one health.
    pub end_node_fire_within: u64,
    /// Index of the start node in the node store.
    pub start_node: usize,
    /// Index of the end node in the node store.
    pub end_node: usize,
}

/// The unordered pair of endpoint indices this edge occupies.
pub open spec fn edge_pair(e: Edge) -> (usize, usize) {
    ordered_pair(e.start_node, e.end_node)
}

/// Structural soundness of one edge against a node store of `n` nodes.
pub open spec fn edge_ok(e: Edge, n: int) -> bool {
    &&& (e.start_node as int) < n
    &&& (e.end_node as int) < n
    &&& e.start_node != e.end_node
    &&& e.fire_within >= 1
    &&& e.edge_health >= 1
}

/// No two edges of the store occupy the same unordered pair.
pub open spec fn edges_distinct(s: Seq<Edge>) -> bool {
    forall|k: int, l: int|
        0 <= k < l < s.len() ==> edge_pair(#[trigger] s[k]) != edge_pair(#[trigger] s[l])
}

/// How many edges of `edges` leave node `i`.
pub open spec fn out_degree(edges: Seq<Edge>, i: int) -> int
    decreases edges.len(),
{
    if edges.len() == 0 {
        0
    } else {
        out_degree(edges.drop_last(), i) + (
        if edges.last().start_node as int == i {
            1int
        } else {
            0int
        })
    }
}

/// Whether some edge of the store occupies the unordered pair `p`.
pub open spec fn pair_in_edges(s: Seq<Edge>, p: (usize, usize)) -> bool {
    exists|k: int| 0 <= k < s.len() && p == edge_pair(#[trigger] s[k])
}

} // verus!
