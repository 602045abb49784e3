//! The properties the simulation guarantees, each proved once and for all
//! against the spec model of the tick and the aggregate invariant.

use vstd::prelude::*;
use vstd::seq_lib::*;
use vstd::set_lib::*;
use crate::edge::{edge_ok, edge_pair, edges_distinct, out_degree, pair_in_edges, Edge};
use crate::node::{consumed, Node};
use crate::step::{
    edge_pulse, edge_stepped, lemma_pruned_membership, node_after_propagate, stepped_seq,
    surviving_edges,
};
use crate::web::MorassWeb;

verus! {

/// Pair uniqueness: among the live edges no two occupy the same unordered
/// pair, none joins a node to itself, and every live edge has its pair in
/// the pair index.
pub proof fn lemma_pair_uniqueness(w: MorassWeb)
    requires
        w.wf(),
    ensures
        forall|k: int, l: int|
            0 <= k < l < w.edges@.len() ==> edge_pair(#[trigger] w.edges@[k]) != edge_pair(
                #[trigger] w.edges@[l],
            ),
        forall|k: int|
            0 <= k < w.edges@.len() ==> (#[trigger] w.edges@[k]).start_node
                != w.edges@[k].end_node,
        forall|k: int|
            0 <= k < w.edges@.len() ==> w.pairs@.contains(edge_pair(#[trigger] w.edges@[k])),
{
    assert forall|k: int|
        0 <= k < w.edges@.len() implies w.pairs@.contains(edge_pair(#[trigger] w.edges@[k])) by {
        assert(pair_in_edges(w.edges@, edge_pair(w.edges@[k])));
    }
}

/// Health monotonicity: one tick never raises an edge's health, every edge
/// that survives the tick has positive health, and an edge whose health
/// reached zero leaves no trace of its pair among the survivors.
pub proof fn lemma_health_monotone(w: MorassWeb)
    requires
        w.wf(),
    ensures
        forall|k: int|
            0 <= k < w.edges@.len() ==> edge_stepped(
                w.nodes@,
                w.edges@,
                #[trigger] w.edges@[k],
            ).edge_health <= w.edges@[k].edge_health,
        forall|j: int|
            0 <= j < surviving_edges(w.nodes@, w.edges@).len() ==> (#[trigger] surviving_edges(
                w.nodes@,
                w.edges@,
            )[j]).edge_health >= 1,
        forall|k: int|
            0 <= k < w.edges@.len() && edge_stepped(
                w.nodes@,
                w.edges@,
                #[trigger] w.edges@[k],
            ).edge_health == 0 ==> !pair_in_edges(
                surviving_edges(w.nodes@, w.edges@),
                edge_pair(w.edges@[k]),
            ),
{
    let stepped = stepped_seq(w.nodes@, w.edges@);
    let survivors = surviving_edges(w.nodes@, w.edges@);
    lemma_pruned_membership(stepped);
    assert forall|k: int|
        0 <= k < w.edges@.len() && edge_stepped(
            w.nodes@,
            w.edges@,
            #[trigger] w.edges@[k],
        ).edge_health == 0 implies !pair_in_edges(survivors, edge_pair(w.edges@[k])) by {
        if pair_in_edges(survivors, edge_pair(w.edges@[k])) {
            let j = choose|j: int|
                0 <= j < survivors.len() && edge_pair(w.edges@[k]) == edge_pair(survivors[j]);
            assert(stepped.contains(survivors[j]));
            let x = choose|x: int| 0 <= x < stepped.len() && stepped[x] == survivors[j];
            assert(stepped[x] == edge_stepped(w.nodes@, w.edges@, w.edges@[x]));
            assert(edge_pair(stepped[x]) == edge_pair(w.edges@[x]));
            if x != k {
                assert(edge_pair(w.edges@[x]) != edge_pair(w.edges@[k]));
            }
            assert(x == k);
            assert(survivors[j].edge_health == 0);
            assert(survivors[j].edge_health >= 1);
        }
    }
}

/// Cooldown gating: a node on cooldown when propagation starts carries zero
/// pulse on every outgoing edge this tick, and the consume phase leaves its
/// charge exactly as it found it.
pub proof fn lemma_cooldown_gating(w: MorassWeb, i: int)
    requires
        w.wf(),
        0 <= i < w.nodes@.len(),
        w.nodes@[i].cooldown_remaining > 0,
    ensures
        forall|k: int|
            0 <= k < w.edges@.len() && (#[trigger] w.edges@[k]).start_node as int == i
                ==> edge_pulse(w.nodes@, w.edges@[k]) == 0,
        consumed(
            node_after_propagate(w.nodes@, w.edges@, i),
            w.nodes@[i].cooldown_remaining,
        ).charge == w.nodes@[i].charge,
{
}

/// Charge conservation shape: the consume phase leaves a node whose charge
/// sits below its threshold untouched in every field; no consumption
/// subtraction happens before decay.
pub proof fn lemma_consume_below_threshold(n: Node, tick_start_cooldown: u64)
    requires
        n.charge < n.threshold,
    ensures
        consumed(n, tick_start_cooldown) == n,
{
}

/// Some edge of `edges` leaves node `i` and arrives at node `x`.
pub open spec fn end_witnessed(edges: Seq<Edge>, i: int, x: int) -> bool {
    exists|k: int|
        0 <= k < edges.len() && (#[trigger] edges[k]).start_node as int == i
            && edges[k].end_node as int == x
}

/// The destinations of the edges of `edges` that leave node `i`, in order.
pub open spec fn out_ends(edges: Seq<Edge>, i: int) -> Seq<int>
    decreases edges.len(),
{
    if edges.len() == 0 {
        Seq::empty()
    } else {
        let rest = out_ends(edges.drop_last(), i);
        if edges.last().start_node as int == i {
            rest.push(edges.last().end_node as int)
        } else {
            rest
        }
    }
}

/// There are as many destinations as outgoing edges, each destination pairs
/// with an actual edge, and under pair uniqueness no destination repeats.
proof fn lemma_out_ends(edges: Seq<Edge>, i: int, n: int)
    requires
        edges_distinct(edges),
        forall|k: int| 0 <= k < edges.len() ==> edge_ok(#[trigger] edges[k], n),
    ensures
        out_ends(edges, i).len() == out_degree(edges, i),
        forall|j: int|
            0 <= j < out_ends(edges, i).len() ==> 0 <= #[trigger] out_ends(edges, i)[j] < n
                && out_ends(edges, i)[j] != i,
        forall|j: int|
            0 <= j < out_ends(edges, i).len() ==> end_witnessed(
                edges,
                i,
                #[trigger] out_ends(edges, i)[j],
            ),
        out_ends(edges, i).no_duplicates(),
    decreases edges.len(),
{
    if edges.len() == 0 {
    } else {
        let front = edges.drop_last();
        assert(edges_distinct(front)) by {
            assert forall|k: int, l: int|
                0 <= k < l < front.len() implies edge_pair(#[trigger] front[k]) != edge_pair(
                #[trigger] front[l],
            ) by {
                assert(edges[k] == front[k] && edges[l] == front[l]);
            }
        }
        assert forall|k: int| 0 <= k < front.len() implies edge_ok(#[trigger] front[k], n) by {
            assert(front[k] == edges[k]);
        }
        lemma_out_ends(front, i, n);
        let rest = out_ends(front, i);
        let ends = out_ends(edges, i);
        let e = edges.last();
        assert forall|j: int| 0 <= j < ends.len() implies end_witnessed(edges, i, ends[j]) by {
            if e.start_node as int == i && j == ends.len() - 1 {
                assert(edges[edges.len() - 1].start_node as int == i && edges[edges.len()
                    - 1].end_node as int == ends[j]);
            } else {
                assert(ends[j] == rest[j]);
                assert(end_witnessed(front, i, rest[j]));
                let k = choose|k: int|
                    0 <= k < front.len() && (#[trigger] front[k]).start_node as int == i
                        && front[k].end_node as int == rest[j];
                assert(edges[k].start_node as int == i && edges[k].end_node as int == ends[j]);
            }
        }
        if e.start_node as int == i {
            assert(ends == rest.push(e.end_node as int));
            assert(!rest.contains(e.end_node as int)) by {
                if rest.contains(e.end_node as int) {
                    let j = choose|j: int| 0 <= j < rest.len() && rest[j] == e.end_node as int;
                    assert(end_witnessed(front, i, rest[j]));
                    let k = choose|k: int|
                        0 <= k < front.len() && (#[trigger] front[k]).start_node as int == i
                            && front[k].end_node as int == rest[j];
                    assert(front[k] == edges[k]);
                    assert(edges[k].start_node == e.start_node && edges[k].end_node == e.end_node);
                    assert(edge_pair(edges[k]) == edge_pair(edges[edges.len() - 1]));
                }
            }
            assert(ends.no_duplicates()) by {
                assert forall|x: int, y: int|
                    0 <= x < y < ends.len() implies ends[x] != ends[y] by {
                    if y < rest.len() {
                        assert(ends[x] == rest[x] && ends[y] == rest[y]);
                    } else {
                        assert(ends[y] == e.end_node as int);
                        assert(ends[x] == rest[x]);
                        assert(rest.contains(rest[x]));
                    }
                }
            }
        }
    }
}

/// Growth respects the degree cap: in any well-formed web — so after any
/// tick, any growth call, or any edge insertion, each of which maintains
/// well-formedness — no node has more outgoing edges than there are other
/// nodes, because its outgoing edges claim pairwise distinct partners.
pub proof fn lemma_degree_cap(w: MorassWeb, i: int)
    requires
        w.wf(),
        0 <= i < w.nodes@.len(),
    ensures
        out_degree(w.edges@, i) <= w.nodes@.len() - 1,
{
    let n = w.nodes@.len() as int;
    lemma_out_ends(w.edges@, i, n);
    let ends = out_ends(w.edges@, i);
    ends.unique_seq_to_set();
    let allowed = set_int_range(0, n).remove(i);
    lemma_int_range(0, n);
    assert(ends.to_set().subset_of(allowed)) by {
        assert forall|x: int| ends.to_set().contains(x) implies allowed.contains(x) by {
            let j = choose|j: int| 0 <= j < ends.len() && ends[j] == x;
            assert(0 <= ends[j] < n && ends[j] != i);
        }
    }
    assert(allowed.len() == n - 1) by {
        assert(set_int_range(0, n).contains(i));
    }
    lemma_len_subset(ends.to_set(), allowed);
}

/// The unordered pairs `(a, b)` with `a < b < n`: every slot an edge could
/// occupy in a web of `n` nodes.
pub open spec fn allowed_pairs(n: int) -> Set<(usize, usize)> {
    Set::new(|p: (usize, usize)| (p.0 as int) < (p.1 as int) && (p.1 as int) < n)
}

/// The pairs whose larger index is exactly `b` and whose smaller index lies
/// below `m`.
pub open spec fn pairs_ending_at(b: usize, m: int) -> Set<(usize, usize)> {
    Set::new(|p: (usize, usize)| p.1 == b && (p.0 as int) < m)
}

proof fn lemma_pairs_ending_at_card(b: usize, m: int)
    requires
        0 <= m <= b as int,
    ensures
        pairs_ending_at(b, m).finite(),
        pairs_ending_at(b, m).len() == m,
    decreases m,
{
    if m == 0 {
        assert(pairs_ending_at(b, 0) =~= Set::<(usize, usize)>::empty());
    } else {
        lemma_pairs_ending_at_card(b, m - 1);
        assert(pairs_ending_at(b, m) =~= pairs_ending_at(b, m - 1).insert(((m - 1) as usize, b)));
        assert(!pairs_ending_at(b, m - 1).contains(((m - 1) as usize, b)));
    }
}

proof fn lemma_allowed_pairs_card(n: int)
    requires
        0 <= n <= usize::MAX as int,
    ensures
        allowed_pairs(n).finite(),
        2 * allowed_pairs(n).len() == n * (n - 1),
    decreases n,
{
    if n == 0 {
        assert(allowed_pairs(0) =~= Set::<(usize, usize)>::empty());
    } else {
        lemma_allowed_pairs_card(n - 1);
        let b = (n - 1) as usize;
        lemma_pairs_ending_at_card(b, n - 1);
        assert(allowed_pairs(n) =~= allowed_pairs(n - 1) + pairs_ending_at(b, n - 1));
        assert(allowed_pairs(n - 1).disjoint(pairs_ending_at(b, n - 1))) by {
            assert forall|p: (usize, usize)| #[trigger]
                allowed_pairs(n - 1).contains(p) implies !pairs_ending_at(b, n - 1).contains(
                p,
            ) by {
                assert((p.1 as int) < n - 1);
            }
        }
        lemma_set_disjoint_lens(allowed_pairs(n - 1), pairs_ending_at(b, n - 1));
        assert(2 * allowed_pairs(n).len() == 2 * allowed_pairs(n - 1).len() + 2 * (n - 1));
        assert(2 * allowed_pairs(n - 1).len() + 2 * (n - 1) == n * (n - 1)) by (nonlinear_arith)
            requires
                n >= 1,
                2 * allowed_pairs(n - 1).len() == (n - 1) * (n - 2),
        ;
    }
}

/// The unordered pairs of a sequence of edges, in order.
pub open spec fn pair_seq(edges: Seq<Edge>) -> Seq<(usize, usize)> {
    edges.map_values(|e: Edge| edge_pair(e))
}

/// Edge capacity: pair uniqueness leaves room for at most one edge per
/// unordered pair of distinct nodes, so twice the edge count never exceeds
/// `n * (n - 1)`. In particular a 5-node web can never hold more than 10
/// edges, however many are requested.
pub proof fn lemma_edge_capacity(w: MorassWeb)
    requires
        w.wf(),
    ensures
        2 * w.edges@.len() <= w.nodes@.len() * (w.nodes@.len() - 1),
{
    let n = w.nodes@.len() as int;
    let ps = pair_seq(w.edges@);
    assert(ps.no_duplicates()) by {
        assert forall|k: int, l: int| 0 <= k < l < ps.len() implies ps[k] != ps[l] by {
            assert(edge_pair(w.edges@[k]) != edge_pair(w.edges@[l]));
        }
    }
    ps.unique_seq_to_set();
    assert(w.nodes@.len() <= usize::MAX) by {
        broadcast use vstd::std_specs::vec::axiom_spec_len;

        assert(vstd::std_specs::vec::spec_vec_len(&w.nodes) == w.nodes@.len());
    }
    lemma_allowed_pairs_card(n);
    assert(ps.to_set().subset_of(allowed_pairs(n))) by {
        assert forall|p: (usize, usize)| ps.to_set().contains(p) implies allowed_pairs(n).contains(
            p,
        ) by {
            let k = choose|k: int| 0 <= k < ps.len() && ps[k] == p;
            assert(edge_ok(w.edges@[k], n));
            assert(p == edge_pair(w.edges@[k]));
        }
    }
    lemma_len_subset(ps.to_set(), allowed_pairs(n));
}

} // verus!
