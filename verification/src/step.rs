//! The step engine: one tick through five strictly ordered phases —
//! propagate, consume, decay, assimilate, and cooldown with health pruning.
//!
//! Within a phase every unit of work commutes (pulses accumulate by exact
//! addition, per-edge penalties touch only their own record), so running the
//! fan-out sequentially realizes every admissible schedule. Propagation is
//! gated on a snapshot of each node's cooldown taken before the tick mutates
//! anything, giving every edge a consistent pre-tick view.

use vstd::prelude::*;
use crate::arith::{clip_add_temp, drain, pulse_amount, pulse_value, sat_add, sat_add_u64};
use crate::edge::{edge_ok, edge_pair, edges_distinct, pair_in_edges, Edge};
use crate::node::{assimilated, consumed, cooled, decayed, Node};
use crate::web::{node_ok, MorassWeb};

verus! {

/// Whether the start node of `e` may fire this tick: off cooldown at the
/// start of the tick, and charged to its threshold.
pub open spec fn eligible(nodes0: Seq<Node>, e: Edge) -> bool {
    &&& nodes0[e.start_node as int].cooldown_remaining == 0
    &&& nodes0[e.start_node as int].charge >= nodes0[e.start_node as int].threshold
}

/// The pulse `e` carries this tick: the transform of the start node's charge
/// when it is eligible, zero otherwise.
pub open spec fn edge_pulse(nodes0: Seq<Node>, e: Edge) -> int {
    if eligible(nodes0, e) {
        pulse_value(
            nodes0[e.start_node as int].charge as int,
            e.out_percentage as int,
            e.out_fixed as int,
        )
    } else {
        0
    }
}

/// An edge fires exactly when it carries a positive pulse.
pub open spec fn edge_fired(nodes0: Seq<Node>, e: Edge) -> bool {
    edge_pulse(nodes0, e) > 0
}

/// The sum of the pulses that the edges of `edges0` deliver to node `i`:
/// order-independent, since it is an exact sum of `i64`-sized pulses.
pub open spec fn temp_gain(nodes0: Seq<Node>, edges0: Seq<Edge>, i: int) -> int
    decreases edges0.len(),
{
    if edges0.len() == 0 {
        0
    } else {
        temp_gain(nodes0, edges0.drop_last(), i) + (
        if edges0.last().end_node as int == i && edge_fired(nodes0, edges0.last()) {
            edge_pulse(nodes0, edges0.last())
        } else {
            0
        })
    }
}

/// How many edges fire this tick.
pub open spec fn fired_count(nodes0: Seq<Node>, edges0: Seq<Edge>) -> int
    decreases edges0.len(),
{
    if edges0.len() == 0 {
        0
    } else {
        fired_count(nodes0, edges0.drop_last()) + (
        if edge_fired(nodes0, edges0.last()) {
            1int
        } else {
            0int
        })
    }
}

/// Whether node `i` fires on at least one of its outgoing edges this tick.
pub open spec fn node_fired(nodes0: Seq<Node>, edges0: Seq<Edge>, i: int) -> bool {
    exists|k: int|
        0 <= k < edges0.len() && (#[trigger] edges0[k]).start_node as int == i && edge_fired(
            nodes0,
            edges0[k],
        )
}

/// The trace of this tick's firing edges, in edge order: start identity, end
/// identity, pulse.
pub open spec fn fire_events(nodes0: Seq<Node>, edges0: Seq<Edge>) -> Seq<(usize, usize, i64)>
    decreases edges0.len(),
{
    if edges0.len() == 0 {
        Seq::empty()
    } else {
        let rest = fire_events(nodes0, edges0.drop_last());
        let e = edges0.last();
        if edge_fired(nodes0, e) {
            rest.push(
                (
                    (e.start_node + 1) as usize,
                    (e.end_node + 1) as usize,
                    edge_pulse(nodes0, e) as i64,
                ),
            )
        } else {
            rest
        }
    }
}

/// Node `i` after the propagate phase: incoming pulses gathered into
/// `temp_charge`; if the node fired, its cooldown is armed and its
/// since-last-fire count cleared. The charge itself is untouched.
pub open spec fn node_after_propagate(nodes0: Seq<Node>, edges0: Seq<Edge>, i: int) -> Node {
    let n = nodes0[i];
    Node {
        temp_charge: (n.temp_charge + temp_gain(nodes0, edges0, i)) as i128,
        cooldown_remaining: if node_fired(nodes0, edges0, i) {
            n.cooldown
        } else {
            n.cooldown_remaining
        },
        since_last_fire: if node_fired(nodes0, edges0, i) {
            0u64
        } else {
            n.since_last_fire
        },
        ..n
    }
}

/// Node `i` after the whole tick: propagate, then consume (gated on the
/// tick-start cooldown), then decay, then assimilate, then the cooldown
/// tick, whose clock increment skips a node that fired this tick.
pub open spec fn node_stepped(nodes0: Seq<Node>, edges0: Seq<Edge>, i: int) -> Node {
    cooled(
        assimilated(
            decayed(
                consumed(
                    node_after_propagate(nodes0, edges0, i),
                    nodes0[i].cooldown_remaining,
                ),
            ),
        ),
        node_fired(nodes0, edges0, i),
    )
}

/// Edge `e` after the propagate phase: its stale counter clears when it
/// fires and grows by one otherwise.
pub open spec fn edge_after_propagate(nodes0: Seq<Node>, e: Edge) -> Edge {
    Edge {
        last_fire: if edge_fired(nodes0, e) {
            0u64
        } else {
            sat_add_u64(e.last_fire as int, 1) as u64
        },
        ..e
    }
}

/// One health penalty, floored at zero.
pub open spec fn health_dec(h: u64) -> u64 {
    if h > 0 {
        (h - 1) as u64
    } else {
        0u64
    }
}

/// Edge `e` after the whole tick: the propagate update followed by the two
/// independent health penalties — a destination that has gone exactly
/// `end_node_fire_within` ticks without firing, and a stale counter that has
/// filled a whole `fire_within` window.
pub open spec fn edge_stepped(nodes0: Seq<Node>, edges0: Seq<Edge>, e: Edge) -> Edge {
    let e1 = edge_after_propagate(nodes0, e);
    let end_after = node_stepped(nodes0, edges0, e.end_node as int);
    let h1 = if end_after.since_last_fire == e.end_node_fire_within {
        health_dec(e.edge_health)
    } else {
        e.edge_health
    };
    let h2 = if e1.last_fire as int % e.fire_within as int == e.fire_within as int - 1 {
        health_dec(h1)
    } else {
        h1
    };
    Edge { edge_health: h2, ..e1 }
}

/// The tick's edge store before pruning: every edge stepped in place.
pub open spec fn stepped_seq(nodes0: Seq<Node>, edges0: Seq<Edge>) -> Seq<Edge> {
    edges0.map_values(|e: Edge| edge_stepped(nodes0, edges0, e))
}

/// An edge survives pruning while its health is positive.
pub open spec fn live_edge(e: Edge) -> bool {
    e.edge_health >= 1
}

/// The subsequence of `s` whose edges are still alive, in order.
pub open spec fn pruned(s: Seq<Edge>) -> Seq<Edge>
    decreases s.len(),
{
    if s.len() == 0 {
        Seq::empty()
    } else {
        let rest = pruned(s.drop_last());
        if live_edge(s.last()) {
            rest.push(s.last())
        } else {
            rest
        }
    }
}

/// The edge store at the end of the tick: stepped, then pruned.
pub open spec fn surviving_edges(nodes0: Seq<Node>, edges0: Seq<Edge>) -> Seq<Edge> {
    pruned(stepped_seq(nodes0, edges0))
}

/// The pulses delivered to any node are each positive and at most
/// `i64::MAX`, so their sum over `edges0` is bounded by the edge count.
pub proof fn lemma_temp_gain_bound(nodes0: Seq<Node>, edges0: Seq<Edge>, i: int)
    ensures
        0 <= temp_gain(nodes0, edges0, i) <= edges0.len() * (i64::MAX as int),
    decreases edges0.len(),
{
    if edges0.len() == 0 {
    } else {
        lemma_temp_gain_bound(nodes0, edges0.drop_last(), i);
        assert((edges0.len() - 1) * (i64::MAX as int) + (i64::MAX as int) == edges0.len() * (
        i64::MAX as int)) by (nonlinear_arith);
    }
}

/// Extending the propagated prefix by one edge extends each accumulator by
/// that edge's contribution.
pub proof fn lemma_propagate_extend(nodes0: Seq<Node>, edges0: Seq<Edge>, k: int)
    requires
        0 <= k < edges0.len(),
    ensures
        forall|i: int|
            temp_gain(nodes0, edges0.take(k + 1), i) == temp_gain(nodes0, edges0.take(k), i) + (
            if edges0[k].end_node as int == i && edge_fired(nodes0, edges0[k]) {
                edge_pulse(nodes0, edges0[k])
            } else {
                0
            }),
        fired_count(nodes0, edges0.take(k + 1)) == fired_count(nodes0, edges0.take(k)) + (
        if edge_fired(nodes0, edges0[k]) {
            1int
        } else {
            0int
        }),
        fire_events(nodes0, edges0.take(k + 1)) == (
        if edge_fired(nodes0, edges0[k]) {
            fire_events(nodes0, edges0.take(k)).push(
                (
                    (edges0[k].start_node + 1) as usize,
                    (edges0[k].end_node + 1) as usize,
                    edge_pulse(nodes0, edges0[k]) as i64,
                ),
            )
        } else {
            fire_events(nodes0, edges0.take(k))
        }),
        forall|i: int|
            node_fired(nodes0, edges0.take(k + 1), i) <==> (node_fired(nodes0, edges0.take(k), i)
                || (edges0[k].start_node as int == i && edge_fired(nodes0, edges0[k]))),
{
    let prefix = edges0.take(k);
    let extended = edges0.take(k + 1);
    assert(extended.drop_last() =~= prefix);
    assert(extended.last() == edges0[k]);
    assert forall|i: int|
        node_fired(nodes0, extended, i) <==> (node_fired(nodes0, prefix, i) || (
        edges0[k].start_node as int == i && edge_fired(nodes0, edges0[k]))) by {
        if node_fired(nodes0, extended, i) {
            let j = choose|j: int|
                0 <= j < extended.len() && (#[trigger] extended[j]).start_node as int == i
                    && edge_fired(nodes0, extended[j]);
            if j < k {
                assert(prefix[j] == extended[j]);
                assert(node_fired(nodes0, prefix, i));
            } else {
                assert(extended[j] == edges0[k]);
            }
        }
        if node_fired(nodes0, prefix, i) {
            let j = choose|j: int|
                0 <= j < prefix.len() && (#[trigger] prefix[j]).start_node as int == i
                    && edge_fired(nodes0, prefix[j]);
            assert(extended[j] == prefix[j]);
            assert(node_fired(nodes0, extended, i));
        }
        if edges0[k].start_node as int == i && edge_fired(nodes0, edges0[k]) {
            assert(extended[k] == edges0[k]);
            assert(node_fired(nodes0, extended, i));
        }
    }
}

/// Pruning keeps only live edges, keeps every live edge, and invents none.
pub proof fn lemma_pruned_membership(s: Seq<Edge>)
    ensures
        forall|j: int|
            0 <= j < pruned(s).len() ==> live_edge(#[trigger] pruned(s)[j]) && s.contains(
                pruned(s)[j],
            ),
        pruned(s).len() <= s.len(),
    decreases s.len(),
{
    if s.len() == 0 {
    } else {
        lemma_pruned_membership(s.drop_last());
        assert forall|j: int|
            0 <= j < pruned(s).len() implies live_edge(#[trigger] pruned(s)[j]) && s.contains(
            pruned(s)[j],
        ) by {
            let rest = pruned(s.drop_last());
            if j < rest.len() {
                assert(pruned(s)[j] == rest[j]);
                let x = choose|x: int| 0 <= x < s.drop_last().len() && s.drop_last()[x] == rest[j];
                assert(s[x] == rest[j]);
            } else {
                assert(pruned(s)[j] == s.last());
                assert(s[s.len() - 1] == s.last());
            }
        }
    }
}

/// Pruning a store whose unordered pairs are pairwise distinct yields one
/// whose pairs are still pairwise distinct.
pub proof fn lemma_pruned_distinct(s: Seq<Edge>)
    requires
        edges_distinct(s),
    ensures
        edges_distinct(pruned(s)),
    decreases s.len(),
{
    if s.len() == 0 {
    } else {
        assert(edges_distinct(s.drop_last())) by {
            assert forall|k: int, l: int|
                0 <= k < l < s.drop_last().len() implies edge_pair(#[trigger] s.drop_last()[k])
                != edge_pair(#[trigger] s.drop_last()[l]) by {
                assert(s[k] == s.drop_last()[k] && s[l] == s.drop_last()[l]);
            }
        }
        lemma_pruned_distinct(s.drop_last());
        lemma_pruned_membership(s.drop_last());
        let rest = pruned(s.drop_last());
        if live_edge(s.last()) {
            assert forall|k: int, l: int|
                0 <= k < l < pruned(s).len() implies edge_pair(#[trigger] pruned(s)[k])
                != edge_pair(#[trigger] pruned(s)[l]) by {
                if l < rest.len() {
                    assert(pruned(s)[k] == rest[k] && pruned(s)[l] == rest[l]);
                } else {
                    assert(pruned(s)[l] == s.last());
                    assert(pruned(s)[k] == rest[k]);
                    let x = choose|x: int|
                        0 <= x < s.drop_last().len() && s.drop_last()[x] == rest[k];
                    assert(s[x] == rest[k]);
                    assert(edge_pair(s[x]) != edge_pair(s[s.len() - 1]));
                }
            }
        }
    }
}

impl MorassWeb {
    /// Advance exactly one tick. The five phases run strictly in order;
    /// `verbose` only selects whether the trace of firing edges is gathered
    /// and returned — it never affects the state transition.
    pub fn step(&mut self, verbose: bool) -> (trace: Vec<(usize, usize, i64)>)
        requires
            old(self).wf(),
        ensures
            final(self).wf(),
            final(self).nodes@.len() == old(self).nodes@.len(),
            forall|i: int|
                0 <= i < old(self).nodes@.len() ==> final(self).nodes@[i] == node_stepped(
                    old(self).nodes@,
                    old(self).edges@,
                    i,
                ),
            final(self).edges@ == surviving_edges(old(self).nodes@, old(self).edges@),
            final(self).op_counter as int == sat_add_u64(
                old(self).op_counter as int,
                fired_count(old(self).nodes@, old(self).edges@),
            ),
            final(self).edges_added_counter == old(self).edges_added_counter,
            verbose ==> trace@ == fire_events(old(self).nodes@, old(self).edges@),
            !verbose ==> trace@.len() == 0,
    {
        let ghost nodes0 = self.nodes@;
        let ghost edges0 = self.edges@;
        let ghost pairs0 = self.pairs;
        let ghost added0 = self.edges_added_counter;
        let node_count = self.nodes.len();

        // Snapshot of every node's cooldown at the start of the tick: the
        // consistent view that both propagation and consumption gate on.
        // Beside it, a flag per node recording whether it fires this tick,
        // which the cooldown phase needs to leave a firing node's clock at
        // zero.
        let mut snap: Vec<u64> = Vec::new();
        let mut fired_flags: Vec<bool> = Vec::new();
        let mut i: usize = 0;
        while i < node_count
            invariant
                node_count == nodes0.len(),
                self.nodes@ == nodes0,
                i <= node_count,
                snap@.len() == i,
                forall|j: int| 0 <= j < i ==> snap@[j] == nodes0[j].cooldown_remaining,
                fired_flags@.len() == i,
                forall|j: int| 0 <= j < i ==> !fired_flags@[j],
            decreases node_count - i,
        {
            snap.push(self.nodes[i].cooldown_remaining);
            fired_flags.push(false);
            i += 1;
        }

        // Phase 1: propagate. Each edge reads the snapshot gate and the
        // (still unmutated) charges, and delivers its pulse.
        let mut fired: usize = 0;
        let mut trace: Vec<(usize, usize, i64)> = Vec::new();
        let mut k: usize = 0;
        while k < self.edges.len()
            invariant
                self.nodes@.len() == nodes0.len(),
                self.edges@.len() == edges0.len(),
                node_count == nodes0.len(),
                k <= edges0.len(),
                forall|i2: int| 0 <= i2 < nodes0.len() ==> node_ok(#[trigger] nodes0[i2], i2),
                forall|j: int|
                    0 <= j < edges0.len() ==> edge_ok(#[trigger] edges0[j], nodes0.len() as int),
                snap@.len() == nodes0.len(),
                forall|j: int| 0 <= j < nodes0.len() ==> snap@[j] == nodes0[j].cooldown_remaining,
                forall|j: int|
                    0 <= j < k ==> self.edges@[j] == edge_after_propagate(nodes0, edges0[j]),
                forall|j: int| k <= j < edges0.len() ==> self.edges@[j] == edges0[j],
                forall|i2: int|
                    0 <= i2 < nodes0.len() ==> self.nodes@[i2] == node_after_propagate(
                        nodes0,
                        edges0.take(k as int),
                        i2,
                    ),
                fired as int == fired_count(nodes0, edges0.take(k as int)),
                fired <= k,
                fired_flags@.len() == nodes0.len(),
                forall|i2: int|
                    0 <= i2 < nodes0.len() ==> fired_flags@[i2] == node_fired(
                        nodes0,
                        edges0.take(k as int),
                        i2,
                    ),
                verbose ==> trace@ == fire_events(nodes0, edges0.take(k as int)),
                !verbose ==> trace@.len() == 0,
                self.pairs == pairs0,
                self.op_counter == old(self).op_counter,
                self.edges_added_counter == added0,
            decreases edges0.len() - k,
        {
            let e = self.edges[k];
            proof {
                assert(e == edges0[k as int]);
                assert(edge_ok(edges0[k as int], nodes0.len() as int));
            }
            let start_idx = e.start_node;
            let end_idx = e.end_node;
            let sn = self.nodes[start_idx];
            proof {
                assert(sn == node_after_propagate(nodes0, edges0.take(k as int), start_idx as int));
                assert(sn.charge == nodes0[start_idx as int].charge);
                assert(sn.threshold == nodes0[start_idx as int].threshold);
                assert(sn.cooldown == nodes0[start_idx as int].cooldown);
            }
            if snap[start_idx] == 0 && sn.charge >= sn.threshold {
                proof {
                    assert(eligible(nodes0, edges0[k as int]));
                }
                let p = pulse_amount(sn.charge, e.out_percentage, e.out_fixed);
                proof {
                    assert(p as int == edge_pulse(nodes0, edges0[k as int]));
                }
                if p > 0 {
                    // Deliver the pulse to the destination's accumulator.
                    let en = self.nodes[end_idx];
                    proof {
                        lemma_temp_gain_bound(nodes0, edges0.take(k as int), end_idx as int);
                        assert(edges0.take(k as int).len() == k as int);
                        assert(nodes0[end_idx as int].temp_charge == 0);
                        assert((k as int) * (i64::MAX as int) + (i64::MAX as int) <= (
                        0x1_0000_0000_0000_0000) * (i64::MAX as int)) by (nonlinear_arith)
                            requires
                                0 <= k as int,
                                k as int + 1 <= 0x1_0000_0000_0000_0000,
                        ;
                    }
                    let mut en2 = en;
                    en2.temp_charge = en.temp_charge + (p as i128);
                    self.nodes[end_idx] = en2;
                    // Arm the start node's cooldown and clear its fire clock.
                    let sn_cur = self.nodes[start_idx];
                    let mut sn2 = sn_cur;
                    sn2.cooldown_remaining = sn_cur.cooldown;
                    sn2.since_last_fire = 0;
                    self.nodes[start_idx] = sn2;
                    fired_flags[start_idx] = true;
                    // Clear the edge's stale counter.
                    let mut e2 = e;
                    e2.last_fire = 0;
                    self.edges[k] = e2;
                    fired = fired + 1;
                    if verbose {
                        trace.push((start_idx + 1, end_idx + 1, p));
                    }
                } else {
                    let mut e2 = e;
                    e2.last_fire = sat_add(e.last_fire, 1);
                    self.edges[k] = e2;
                }
            } else {
                proof {
                    assert(!eligible(nodes0, edges0[k as int]));
                    assert(!edge_fired(nodes0, edges0[k as int]));
                }
                let mut e2 = e;
                e2.last_fire = sat_add(e.last_fire, 1);
                self.edges[k] = e2;
            }
            proof {
                lemma_propagate_extend(nodes0, edges0, k as int);
                assert forall|i2: int| 0 <= i2 < nodes0.len() implies self.nodes@[i2]
                    == node_after_propagate(nodes0, edges0.take(k as int + 1), i2) by {
                    let before = node_after_propagate(nodes0, edges0.take(k as int), i2);
                    let after = node_after_propagate(nodes0, edges0.take(k as int + 1), i2);
                    if edge_fired(nodes0, edges0[k as int]) {
                        if i2 == end_idx as int {
                            assert(after.temp_charge as int == before.temp_charge as int
                                + edge_pulse(nodes0, edges0[k as int]));
                        } else if i2 == start_idx as int {
                            assert(after.cooldown_remaining == nodes0[i2].cooldown);
                            assert(after.since_last_fire == 0);
                        } else {
                            assert(after == before);
                        }
                    } else {
                        assert(after == before);
                    }
                }
                assert forall|i2: int| 0 <= i2 < nodes0.len() implies fired_flags@[i2]
                    == node_fired(nodes0, edges0.take(k as int + 1), i2) by {
                    if edge_fired(nodes0, edges0[k as int]) {
                        if i2 != start_idx as int {
                            assert(!(edges0[k as int].start_node as int == i2));
                        }
                    } else {
                        assert(!(edges0[k as int].start_node as int == i2 && edge_fired(
                            nodes0,
                            edges0[k as int],
                        )));
                    }
                }
            }
            k += 1;
        }
        proof {
            assert(edges0.take(edges0.len() as int) =~= edges0);
        }
        self.op_counter = sat_add(self.op_counter, fired as u64);
        let edge_total = self.edges.len();

        // Phase 2: consume. Gated on the same tick-start snapshot, so a node
        // that fired during propagation still pays its consumption once, and
        // a node on cooldown is skipped entirely.
        let mut i: usize = 0;
        while i < node_count
            invariant
                self.nodes@.len() == nodes0.len(),
                self.edges@.len() == edges0.len(),
                node_count == nodes0.len(),
                i <= node_count,
                forall|i2: int| 0 <= i2 < nodes0.len() ==> node_ok(#[trigger] nodes0[i2], i2),
                snap@.len() == nodes0.len(),
                forall|j: int| 0 <= j < nodes0.len() ==> snap@[j] == nodes0[j].cooldown_remaining,
                forall|j: int|
                    0 <= j < edges0.len() ==> self.edges@[j] == edge_after_propagate(
                        nodes0,
                        edges0[j],
                    ),
                forall|i2: int|
                    0 <= i2 < i ==> self.nodes@[i2] == consumed(
                        node_after_propagate(nodes0, edges0, i2),
                        nodes0[i2].cooldown_remaining,
                    ),
                forall|i2: int|
                    i <= i2 < nodes0.len() ==> self.nodes@[i2] == node_after_propagate(
                        nodes0,
                        edges0,
                        i2,
                    ),
                self.pairs == pairs0,
                self.op_counter as int == sat_add_u64(
                    old(self).op_counter as int,
                    fired_count(nodes0, edges0),
                ),
                self.edges_added_counter == added0,
                verbose ==> trace@ == fire_events(nodes0, edges0),
                !verbose ==> trace@.len() == 0,
            decreases node_count - i,
        {
            let nd = self.nodes[i];
            if snap[i] == 0 && nd.charge >= nd.threshold {
                let c = drain(nd.charge, nd.consumption_percentage, nd.consumption_fixed);
                let mut nd2 = nd;
                nd2.charge = c;
                self.nodes[i] = nd2;
            }
            i += 1;
        }

        // Phase 3: decay. Unconditional, and applied before assimilation so
        // that a pulse arriving this tick is not decayed on arrival.
        let mut i: usize = 0;
        while i < node_count
            invariant
                self.nodes@.len() == nodes0.len(),
                self.edges@.len() == edges0.len(),
                node_count == nodes0.len(),
                i <= node_count,
                forall|i2: int| 0 <= i2 < nodes0.len() ==> node_ok(#[trigger] nodes0[i2], i2),
                forall|j: int|
                    0 <= j < edges0.len() ==> self.edges@[j] == edge_after_propagate(
                        nodes0,
                        edges0[j],
                    ),
                forall|i2: int|
                    0 <= i2 < i ==> self.nodes@[i2] == decayed(
                        consumed(
                            node_after_propagate(nodes0, edges0, i2),
                            nodes0[i2].cooldown_remaining,
                        ),
                    ),
                forall|i2: int|
                    i <= i2 < nodes0.len() ==> self.nodes@[i2] == consumed(
                        node_after_propagate(nodes0, edges0, i2),
                        nodes0[i2].cooldown_remaining,
                    ),
                self.pairs == pairs0,
                self.op_counter as int == sat_add_u64(
                    old(self).op_counter as int,
                    fired_count(nodes0, edges0),
                ),
                self.edges_added_counter == added0,
                verbose ==> trace@ == fire_events(nodes0, edges0),
                !verbose ==> trace@.len() == 0,
            decreases node_count - i,
        {
            let nd = self.nodes[i];
            let c = drain(nd.charge, nd.decay_percentage, nd.decay_fixed);
            let mut nd2 = nd;
            nd2.charge = c;
            self.nodes[i] = nd2;
            i += 1;
        }

        // Phase 4: assimilate. The accumulator merges into the charge and is
        // drained back to zero.
        let mut i: usize = 0;
        while i < node_count
            invariant
                self.nodes@.len() == nodes0.len(),
                self.edges@.len() == edges0.len(),
                node_count == nodes0.len(),
                edge_total as int == edges0.len(),
                i <= node_count,
                forall|i2: int| 0 <= i2 < nodes0.len() ==> node_ok(#[trigger] nodes0[i2], i2),
                forall|j: int|
                    0 <= j < edges0.len() ==> self.edges@[j] == edge_after_propagate(
                        nodes0,
                        edges0[j],
                    ),
                forall|i2: int|
                    0 <= i2 < i ==> self.nodes@[i2] == assimilated(
                        decayed(
                            consumed(
                                node_after_propagate(nodes0, edges0, i2),
                                nodes0[i2].cooldown_remaining,
                            ),
                        ),
                    ),
                forall|i2: int|
                    i <= i2 < nodes0.len() ==> self.nodes@[i2] == decayed(
                        consumed(
                            node_after_propagate(nodes0, edges0, i2),
                            nodes0[i2].cooldown_remaining,
                        ),
                    ),
                self.pairs == pairs0,
                self.op_counter as int == sat_add_u64(
                    old(self).op_counter as int,
                    fired_count(nodes0, edges0),
                ),
                self.edges_added_counter == added0,
                verbose ==> trace@ == fire_events(nodes0, edges0),
                !verbose ==> trace@.len() == 0,
            decreases node_count - i,
        {
            let nd = self.nodes[i];
            proof {
                lemma_temp_gain_bound(nodes0, edges0, i as int);
                assert(nodes0[i as int].temp_charge == 0);
                assert(edges0.len() as int <= usize::MAX as int);
                assert(edges0.len() as int * (i64::MAX as int) <= (0x1_0000_0000_0000_0000) * (
                i64::MAX as int)) by (nonlinear_arith)
                    requires
                        0 <= edges0.len() as int <= 0x1_0000_0000_0000_0000,
                ;
            }
            let c = clip_add_temp(nd.charge, nd.temp_charge);
            let mut nd2 = nd;
            nd2.charge = c;
            nd2.temp_charge = 0;
            self.nodes[i] = nd2;
            i += 1;
        }

        // Phase 5a: cooldown tick. A pending cooldown counts down by one and
        // every node's since-last-fire clock counts up by one.
        let mut i: usize = 0;
        while i < node_count
            invariant
                self.nodes@.len() == nodes0.len(),
                self.edges@.len() == edges0.len(),
                node_count == nodes0.len(),
                i <= node_count,
                forall|i2: int| 0 <= i2 < nodes0.len() ==> node_ok(#[trigger] nodes0[i2], i2),
                forall|j: int|
                    0 <= j < edges0.len() ==> edge_ok(#[trigger] edges0[j], nodes0.len() as int),
                forall|j: int|
                    0 <= j < edges0.len() ==> self.edges@[j] == edge_after_propagate(
                        nodes0,
                        edges0[j],
                    ),
                forall|i2: int|
                    0 <= i2 < i ==> self.nodes@[i2] == node_stepped(nodes0, edges0, i2),
                forall|i2: int|
                    i <= i2 < nodes0.len() ==> self.nodes@[i2] == assimilated(
                        decayed(
                            consumed(
                                node_after_propagate(nodes0, edges0, i2),
                                nodes0[i2].cooldown_remaining,
                            ),
                        ),
                    ),
                self.pairs == pairs0,
                self.op_counter as int == sat_add_u64(
                    old(self).op_counter as int,
                    fired_count(nodes0, edges0),
                ),
                self.edges_added_counter == added0,
                fired_flags@.len() == nodes0.len(),
                forall|i2: int|
                    0 <= i2 < nodes0.len() ==> fired_flags@[i2] == node_fired(nodes0, edges0, i2),
                verbose ==> trace@ == fire_events(nodes0, edges0),
                !verbose ==> trace@.len() == 0,
            decreases node_count - i,
        {
            let nd = self.nodes[i];
            let mut nd2 = nd;
            nd2.cooldown_remaining = if nd.cooldown_remaining > 0 {
                nd.cooldown_remaining - 1
            } else {
                0
            };
            nd2.since_last_fire = if fired_flags[i] {
                nd.since_last_fire
            } else {
                sat_add(nd.since_last_fire, 1)
            };
            self.nodes[i] = nd2;
            i += 1;
        }

        // Phase 5b: health and pruning. Each surviving edge keeps its order;
        // each pruned edge gives its pair back to the index.
        let ghost stepped = stepped_seq(nodes0, edges0);
        let mut kept: Vec<Edge> = Vec::new();
        let mut k: usize = 0;
        while k < self.edges.len()
            invariant
                self.nodes@.len() == nodes0.len(),
                self.edges@.len() == edges0.len(),
                node_count == nodes0.len(),
                k <= edges0.len(),
                forall|i2: int| 0 <= i2 < nodes0.len() ==> node_ok(#[trigger] nodes0[i2], i2),
                forall|j: int|
                    0 <= j < edges0.len() ==> edge_ok(#[trigger] edges0[j], nodes0.len() as int),
                edges_distinct(edges0),
                forall|j: int|
                    0 <= j < edges0.len() ==> self.edges@[j] == edge_after_propagate(
                        nodes0,
                        edges0[j],
                    ),
                forall|i2: int|
                    0 <= i2 < nodes0.len() ==> self.nodes@[i2] == node_stepped(nodes0, edges0, i2),
                stepped == stepped_seq(nodes0, edges0),
                kept@ == pruned(stepped.take(k as int)),
                self.pairs.wf(),
                forall|p: (usize, usize)|
                    #[trigger] self.pairs@.contains(p) <==> (pair_in_edges(kept@, p) || (
                    exists|j: int|
                        k <= j < edges0.len() && p == edge_pair(#[trigger] edges0[j]))),
                self.op_counter as int == sat_add_u64(
                    old(self).op_counter as int,
                    fired_count(nodes0, edges0),
                ),
                self.edges_added_counter == added0,
                verbose ==> trace@ == fire_events(nodes0, edges0),
                !verbose ==> trace@.len() == 0,
            decreases edges0.len() - k,
        {
            let e1 = self.edges[k];
            proof {
                assert(e1 == edge_after_propagate(nodes0, edges0[k as int]));
                assert(edge_ok(edges0[k as int], nodes0.len() as int));
            }
            let end_idx = e1.end_node;
            let endn = self.nodes[end_idx];
            let mut h = e1.edge_health;
            if endn.since_last_fire == e1.end_node_fire_within {
                h = if h > 0 {
                    h - 1
                } else {
                    0
                };
            }
            if e1.last_fire % e1.fire_within == e1.fire_within - 1 {
                h = if h > 0 {
                    h - 1
                } else {
                    0
                };
            }
            let mut e2 = e1;
            e2.edge_health = h;
            proof {
                assert(e2 == edge_stepped(nodes0, edges0, edges0[k as int]));
                assert(stepped[k as int] == e2);
                assert(stepped.take(k as int + 1).drop_last() =~= stepped.take(k as int));
                assert(stepped.take(k as int + 1).last() == e2);
            }
            let ghost kept_before = kept@;
            if h > 0 {
                kept.push(e2);
                proof {
                    assert(kept@ == pruned(stepped.take(k as int + 1)));
                    assert forall|p: (usize, usize)| #[trigger]
                        self.pairs@.contains(p) <==> (pair_in_edges(kept@, p) || (
                        exists|j: int|
                            k as int + 1 <= j < edges0.len() && p == edge_pair(
                                #[trigger] edges0[j],
                            ))) by {
                        if self.pairs@.contains(p) {
                            if pair_in_edges(kept_before, p) {
                                let j = choose|j: int|
                                    0 <= j < kept_before.len() && p == edge_pair(kept_before[j]);
                                assert(kept@[j] == kept_before[j]);
                                assert(pair_in_edges(kept@, p));
                            } else {
                                let j = choose|j: int|
                                    k as int <= j < edges0.len() && p == edge_pair(edges0[j]);
                                if j == k as int {
                                    assert(edge_pair(e2) == edge_pair(edges0[k as int]));
                                    assert(kept@[kept@.len() - 1] == e2);
                                    assert(pair_in_edges(kept@, p));
                                } else {
                                    assert(k as int + 1 <= j < edges0.len() && p == edge_pair(
                                        edges0[j],
                                    ));
                                }
                            }
                        }
                        if pair_in_edges(kept@, p) {
                            let j = choose|j: int| 0 <= j < kept@.len() && p == edge_pair(kept@[j]);
                            if j < kept_before.len() {
                                assert(kept_before[j] == kept@[j]);
                                assert(pair_in_edges(kept_before, p));
                                assert(self.pairs@.contains(p));
                            } else {
                                assert(kept@[j] == e2);
                                assert(p == edge_pair(edges0[k as int]));
                                assert(self.pairs@.contains(p));
                            }
                        }
                        if exists|j: int|
                            k as int + 1 <= j < edges0.len() && p == edge_pair(
                                #[trigger] edges0[j],
                            ) {
                            let j = choose|j: int|
                                k as int + 1 <= j < edges0.len() && p == edge_pair(edges0[j]);
                            assert(k as int <= j < edges0.len() && p == edge_pair(edges0[j]));
                            assert(self.pairs@.contains(p));
                        }
                    }
                }
            } else {
                proof {
                    assert(kept@ == pruned(stepped.take(k as int + 1)));
                }
                let ghost pairs_before = self.pairs@;
                self.pairs.remove_pair(e2.start_node, e2.end_node);
                proof {
                    let dropped = edge_pair(edges0[k as int]);
                    assert(edge_pair(e2) == dropped);
                    assert(self.pairs@ == pairs_before.remove(dropped));
                    lemma_pruned_membership(stepped.take(k as int));
                    assert forall|p: (usize, usize)| #[trigger]
                        self.pairs@.contains(p) <==> (pair_in_edges(kept@, p) || (
                        exists|j: int|
                            k as int + 1 <= j < edges0.len() && p == edge_pair(
                                #[trigger] edges0[j],
                            ))) by {
                        if self.pairs@.contains(p) {
                            assert(pairs_before.contains(p) && p != dropped);
                            if pair_in_edges(kept@, p) {
                            } else {
                                let j = choose|j: int|
                                    k as int <= j < edges0.len() && p == edge_pair(edges0[j]);
                                assert(j != k as int);
                                assert(k as int + 1 <= j < edges0.len() && p == edge_pair(
                                    edges0[j],
                                ));
                            }
                        }
                        if pair_in_edges(kept@, p) {
                            // A kept pair comes from a stepped prefix edge,
                            // whose pair differs from the dropped one.
                            let j = choose|j: int| 0 <= j < kept@.len() && p == edge_pair(kept@[j]);
                            assert(kept@[j] == pruned(stepped.take(k as int))[j]);
                            assert(stepped.take(k as int).contains(kept@[j]));
                            let x = choose|x: int|
                                0 <= x < stepped.take(k as int).len() && stepped.take(
                                    k as int,
                                )[x] == kept@[j];
                            assert(stepped[x] == kept@[j]);
                            assert(stepped[x] == edge_stepped(nodes0, edges0, edges0[x]));
                            assert(edge_pair(stepped[x]) == edge_pair(edges0[x]));
                            assert(edge_pair(edges0[x]) != edge_pair(edges0[k as int]));
                            assert(p != dropped);
                            assert(pairs_before.contains(p));
                            assert(self.pairs@.contains(p));
                        }
                        if exists|j: int|
                            k as int + 1 <= j < edges0.len() && p == edge_pair(
                                #[trigger] edges0[j],
                            ) {
                            let j = choose|j: int|
                                k as int + 1 <= j < edges0.len() && p == edge_pair(edges0[j]);
                            assert(edge_pair(edges0[j]) != edge_pair(edges0[k as int]));
                            assert(p != dropped);
                            assert(k as int <= j < edges0.len() && p == edge_pair(edges0[j]));
                            assert(pairs_before.contains(p));
                            assert(self.pairs@.contains(p));
                        }
                    }
                }
            }
            k += 1;
        }
        proof {
            assert(stepped.take(edges0.len() as int) =~= stepped);
        }
        self.edges = kept;
        proof {
            lemma_pruned_membership(stepped);
            assert(edges_distinct(stepped)) by {
                assert forall|x: int, y: int|
                    0 <= x < y < stepped.len() implies edge_pair(#[trigger] stepped[x])
                    != edge_pair(#[trigger] stepped[y]) by {
                    assert(edge_pair(stepped[x]) == edge_pair(edges0[x]));
                    assert(edge_pair(stepped[y]) == edge_pair(edges0[y]));
                }
            }
            lemma_pruned_distinct(stepped);
            assert forall|j: int|
                0 <= j < self.edges@.len() implies edge_ok(
                #[trigger] self.edges@[j],
                self.nodes@.len() as int,
            ) by {
                let x = choose|x: int| 0 <= x < stepped.len() && stepped[x] == self.edges@[j];
                assert(edge_ok(edges0[x], nodes0.len() as int));
            }
            assert forall|i2: int| 0 <= i2 < self.nodes@.len() implies node_ok(
                #[trigger] self.nodes@[i2],
                i2,
            ) by {
                assert(self.nodes@[i2] == node_stepped(nodes0, edges0, i2));
            }
            assert forall|p: (usize, usize)| #[trigger]
                self.pairs@.contains(p) <==> pair_in_edges(self.edges@, p) by {}
        }
        trace
    }

} // impl MorassWeb

} // verus!
