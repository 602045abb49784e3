//! The growth engine: wiring a bounded batch of new edges onto one
//! under-connected node, best-effort and always terminating.
//!
//! The deterministic core, `add_edges_to_target`, adds exactly
//! `min(requested, unpaired partners)` edges to a given node; the public
//! entry point only adds the random choice of target on top of it.

use vstd::prelude::*;
use crate::arith::{sat_add, sat_add_u64};
use crate::edge::{edge_ok, edge_pair, out_degree, Edge};
use crate::pairs::ordered_pair;
use crate::rng::rand_index;
use crate::web::MorassWeb;

verus! {

/// Every unordered pair of distinct nodes is already joined by an edge.
pub open spec fn fully_connected(w: MorassWeb) -> bool {
    forall|a: usize, b: usize|
        a < b && (b as int) < w.nodes@.len() ==> #[trigger] w.pairs@.contains((a, b))
}

/// No random choice of target can leave growth empty-handed: some node
/// can still take an outgoing edge, and every node that can still has a
/// partner it is not yet paired with.
pub open spec fn growth_unblocked(w: MorassWeb) -> bool {
    let n = w.nodes@.len() as int;
    &&& exists|i: int| 0 <= i < n && #[trigger] out_degree(w.edges@, i) < n - 1
    &&& forall|i: int|
        0 <= i < n && #[trigger] out_degree(w.edges@, i) < n - 1 ==> unpaired_below(
            w,
            i as usize,
            n,
        ) > 0
}

/// What growth stamps on each edge it creates: a fresh default record.
pub open spec fn fresh_growth_edge(e: Edge) -> bool {
    &&& e.edge_health == 3
    &&& e.last_fire == 0
    &&& e.fire_within == 5
    &&& e.end_node_fire_within == 3
    &&& e.out_percentage < 100
    &&& e.out_fixed < 500
}

/// Everything `post` holds beyond `pre` is a fresh default edge leaving the
/// single target node `t`.
pub open spec fn growth_batch(pre: Seq<Edge>, post: Seq<Edge>, t: int) -> bool {
    forall|j: int|
        pre.len() <= j < post.len() ==> (#[trigger] post[j]).start_node as int == t
            && fresh_growth_edge(post[j])
}

/// How many node indices below `m` could still be wired to `target`: not
/// the target itself, and not yet paired with it in either orientation.
pub open spec fn unpaired_below(w: MorassWeb, target: usize, m: int) -> int
    decreases m,
{
    if m <= 0 {
        0
    } else {
        unpaired_below(w, target, m - 1) + (
        if m - 1 != target as int && !w.pairs@.contains(ordered_pair(target, (m - 1) as usize)) {
            1int
        } else {
            0int
        })
    }
}

/// On a fully connected web no partner is left unpaired, whoever the
/// target.
pub proof fn lemma_fully_connected_unpaired(w: MorassWeb, target: usize, m: int)
    requires
        fully_connected(w),
        w.nodes@.len() <= usize::MAX,
        (target as int) < w.nodes@.len(),
        m <= w.nodes@.len(),
    ensures
        unpaired_below(w, target, m) == 0,
    decreases m,
{
    if m > 0 {
        lemma_fully_connected_unpaired(w, target, m - 1);
        if m - 1 != target as int {
            let other = (m - 1) as usize;
            if target < other {
                assert(w.pairs@.contains((target, other)));
            } else {
                assert(w.pairs@.contains((other, target)));
            }
        }
    }
}

impl MorassWeb {
    /// Wire up to `num_edges` fresh default edges from `target` to nodes not
    /// yet paired with it. Deterministic in everything but the new edges'
    /// transform parameters: exactly `min(num_edges, unpaired partners)`
    /// edges are added, and with no partner left the web is untouched.
    pub fn add_edges_to_target(&mut self, target: usize, num_edges: usize) -> (added: usize)
        requires
            old(self).wf(),
            (target as int) < old(self).nodes@.len(),
        ensures
            final(self).wf(),
            final(self).nodes@ == old(self).nodes@,
            final(self).op_counter == old(self).op_counter,
            added as int == (
            if (num_edges as int) <= unpaired_below(
                *old(self),
                target,
                old(self).nodes@.len() as int,
            ) {
                num_edges as int
            } else {
                unpaired_below(*old(self), target, old(self).nodes@.len() as int)
            }),
            final(self).edges@.len() == old(self).edges@.len() + added,
            forall|j: int|
                0 <= j < old(self).edges@.len() ==> final(self).edges@[j] == old(self).edges@[j],
            growth_batch(old(self).edges@, final(self).edges@, target as int),
            final(self).edges_added_counter as int == sat_add_u64(
                old(self).edges_added_counter as int,
                added as int,
            ),
            added == 0 ==> *final(self) == *old(self),
    {
        let node_count = self.nodes.len();
        let ghost added0 = self.edges_added_counter;
        let ghost prior_total = self.edges@.len();

        // The nodes not yet paired with the target, in either orientation,
        // excluding the target itself.
        let mut unconnected: Vec<usize> = Vec::new();
        let mut i: usize = 0;
        while i < node_count
            invariant
                self == old(self),
                self.wf(),
                node_count == self.nodes@.len(),
                target < node_count,
                i <= node_count,
                unconnected@.len() == unpaired_below(*old(self), target, i as int),
                forall|x: int| 0 <= x < unconnected@.len() ==> (#[trigger] unconnected@[x]) < i,
                forall|x: int|
                    0 <= x < unconnected@.len() ==> (#[trigger] unconnected@[x]) < node_count
                        && unconnected@[x] != target && !self.pairs@.contains(
                        ordered_pair(target, unconnected@[x]),
                    ),
                forall|x: int, y: int|
                    0 <= x < y < unconnected@.len() ==> (#[trigger] unconnected@[x]) < (
                    #[trigger] unconnected@[y]),
            decreases node_count - i,
        {
            if i != target && !self.pairs.contains_pair(target, i) {
                unconnected.push(i);
            }
            i += 1;
        }

        let max_new = unconnected.len();
        let batch = if num_edges < max_new {
            num_edges
        } else {
            max_new
        };
        if batch == 0 {
            proof {
                assert(sat_add_u64(added0 as int, 0) == added0 as int);
            }
            return 0;
        }

        let mut j: usize = 0;
        while j < batch
            invariant
                self.wf(),
                self.nodes@ == old(self).nodes@,
                self.op_counter == old(self).op_counter,
                node_count == self.nodes@.len(),
                prior_total == old(self).edges@.len(),
                target < node_count,
                j <= batch,
                batch <= unconnected@.len(),
                batch <= num_edges,
                self.edges@.len() == prior_total + j,
                forall|x: int| 0 <= x < prior_total ==> self.edges@[x] == old(self).edges@[x],
                forall|x: int|
                    prior_total <= x < self.edges@.len() ==> (
                    #[trigger] self.edges@[x]).start_node == target && fresh_growth_edge(
                        self.edges@[x],
                    ),
                self.edges_added_counter as int == sat_add_u64(added0 as int, j as int),
                added0 == old(self).edges_added_counter,
                forall|x: int|
                    0 <= x < unconnected@.len() ==> (#[trigger] unconnected@[x]) < node_count
                        && unconnected@[x] != target,
                forall|x: int, y: int|
                    0 <= x < y < unconnected@.len() ==> (#[trigger] unconnected@[x]) < (
                    #[trigger] unconnected@[y]),
                forall|x: int|
                    j <= x < unconnected@.len() ==> !self.pairs@.contains(
                        ordered_pair(target, #[trigger] unconnected@[x]),
                    ),
            decreases batch - j,
        {
            let end = unconnected[j];
            let e = MorassWeb::default_edge(target, end);
            let ghost pairs_pre = self.pairs@;
            let added_one = self.add_edge(e);
            proof {
                assert(edge_ok(e, node_count as int));
                assert(added_one);
                assert(edge_pair(e) == ordered_pair(target, end));
                assert forall|x: int|
                    j as int + 1 <= x < unconnected@.len() implies !self.pairs@.contains(
                    ordered_pair(target, #[trigger] unconnected@[x]),
                ) by {
                    assert(unconnected@[j as int] < unconnected@[x]);
                    let px = ordered_pair(target, unconnected@[x]);
                    assert(px != ordered_pair(target, end));
                    assert(!pairs_pre.contains(px));
                }
            }
            self.edges_added_counter = sat_add(self.edges_added_counter, 1);
            j += 1;
        }
        batch
    }

    /// Attempt to add up to `num_edges` new edges to one randomly chosen
    /// under-connected node, spending at most `max_tries` attempts. The call
    /// is best-effort: it only ever appends edges, it stops after the first
    /// successful batch, and on a fully connected graph it is a no-op rather
    /// than an error. Best effort still owes success where no draw can
    /// fail: when every node that could be picked has a free partner, one
    /// try is enough and the edge store must grow.
    pub fn add_edges_to_random_node(&mut self, num_edges: usize, max_tries: usize)
        requires
            old(self).wf(),
        ensures
            final(self).wf(),
            final(self).nodes@ == old(self).nodes@,
            final(self).op_counter == old(self).op_counter,
            old(self).edges@.len() <= final(self).edges@.len() <= old(self).edges@.len()
                + num_edges,
            forall|j: int|
                0 <= j < old(self).edges@.len() ==> final(self).edges@[j] == old(self).edges@[j],
            final(self).edges_added_counter as int == sat_add_u64(
                old(self).edges_added_counter as int,
                final(self).edges@.len() - old(self).edges@.len(),
            ),
            final(self).edges@.len() > old(self).edges@.len() ==> (exists|t: int|
                0 <= t < old(self).nodes@.len() && growth_batch(
                    old(self).edges@,
                    final(self).edges@,
                    t,
                )),
            fully_connected(*old(self)) ==> *final(self) == *old(self),
            num_edges >= 1 && max_tries >= 1 && growth_unblocked(*old(self))
                ==> final(self).edges@.len() > old(self).edges@.len(),
    {
        let node_count = self.nodes.len();
        let prior_total = self.edges.len();

        // Tally each node's out-degree; only a node that can still reach a
        // new neighbour is worth picking as a target.
        let mut arr_count: Vec<usize> = Vec::new();
        let mut i: usize = 0;
        while i < node_count
            invariant
                i <= node_count,
                arr_count@.len() == i,
                forall|x: int| 0 <= x < i ==> arr_count@[x] == 0,
            decreases node_count - i,
        {
            arr_count.push(0);
            i += 1;
        }
        let mut k: usize = 0;
        while k < self.edges.len()
            invariant
                self == old(self),
                self.wf(),
                node_count == self.nodes@.len(),
                prior_total == self.edges@.len(),
                k <= self.edges@.len(),
                arr_count@.len() == node_count,
                forall|x: int| 0 <= x < node_count ==> #[trigger] arr_count@[x] <= k,
                forall|x: int|
                    0 <= x < node_count ==> #[trigger] arr_count@[x] == out_degree(
                        self.edges@.take(k as int),
                        x,
                    ),
            decreases self.edges@.len() - k,
        {
            let e = self.edges[k];
            proof {
                assert(edge_ok(self.edges@[k as int], node_count as int));
            }
            let c = arr_count[e.start_node];
            arr_count[e.start_node] = c + 1;
            proof {
                assert(self.edges@.take(k as int + 1).drop_last() =~= self.edges@.take(k as int));
                assert(self.edges@.take(k as int + 1).last() == self.edges@[k as int]);
            }
            k += 1;
        }
        proof {
            assert(self.edges@.take(self.edges@.len() as int) =~= self.edges@);
        }

        let mut available: Vec<usize> = Vec::new();
        let mut i: usize = 0;
        while i < node_count
            invariant
                self == old(self),
                node_count == self.nodes@.len(),
                i <= node_count,
                arr_count@.len() == node_count,
                forall|x: int|
                    0 <= x < node_count ==> #[trigger] arr_count@[x] == out_degree(self.edges@, x),
                forall|x: int|
                    0 <= x < available@.len() ==> (#[trigger] available@[x]) < node_count
                        && out_degree(self.edges@, available@[x] as int) < node_count - 1,
                forall|i2: int|
                    0 <= i2 < i && out_degree(self.edges@, i2) < node_count - 1
                        ==> available@.contains(i2 as usize),
            decreases node_count - i,
        {
            if arr_count[i] < node_count - 1 {
                let ghost av_before = available@;
                available.push(i);
                proof {
                    assert forall|i2: int|
                        0 <= i2 < i as int + 1 && out_degree(self.edges@, i2) < node_count - 1
                            implies available@.contains(i2 as usize) by {
                        if i2 < i as int {
                            assert(av_before.contains(i2 as usize));
                            let x = choose|x: int|
                                0 <= x < av_before.len() && av_before[x] == i2 as usize;
                            assert(available@[x] == i2 as usize);
                        } else {
                            assert(available@[available@.len() - 1] == i2 as usize);
                        }
                    }
                }
            }
            i += 1;
        }
        if available.len() == 0 {
            proof {
                if growth_unblocked(*old(self)) {
                    let w = choose|w: int|
                        0 <= w < node_count && out_degree(old(self).edges@, w) < node_count - 1;
                    assert(available@.contains(w as usize));
                }
            }
            return ;
        }

        let mut tries: usize = 0;
        let mut done = false;
        while !done && tries < max_tries
            invariant
                self.wf(),
                self.nodes@ == old(self).nodes@,
                self.op_counter == old(self).op_counter,
                node_count == self.nodes@.len(),
                prior_total == old(self).edges@.len(),
                prior_total <= self.edges@.len() <= prior_total + num_edges,
                forall|j: int| 0 <= j < prior_total ==> self.edges@[j] == old(self).edges@[j],
                self.edges_added_counter as int == sat_add_u64(
                    old(self).edges_added_counter as int,
                    self.edges@.len() - prior_total,
                ),
                !done ==> *self == *old(self),
                done && self.edges@.len() > prior_total ==> (exists|t: int|
                    0 <= t < node_count && growth_batch(old(self).edges@, self.edges@, t)),
                fully_connected(*old(self)) ==> *self == *old(self),
                available@.len() > 0,
                forall|x: int|
                    0 <= x < available@.len() ==> (#[trigger] available@[x]) < node_count
                        && out_degree(old(self).edges@, available@[x] as int) < node_count - 1,
                num_edges >= 1 && growth_unblocked(*old(self)) ==> (done
                    && self.edges@.len() > prior_total) || (!done && tries == 0),
                tries <= max_tries,
            decreases max_tries - tries + (if done { 0int } else { 1int }),
        {
            let target = available[rand_index(available.len())];
            proof {
                if fully_connected(*old(self)) {
                    lemma_fully_connected_unpaired(*old(self), target, node_count as int);
                }
                if growth_unblocked(*old(self)) {
                    assert(out_degree(old(self).edges@, target as int) < node_count - 1);
                    assert(unpaired_below(*old(self), target, node_count as int) > 0);
                }
            }
            let added = self.add_edges_to_target(target, num_edges);
            if added == 0 {
                tries += 1;
            } else {
                done = true;
            }
        }
        proof {
            if num_edges >= 1 && max_tries >= 1 && growth_unblocked(*old(self)) {
                assert(done);
            }
        }
    }

} // impl MorassWeb

} // verus!
