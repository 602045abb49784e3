use morass::edge::Edge;
use morass::web::MorassWeb;

fn plain_edge(start_node: usize, end_node: usize) -> Edge {
    Edge {
        out_percentage: 100,
        out_fixed: 0,
        edge_health: 3,
        last_fire: 0,
        fire_within: 5,
        end_node_fire_within: 3,
        start_node,
        end_node,
    }
}

fn charge_of(w: &MorassWeb, index: usize) -> i64 {
    w.show_nodes()[index].1
}

/// A 2-node web: A (charge 10, threshold 5) wired to B (charge 0) with a
/// unit pulse transform and no cooldown. One step fires the edge with pulse
/// 10: A ends at 10 - 5 - 1 (consume) - 1 (decay) = 3 and B assimilates the
/// 10 after its own (zero) decay.
#[test]
fn two_node_pulse_scenario() {
    let mut w = MorassWeb::new();
    w.add_node(5, 10, 0, 50, 1, 0, 1);
    w.add_node(5, 0, 0, 0, 0, 0, 0);
    assert!(w.add_edge(plain_edge(0, 1)));
    assert_eq!(w.show_node_counter(), 2);
    assert_eq!(w.show_edge_counter(), 1);

    let trace = w.step(true);
    assert_eq!(trace, vec![(1, 2, 10)]);
    assert_eq!(charge_of(&w, 0), 3);
    assert_eq!(charge_of(&w, 1), 10);
    assert_eq!(w.get_op_counter(), 1);
    assert_eq!(w.show_edge_counter(), 1);
}

/// At most `5*4/2 = 10` edges can exist among 5 nodes, however many are
/// requested of the random bootstrap.
#[test]
fn make_random_web_caps_unique_pairs() {
    for _ in 0..20 {
        let w = MorassWeb::make_random_web(5, 20);
        assert_eq!(w.show_node_counter(), 5);
        assert!(w.show_edge_counter() <= 10);
        assert_eq!(w.get_op_counter(), 0);
        assert_eq!(w.get_added_edges(), 0);
    }
}

#[test]
fn make_random_web_degenerate_sizes() {
    let w = MorassWeb::make_random_web(0, 0);
    assert_eq!(w.show_node_counter(), 0);
    assert_eq!(w.show_edge_counter(), 0);

    let w = MorassWeb::make_random_web(1, 5);
    assert_eq!(w.show_node_counter(), 1);
    assert_eq!(w.show_edge_counter(), 0);

    let w = MorassWeb::make_random_web(4, 3);
    assert_eq!(w.show_node_counter(), 4);
    assert!(w.show_edge_counter() <= 3);
}

/// Insertion rejects a duplicate pair in either orientation, a self-pair,
/// an out-of-range endpoint, a dead starting health and an empty window.
#[test]
fn add_edge_rejections() {
    let mut w = MorassWeb::new();
    w.add_node(5, 0, 0, 0, 0, 0, 0);
    w.add_node(5, 0, 0, 0, 0, 0, 0);
    w.add_node(5, 0, 0, 0, 0, 0, 0);

    assert!(w.add_edge(plain_edge(0, 1)));
    assert!(!w.add_edge(plain_edge(0, 1)), "duplicate pair");
    assert!(!w.add_edge(plain_edge(1, 0)), "reverse duplicate pair");
    assert!(!w.add_edge(plain_edge(2, 2)), "self pair");
    assert!(!w.add_edge(plain_edge(0, 3)), "endpoint out of range");

    let mut dead = plain_edge(1, 2);
    dead.edge_health = 0;
    assert!(!w.add_edge(dead), "dead starting health");

    let mut zero_window = plain_edge(1, 2);
    zero_window.fire_within = 0;
    assert!(!w.add_edge(zero_window), "empty fire window");

    assert!(w.add_edge(plain_edge(1, 2)));
    assert_eq!(w.show_edge_counter(), 2);
    assert!(w.has_pair(0, 1));
    assert!(w.has_pair(1, 0));
    assert!(!w.has_pair(0, 2));
}

/// Growth on a fully connected web is a no-op: same edges, same pair
/// index, same counters.
#[test]
fn grow_on_saturated_web_is_noop() {
    let mut w = MorassWeb::new();
    w.add_node(5, 0, 0, 0, 0, 0, 0);
    w.add_node(5, 0, 0, 0, 0, 0, 0);
    w.add_node(5, 0, 0, 0, 0, 0, 0);
    assert!(w.add_edge(plain_edge(0, 1)));
    assert!(w.add_edge(plain_edge(2, 0)));
    assert!(w.add_edge(plain_edge(1, 2)));

    w.add_edges_to_random_node(5, 50);
    assert_eq!(w.show_edge_counter(), 3);
    assert_eq!(w.get_added_edges(), 0);
    let topology = w.show_edges();
    assert_eq!(topology[0].0, 1);
    assert_eq!(topology[0].1, 2);
    assert_eq!(topology[1].0, 3);
    assert_eq!(topology[1].1, 1);
    assert_eq!(topology[2].0, 2);
    assert_eq!(topology[2].1, 3);
}

/// After growth no node's out-degree exceeds `node_count - 1`, and the
/// added-edges counter matches what actually appeared.
#[test]
fn grow_respects_degree_cap() {
    for _ in 0..10 {
        let mut w = MorassWeb::make_random_web(6, 4);
        let before = w.show_edge_counter();
        w.add_edges_to_random_node(10, 100);
        w.add_edges_to_random_node(10, 100);
        let after = w.show_edge_counter();
        assert!(after >= before);
        assert_eq!(w.get_added_edges() as usize, after - before);

        let node_count = w.show_node_counter();
        let mut out_degree = vec![0usize; node_count];
        for (start_id, end_id, _, _) in w.show_edges() {
            assert!(start_id >= 1 && start_id <= node_count);
            assert!(end_id >= 1 && end_id <= node_count);
            assert_ne!(start_id, end_id, "no self edges");
            out_degree[start_id - 1] += 1;
        }
        for d in out_degree {
            assert!(d <= node_count - 1);
        }
    }
}

/// No two live edges join the same unordered pair, at bootstrap and after
/// growth.
#[test]
fn pair_uniqueness_holds_live() {
    for _ in 0..10 {
        let mut w = MorassWeb::make_random_web(6, 8);
        w.add_edges_to_random_node(3, 100);
        let mut seen = Vec::new();
        for (start_id, end_id, _, _) in w.show_edges() {
            let key = if start_id < end_id {
                (start_id, end_id)
            } else {
                (end_id, start_id)
            };
            assert!(!seen.contains(&key), "duplicate unordered pair");
            seen.push(key);
        }
    }
}

/// A node on cooldown at the start of propagation sends no pulse and loses
/// no charge to consumption; it still decays.
#[test]
fn cooldown_gates_pulse_and_consumption() {
    let mut w = MorassWeb::new();
    // A: threshold 5, charge 20, cooldown 2 ticks, consumes half plus 1,
    // decays by a fixed 1.
    w.add_node(5, 20, 2, 50, 1, 0, 1);
    w.add_node(1000, 0, 0, 0, 0, 0, 0);
    assert!(w.add_edge(plain_edge(0, 1)));

    // Tick 1: A fires (pulse 20), consumes to 20 - 10 - 1 = 9, decays to 8,
    // and arms its 2-tick cooldown (already 1 after this tick's countdown).
    let trace = w.step(true);
    assert_eq!(trace, vec![(1, 2, 20)]);
    assert_eq!(charge_of(&w, 0), 8);
    assert_eq!(w.get_op_counter(), 1);

    // Tick 2: A is on cooldown: no pulse, no consumption, only the fixed
    // decay of 1. B keeps what it assimilated.
    let before_b = charge_of(&w, 1);
    let trace = w.step(true);
    assert!(trace.is_empty());
    assert_eq!(charge_of(&w, 0), 7);
    assert_eq!(charge_of(&w, 1), before_b);
    assert_eq!(w.get_op_counter(), 1);

    // Tick 3: the cooldown has expired, so A (charge 7 >= 5) fires again.
    let trace = w.step(true);
    assert_eq!(trace, vec![(1, 2, 7)]);
    assert_eq!(w.get_op_counter(), 2);
}

/// A destination that fires every tick keeps its fire clock at zero, so the
/// destination-window penalty never lands and the edge outlives its single
/// point of health.
#[test]
fn firing_destination_keeps_clock_at_zero() {
    let mut w = MorassWeb::new();
    // Three nodes in a ring, each always above threshold, nothing consumed
    // or decayed, no cooldown: every edge fires every tick.
    w.add_node(5, 100, 0, 0, 0, 0, 0);
    w.add_node(5, 100, 0, 0, 0, 0, 0);
    w.add_node(5, 100, 0, 0, 0, 0, 0);
    let mut watched = plain_edge(0, 1);
    watched.edge_health = 1;
    watched.end_node_fire_within = 1;
    watched.fire_within = 1000;
    assert!(w.add_edge(watched));
    assert!(w.add_edge(plain_edge(1, 2)));
    assert!(w.add_edge(plain_edge(2, 0)));

    // The destination of the watched edge fires every tick, so zero ticks
    // ever elapse since its last fire: its clock never reaches the window.
    for _ in 0..5 {
        w.step(false);
        assert_eq!(w.show_edge_counter(), 3);
    }
}

/// Below the threshold the consume phase changes nothing: only decay moves
/// the charge.
#[test]
fn consume_skipped_below_threshold() {
    let mut w = MorassWeb::new();
    // threshold 100, charge 40, consumption that would bite (90% + 7),
    // decay 10% + 2: one tick leaves 40 - 4 - 2 = 34.
    w.add_node(100, 40, 0, 90, 7, 10, 2);
    w.step(false);
    assert_eq!(charge_of(&w, 0), 34);
    w.step(false);
    // 34 - 3 - 2 = 29.
    assert_eq!(charge_of(&w, 0), 29);
}

/// Truncation of the percentage scaling is toward zero, also for negative
/// charges.
#[test]
fn decay_truncates_toward_zero() {
    let mut w = MorassWeb::new();
    // charge -10, decay 10%: -10 - (-1) - 0 = -9.
    w.add_node(100, -10, 0, 0, 0, 10, 0);
    w.step(false);
    assert_eq!(charge_of(&w, 0), -9);
}

/// An edge that keeps missing its fire window is penalised and pruned, and
/// its pair leaves the index so the pair can be wired again.
#[test]
fn stale_edge_is_pruned_and_pair_freed() {
    let mut w = MorassWeb::new();
    // Start node far below threshold: the edge never fires.
    w.add_node(1000, 0, 0, 0, 0, 0, 0);
    w.add_node(1000, 0, 0, 0, 0, 0, 0);
    let mut e = plain_edge(0, 1);
    e.edge_health = 2;
    e.fire_within = 1;
    // Disarm the destination-window penalty for this test.
    e.end_node_fire_within = 0;
    assert!(w.add_edge(e));

    // With fire_within == 1 every stale tick costs one health.
    w.step(false);
    assert_eq!(w.show_edge_counter(), 1);
    assert!(w.has_pair(0, 1));
    w.step(false);
    assert_eq!(w.show_edge_counter(), 0);
    assert!(!w.has_pair(0, 1), "pruned edge must leave the pair index");

    // The freed pair can be wired again.
    assert!(w.add_edge(plain_edge(0, 1)));
}

/// The destination-window penalty: a destination that goes exactly
/// `end_node_fire_within` ticks without firing costs the edge one health.
#[test]
fn idle_destination_penalises_edge() {
    let mut w = MorassWeb::new();
    w.add_node(1000, 0, 0, 0, 0, 0, 0);
    w.add_node(1000, 0, 0, 0, 0, 0, 0);
    let mut e = plain_edge(0, 1);
    e.edge_health = 1;
    e.end_node_fire_within = 2;
    // Disarm the edge's own stale-window penalty (window far away).
    e.fire_within = 1000;
    assert!(w.add_edge(e));

    // After one tick the destination has gone 1 tick without firing: no
    // penalty yet.
    w.step(false);
    assert_eq!(w.show_edge_counter(), 1);
    // After two ticks it has gone exactly 2 ticks without firing: the edge
    // dies.
    w.step(false);
    assert_eq!(w.show_edge_counter(), 0);
}

/// Injection adds straight to a node's charge outside the tick cycle.
#[test]
fn inject_changes_charge_directly() {
    let mut w = MorassWeb::new();
    w.add_node(1000, 5, 0, 0, 0, 0, 0);
    w.inject_node_index(0, 37);
    assert_eq!(charge_of(&w, 0), 42);
    w.inject_node_index(0, -50);
    assert_eq!(charge_of(&w, 0), -8);
}

/// Saturating charge arithmetic: an injection cannot wrap around.
#[test]
fn inject_saturates_at_i64_bounds() {
    let mut w = MorassWeb::new();
    w.add_node(i64::MAX, i64::MAX - 1, 0, 0, 0, 0, 0);
    w.inject_node_index(0, 100);
    assert_eq!(charge_of(&w, 0), i64::MAX);
}

/// The pulse counter accumulates across ticks and `verbose` only controls
/// the returned trace, never the state.
#[test]
fn op_counter_accumulates_and_verbose_is_pure() {
    let mut left = MorassWeb::new();
    left.add_node(5, 100, 0, 0, 0, 0, 0);
    left.add_node(5, 100, 0, 0, 0, 0, 0);
    left.add_node(5, 100, 0, 0, 0, 0, 0);
    assert!(left.add_edge(plain_edge(0, 1)));
    assert!(left.add_edge(plain_edge(1, 2)));
    assert!(left.add_edge(plain_edge(2, 0)));

    let mut right = MorassWeb::new();
    right.add_node(5, 100, 0, 0, 0, 0, 0);
    right.add_node(5, 100, 0, 0, 0, 0, 0);
    right.add_node(5, 100, 0, 0, 0, 0, 0);
    assert!(right.add_edge(plain_edge(0, 1)));
    assert!(right.add_edge(plain_edge(1, 2)));
    assert!(right.add_edge(plain_edge(2, 0)));

    let trace = left.step(true);
    assert_eq!(trace.len(), 3);
    let silent = right.step(false);
    assert!(silent.is_empty());

    assert_eq!(left.get_op_counter(), 3);
    assert_eq!(right.get_op_counter(), 3);
    assert_eq!(left.show_nodes(), right.show_nodes());
    assert_eq!(left.show_edges(), right.show_edges());
}

/// Growth adds edges from one target node, honours the request bound, and
/// counts exactly what it added.
#[test]
fn grow_adds_batch_from_one_target() {
    let mut w = MorassWeb::new();
    for _ in 0..5 {
        w.add_node(1000, 0, 0, 0, 0, 0, 0);
    }
    assert_eq!(w.show_edge_counter(), 0);
    w.add_edges_to_random_node(2, 100);
    assert_eq!(w.show_edge_counter(), 2);
    assert_eq!(w.get_added_edges(), 2);

    let topology = w.show_edges();
    assert_eq!(topology[0].0, topology[1].0, "one batch, one target");
}

/// The deterministic growth core adds exactly `min(requested, unpaired
/// partners)` edges to the given target.
#[test]
fn target_growth_is_exact() {
    let mut w = MorassWeb::new();
    for _ in 0..4 {
        w.add_node(1000, 0, 0, 0, 0, 0, 0);
    }
    assert!(w.add_edge(plain_edge(0, 1)));

    // Node 0 is already paired with 1, so only 2 and 3 are left.
    let added = w.add_edges_to_target(0, 10);
    assert_eq!(added, 2);
    assert_eq!(w.show_edge_counter(), 3);
    assert_eq!(w.get_added_edges(), 2);
    assert!(w.has_pair(0, 2) && w.has_pair(0, 3));

    // Now node 0 is saturated: nothing more can be wired to it.
    assert_eq!(w.add_edges_to_target(0, 10), 0);

    // Node 2 is paired with 0 only; one of {1, 3} is wired on request.
    assert_eq!(w.add_edges_to_target(2, 1), 1);
    assert_eq!(w.get_added_edges(), 3);
}
