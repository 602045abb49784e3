//! Nodes: charge accumulators with firing, consumption, decay and a
//! retry-cooldown discipline.

use vstd::prelude::*;
use crate::arith::{clip64, drained, sat_add_u64};

verus! {

/// A charge accumulator.
///
/// `temp_charge` gathers the pulses that arrive during the propagate phase of
/// a tick and is drained back to zero by the assimilate phase; outside a tick
/// it is always zero. It is an `i128` so that any number of incoming `i64`
/// pulses can be summed exactly, in any order.
#[derive(Clone, Copy)]
pub struct Node {
    /// Stable identity, 1-based, never reused.
    pub id: usize,
    /// The node fires when its charge reaches this value.
    pub threshold: i64,
    pub charge: i64,
    /// Ticks the node must wait after firing before it can fire again.
    pub cooldown: u64,
    /// Counts down to zero; set to `cooldown` when the node fires.
    pub cooldown_remaining: u64,
    /// Ticks elapsed since the node last fired: zero at the end of a tick
    /// in which it fired, counting up by one each tick it does not.
    pub since_last_fire: u64,
    /// Pulse accumulator for the current tick.
    pub temp_charge: i128,
    /// Charge removed upon firing: `charge*consumption_percentage/100`.
    pub consumption_percentage: u32,
    /// Charge removed upon firing, on top of the percentage.
    pub consumption_fixed: u32,
    /// Charge removed every tick: `charge*decay_percentage/100`.
    pub decay_percentage: u32,
    /// Charge removed every tick, on top of the percentage.
    pub decay_fixed: u32,
}

/// Whether a node is eligible to fire, gated on the cooldown it had when the
/// tick began.
pub open spec fn fires(n: Node, tick_start_cooldown: u64) -> bool {
    tick_start_cooldown == 0 && n.charge >= n.threshold
}

/// The consume phase: an eligible node that meets its threshold pays the
/// consumption formula; a node on cooldown at the start of the tick is
/// skipped entirely.
pub open spec fn consumed(n: Node, tick_start_cooldown: u64) -> Node {
    if fires(n, tick_start_cooldown) {
        Node {
            charge: drained(
                n.charge as int,
                n.consumption_percentage as int,
                n.consumption_fixed as int,
            ) as i64,
            ..n
        }
    } else {
        n
    }
}

/// The decay phase: every node pays the decay formula, fired or not.
pub open spec fn decayed(n: Node) -> Node {
    Node {
        charge: drained(n.charge as int, n.decay_percentage as int, n.decay_fixed as int) as i64,
        ..n
    }
}

/// The assimilate phase: the pulses gathered this tick merge into the charge
/// and the accumulator is drained.
pub open spec fn assimilated(n: Node) -> Node {
    Node {
        charge: clip64(n.charge as int + n.temp_charge as int) as i64,
        temp_charge: 0,
        ..n
    }
}

/// The cooldown phase: a pending cooldown counts down by one, and the ticks
/// since the last fire count up by one — except for a node that fired this
/// very tick, whose clock stays at the zero propagation gave it: zero ticks
/// have elapsed since its last successful fire.
pub open spec fn cooled(n: Node, fired_this_tick: bool) -> Node {
    Node {
        cooldown_remaining: if n.cooldown_remaining > 0 {
            (n.cooldown_remaining - 1) as u64
        } else {
            0u64
        },
        since_last_fire: if fired_this_tick {
            n.since_last_fire
        } else {
            sat_add_u64(n.since_last_fire as int, 1) as u64
        },
        ..n
    }
}

} // verus!
