//! The transition rule: what becomes of one cell, given its state and the
//! number of live cells around it.

use vstd::prelude::*;

verus! {

/// The state a cell takes in the next generation.
///
/// A live cell survives with two or three live neighbours; a dead cell comes
/// alive with exactly three.
pub open spec fn next_state_of(currently_alive: bool, live_neighbor_count: nat) -> bool {
    if currently_alive {
        live_neighbor_count == 2 || live_neighbor_count == 3
    } else {
        live_neighbor_count == 3
    }
}

/// Applies the transition rule to one cell.
pub fn next_state(currently_alive: bool, live_neighbor_count: usize) -> (next: bool)
    ensures
        next == next_state_of(currently_alive, live_neighbor_count as nat),
{
    if currently_alive {
        !(live_neighbor_count < 2 || live_neighbor_count > 3)
    } else {
        live_neighbor_count == 3
    }
}

} // verus!
