//! The status snapshot read by the progress reporter.
//!
//! The reporter never touches the automaton's own state: the loop publishes
//! one immutable snapshot value per step (swapped in whole), so a reader can
//! never observe a half-updated state.

use vstd::prelude::*;
use crate::automaton::Machine;

verus! {

/// One consistent view of the run's progress: the step count, the counter,
/// and the last produced word split into its 64-bit halves.
pub struct Stats {
    pub steps: u64,
    pub counter: i64,
    pub word_lo: u64,
    pub word_hi: u64,
}

impl Stats {
    /// The snapshot of a fresh run: step 0, counter 2, no word yet.
    pub fn new() -> (s: Stats)
        ensures
            s.steps == 0,
            s.counter == 2,
            s.word_lo == 0,
            s.word_hi == 0,
    {
        Stats { steps: 0, counter: 2, word_lo: 0, word_hi: 0 }
    }

    /// The snapshot of a machine's progress at this moment.
    pub fn of_machine(m: &Machine) -> (s: Stats)
        ensures
            s.steps == m.step_index,
            s.counter == m.counter,
            s.word_lo as int == m.last_word as int % 0x10000000000000000,
            s.word_hi as int == m.last_word as int / 0x10000000000000000,
    {
        Stats {
            steps: m.step_index,
            counter: m.counter,
            word_lo: (m.last_word % 0x10000000000000000) as u64,
            word_hi: (m.last_word / 0x10000000000000000) as u64,
        }
    }
}

} // verus!
