//! Message and connection counters of a node. The exposition format lives with the HTTP side.

use vstd::prelude::*;

verus! {

/// Counters; each increment wraps around at `u64::MAX`.
#[derive(Debug)]
pub struct Metrics {
    pub messages_published: u64,
    pub subscriptions: u64,
    pub unsubscriptions: u64,
    pub connections_opened: u64,
    pub connections_closed: u64,
}

impl Default for Metrics {
    fn default() -> (m: Self)
        ensures
            m.messages_published == 0,
            m.subscriptions == 0,
            m.unsubscriptions == 0,
            m.connections_opened == 0,
            m.connections_closed == 0,
    {
        Metrics {
            messages_published: 0,
            subscriptions: 0,
            unsubscriptions: 0,
            connections_opened: 0,
            connections_closed: 0,
        }
    }
}

/// The value of a counter after one increment.
pub open spec fn bumped(v: u64) -> u64 {
    if v == u64::MAX {
        0
    } else {
        (v + 1) as u64
    }
}

impl Metrics {
    /// Adds one to a counter.
    pub fn inc(counter: &mut u64)
        ensures
            *final(counter) == bumped(*old(counter)),
    {
        *counter = counter.wrapping_add(1);
    }

    /// The current value of a counter.
    pub fn val(counter: &u64) -> (v: u64)
        ensures
            v == *counter,
    {
        *counter
    }
}

} // verus!
