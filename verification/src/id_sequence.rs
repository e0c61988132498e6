//! A source of identifiers that threads may share.
use vstd::prelude::*;
use std::sync::atomic::{AtomicUsize, Ordering};

verus! {

/// Hands out identifiers in rising order. The counter is atomic, so a
/// shared reference is enough to draw from it, and no identifier is handed
/// out twice before the counter wraps around. What a call returns depends
/// on the calls that other threads made, so nothing is claimed of it.
#[derive(Debug)]
pub struct ThreadSafeIdGenerator {
    counter: AtomicUsize,
}

impl ThreadSafeIdGenerator {
    /// A generator whose first identifier is `start`.
    pub fn new(start: usize) -> Self {
        Self { counter: AtomicUsize::new(start) }
    }

    /// Draws the next identifier, in sequentially consistent order.
    pub fn next(&self) -> usize {
        self.counter.fetch_add(1, Ordering::SeqCst)
    }
}

} // verus!
