//! The latest stylus pressure, shared between the touch reader and the
//! drawing code.
//!
//! The value is kept as the bits of an `f32`; 0 means that no pressure has
//! been seen yet. Reading the bits as a number is the program's business.

use vstd::prelude::*;
use std::sync::Arc;
use std::sync::atomic::AtomicU32;

verus! {

/// A shared cell holding the latest stylus pressure.
#[derive(Clone)]
pub struct Pressure {
    bits: Arc<AtomicU32>,
}

impl Pressure {
    /// A fresh cell holding 0: no pressure seen yet. Verus models a std
    /// atomic without the value it holds, so no clause states that 0.
    pub fn start() -> (p: Self) {
        Pressure { bits: Arc::new(AtomicU32::new(0)) }
    }

    /// The bits last stored (0 when none was). Another holder of the cell
    /// may store at any time, and Verus models a std atomic without its
    /// value, so no clause states which bits come back.
    pub fn latest_bits(&self) -> (bits: u32) {
        self.bits.load(std::sync::atomic::Ordering::Relaxed)
    }

    /// Stores new pressure bits for every holder of the cell.
    pub fn store_bits(&self, bits: u32) {
        self.bits.store(bits, std::sync::atomic::Ordering::Relaxed);
    }
}

} // verus!
