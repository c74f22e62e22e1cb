pub mod accuracy;
pub mod atomics;
pub mod binary64;
pub mod custom_allocations;
pub mod interleavings;
pub mod memory_ordering;
pub mod rounding;
pub mod vwap;
