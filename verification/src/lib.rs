//! Streaming parser for the ARM Instrumentation Trace Macrocell (ITM) wire
//! protocol.
//!
//! The decoder consumes a raw byte stream one byte at a time, recovers framing
//! via synchronization packets, classifies packets by their header bits,
//! validates continuation-terminated payloads, recycles bytes of malformed
//! packets for re-classification, and fans source-packet payloads out to a
//! port-indexed table of output sinks.

use vstd::prelude::*;

pub mod cli;
pub mod itm;
pub mod output;

verus! {

/// Stimulus ports count.
pub const PORTS_COUNT: usize = 32;

} // verus!
