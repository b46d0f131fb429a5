//! A driver for the MFRC522 contactless reader chip: register transport,
//! command engine, checksum coprocessor access and card selection.
//!
//! The driver reaches the chip through the [`bus::Bus`] capability: a byte
//! link, a chip-select line and a way to wait. It makes no assumption about
//! what the bus returns. What it promises is stated over two records that it
//! keeps of its own doing: the wire, every use of the bus in order, and the
//! journal, one entry for every register transaction.
//!
//! - [`bus`]: the capability and the vocabulary of the two records.
//! - [`transport`]: the driver value; single and burst register access.
//! - [`pcd`]: reset, start-up, antenna, checksum, command engine, self-test.
//! - [`anticoll`]: the decisions of the selection procedure on plain values.
//! - [`selection`]: the selection procedure as rounds and cascade levels.
//! - [`picc`]: request, presence, selection, halt.
//! - [`sim`]: a simulated register file to stand in for the chip.
//! - [`laws`]: what follows from the contracts.

use vstd::prelude::*;

pub mod anticoll;
pub mod bus;
pub mod consts;
pub mod laws;
pub mod pcd;
pub mod picc;
pub mod selection;
pub mod sim;
pub mod transport;

verus! {

/// Picks one of two values by a condition.
pub fn tif<T>(expr: bool, true_val: T, false_val: T) -> (r: T)
    ensures
        r == if expr { true_val } else { false_val },
{
    if expr {
        true_val
    } else {
        false_val
    }
}

} // verus!
