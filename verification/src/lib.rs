//! Gate-level digital-logic simulator.
//!
//! Primitive boolean devices are described by explicit truth tables
//! ([`LookupTable`], [`Gate`]), composed hierarchically through named chip
//! definitions ([`ChipDef`]), compiled into a flat wiring graph
//! ([`Circuit`]), and executed under a synchronous single-step propagation
//! model that supports feedback. A feedback-free circuit can be collapsed
//! back into a single truth table and reused as a primitive.

use vstd::prelude::*;

mod bits;
mod chip_def;
mod circuit;
mod compile;
mod gate;
mod lookup_table;
mod names;
mod reduce;

pub use chip_def::ChipDef;
pub use chip_def::Component;
pub use circuit::Circuit;
pub use circuit::Connection;
pub use circuit::Edge;
pub use circuit::InOut;
pub use circuit::Node;
pub use gate::Gate;
pub use lookup_table::LookupTable;

verus! {

/// The ways an operation on a device or circuit can fail.
///
/// Every failure is reported as a value of this type; no operation in the
/// crate panics.
#[derive(Debug, Clone, Copy, PartialEq, Eq, Structural)]
pub enum Error {
    /// Truth-table dimensions disagree with the declared port counts.
    ShapeMismatch,
    /// A port name or index does not exist on the device or circuit.
    PortNotFound,
    /// A part instance names a device absent from the supplied library.
    UnknownDevice,
    /// A part's declared input-port count disagrees with its device's arity.
    ArityMismatch,
    /// Reading an input, writing an output, or wiring an output terminal
    /// through a port other than its single input port.
    WrongDirection,
}

} // verus!
