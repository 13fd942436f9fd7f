//! Identifiers for the computation graph: operation handles and input slots.

use vstd::prelude::*;

verus! {

/// Unique handle identifying one computation node within a graph's lifetime.
pub type OperationId = usize;

/// Zero-based input slot index of an operation, or [`ORDER_ONLY_DEPENDENCY`].
pub type ArgumentIndex = usize;

/// Reserved argument index: the edge enforces execution order only and
/// transfers no value into any slot.
pub const ORDER_ONLY_DEPENDENCY: usize = usize::MAX;

} // verus!
