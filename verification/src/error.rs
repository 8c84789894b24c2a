//! Typed errors returned by the graph engine and the validation layer.

use vstd::prelude::*;

verus! {

/// Failures of a best-rate query.
#[derive(Debug, Clone, Copy, PartialEq, Eq, Structural)]
pub enum GraphError {
    /// No route, or an unknown endpoint.
    PathNotFound,
    /// Source and destination resolve to the same node.
    InvalidPath,
    /// Internal inconsistency between path reconstruction and edge
    /// storage; the collaborator's remedy is to clear the store.
    Critical,
}

/// Failures of price-update validation, in checking order.
#[derive(Debug, Clone, Copy, PartialEq, Eq, Structural)]
pub enum PriceUpdateRequestValidationError {
    InvalidArgumentNumber,
    SameSourceDestinationCurrency,
    InvalidTimestamp,
    InvalidForwardfactor,
    InvalidBackwardfactor,
    ForwardBackwardFactorMultiplyError,
    CrossForwardBackwardFactorMultiplyError,
}

/// Failures of exchange-rate-request validation.
#[derive(Debug, Clone, Copy, PartialEq, Eq, Structural)]
pub enum ExchangeRateRequestValidationError {
    InvalidArgumentNumber,
}

} // verus!
