//! The quote store's domain model: nodes, directed weighted edges, and the
//! request/result value objects exchanged with collaborators.

use crate::rat::Rat;
use crate::timestamp::Timestamp;
use std::collections::VecDeque;
use vstd::prelude::*;

verus! {

/// An (exchange, currency) identity carrying a dense integer `index`,
/// assigned at first insertion and used as a matrix coordinate.
#[derive(Debug, Clone)]
pub struct Node {
    pub exchange: String,
    pub currency: String,
    pub index: usize,
}

impl Node {
    pub fn new(exchange: &str, currency: &str, idx: usize) -> (n: Node)
        ensures
            n.exchange@ == exchange@,
            n.currency@ == currency@,
            n.index == idx,
    {
        Node { exchange: exchange.to_owned(), currency: currency.to_owned(), index: idx }
    }
}

impl PartialEq for Node {
    /// Two nodes are equal iff exchange and currency match; the index is
    /// not part of equality.
    fn eq(&self, other: &Node) -> bool {
        self.exchange == other.exchange && self.currency == other.currency
    }
}

impl Eq for Node {

}

impl vstd::std_specs::cmp::PartialEqSpecImpl for Node {
    open spec fn obeys_eq_spec() -> bool {
        true
    }

    open spec fn eq_spec(&self, other: &Node) -> bool {
        self.exchange@ == other.exchange@ && self.currency@ == other.currency@
    }
}

/// The role of an edge: the two directions of a directly submitted quote
/// pair, or the two directions of a synthetic unit-weight bridge between
/// the same currency on two exchanges.
#[derive(Debug, Clone, Copy, PartialEq, Eq, Structural)]
pub enum Factor {
    Forward,
    Backward,
    FilledUpForward,
    FilledUpBackward,
}

/// A directed, weighted conversion quote between two nodes, referencing
/// its endpoints by node index.
#[derive(Debug, Clone, Copy, PartialEq, Eq, Structural)]
pub struct Path {
    pub start: usize,
    pub end: usize,
    pub weight: Rat,
    pub timestamp: Timestamp,
    pub factor_type: Factor,
}

impl Path {
    pub fn new(start: usize, end: usize, weight: Rat, timestamp: Timestamp, factor_type: Factor) -> (p: Path)
        ensures
            p == (Path { start, end, weight, timestamp, factor_type }),
    {
        Path { start, end, weight, timestamp, factor_type }
    }
}

/// A best-rate query between two (exchange, currency) pairs.
#[derive(Debug)]
pub struct ExchangeRateRequest {
    pub source_exchange: String,
    pub source_currency: String,
    pub destination_exchange: String,
    pub destination_currency: String,
}

impl ExchangeRateRequest {
    pub fn new(
        source_exchange: String,
        source_currency: String,
        destination_exchange: String,
        destination_currency: String,
    ) -> (r: ExchangeRateRequest)
        ensures
            r.source_exchange@ == source_exchange@,
            r.source_currency@ == source_currency@,
            r.destination_exchange@ == destination_exchange@,
            r.destination_currency@ == destination_currency@,
    {
        ExchangeRateRequest { source_exchange, source_currency, destination_exchange, destination_currency }
    }
}

/// A validated price update: one exchange's quote pair between two
/// currencies at a given time.
#[derive(Debug, Clone)]
pub struct PriceUpdateRequest {
    pub timestamp: Timestamp,
    pub exchange: String,
    pub source_currency: String,
    pub destination_currency: String,
    pub forward_factor: Rat,
    pub backward_factor: Rat,
}

impl PriceUpdateRequest {
    pub fn new(
        timestamp: Timestamp,
        exchange: String,
        source_currency: String,
        destination_currency: String,
        forward_factor: Rat,
        backward_factor: Rat,
    ) -> (r: PriceUpdateRequest)
        ensures
            r.timestamp == timestamp,
            r.exchange@ == exchange@,
            r.source_currency@ == source_currency@,
            r.destination_currency@ == destination_currency@,
            r.forward_factor == forward_factor,
            r.backward_factor == backward_factor,
    {
        PriceUpdateRequest {
            timestamp,
            exchange,
            source_currency,
            destination_currency,
            forward_factor,
            backward_factor,
        }
    }
}

impl PartialEq for PriceUpdateRequest {
    fn eq(&self, other: &PriceUpdateRequest) -> bool {
        self.timestamp == other.timestamp && self.exchange == other.exchange
            && self.source_currency == other.source_currency
            && self.destination_currency == other.destination_currency
            && self.forward_factor == other.forward_factor
            && self.backward_factor == other.backward_factor
    }
}

impl Eq for PriceUpdateRequest {

}

impl vstd::std_specs::cmp::PartialEqSpecImpl for PriceUpdateRequest {
    open spec fn obeys_eq_spec() -> bool {
        true
    }

    open spec fn eq_spec(&self, other: &PriceUpdateRequest) -> bool {
        self.timestamp == other.timestamp && self.exchange@ == other.exchange@
            && self.source_currency@ == other.source_currency@
            && self.destination_currency@ == other.destination_currency@
            && self.forward_factor == other.forward_factor
            && self.backward_factor == other.backward_factor
    }
}

/// One hop of a reported path: an (exchange, currency) pair.
#[derive(Debug, Clone, PartialEq)]
pub struct ExchangeCurrencyPair {
    pub exchange: String,
    pub currency: String,
}

impl ExchangeCurrencyPair {
    pub fn new(exchange: String, currency: String) -> (r: ExchangeCurrencyPair)
        ensures
            r.exchange@ == exchange@,
            r.currency@ == currency@,
    {
        ExchangeCurrencyPair { exchange, currency }
    }
}

/// A best-rate answer: the achievable rate and the ordered sequence of
/// (exchange, currency) pairs from source to destination inclusive.
#[derive(Debug, PartialEq)]
pub struct OptimalRateWithPath {
    pub rate: Rat,
    pub paths: VecDeque<ExchangeCurrencyPair>,
}

impl OptimalRateWithPath {
    pub fn new(rate: Rat, paths: VecDeque<ExchangeCurrencyPair>) -> (r: OptimalRateWithPath)
        ensures
            r.rate == rate,
            r.paths@ == paths@,
    {
        OptimalRateWithPath { rate, paths }
    }
}

} // verus!
