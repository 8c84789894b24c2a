//! The validation layer: pure functions that turn raw textual fields into
//! typed, range- and consistency-checked requests.

use crate::domain::{ExchangeRateRequest, Factor, PriceUpdateRequest};
use crate::error::{ExchangeRateRequestValidationError, PriceUpdateRequestValidationError};
use crate::graph::{weights_of, Graph};
use crate::rat::{dec_rat, parse_positive_decimal, Rat};
use crate::text::{trim_of, trim_str, upper_of, upper_str};
use crate::timestamp::{parse_rfc3339, rfc3339_instant, Timestamp};
use vstd::prelude::*;

verus! {

pub type PriceUpdateRequestValidationResult = Result<
    PriceUpdateRequest,
    PriceUpdateRequestValidationError,
>;

pub type ExchangeRateRequestValidationResult = Result<
    ExchangeRateRequest,
    ExchangeRateRequestValidationError,
>;

/// The normalized form of a raw field: trimmed, then uppercased.
pub open spec fn normalized(s: Seq<char>) -> Seq<char> {
    upper_of(trim_of(s))
}

/// The arbitrage cross-check: some existing backward weight times the new
/// forward factor exceeds one, or some existing forward weight times the
/// new backward factor exceeds one.
pub open spec fn cross_violation(fwd: Seq<Rat>, bwd: Seq<Rat>, ff: Rat, bf: Rat) -> bool {
    ||| exists|i: int| 0 <= i < bwd.len() && (#[trigger] bwd[i]).product_exceeds_one(ff)
    ||| exists|i: int| 0 <= i < fwd.len() && (#[trigger] fwd[i]).product_exceeds_one(bf)
}

/// Requires exactly 4 fields (source exchange, source currency,
/// destination exchange, destination currency); each is trimmed and
/// uppercased. No cross-referencing with the graph.
pub fn validate_exchange_rate_input(args: &[&str]) -> (r: ExchangeRateRequestValidationResult)
    ensures
        args@.len() != 4 ==> r is Err && r->Err_0
            == ExchangeRateRequestValidationError::InvalidArgumentNumber,
        args@.len() == 4 ==> r is Ok && r->Ok_0.source_exchange@ == normalized(args@[0]@)
            && r->Ok_0.source_currency@ == normalized(args@[1]@) && r->Ok_0.destination_exchange@
            == normalized(args@[2]@) && r->Ok_0.destination_currency@ == normalized(args@[3]@),
{
    if args.len() != 4 {
        Err(ExchangeRateRequestValidationError::InvalidArgumentNumber)
    } else {
        Ok(
            ExchangeRateRequest::new(
                upper_str(trim_str(args[0]).as_str()),
                upper_str(trim_str(args[1]).as_str()),
                upper_str(trim_str(args[2]).as_str()),
                upper_str(trim_str(args[3]).as_str()),
            ),
        )
    }
}

/// Requires exactly 6 fields (timestamp, exchange, source currency,
/// destination currency, forward factor, backward factor). Checks them in
/// the documented priority order, consulting the graph's existing weights
/// for the arbitrage cross-check, and produces a request with exchange and
/// currencies trimmed and uppercased, the timestamp normalized to UTC, and
/// both factors as exact positive rationals.
pub fn validate_price_update_input(args: &[&str], g: &Graph) -> (r:
    PriceUpdateRequestValidationResult)
    ensures
        ({
            let fields = Seq::new(args@.len(), |i: int| args@[i]@);
            if args@.len() != 6 {
                r is Err && r->Err_0 == PriceUpdateRequestValidationError::InvalidArgumentNumber
            } else if normalized(fields[2]) == normalized(fields[3]) {
                r is Err && r->Err_0
                    == PriceUpdateRequestValidationError::SameSourceDestinationCurrency
            } else {
                match rfc3339_instant(trim_of(fields[0])) {
                    None => r is Err && r->Err_0
                        == PriceUpdateRequestValidationError::InvalidTimestamp,
                    Some(ts) => match dec_rat(trim_of(fields[4])) {
                        None => r is Err && r->Err_0
                            == PriceUpdateRequestValidationError::InvalidForwardfactor,
                        Some(ff) => match dec_rat(trim_of(fields[5])) {
                            None => r is Err && r->Err_0
                                == PriceUpdateRequestValidationError::InvalidBackwardfactor,
                            Some(bf) => {
                                if cross_violation(
                                    weights_of(g.paths@, Factor::Forward),
                                    weights_of(g.paths@, Factor::Backward),
                                    ff,
                                    bf,
                                ) {
                                    r is Err && r->Err_0
                                        == PriceUpdateRequestValidationError::CrossForwardBackwardFactorMultiplyError
                                } else if ff.product_exceeds_one(bf) {
                                    r is Err && r->Err_0
                                        == PriceUpdateRequestValidationError::ForwardBackwardFactorMultiplyError
                                } else {
                                    r is Ok && r->Ok_0.timestamp == (Timestamp {
                                        secs: ts.0,
                                        nanos: ts.1,
                                    }) && r->Ok_0.exchange@ == normalized(fields[1])
                                        && r->Ok_0.source_currency@ == normalized(fields[2])
                                        && r->Ok_0.destination_currency@ == normalized(fields[3])
                                        && r->Ok_0.forward_factor == ff
                                        && r->Ok_0.backward_factor == bf
                                }
                            },
                        },
                    },
                }
            }
        }),
        r is Ok ==> r->Ok_0.forward_factor.wf() && r->Ok_0.backward_factor.wf()
            && r->Ok_0.source_currency@ != r->Ok_0.destination_currency@,
{
    if args.len() != 6 {
        return Err(PriceUpdateRequestValidationError::InvalidArgumentNumber);
    }
    let sc = upper_str(trim_str(args[2]).as_str());
    let dc = upper_str(trim_str(args[3]).as_str());
    if sc == dc {
        return Err(PriceUpdateRequestValidationError::SameSourceDestinationCurrency);
    }
    let ts = match parse_rfc3339(trim_str(args[0]).as_str()) {
        None => {
            return Err(PriceUpdateRequestValidationError::InvalidTimestamp);
        },
        Some(t) => t,
    };
    let ff = match parse_positive_decimal(trim_str(args[4]).as_str()) {
        None => {
            return Err(PriceUpdateRequestValidationError::InvalidForwardfactor);
        },
        Some(f) => f,
    };
    let bf = match parse_positive_decimal(trim_str(args[5]).as_str()) {
        None => {
            return Err(PriceUpdateRequestValidationError::InvalidBackwardfactor);
        },
        Some(b) => b,
    };
    let existing = g.get_forward_backward_factor_of_existing_paths();
    let fwd = existing.0;
    let bwd = existing.1;
    let mut ff_over_one = false;
    let mut i: usize = 0;
    while i < bwd.len()
        invariant
            i <= bwd@.len(),
            ff_over_one == exists|x: int|
                0 <= x < i && (#[trigger] bwd@[x]).product_exceeds_one(ff),
        decreases bwd@.len() - i,
    {
        if bwd[i].mul_exceeds_one(ff) {
            ff_over_one = true;
        }
        i += 1;
    }
    let mut bb_over_one = false;
    let mut j: usize = 0;
    while j < fwd.len()
        invariant
            j <= fwd@.len(),
            bb_over_one == exists|x: int|
                0 <= x < j && (#[trigger] fwd@[x]).product_exceeds_one(bf),
        decreases fwd@.len() - j,
    {
        if fwd[j].mul_exceeds_one(bf) {
            bb_over_one = true;
        }
        j += 1;
    }
    if ff_over_one || bb_over_one {
        return Err(PriceUpdateRequestValidationError::CrossForwardBackwardFactorMultiplyError);
    }
    if ff.mul_exceeds_one(bf) {
        return Err(PriceUpdateRequestValidationError::ForwardBackwardFactorMultiplyError);
    }
    Ok(
        PriceUpdateRequest::new(
            Timestamp::new(ts.0, ts.1),
            upper_str(trim_str(args[1]).as_str()),
            sc,
            dc,
            ff,
            bf,
        ),
    )
}

} // verus!
