//! Failures of the exchange's operations. Every error aborts the whole
//! operation: the caller persists no state change and sends no payment when
//! one is returned.

use vstd::prelude::*;

verus! {

#[derive(Debug)]
pub enum ContractError {
    /// The sender is not allowed to perform the operation.
    Unauthorized {},
    /// No event exists under this id.
    EventNotFound { event_id: u64 },
    /// No order exists under this id.
    OrderNotFound { order_id: u64 },
    /// The event is not open for betting.
    EventNotOpen { event_id: u64 },
    /// The event has already been resolved.
    EventAlreadyResolved { event_id: u64 },
    /// The sender is not the designated oracle of the event.
    OracleMismatch { event_id: u64 },
    /// The stake amount must be positive.
    InvalidStakeAmount {},
    /// The funds sent do not equal the required deposit.
    InsufficientFundsSent { required: u128, sent: u128 },
    /// Odds must be greater than one.
    InvalidOdds {},
    /// A fully matched order cannot be cancelled.
    CannotCancelFilledOrder { order_id: u64 },
    /// The event's resolution deadline has passed.
    DeadlinePassed {},
    /// An event description cannot be empty.
    InvalidDescription {},
    /// Reserved for oracle configurations not yet supported.
    IdenticalOracleAndCreator {},
    /// Reserved: order sides that cannot face each other.
    InvalidOrderTypeForMatching {},
    /// Reserved: matching requires identical odds.
    OddsMismatchForMatching {},
    /// Reserved: matching requires identical outcomes.
    OutcomeMismatchForMatching {},
    /// The operation needs funds and none were sent.
    NoFundsSent {},
    /// Only a single kind of coin may be sent.
    MultipleCoinsSent {},
    /// A coin of an unexpected denomination was sent.
    InvalidDenom { expected_denom: String, received_denom: String },
    /// Integer arithmetic overflowed; the whole operation is aborted.
    CalculationError {},
}

} // verus!
