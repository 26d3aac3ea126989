//! Request and response shapes of the exchange, stated over plain values:
//! identities are address strings already validated by the host, amounts are
//! integers of the configured denomination's smallest unit, odds are
//! fixed-point atomics (see [`crate::contract::DECIMAL_FRACTIONAL`]), and
//! timestamps are nanoseconds.

use vstd::prelude::*;

use crate::state::{Event, MatchedBet, Order};

verus! {

/// Settings chosen once at initialization.
pub struct InstantiateMsg {
    /// Administrator address; the instantiating sender if omitted.
    pub admin: Option<String>,
    /// The single denomination accepted for stakes and paid out.
    pub betting_denom: String,
}

/// One state-changing operation.
pub enum ExecuteMsg {
    CreateEvent {
        description: String,
        oracle_addr: Option<String>,
        resolution_deadline: Option<u64>,
    },
    PlaceOrder {
        event_id: u64,
        order_type: OrderType,
        outcome: Outcome,
        stake: u128,
        odds: u128,
    },
    CancelOrder {
        order_id: u64,
    },
    ResolveEvent {
        event_id: u64,
        winning_outcome: Outcome,
    },
}

/// One read-only request.
pub enum QueryMsg {
    GetConfig {},
    GetEvent {
        event_id: u64,
    },
    ListEvents {
        start_after: Option<u64>,
        limit: Option<u32>,
        filter_status: Option<EventStatus>,
    },
    GetOrder {
        order_id: u64,
    },
    ListOrdersByEvent {
        event_id: u64,
        start_after: Option<u64>,
        limit: Option<u32>,
        filter_order_type: Option<OrderType>,
        filter_outcome: Option<Outcome>,
    },
    ListMatchedBetsByEvent {
        event_id: u64,
        start_after: Option<u64>,
        limit: Option<u32>,
    },
}

pub struct ConfigResponse {
    pub admin: String,
    pub betting_denom: String,
    pub next_event_id: u64,
    pub next_order_id: u64,
    pub next_bet_id: u64,
}

pub struct EventResponse {
    pub event: Event,
}

pub struct EventsResponse {
    pub events: Vec<Event>,
}

pub struct OrderResponse {
    pub order: Order,
}

pub struct OrdersResponse {
    pub orders: Vec<Order>,
}

pub struct MatchedBetResponse {
    pub matched_bet: MatchedBet,
}

pub struct MatchedBetsResponse {
    pub matched_bets: Vec<MatchedBet>,
}

/// The two sides of a binary market.
#[derive(Clone, Copy, Debug, PartialEq, Eq, Structural)]
pub enum Outcome {
    Yes,
    No,
}

/// Lifecycle of an event. `Cancelled` is reserved: no operation currently
/// produces it.
#[derive(Clone, Copy, Debug, PartialEq, Eq, Structural)]
pub enum EventStatus {
    Open,
    Resolved,
    Cancelled,
}

/// A back order stakes that the outcome occurs; a lay order stakes that it
/// does not, depositing the layer's liability.
#[derive(Clone, Copy, Debug, PartialEq, Eq, Structural)]
pub enum OrderType {
    Back,
    Lay,
}

/// Lifecycle of an order. `Filled` and `Cancelled` are terminal.
#[derive(Clone, Copy, Debug, PartialEq, Eq, Structural)]
pub enum OrderStatus {
    Open,
    PartiallyFilled,
    Filled,
    Cancelled,
}

} // verus!
