//! A peer-to-peer betting exchange: participants place back orders (staking
//! that a binary outcome occurs) and lay orders (staking that it does not)
//! against each other at a chosen fixed-point odds multiplier. Orders match
//! only at identical odds; matched pairs become escrowed bets whose combined
//! pot is paid to the winning side when the event's oracle resolves it.

pub mod contract;
pub mod error;
pub mod msg;
pub mod state;

pub use crate::error::ContractError;
