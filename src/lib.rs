//! Staking registry for collectible units with epoch-weighted, pro-rata reward
//! distribution and a per-holder claim ledger.
//!
//! The host environment (caller identity, epoch clock, attached payments, outgoing
//! transfers, persistent storage) stays outside: every operation takes the caller,
//! the epoch and the attached payment as plain values, and hands back the transfers
//! the host has to perform.
pub mod types;
pub mod weights;
pub mod adder;
pub mod laws;

pub use types::{StakedNftInfo, RewardPaymentInfo, TokenPayment, StakingError};
pub use adder::Adder;
