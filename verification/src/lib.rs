//! Timelock-heuristic traffic analysis over a payment-routing network.
//!
//! A relay that forwards a payment sees the payment's residual timelock.
//! From that single integer the library derives a budget assessment,
//! enumerates the candidate routes that are consistent with it, scores
//! each candidate, and correlates observations made by several colluding
//! relays of the same payment.

pub mod htlc;
pub mod network;
pub mod pathfind;
pub mod score;
pub mod analyzer;
pub mod operation;
pub mod laws;
