//! Multi-chain wallet bootstrap and an automated conversion pipeline:
//! key and address derivation per chain, an all-or-nothing wallet registry,
//! an idempotent observer of incoming funds, the exchange protocol's response
//! checks, and the state machine that drives quote, swap and send.

pub mod chain;
pub mod crypto;
pub mod keys;
pub mod registry;
pub mod observer;
pub mod exchange;
pub mod orchestrator;
