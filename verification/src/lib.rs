//! Verified decision logic of a family of Soroban smart contracts: a
//! three-party escrow, linear token vesting, a multi-signature wallet, DAO
//! governance with proposal bonds, recurring subscription payments and
//! marketplace royalty settlement, together with the small helpers of the
//! developer CLI.
//!
//! Every contract is a state machine over plain values: an entry point
//! takes the contract's state and its arguments and returns the new state
//! and an [`effects::Outcome`] that tells the host which authorizations to
//! demand and which token transfers or contract calls to perform.
pub mod errors;
pub mod types;
pub mod effects;
pub mod keyed;
pub mod escrow;
pub mod vesting;
pub mod multisig;
pub mod dao;
pub mod subscription;
pub mod royalties;
pub mod cli;
