//! A vesting contract core: accounts receive vesting schedules funded by a
//! deposit, claim what has vested, and the owner manages tokens, managers and
//! unclaimed balances. Storage, message encoding and address validation are
//! left to the embedding program; everything that decides is here.
mod arith;
pub mod types;
pub mod schedule;
pub mod history;
pub mod accounts;
pub mod contract;
pub mod laws;
