//! Fee calculation for token transfers: a percent codec with exact
//! fixed-point arithmetic and a fee engine over a token whitelist.
pub mod account;
pub mod calculator;
pub mod percent;
