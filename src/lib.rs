//! A permissioned revocation ledger: registries governed by an authorization
//! policy, whose controllers mark items as revoked under replay protection.

pub mod ids;
pub mod policy;
pub mod wire;
pub mod ledger;
