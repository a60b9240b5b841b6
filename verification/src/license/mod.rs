//! Offline licensing: signed licence codes, the trial state kept in several
//! places, and the decisions taken on them.

pub mod crypto;
pub mod payload;
pub mod store;
pub mod time;
pub mod manager;
pub mod fingerprint;
pub mod reload;
