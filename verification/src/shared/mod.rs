//! What every source of track records shares: parsing briefings, building
//! plans, identities and records, configuration.

pub mod cat062;
pub mod config;
pub mod geo;
pub mod identity;
pub mod lido;
pub mod notice;
pub mod plan;
pub mod summary;
