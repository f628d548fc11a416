//! Ranking lookups for a rhythm-game election event: reference tables that
//! map ids to names, resolution of user tokens to ids, and the aggregation
//! of a ranking snapshot into result rows.

pub mod aggregate;
pub mod command;
pub mod models;
pub mod resolve;
pub mod tables;
pub mod text;
