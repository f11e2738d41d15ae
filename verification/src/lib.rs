//! Meridian's portfolio logic for Nordic markets, verified: market scopes and listings, broker
//! imports, the quote cache policy, which holdings can be valued, how a returns matrix is shaped,
//! the basket search's combinatorics, rules and phone alerts, the API's access decisions, and the
//! release checks of the app.
//!
//! Floating-point arithmetic, the network, the disk and the clock stay with the caller, which
//! hands the library plain values, and so does reading the JSON replies whose content is
//! floating point (charts and price histories). Among the decisions taken here over what the
//! caller read are which hits a search response body yields, what loading the store does with a
//! missing, unreadable or damaged file, and when a downloaded release may be written over the
//! executable.

pub mod text;
pub mod ids;

pub mod config;
pub mod universe;
pub mod energy;
pub mod import;
pub mod json;
pub mod quotes;
pub mod history;
pub mod store;

pub mod calc;
pub mod optimize;
pub mod discover;
pub mod outliers;

pub mod rules;
pub mod alerts;

pub mod server;
pub mod shell;
pub mod update;
