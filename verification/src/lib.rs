//! Expense splitting: shared expenses, per-person balances and group
//! settlement.
pub mod api;
pub mod balance;
pub mod config;
pub mod handlers;
pub mod joined;
pub mod ordered;
pub mod search;
pub mod settlement;
pub mod split;
pub mod state;
pub mod store;
pub mod types;
