//! An elimination tournament engine for ranking a catalog of items by
//! pairwise preference.
//!
//! A tournament is a pair of a [`catalog::Catalog`] of candidate items and an
//! append-only [`ledger::Ledger`] of decided matches. Everything the engine
//! needs in order to continue an interrupted tournament is derived from
//! those two values; there is no other checkpoint.
//!
//! - [`catalog`] and [`ledger`] hold the two stores and their invariants.
//! - [`history`] says what a ledger means for the items of a catalog.
//! - [`tournament`] joins the two: what is pending, the resolver that
//!   commits a decision, closing a round, taking a tournament up again.
//! - [`scheduler`] draws the pairings of a round.
//! - [`ranking`] orders the items at the end and selects the favourites.
//! - [`laws`] and [`convergence`] prove what holds of every tournament.
//! - [`rounds`], [`speed_select`], [`participants`] and [`file_system`]
//!   serve the presentation layer.

pub mod error;
pub mod catalog;
pub mod ledger;
pub mod history;
pub mod tournament;
pub mod scheduler;
pub mod ranking;
pub mod laws;
pub mod convergence;
pub mod rounds;
pub mod speed_select;
pub mod participants;
pub mod file_system;
