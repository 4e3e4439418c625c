//! Bookkeeping for a personal package set: named groups of packages, each
//! package with the priority at which it is installed again.
//!
//! The library decides; it runs nothing. A [`command::Command`] says what the
//! package manager is to be asked for and how the saved state stands
//! afterwards; [`state::SavedData`] is that state; [`reload`] puts records in
//! install order; [`startup`] settles what a run starts from; [`laws`] states
//! what holds of the edits whatever their arguments.

pub mod command;
pub mod filters;
pub mod laws;
pub mod package;
pub mod reload;
pub mod startup;
pub mod state;
