//! Core of a syncable login store: a mirror/overlay two-table model with a
//! per-record sync state machine, a three-way reconciler for incoming
//! changes, and atomic plan application.

pub mod db;
pub mod error;
pub mod laws;
pub mod login;
pub mod merge;
pub mod update_plan;
pub mod util;
