//! A manifest-driven backup/install transaction engine for a
//! self-updating application.
//!
//! A manifest is a JSON document naming relative paths. The engine
//! normalizes and deduplicates them, then plans how each entry moves
//! between three places: live install to dated backup directory
//! (Relocate), and extracted build to live install (AtomicReplace, via a
//! staging sibling so the destination is never observably half-written).
//! The planners here are verified; a thin unverified runner performs the
//! planned steps and reports progress.

pub mod norm;
pub mod order;
pub mod json;
pub mod manifest;
pub mod fsmodel;
pub mod mover;
pub mod backup;
pub mod install;
