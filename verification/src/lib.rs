//! Watches public campaign pages for changes to their supporter section.
//!
//! The crate is organised around a small pipeline: page text is parsed into a
//! plain markup tree, a tiered heuristic extracts supporter records from the
//! section below a fixed heading, the extracted set is compared against the
//! last persisted snapshot, and the outcome of a check cycle is planned as a
//! value that the surrounding program carries out.

pub mod alert;
pub mod config;
pub mod cycle;
pub mod dom;
pub mod extract;
pub mod html;
pub mod diff;
pub mod record;
pub mod snapshot;
pub mod text;
