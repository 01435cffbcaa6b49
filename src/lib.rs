//! Listing of the root directory of a small operating system.
//!
//! The kernel packs directory entries into a caller-supplied buffer as
//! back-to-back records. This crate decodes those records, renders their
//! names as output lines, and drives the whole listing as a state machine
//! whose actions (open, fill, write, close, exit) are carried out by the
//! program around it.
pub mod record;
pub mod output;
pub mod lister;
