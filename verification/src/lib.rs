//! Scans source trees for reminder comments (`TODO:`, `FIXME:`, `BUG:`) and
//! reports each occurrence's row, column and text.
//!
//! The core pipeline — filtering comment lines by the reminder grammar and
//! recovering precise 1-based row / 0-based column positions, including for
//! repeated identical reminder lines — is verified. Comment extraction per
//! language is delegated to an outside parser behind a trusted boundary;
//! directory walking and output live outside the library.

pub mod adapter;
pub mod filter;
pub mod lines;
pub mod position;
pub mod scan;
pub mod seen;
