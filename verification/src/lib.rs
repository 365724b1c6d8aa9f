//! Dwanium: collects the Dell machines known to Tanium, asks Dell for their
//! warranty end dates and reports those dates back to Tanium Asset.
//!
//! This crate holds the logic of that service: the requests it sends, how it
//! reads the answers, and how it splits its work into batches.
pub mod dell;
pub mod tanium;
pub mod text;
pub mod work;
