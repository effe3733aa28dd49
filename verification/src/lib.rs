//! Expansion of structured documents containing embedded macro invocations.
//!
//! A document is a JSON-like tree. An *invocation* is a single-entry object
//! whose key wraps a handler name in `%{` ... `}%` markers. Expansion locates
//! every invocation, calls the handler registered under its name with the
//! invocation's argument value, and writes the handler's result back over the
//! invocation node, failing fast on the first error.

pub mod doc;
pub mod engine;
pub mod invoke;
pub mod laws;
pub mod locate;
pub mod path;
pub mod registry;

