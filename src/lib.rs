//! Keeps allow/deny IP directives in configuration text in step with the
//! addresses that a set of hosts currently resolve to.
pub mod mapping;
pub mod directive;
pub mod resolve;
pub mod tick;
