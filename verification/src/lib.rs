//! A verified library around a directory-tree scanner: a glob match
//! engine and filter configuration, a bounded work queue with
//! per-worker overflow, the scan scheduler and result collector — and
//! the fuzzy-filtering heat-map scorer used by the same host
//! application.

pub mod filter;
pub mod fuzzy_match;
pub mod glob;
pub mod queue;
pub mod scan;
pub mod text;
