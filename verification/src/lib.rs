//! A k-way merge cursor over independently sorted key/value sources.
//!
//! The cursor combines several sources, each producing key/value records in
//! non-decreasing key order, into one globally ordered stream. When several
//! sources expose the same key at the same time, the source listed earliest
//! at construction wins and the shadowed records are silently skipped.

pub mod order;

pub mod model;

pub mod source;

pub mod merge;
