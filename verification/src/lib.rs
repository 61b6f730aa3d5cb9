//! A k-way merge operator over independently sorted key-value sources: the
//! read-path fan-in primitive of a layered storage engine. Sources are ranked
//! by position; on duplicate keys the lower-ranked (fresher) source wins.
pub mod merge_iterator;
pub mod order;
pub mod source;
