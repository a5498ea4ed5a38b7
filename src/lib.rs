//! A status-partitioned store of light blocks over typed key/value tables.

pub mod codec;
pub mod table;
pub mod store;
