//! The SQL side: dialects, values, rows, table shapes, batches and the clock
//! register.

pub mod batch;
pub mod dialect;
pub mod hlc_storage;
pub mod postgres;
pub mod processor;
pub mod query;
pub mod replica;
pub mod row;
pub mod schema;
pub mod status;
pub mod value;
