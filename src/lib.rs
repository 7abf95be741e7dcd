//! An embedded, typed table store with secondary indexes and a composable
//! query language over them.

pub mod bucket;
pub mod codec;
pub mod record;
pub mod result;
pub mod rows;
pub mod table;
pub mod query_builder;
