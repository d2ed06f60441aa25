//! A push-based streaming protocol for sequences of records, a lazy
//! record-transforming wrapper over it, and a bridge to pull-style iteration.

pub mod batch;
pub mod callback;
pub mod collect;
pub mod map;
pub mod memory;
pub mod record;
pub mod stream;
