//! Storage layer of the request service: the byte layout of the keys under
//! which records are kept, and the database operations built on top of it.

pub mod cbor;
pub mod frame;
pub mod key;
pub mod key_laws;
pub mod records;
pub mod store;
