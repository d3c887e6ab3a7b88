//! The ingestion side: what the listeners need from the library.

pub mod handlers;
