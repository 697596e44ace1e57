//! The vocabulary that every part of the system shares.

pub mod error;
pub mod ids;
pub mod layouts;
pub mod lsn;
pub mod page;
pub mod page_service;
pub mod wal_service;
