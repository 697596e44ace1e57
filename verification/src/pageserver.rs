//! The pageserver: it stores page versions and rebuilds any page at any position.

pub mod basebackup;
pub mod batches;
pub mod branches;
pub mod catalog;
pub mod commands;
pub mod control;
pub mod httpapi;
pub mod layer;
pub mod layouts;
pub mod lsnmap;
pub mod objstore;
pub mod offload;
pub mod page;
pub mod promises;
pub mod reads;
pub mod replies;
pub mod repository;
pub mod sentences;
pub mod server;
pub mod tenant;
pub mod tenant_manager;
pub mod timeline;
pub mod topology;
pub mod waldecode;
pub mod walreceiver;
pub mod walrecords;
pub mod walredo;
pub mod walredo_mock;
pub mod walredo_process;
pub mod walredo_proto;
