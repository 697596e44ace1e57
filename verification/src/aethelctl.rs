//! The operator's side: the control-plane client's requests, deployment
//! arguments, the console and its database registry.

pub mod client;
pub mod databases;
pub mod deploy;
pub mod promises;
pub mod serve;
