//! AethelDB: the verified core of a disaggregated PostgreSQL storage engine.
//!
//! * [`common`]: identifiers, log positions, page addresses and the two wire
//!   protocols between the compute node, the safekeeper and the pageserver.
//! * [`pageserver`]: page versions, layers, the repository that rebuilds pages,
//!   branching timelines, tenants, the WAL decoder and the control planes.
//! * [`aethelctl`]: the operator's side, from deployment arguments to the
//!   console's database catalogue.

pub mod aethelctl;
pub mod bytes;
pub mod common;
pub mod json;
pub mod pageserver;
mod shared;
pub mod text;
