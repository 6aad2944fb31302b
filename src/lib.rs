//! The per-node storage engine of a replicated blob store and its routing
//! layer: key to vdisk to replica routing, time-partitioned holders of blob
//! stores, the backend that dispatches to them, and the quorum rules of
//! cluster writes and reads.

pub mod address;
pub mod api;
pub mod backend;
pub mod config;
pub mod data;
pub mod error;
pub mod grinder;
pub mod group;
pub mod holder;
pub mod link;
pub mod mapper;
pub mod metrics;
pub mod quorum;
pub mod settings;
pub mod store;
pub mod sync;
