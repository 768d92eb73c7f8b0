//! RzBridge: the decisions of a bridge between the Roomzin routing layer and
//! the nodes of one shard.

pub mod auth;
pub mod buffer;
pub mod cluster_handler;
pub mod cluster_laws;
pub mod cluster_view;
pub mod codec;
pub mod config;
pub mod discovery;
pub mod error;
pub mod execution;
pub mod execution_laws;
pub mod http;
pub mod metrics;
pub mod pool;
pub mod protocol;
pub mod protocol_laws;
pub mod resolver;
pub mod rzid;
pub mod service_laws;
pub mod sync_laws;
pub mod tcp_laws;
pub mod tcp_server;
pub mod text;
pub mod text_laws;
pub mod topology;
pub mod topology_laws;
pub mod turn_laws;
