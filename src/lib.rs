//! A DNS daemon's core: the wire codec, the resolver's decisions, the record
//! store and the bookkeeping of the worker pool that serves requests.

pub mod utils;
pub mod dns_packet;
pub mod dns_resolver;
pub mod simple_database;
pub mod manager_worker_pool;
pub mod settings;
pub mod dns_server;
pub mod record_row;
