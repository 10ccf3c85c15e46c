//! A small runtime for nodes of a distributed protocol that talk over
//! line-delimited records, with the workloads it hosts: echo, unique ids,
//! a gossiping broadcast set, a grow-only counter and an append-only log.

pub mod broadcast;
pub mod cluster;
pub mod counter;
pub mod echo;
pub mod kafka;
pub mod message;
pub mod order;
pub mod server;
pub mod services;
pub mod string_map;
pub mod unique_ids;
pub mod writer;
