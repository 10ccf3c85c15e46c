//! Payloads shared by the simplest workloads.

pub mod echo;
pub mod generate;
