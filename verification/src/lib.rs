//! A small service manager: service definitions read from a directory,
//! a registry of tracked services with their dependency graph, and the
//! rules that decide when a service may start.

pub mod service;
pub mod channel;
pub mod reader;
pub mod tracker;
pub mod runner;
pub mod manager;
pub mod laws;
