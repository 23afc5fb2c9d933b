//! The agent: a program that tells a machine's use of its resources to others
//! on the network.

pub mod collect;
pub mod names;
pub mod service;
pub mod settings;
pub mod topology;
