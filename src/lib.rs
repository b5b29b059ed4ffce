//! Keeps a host's NAT port forwarding in step with a list of forwarding
//! entries whose remote hosts may change address over time.
pub mod config;
pub mod reconcile;
pub mod rules;
pub mod text;
