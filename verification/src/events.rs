//! Event handling: deciding what an inbound event means for the local agent.

pub mod policy;
pub mod protobuf_events_policy;
