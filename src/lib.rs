//! Message provenance and ingress sequencing for a sharded dataflow engine:
//! tree clocks that record the upstream labels behind each message, the
//! receive-side sequencing of each edge with its failover handover, and the
//! controller's and the base write path's decisions around them.
pub mod backend;
pub mod clock;
pub mod domain;
pub mod graph;
pub mod ingress;
pub mod input;
pub mod packet;
