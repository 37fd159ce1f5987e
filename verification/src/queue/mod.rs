//! The queues of DATA chunks that wait to be sent, acknowledged or delivered.

pub mod gap_report;
pub mod message_tsns;
pub mod payload_effects;
pub mod payload_laws;
pub mod payload_model;
pub mod payload_queue;
pub mod pending_effects;
pub mod pending_laws;
pub mod pending_model;
pub mod pending_queue;
pub mod tsn_list;
