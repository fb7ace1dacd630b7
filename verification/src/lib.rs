//! A pull-based pipeline of packet-batch operators.
//!
//! A pipeline is a chain of operators over groups of packet buffers. Once per
//! poll cycle the head of the chain pulls a bounded group of buffers from a
//! receive queue; every operator then pulls results from the one before it, one
//! at a time, until the terminal send operator has handed every buffer of the
//! group either to the transmit queue or back to the memory pool.

pub mod mbuf;
pub mod ether_type;
pub mod packet;
pub mod error;
pub mod queue;
pub mod batch;
pub mod ids;
pub mod packet_batch;
pub mod receive_batch;
pub mod filter_batch;
pub mod map_batch;
pub mod send_batch;
pub mod bridge;
pub mod group;
pub mod group_by;
pub mod laws;
