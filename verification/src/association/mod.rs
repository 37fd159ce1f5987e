//! The state of an association and the rules by which it answers its peer.

pub mod bundle;
pub mod effects;
pub mod forward_tsn;
pub mod handshake;

use crate::association::forward_tsn::{streams_wf, AckState, ChunkForwardTsnStream};
use crate::association::handshake::AssociationState;
use crate::config::{TransportConfig, DEFAULT_MAX_MESSAGE_SIZE};
use crate::packet::{COMMON_HEADER_SIZE, DATA_CHUNK_HEADER_SIZE};
use crate::queue::payload_model::PayloadQueueView;
use crate::queue::payload_queue::PayloadQueue;
use vstd::prelude::*;

verus! {

/// One end of a connection between two SCTP endpoints.
#[derive(Debug)]
pub struct Association {
    pub state: AssociationState,
    pub handshake_completed: bool,
    pub source_port: u16,
    pub destination_port: u16,
    pub peer_verification_tag: u32,
    pub my_max_num_outbound_streams: u16,
    pub my_max_num_inbound_streams: u16,
    /// The largest size of a message that may be sent.
    pub max_message_size: u32,
    /// How many payload bytes a DATA chunk carries at most.
    pub max_payload_size: u32,
    /// The size that no packet may exceed.
    pub mtu: u32,
    /// How many bytes may be in flight.
    pub cwnd: u32,
    /// Both ends can skip TSNs.
    pub use_forward_tsn: bool,
    /// The last TSN up to which everything was received or skipped.
    pub peer_last_tsn: u32,
    /// The chunks that were received beyond a gap.
    pub payload_queue: PayloadQueue,
    pub ack_state: AckState,
    pub delayed_ack_triggered: bool,
    pub immediate_ack_triggered: bool,
    /// The last TSN up to which the peer has acknowledged everything.
    pub cumulative_tsn_ack_point: u32,
    /// The last TSN up to which everything is acknowledged or abandoned.
    pub advanced_peer_tsn_ack_point: u32,
    /// The newest abandoned message of each ordered stream.
    pub fwd_tsn_streams: Vec<ChunkForwardTsnStream>,
}

/// `n` as far as 32 bits can hold it.
pub open spec fn saturated(n: int) -> int {
    if n <= u32::MAX {
        n
    } else {
        u32::MAX as int
    }
}

/// The congestion window that an association starts with:
/// `min(4 * MTU, max(2 * MTU, 4380))`, as far as 32 bits can hold it.
pub open spec fn initial_window(mtu: u32) -> int {
    let at_least = if 2 * mtu >= 4380 {
        2 * mtu
    } else {
        4380
    };
    saturated(
        if 4 * mtu <= at_least {
            4 * mtu
        } else {
            at_least
        },
    )
}

/// Computes the congestion window that an association starts with.
pub fn initial_cwnd(mtu: u32) -> (r: u32)
    ensures
        r == initial_window(mtu),
{
    let twice: u64 = 2 * mtu as u64;
    let four_times: u64 = 4 * mtu as u64;
    let at_least: u64 = if twice >= 4380 {
        twice
    } else {
        4380
    };
    let window: u64 = if four_times <= at_least {
        four_times
    } else {
        at_least
    };
    if window <= u32::MAX as u64 {
        window as u32
    } else {
        u32::MAX
    }
}

impl Default for Association {
    /// A closed association that nothing was set up for.
    fn default() -> (a: Self)
        ensures
            a.wf(),
            a.untouched(),
            a.my_max_num_outbound_streams == 0,
            a.my_max_num_inbound_streams == 0,
            a.max_message_size == 0,
            a.max_payload_size == 0,
            a.mtu == 0,
            a.cwnd == 0,
    {
        Association {
            state: AssociationState::Closed,
            handshake_completed: false,
            source_port: 0,
            destination_port: 0,
            peer_verification_tag: 0,
            my_max_num_outbound_streams: 0,
            my_max_num_inbound_streams: 0,
            max_message_size: 0,
            max_payload_size: 0,
            mtu: 0,
            cwnd: 0,
            use_forward_tsn: false,
            peer_last_tsn: 0,
            payload_queue: PayloadQueue::new(),
            ack_state: AckState::Idle,
            delayed_ack_triggered: false,
            immediate_ack_triggered: false,
            cumulative_tsn_ack_point: 0,
            advanced_peer_tsn_ack_point: 0,
            fwd_tsn_streams: Vec::new(),
        }
    }
}

impl Association {
    /// The received chunks are those beyond the last TSN that closes the
    /// sequence, and no stream is listed twice as abandoned.
    pub open spec fn wf(self) -> bool {
        &&& self.payload_queue@.wf()
        &&& self.payload_queue@.newer_than(self.peer_last_tsn)
        &&& streams_wf(self.fwd_tsn_streams@)
    }

    /// No exchange with the peer has left a trace yet.
    pub open spec fn untouched(self) -> bool {
        &&& self.state == AssociationState::Closed
        &&& !self.handshake_completed
        &&& self.source_port == 0
        &&& self.destination_port == 0
        &&& self.peer_verification_tag == 0
        &&& !self.use_forward_tsn
        &&& self.peer_last_tsn == 0
        &&& self.payload_queue@ == PayloadQueueView::empty()
        &&& self.ack_state == AckState::Idle
        &&& !self.delayed_ack_triggered
        &&& !self.immediate_ack_triggered
        &&& self.cumulative_tsn_ack_point == 0
        &&& self.advanced_peer_tsn_ack_point == 0
        &&& self.fwd_tsn_streams@.len() == 0
    }

    /// An association that offers the configured limits and whose DATA chunks
    /// carry at most `max_payload_size` bytes.
    pub fn new(config: &TransportConfig, max_payload_size: u32) -> (a: Self)
        ensures
            a.wf(),
            a.untouched(),
            a.my_max_num_outbound_streams == config.max_num_outbound_streams,
            a.my_max_num_inbound_streams == config.max_num_inbound_streams,
            a.max_message_size == config.max_message_size,
            a.max_payload_size == max_payload_size,
            a.mtu == saturated(max_payload_size + COMMON_HEADER_SIZE + DATA_CHUNK_HEADER_SIZE),
            a.mtu == if max_payload_size <= 0xffff_ffff - 28 {
                max_payload_size + 28
            } else {
                0xffff_ffff
            },
            a.cwnd == initial_window(a.mtu),
    {
        let mtu: u32 = max_payload_size.saturating_add(COMMON_HEADER_SIZE + DATA_CHUNK_HEADER_SIZE);
        let mut a = Association::default();
        a.my_max_num_outbound_streams = config.max_num_outbound_streams;
        a.my_max_num_inbound_streams = config.max_num_inbound_streams;
        a.max_message_size = config.max_message_size;
        a.max_payload_size = max_payload_size;
        a.mtu = mtu;
        a.cwnd = initial_cwnd(mtu);
        a
    }
}

/// An association whose DATA chunks carry at most 1400 bytes.
pub fn create_association(config: TransportConfig) -> (a: Association)
    ensures
        a.wf(),
        a.untouched(),
        a.my_max_num_outbound_streams == config.max_num_outbound_streams,
        a.my_max_num_inbound_streams == config.max_num_inbound_streams,
        a.max_message_size == config.max_message_size,
        a.max_payload_size == 1400,
        a.mtu == 1428,
        a.cwnd == 4380,
{
    Association::new(&config, 1400)
}

/// An association with the default limits for a path with the given MTU.
pub fn create_association_with_mtu(mtu: u32) -> (a: Association)
    requires
        mtu >= COMMON_HEADER_SIZE + DATA_CHUNK_HEADER_SIZE,
    ensures
        a.wf(),
        a.untouched(),
        a.my_max_num_outbound_streams == u16::MAX,
        a.my_max_num_inbound_streams == u16::MAX,
        a.max_message_size == DEFAULT_MAX_MESSAGE_SIZE,
        a.max_payload_size == mtu - (COMMON_HEADER_SIZE + DATA_CHUNK_HEADER_SIZE),
        a.mtu == mtu,
        a.cwnd == initial_window(mtu),
{
    Association::new(
        &TransportConfig::default(),
        mtu - (COMMON_HEADER_SIZE + DATA_CHUNK_HEADER_SIZE),
    )
}

} // verus!
