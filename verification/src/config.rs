//! What an association is set up with.

use crate::packet::{packet_size_of_one, COMMON_HEADER_SIZE, DATA_CHUNK_HEADER_SIZE};
use vstd::prelude::*;

verus! {

/// The largest size of a message where none is configured.
pub const DEFAULT_MAX_MESSAGE_SIZE: u32 = 65536;

/// The limits of an association.
#[derive(Debug, Clone, Copy)]
pub struct TransportConfig {
    pub max_num_outbound_streams: u16,
    pub max_num_inbound_streams: u16,
    /// The largest size of a message that may be sent.
    pub max_message_size: u32,
}

impl Default for TransportConfig {
    /// As many streams as can be numbered, and messages of up to 64 KiB.
    fn default() -> (c: Self)
        ensures
            c.max_num_outbound_streams == u16::MAX,
            c.max_num_inbound_streams == u16::MAX,
            c.max_message_size == DEFAULT_MAX_MESSAGE_SIZE,
    {
        TransportConfig {
            max_num_outbound_streams: u16::MAX,
            max_num_inbound_streams: u16::MAX,
            max_message_size: DEFAULT_MAX_MESSAGE_SIZE,
        }
    }
}

impl TransportConfig {
    /// The same limits with another largest size of a message.
    pub fn with_max_message_size(self, value: u32) -> (c: Self)
        ensures
            c == (TransportConfig { max_message_size: value, ..self }),
    {
        TransportConfig {
            max_num_outbound_streams: self.max_num_outbound_streams,
            max_num_inbound_streams: self.max_num_inbound_streams,
            max_message_size: value,
        }
    }
}

/// The smallest MTU that a padded DATA packet with a payload fits in.
pub const MIN_MTU: u32 = 32;

/// The largest payload with which a packet of one DATA chunk still fits in the
/// MTU, padding included.
pub fn max_payload_size_for_mtu(mtu: u32) -> (r: u32)
    requires
        mtu >= MIN_MTU,
    ensures
        packet_size_of_one(r as int) <= mtu,
        forall|n: int| #[trigger] packet_size_of_one(n) <= mtu ==> n <= r,
        (r + 28) % 4 == 0,
        mtu - 4 < r + 28 <= mtu,
{
    let padded: u32 = (mtu - COMMON_HEADER_SIZE) / 4 * 4;
    padded - DATA_CHUNK_HEADER_SIZE
}

/// The smallest MTU is the size of a packet with one byte of payload, and of
/// every packet of one chunk with up to four.
pub proof fn law_smallest_mtu_takes_a_payload(n: int)
    ensures
        MIN_MTU == 32,
        1 <= n <= 4 ==> packet_size_of_one(n) == MIN_MTU,
        n > 4 ==> packet_size_of_one(n) > MIN_MTU,
{
}

/// The largest payload for an MTU is determined by the sizes of packets: it fits,
/// and one byte more does not.
pub proof fn law_largest_payload_is_unique(mtu: u32, r: u32)
    requires
        mtu >= 32,
        packet_size_of_one(r as int) <= mtu,
        packet_size_of_one(r + 1) > mtu,
    ensures
        r == (mtu - 12) / 4 * 4 - 16,
{
}

} // verus!
