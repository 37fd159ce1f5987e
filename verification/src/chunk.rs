//! The chunks that the queues hold and report on.

use crate::octets::bytes_content;
use bytes::Bytes;
use vstd::prelude::*;

verus! {

/// Identifies a user message; all fragments of a message share it.
pub type MessageId = u64;

/// How long a message is worth retransmitting. The policy is fixed when the
/// message is queued.
#[derive(Debug, Clone, Copy, PartialEq, Eq, Structural)]
pub enum MessageReliability {
    /// The message is retransmitted until it is acknowledged.
    Reliable,
    /// The message is abandoned after this many retransmissions.
    Rexmit(u32),
    /// The message is abandoned this many milliseconds after it was queued.
    Timed(u32),
}

/// A DATA chunk: one fragment of a user message, with the state of its
/// transmission.
#[derive(Debug)]
pub struct ChunkPayloadData {
    pub unordered: bool,
    pub beginning_fragment: bool,
    pub ending_fragment: bool,
    pub tsn: u32,
    pub stream_identifier: u16,
    pub stream_sequence_number: u16,
    pub user_data: Bytes,
    /// The incarnation of the stream that the message was written to.
    pub stream_generation: u64,
    pub message_id: Option<MessageId>,
    pub reliability: MessageReliability,
    /// The peer has reported the receipt of this chunk.
    pub acknowledged: bool,
    /// The message that this chunk belongs to was given up.
    pub abandoned: bool,
    /// The chunk is to be sent again.
    pub retransmit: bool,
    /// How often the chunk was sent.
    pub nsent: u32,
    /// How often the peer has reported a gap at this chunk.
    pub miss_indicator: u32,
}

impl Default for ChunkPayloadData {
    /// A reliable chunk with no payload that was never sent.
    fn default() -> (c: Self)
        ensures
            !c.unordered,
            !c.beginning_fragment,
            !c.ending_fragment,
            c.tsn == 0,
            c.stream_identifier == 0,
            c.stream_sequence_number == 0,
            bytes_content(c.user_data) == Seq::<u8>::empty(),
            c.stream_generation == 0,
            c.message_id is None,
            c.reliability == MessageReliability::Reliable,
            !c.acknowledged,
            !c.abandoned,
            !c.retransmit,
            c.nsent == 0,
            c.miss_indicator == 0,
    {
        ChunkPayloadData {
            unordered: false,
            beginning_fragment: false,
            ending_fragment: false,
            tsn: 0,
            stream_identifier: 0,
            stream_sequence_number: 0,
            user_data: Bytes::new(),
            stream_generation: 0,
            message_id: None,
            reliability: MessageReliability::Reliable,
            acknowledged: false,
            abandoned: false,
            retransmit: false,
            nsent: 0,
            miss_indicator: 0,
        }
    }
}

impl Clone for ChunkPayloadData {
    fn clone(&self) -> (c: Self)
        ensures
            bytes_content(c.user_data) == bytes_content(self.user_data),
            c == (ChunkPayloadData { user_data: c.user_data, ..*self }),
    {
        ChunkPayloadData {
            unordered: self.unordered,
            beginning_fragment: self.beginning_fragment,
            ending_fragment: self.ending_fragment,
            tsn: self.tsn,
            stream_identifier: self.stream_identifier,
            stream_sequence_number: self.stream_sequence_number,
            user_data: self.user_data.clone(),
            stream_generation: self.stream_generation,
            message_id: self.message_id,
            reliability: self.reliability,
            acknowledged: self.acknowledged,
            abandoned: self.abandoned,
            retransmit: self.retransmit,
            nsent: self.nsent,
            miss_indicator: self.miss_indicator,
        }
    }
}

impl ChunkPayloadData {
    /// The number of payload bytes that the chunk carries.
    pub open spec fn size(self) -> nat {
        bytes_content(self.user_data).len()
    }

    /// The chunk still has to be acknowledged and its message was not given up.
    pub open spec fn outstanding(self) -> bool {
        !self.acknowledged && !self.abandoned
    }

    /// The chunk after its receipt was recorded.
    pub open spec fn with_receipt(self) -> ChunkPayloadData {
        ChunkPayloadData { acknowledged: true, retransmit: false, ..self }
    }

    /// The chunk after it was marked for retransmission, which has no effect on
    /// a chunk that is not outstanding.
    pub open spec fn with_retry(self) -> ChunkPayloadData {
        if self.outstanding() {
            ChunkPayloadData { retransmit: true, ..self }
        } else {
            self
        }
    }

    /// Whether the message that this chunk belongs to was given up.
    pub fn abandoned(&self) -> (r: bool)
        ensures
            r == self.abandoned,
    {
        self.abandoned
    }

    /// Whether the chunk still waits for an acknowledgment.
    pub fn is_outstanding(&self) -> (r: bool)
        ensures
            r == self.outstanding(),
    {
        !self.acknowledged && !self.abandoned
    }

    /// Records the receipt of the chunk. Returns true the first time.
    pub fn acknowledge(&mut self) -> (r: bool)
        ensures
            r == !old(self).acknowledged,
            *final(self) == old(self).with_receipt(),
    {
        let first = !self.acknowledged;
        self.acknowledged = true;
        self.retransmit = false;
        first
    }
}

/// A run of received TSNs, as offsets from the cumulative TSN of the report
/// that carries it. Both ends belong to the run.
#[derive(Debug, Default, Clone, Copy, PartialEq, Eq, Structural)]
pub struct GapAckBlock {
    pub start: u16,
    pub end: u16,
}

/// The size of a chunk is the number of bytes of its payload, and nothing else
/// counts.
pub proof fn law_size_is_the_payload(c: ChunkPayloadData)
    ensures
        c.size() == bytes_content(c.user_data).len(),
{
}

/// A chunk is outstanding until it is acknowledged or its message is given up,
/// however often it was sent or reported missing.
pub proof fn law_outstanding_until_acknowledged_or_abandoned(c: ChunkPayloadData)
    ensures
        c.outstanding() <==> !c.acknowledged && !c.abandoned,
        !c.with_receipt().outstanding(),
{
}

/// A receipt makes a chunk acknowledged, so that it is not sent again; all that
/// says what the chunk is and how it was sent stays.
pub proof fn law_receipt_keeps_the_chunk(c: ChunkPayloadData)
    ensures
        c.with_receipt().acknowledged,
        !c.with_receipt().retransmit,
        c.with_receipt().abandoned == c.abandoned,
        c.with_receipt().unordered == c.unordered,
        c.with_receipt().beginning_fragment == c.beginning_fragment,
        c.with_receipt().ending_fragment == c.ending_fragment,
        c.with_receipt().tsn == c.tsn,
        c.with_receipt().stream_identifier == c.stream_identifier,
        c.with_receipt().stream_sequence_number == c.stream_sequence_number,
        c.with_receipt().stream_generation == c.stream_generation,
        c.with_receipt().user_data == c.user_data,
        c.with_receipt().message_id == c.message_id,
        c.with_receipt().reliability == c.reliability,
        c.with_receipt().nsent == c.nsent,
        c.with_receipt().miss_indicator == c.miss_indicator,
{
}

/// Marking a chunk for retransmission has an effect exactly on one that is
/// neither acknowledged nor given up, and changes nothing but the mark.
pub proof fn law_retry_marks_outstanding_chunks(c: ChunkPayloadData)
    ensures
        c.with_retry().retransmit == (c.retransmit || (!c.acknowledged && !c.abandoned)),
        c.with_retry() == (ChunkPayloadData { retransmit: c.with_retry().retransmit, ..c }),
{
}

} // verus!
