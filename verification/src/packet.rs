//! Packets and their size on the wire.

use crate::chunk::ChunkPayloadData;
use crate::octets::bytes_content;
use vstd::prelude::*;

verus! {

/// The size of the header of a packet.
pub const COMMON_HEADER_SIZE: u32 = 12;

/// The size of the header of a DATA chunk.
pub const DATA_CHUNK_HEADER_SIZE: u32 = 16;

/// The largest size of a chunk, header included: its length field has 16 bits.
pub const MAX_CHUNK_SIZE: u32 = 65535;

/// The header of a packet.
#[derive(Debug, Default, Clone, Copy, PartialEq, Eq, Structural)]
pub struct CommonHeader {
    pub source_port: u16,
    pub destination_port: u16,
    pub verification_tag: u32,
}

/// A packet of DATA chunks.
#[derive(Debug, Default)]
pub struct Packet {
    pub common_header: CommonHeader,
    pub chunks: Vec<ChunkPayloadData>,
}

/// The size of a DATA chunk with `n` bytes of payload: header and payload,
/// rounded up to a multiple of four.
pub open spec fn data_wire_size(n: int) -> int {
    (DATA_CHUNK_HEADER_SIZE + n + 3) / 4 * 4
}

/// The size of a packet that holds one DATA chunk with `n` bytes of payload.
pub open spec fn packet_size_of_one(n: int) -> int {
    COMMON_HEADER_SIZE + data_wire_size(n)
}

/// The size of the chunks of a packet.
pub open spec fn chunks_wire_size(chunks: Seq<ChunkPayloadData>) -> int
    decreases chunks.len(),
{
    if chunks.len() == 0 {
        0
    } else {
        chunks_wire_size(chunks.drop_last()) + data_wire_size(chunks.last().size() as int)
    }
}

/// The size of a packet that holds the chunks.
pub open spec fn packet_size(chunks: Seq<ChunkPayloadData>) -> int {
    COMMON_HEADER_SIZE + chunks_wire_size(chunks)
}

/// Every chunk can be written with a 16-bit length.
pub open spec fn chunks_sendable(chunks: Seq<ChunkPayloadData>) -> bool {
    forall|i: int|
        0 <= i < chunks.len() ==> DATA_CHUNK_HEADER_SIZE + (#[trigger] chunks[i]).size()
            <= MAX_CHUNK_SIZE
}

/// The size of a DATA chunk on the wire, padding included.
pub fn wire_size(c: &ChunkPayloadData) -> (r: u32)
    requires
        DATA_CHUNK_HEADER_SIZE + c.size() <= MAX_CHUNK_SIZE,
    ensures
        r == data_wire_size(c.size() as int),
        r <= MAX_CHUNK_SIZE + 1,
        r % 4 == 0,
        16 + bytes_content(c.user_data).len() <= r < 16 + bytes_content(c.user_data).len() + 4,
{
    (DATA_CHUNK_HEADER_SIZE + c.user_data.len() as u32 + 3) / 4 * 4
}

/// No sendable chunk takes more than 65536 bytes.
proof fn lemma_chunks_wire_size_bounds(chunks: Seq<ChunkPayloadData>)
    requires
        chunks_sendable(chunks),
    ensures
        0 <= chunks_wire_size(chunks) <= chunks.len() * 65536,
    decreases chunks.len(),
{
    if chunks.len() > 0 {
        let front = chunks.drop_last();
        assert(forall|i: int| 0 <= i < front.len() ==> front[i] == chunks[i]);
        lemma_chunks_wire_size_bounds(front);
        assert(chunks[chunks.len() - 1] == chunks.last());
    }
}

impl Packet {
    /// The size of the packet on the wire.
    pub fn len(&self) -> (r: u64)
        requires
            chunks_sendable(self.chunks@),
            self.chunks@.len() <= u32::MAX,
        ensures
            r == packet_size(self.chunks@),
    {
        let mut size: u64 = COMMON_HEADER_SIZE as u64;
        let mut i: usize = 0;
        while i < self.chunks.len()
            invariant
                i <= self.chunks@.len() <= u32::MAX,
                chunks_sendable(self.chunks@),
                size == packet_size(self.chunks@.take(i as int)),
            decreases self.chunks@.len() - i,
        {
            let ghost before = self.chunks@.take(i as int);
            proof {
                lemma_chunks_wire_size_bounds(before);
                assert(self.chunks@.take(i + 1).drop_last() =~= before);
            }
            size = size + wire_size(&self.chunks[i]) as u64;
            i += 1;
        }
        assert(self.chunks@.take(i as int) =~= self.chunks@);
        size
    }
}

/// The size of a DATA chunk is a multiple of four and holds 16 bytes of header
/// and the payload with at most three bytes of padding. So does that of a packet
/// of one chunk, with 12 bytes more.
pub proof fn law_chunks_are_padded_to_four_bytes(n: nat)
    ensures
        data_wire_size(n as int) % 4 == 0,
        16 + n <= data_wire_size(n as int) < 16 + n + 4,
        packet_size_of_one(n as int) % 4 == 0,
        28 + n <= packet_size_of_one(n as int) < 28 + n + 4,
{
}

/// A packet with no chunk is 12 bytes long, and each chunk adds its header, its
/// payload and the padding to the next multiple of four.
pub proof fn law_packet_grows_by_padded_chunks(chunks: Seq<ChunkPayloadData>, c: ChunkPayloadData)
    ensures
        packet_size(Seq::empty()) == 12,
        packet_size(chunks) % 4 == 0,
        (packet_size(chunks.push(c)) - packet_size(chunks)) % 4 == 0,
        16 + bytes_content(c.user_data).len() <= packet_size(chunks.push(c)) - packet_size(chunks)
            < 16 + bytes_content(c.user_data).len() + 4,
        packet_size(seq![c]) == packet_size_of_one(bytes_content(c.user_data).len() as int),
    decreases chunks.len(),
{
    assert(chunks.push(c).drop_last() =~= chunks);
    assert(seq![c].drop_last() =~= Seq::empty());
    reveal_with_fuel(chunks_wire_size, 2);
    if chunks.len() > 0 {
        law_packet_grows_by_padded_chunks(chunks.drop_last(), chunks.last());
        assert(chunks =~= chunks.drop_last().push(chunks.last()));
    }
}

/// The size of a packet is 12 bytes and those of its chunks, each with its header
/// and padded to a multiple of four.
pub proof fn law_packet_size_is_the_sum(chunks: Seq<ChunkPayloadData>)
    ensures
        packet_size(chunks) == chunks.fold_left(
            12int,
            |sum: int, c: ChunkPayloadData|
                sum + (16 + bytes_content(c.user_data).len() + 3) / 4 * 4,
        ),
    decreases chunks.len(),
{
    if chunks.len() > 0 {
        law_packet_size_is_the_sum(chunks.drop_last());
    }
}

/// A chunk can be sent when its header of 16 bytes and its payload together do
/// not exceed what 16 bits can say.
pub proof fn law_sendable_payloads(chunks: Seq<ChunkPayloadData>)
    ensures
        chunks_sendable(chunks) <==> forall|i: int|
            0 <= i < chunks.len() ==> bytes_content((#[trigger] chunks[i]).user_data).len() <= 65519,
{
    if chunks_sendable(chunks) {
        assert forall|i: int| 0 <= i < chunks.len() implies bytes_content(
            (#[trigger] chunks[i]).user_data,
        ).len() <= 65519 by {
            assert(DATA_CHUNK_HEADER_SIZE + chunks[i].size() <= MAX_CHUNK_SIZE);
        }
    }
}

} // verus!
