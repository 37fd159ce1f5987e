//! Bundling DATA chunks into packets.

use crate::association::Association;
use crate::chunk::ChunkPayloadData;
use crate::packet::{
    chunks_sendable, chunks_wire_size, data_wire_size, packet_size, wire_size, CommonHeader, Packet,
    COMMON_HEADER_SIZE, MAX_CHUNK_SIZE,
};
use vstd::prelude::*;

verus! {

/// The chunks of each packet.
pub open spec fn groups_of(packets: Seq<Packet>) -> Seq<Seq<ChunkPayloadData>> {
    packets.map_values(|p: Packet| p.chunks@)
}

/// The chunks of all groups, one group after the other.
pub open spec fn joined(groups: Seq<Seq<ChunkPayloadData>>) -> Seq<ChunkPayloadData>
    decreases groups.len(),
{
    if groups.len() == 0 {
        Seq::empty()
    } else {
        joined(groups.drop_last()) + groups.last()
    }
}

/// The groups hold the chunks in their order; none is empty; one of several
/// chunks does not exceed the MTU as a packet, and no group could have taken
/// the first chunk of the next one. All sizes are those on the wire, padding
/// included.
pub open spec fn bundled(
    groups: Seq<Seq<ChunkPayloadData>>,
    chunks: Seq<ChunkPayloadData>,
    mtu: u32,
) -> bool {
    &&& joined(groups) == chunks
    &&& forall|k: int|
        0 <= k < groups.len() ==> (#[trigger] groups[k]).len() > 0 && (groups[k].len() == 1
            || packet_size(groups[k]) <= mtu)
    &&& forall|k: int, l: int|
        0 <= k < l < groups.len() && l == k + 1 ==> packet_size(#[trigger] groups[k])
            + data_wire_size((#[trigger] groups[l])[0].size() as int) > mtu
}

/// A packet that holds only chunks that fit in the MTU on their own does not
/// exceed the MTU.
pub proof fn law_bundles_fit_the_mtu(
    groups: Seq<Seq<ChunkPayloadData>>,
    chunks: Seq<ChunkPayloadData>,
    mtu: u32,
    k: int,
)
    requires
        bundled(groups, chunks, mtu),
        forall|i: int|
            0 <= i < chunks.len() ==> COMMON_HEADER_SIZE + data_wire_size(
                (#[trigger] chunks[i]).size() as int,
            ) <= mtu,
        0 <= k < groups.len(),
    ensures
        packet_size(groups[k]) <= mtu,
{
    let g = groups[k];
    if g.len() == 1 {
        lemma_group_is_part(groups, k, 0);
        let i = choose|i: int| 0 <= i < chunks.len() && chunks[i] == g[0];
        assert(COMMON_HEADER_SIZE + data_wire_size(chunks[i].size() as int) <= mtu);
        reveal_with_fuel(chunks_wire_size, 2);
        assert(g.last() == g[0]);
    }
}

/// Every chunk of a group is one of all.
proof fn lemma_group_is_part(groups: Seq<Seq<ChunkPayloadData>>, k: int, j: int)
    requires
        0 <= k < groups.len(),
        0 <= j < groups[k].len(),
    ensures
        joined(groups).contains(groups[k][j]),
    decreases groups.len(),
{
    let front = groups.drop_last();
    if k == groups.len() - 1 {
        assert(joined(groups)[joined(front).len() + j] == groups[k][j]);
    } else {
        assert(front[k] == groups[k]);
        lemma_group_is_part(front, k, j);
        let i = choose|i: int| 0 <= i < joined(front).len() && joined(front)[i] == groups[k][j];
        assert(joined(groups)[i] == groups[k][j]);
    }
}

/// A group that takes one chunk more.
proof fn lemma_extend_group(
    done: Seq<Seq<ChunkPayloadData>>,
    open: Seq<ChunkPayloadData>,
    c: ChunkPayloadData,
    chunks: Seq<ChunkPayloadData>,
    mtu: u32,
)
    requires
        bundled(done.push(open), chunks, mtu),
        packet_size(open) + data_wire_size(c.size() as int) <= mtu,
        open.len() > 0,
    ensures
        bundled(done.push(open.push(c)), chunks.push(c), mtu),
        packet_size(open.push(c)) == packet_size(open) + data_wire_size(c.size() as int),
{
    let a = done.push(open);
    let b = done.push(open.push(c));
    assert(a.drop_last() =~= done);
    assert(b.drop_last() =~= done);
    assert(open.push(c).drop_last() =~= open);
    assert(joined(b) =~= chunks.push(c));
    assert forall|k: int| 0 <= k < b.len() implies (#[trigger] b[k]).len() > 0 && (b[k].len() == 1
        || packet_size(b[k]) <= mtu) by {
        if k < done.len() {
            assert(a[k] == b[k]);
        }
    }
    assert forall|k: int, l: int| 0 <= k < l < b.len() && l == k + 1 implies packet_size(
        #[trigger] b[k],
    ) + data_wire_size((#[trigger] b[l])[0].size() as int) > mtu by {
        assert(a[k] == b[k]);
        assert(a[l][0] == b[l][0]);
    }
}

/// A new group for a chunk that the last group cannot take.
proof fn lemma_open_group(
    done: Seq<Seq<ChunkPayloadData>>,
    c: ChunkPayloadData,
    chunks: Seq<ChunkPayloadData>,
    mtu: u32,
)
    requires
        bundled(done, chunks, mtu),
        done.len() > 0 ==> packet_size(done.last()) + data_wire_size(c.size() as int) > mtu,
    ensures
        bundled(done.push(seq![c]), chunks.push(c), mtu),
        packet_size(seq![c]) == COMMON_HEADER_SIZE + data_wire_size(c.size() as int),
{
    let b = done.push(seq![c]);
    assert(b.drop_last() =~= done);
    assert(joined(b) =~= chunks.push(c));
    assert(seq![c].drop_last() =~= Seq::empty());
    reveal_with_fuel(chunks_wire_size, 2);
    assert forall|k: int| 0 <= k < b.len() implies (#[trigger] b[k]).len() > 0 && (b[k].len() == 1
        || packet_size(b[k]) <= mtu) by {
        if k < done.len() {
            assert(done[k] == b[k]);
        }
    }
    assert forall|k: int, l: int| 0 <= k < l < b.len() && l == k + 1 implies packet_size(
        #[trigger] b[k],
    ) + data_wire_size((#[trigger] b[l])[0].size() as int) > mtu by {
        assert(done[k] == b[k]);
        if l < done.len() {
            assert(done[l] == b[l]);
        }
    }
}

impl Association {
    /// The header of the packets to the peer.
    pub open spec fn header(self) -> CommonHeader {
        CommonHeader {
            source_port: self.source_port,
            destination_port: self.destination_port,
            verification_tag: self.peer_verification_tag,
        }
    }

    fn create_packet(&self, chunks: Vec<ChunkPayloadData>) -> (p: Packet)
        ensures
            p.common_header == self.header(),
            p.chunks == chunks,
    {
        Packet {
            common_header: CommonHeader {
                source_port: self.source_port,
                destination_port: self.destination_port,
                verification_tag: self.peer_verification_tag,
            },
            chunks,
        }
    }

    /// Appends packets that hold the chunks in their order, as many in each as
    /// the MTU allows. A chunk that exceeds the MTU alone gets a packet of its
    /// own.
    pub fn bundle_data_chunks_into_packets(
        &self,
        chunks: Vec<ChunkPayloadData>,
        raw_packets: &mut Vec<Packet>,
    )
        requires
            chunks_sendable(chunks@),
        ensures
            old(raw_packets)@.len() <= final(raw_packets)@.len(),
            final(raw_packets)@.take(old(raw_packets)@.len() as int) == old(raw_packets)@,
            ({
                let new = final(raw_packets)@.skip(old(raw_packets)@.len() as int);
                &&& bundled(groups_of(new), chunks@, self.mtu)
                &&& forall|k: int|
                    0 <= k < new.len() ==> (#[trigger] new[k]).common_header == self.header()
            }),
    {
        let ghost all = chunks@;
        let ghost before = raw_packets@;
        let ghost mut done: Seq<Packet> = Seq::empty();
        let mut current: Vec<ChunkPayloadData> = Vec::new();
        let mut size: u64 = COMMON_HEADER_SIZE as u64;
        assert(groups_of(done) =~= Seq::empty());
        assert(raw_packets@ =~= before + done);
        for c in it: chunks
            invariant
                it.seq() == all,
                chunks_sendable(all),
                raw_packets@ == before + done,
                forall|k: int|
                    0 <= k < done.len() ==> (#[trigger] done[k]).common_header == self.header(),
                size == packet_size(current@),
                size <= self.mtu || size <= COMMON_HEADER_SIZE + MAX_CHUNK_SIZE + 1,
                it.index() == 0 ==> done.len() == 0 && current@.len() == 0,
                it.index() > 0 ==> current@.len() > 0 && bundled(
                    groups_of(done).push(current@),
                    all.take(it.index() as int),
                    self.mtu,
                ),
        {
            let ghost i = it.index() as int;
            assert(c == all[i]);
            assert(all.take(i + 1) =~= all.take(i).push(c));
            let chunk_size: u32 = wire_size(&c);
            if current.len() > 0 && size + chunk_size as u64 <= self.mtu as u64 {
                proof {
                    lemma_extend_group(groups_of(done), current@, c, all.take(i), self.mtu);
                }
                current.push(c);
                size = size + chunk_size as u64;
            } else {
                let ghost groups = groups_of(done);
                if current.len() > 0 {
                    let mut full: Vec<ChunkPayloadData> = Vec::new();
                    std::mem::swap(&mut full, &mut current);
                    let packet = self.create_packet(full);
                    proof {
                        done = done.push(packet);
                        assert(groups_of(done) =~= groups.push(packet.chunks@));
                    }
                    raw_packets.push(packet);
                    assert(raw_packets@ =~= before + done);
                }
                proof {
                    if i == 0 {
                        assert(all.take(0) =~= Seq::empty());
                        assert(bundled(groups_of(done), all.take(0), self.mtu));
                    }
                    lemma_open_group(groups_of(done), c, all.take(i), self.mtu);
                }
                current.push(c);
                assert(current@ =~= seq![c]);
                size = COMMON_HEADER_SIZE as u64 + chunk_size as u64;
            }
        }
        assert(all.take(all.len() as int) =~= all);
        if current.len() > 0 {
            let ghost groups = groups_of(done);
            let packet = self.create_packet(current);
            proof {
                done = done.push(packet);
                assert(groups_of(done) =~= groups.push(packet.chunks@));
            }
            raw_packets.push(packet);
            assert(raw_packets@ =~= before + done);
        } else {
            assert(groups_of(done) =~= Seq::empty());
            assert(all =~= Seq::empty());
        }
        assert(bundled(groups_of(done), all, self.mtu));
        assert(raw_packets@.skip(before.len() as int) =~= done);
        assert(raw_packets@.take(before.len() as int) =~= before);
    }
}

} // verus!
