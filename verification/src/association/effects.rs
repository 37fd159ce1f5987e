//! What the operations of an association do, in terms of its fields and of plain
//! arithmetic.

use crate::association::bundle::{bundled, groups_of, joined};
use crate::association::forward_tsn::{
    closes_at, dropped_through, greatest, listed, listed_at, skip_target, streams_wf,
    ChunkForwardTsnStream,
};
use crate::association::handshake::{min16, AssociationState, CT_FORWARD_TSN, CT_RECONFIG};
use crate::association::{initial_window, saturated, Association};
use crate::chunk::ChunkPayloadData;
use crate::octets::bytes_content;
use crate::packet::{
    law_packet_size_is_the_sum, Packet, COMMON_HEADER_SIZE, DATA_CHUNK_HEADER_SIZE,
};
use crate::queue::payload_effects::law_newer_tsns_follow;
use crate::queue::payload_model::PayloadQueueView;
use crate::serial::{distance, serial_le};
use vstd::prelude::*;

verus! {

/// An association that was just set up is closed, has agreed on nothing, has
/// received nothing, owes no acknowledgment and has given nothing up.
pub proof fn law_fresh_association(a: Association)
    requires
        a.untouched(),
    ensures
        a.state is Closed,
        !a.handshake_completed,
        a.source_port == 0,
        a.destination_port == 0,
        a.peer_verification_tag == 0,
        !a.use_forward_tsn,
        a.peer_last_tsn == 0,
        a.payload_queue@.chunks == Map::<u32, ChunkPayloadData>::empty(),
        a.payload_queue@.sorted == Seq::<u32>::empty(),
        a.payload_queue@.duplicates == Seq::<u32>::empty(),
        a.payload_queue@.n_bytes == 0,
        a.ack_state is Idle,
        !a.delayed_ack_triggered,
        !a.immediate_ack_triggered,
        a.cumulative_tsn_ack_point == 0,
        a.advanced_peer_tsn_ack_point == 0,
        a.fwd_tsn_streams@ == Seq::<ChunkForwardTsnStream>::empty(),
{
}

/// The start window is four times a small MTU, 4380 bytes for a middle one and
/// twice a large one, up to what 32 bits can hold.
pub proof fn law_start_window(mtu: u32)
    ensures
        mtu <= 1095 ==> initial_window(mtu) == 4 * mtu,
        1095 <= mtu <= 2190 ==> initial_window(mtu) == 4380,
        2190 <= mtu <= 0x7fff_ffff ==> initial_window(mtu) == 2 * mtu,
        mtu >= 0x8000_0000 ==> initial_window(mtu) == 0xffff_ffff,
{
}

/// A larger MTU has no smaller start window.
pub proof fn law_start_window_grows(a: u32, b: u32)
    requires
        a <= b,
    ensures
        initial_window(a) <= initial_window(b),
{
}

/// The MTU for a payload is 28 bytes more, up to what 32 bits can hold.
pub proof fn law_mtu_for_a_payload(max_payload_size: u32)
    ensures
        max_payload_size <= 0xffff_ffff - 28 ==> saturated(
            max_payload_size + COMMON_HEADER_SIZE + DATA_CHUNK_HEADER_SIZE,
        ) == max_payload_size + 28,
        max_payload_size > 0xffff_ffff - 28 ==> saturated(
            max_payload_size + COMMON_HEADER_SIZE + DATA_CHUNK_HEADER_SIZE,
        ) == 0xffff_ffff,
{
}

/// An INIT is refused in exactly those states in which an association is
/// established or being closed.
pub proof fn law_states_that_refuse_an_init(s: AssociationState)
    ensures
        !s.expects_init() <==> s is Established || s is ShutdownAckSent || s is ShutdownPending
            || s is ShutdownReceived || s is ShutdownSent,
{
}

/// Of two numbers of streams the one that neither end exceeds is taken.
pub proof fn law_smaller_number_of_streams(a: u16, b: u16)
    ensures
        min16(a, b) <= a,
        min16(a, b) <= b,
        min16(a, b) == a || min16(a, b) == b,
{
}

/// The extensions that are announced are RE-CONFIG and FORWARD-TSN, so an end
/// that receives them can skip TSNs.
pub proof fn law_announced_extensions()
    ensures
        CT_FORWARD_TSN == 192,
        CT_RECONFIG == 130,
        seq![CT_RECONFIG, CT_FORWARD_TSN].contains(CT_FORWARD_TSN),
{
    assert(seq![CT_RECONFIG, CT_FORWARD_TSN][1] == CT_FORWARD_TSN);
}

/// Packets to the peer go from this end's port to the peer's, with the tag that
/// the peer has asked for.
pub proof fn law_packets_are_addressed_to_the_peer(a: Association)
    ensures
        a.header().source_port == a.source_port,
        a.header().destination_port == a.destination_port,
        a.header().verification_tag == a.peer_verification_tag,
{
}

/// An association is well formed when its payload queue is, all TSNs in it lie in
/// the half circle after the last one that counts as received, and no stream is
/// listed twice.
pub proof fn law_well_formed_association(a: Association)
    ensures
        a.wf() <==> {
            &&& a.payload_queue@.wf()
            &&& forall|t: u32| #[trigger]
                a.payload_queue@.sorted.contains(t) ==> 0 < (t - a.peer_last_tsn) % 0x1_0000_0000
                    <= 0x8000_0000
            &&& forall|i: int, j: int|
                0 <= i < j < a.fwd_tsn_streams@.len() ==> (
                #[trigger] a.fwd_tsn_streams@[i]).identifier != (
                #[trigger] a.fwd_tsn_streams@[j]).identifier
        },
{
    law_newer_tsns_follow(a.payload_queue@, a.peer_last_tsn);
}

/// A sequence number is listed for a stream exactly if the list holds the pair.
pub proof fn law_listed_sequence_number(
    streams: Seq<ChunkForwardTsnStream>,
    identifier: u16,
    sequence: u16,
)
    requires
        forall|i: int, j: int|
            0 <= i < j < streams.len() ==> (#[trigger] streams[i]).identifier != (
            #[trigger] streams[j]).identifier,
    ensures
        streams_wf(streams),
        listed(streams, identifier) == Some(sequence) <==> streams.contains(
            ChunkForwardTsnStream { identifier, sequence },
        ),
        listed(streams, identifier) is None <==> forall|i: int|
            0 <= i < streams.len() ==> (#[trigger] streams[i]).identifier != identifier,
{
    let pair = ChunkForwardTsnStream { identifier, sequence };
    if streams.contains(pair) {
        let i = choose|i: int| 0 <= i < streams.len() && streams[i] == pair;
        assert(listed_at(streams, identifier, i));
        let k = choose|k: int| listed_at(streams, identifier, k);
        if k < i {
            assert(streams[k].identifier != streams[i].identifier);
        } else if i < k {
            assert(streams[i].identifier != streams[k].identifier);
        }
    }
    if listed(streams, identifier) == Some(sequence) {
        let k = choose|k: int| listed_at(streams, identifier, k);
        assert(streams[k] == pair);
    }
    if listed(streams, identifier) is None {
        assert forall|i: int| 0 <= i < streams.len() implies (#[trigger] streams[i]).identifier
            != identifier by {
            assert(!listed_at(streams, identifier, i));
        }
    }
}

/// The first sequence number that is noted for a stream is listed. A later one
/// takes its place exactly if some steps, but fewer than half a turn, lead to it.
pub proof fn law_newest_sequence_number_is_listed(noted: u16, n: u16)
    ensures
        greatest(None, noted) == noted,
        0 < n < 0x8000 ==> greatest(Some(noted), noted.wrapping_add(n)) == noted.wrapping_add(n),
        n >= 0x8000 || n == 0 ==> greatest(Some(noted), noted.wrapping_add(n)) == noted,
{
}

/// A request that is less than half a turn ahead leads to the TSN that it names,
/// one that is exactly so far leads nowhere, and any other skips nothing new.
pub proof fn law_request_ahead_is_followed(last: u32, n: u32)
    ensures
        0 < n < 0x8000_0000 ==> skip_target(last, last.wrapping_add(n)) == last.wrapping_add(n),
        0 < n < 0x8000_0000 ==> !serial_le(last.wrapping_add(n), last),
        n == 0 || n > 0x8000_0000 ==> serial_le(last.wrapping_add(n), last),
        n == 0x8000_0000 ==> skip_target(last, last.wrapping_add(n)) == last,
{
}

/// A FORWARD-TSN that is `n` steps ahead, fewer than half a turn, is followed at
/// least as far as it asks, and exactly so far if the TSN after that was not
/// received. Beyond it every TSN that is passed was received and the one after
/// the last was not. The chunks that are passed leave the queue, and no others.
pub proof fn law_forward_tsn_skips_as_asked(
    before: PayloadQueueView,
    last: u32,
    n: u32,
    new_last: u32,
    after: PayloadQueueView,
)
    requires
        before.wf(),
        before.newer_than(last),
        0 < n < 0x8000_0000,
        closes_at(before, skip_target(last, last.wrapping_add(n)), new_last),
        dropped_through(before, new_last, after),
    ensures
        n <= (new_last - last) % 0x1_0000_0000 <= 0x8000_0000,
        !before.chunks.contains_key(last.wrapping_add(n).wrapping_add(1)) ==> new_last
            == last.wrapping_add(n),
        forall|m: u32|
            n < m <= (new_last - last) % 0x1_0000_0000 ==> #[trigger] before.chunks.contains_key(
                last.wrapping_add(m),
            ),
        !before.chunks.contains_key(new_last.wrapping_add(1)),
        forall|m: u32| #[trigger]
            after.chunks.contains_key(last.wrapping_add(m)) <==> before.chunks.contains_key(
                last.wrapping_add(m),
            ) && m > (new_last - last) % 0x1_0000_0000,
        forall|t: u32| #[trigger] after.chunks.contains_key(t) ==> after.chunks[t]
            == before.chunks[t],
        after.duplicates == before.duplicates,
{
    let start = last.wrapping_add(n);
    assert(skip_target(last, start) == start);
    let d = distance(start, new_last);
    assert forall|t: u32| #[trigger] before.chunks.contains_key(t) implies 0 < distance(last, t)
        <= 0x8000_0000 by {
        assert(before.sorted.contains(t));
    }
    assert(n + d <= 0x8000_0000) by {
        if d > 0 {
            // No retained TSN lies beyond the half circle, so the walk stops before.
            if n + d > 0x8000_0000 {
                let beyond = last.wrapping_add(0x8000_0001u32);
                assert(distance(last, beyond) == 0x8000_0001);
                assert(0 < distance(start, beyond) <= d);
                assert(before.chunks.contains_key(beyond));
            }
        }
    }
    assert(distance(last, new_last) == n + d);
    assert((new_last - last) % 0x1_0000_0000 == n + d);
    if !before.chunks.contains_key(start.wrapping_add(1)) && d > 0 {
        assert(distance(start, start.wrapping_add(1)) == 1);
        assert(before.chunks.contains_key(start.wrapping_add(1)));
    }
    assert forall|m: u32| n < m <= n + d implies #[trigger] before.chunks.contains_key(
        last.wrapping_add(m),
    ) by {
        assert(distance(start, last.wrapping_add(m)) == m - n);
    }
    assert forall|m: u32| #[trigger]
        after.chunks.contains_key(last.wrapping_add(m)) <==> before.chunks.contains_key(
            last.wrapping_add(m),
        ) && m > n + d by {
        let t = last.wrapping_add(m);
        assert(distance(last, t) == m);
        assert(after.chunks.contains_key(t) <==> before.chunks.contains_key(t) && !serial_le(
            t,
            new_last,
        ));
        if before.chunks.contains_key(t) {
            assert(0 < m <= 0x8000_0000);
            assert(serial_le(t, new_last) <==> m <= n + d);
        }
    }
}

/// How soon progress is acknowledged: with the timer if no acknowledgment is due
/// and no chunk is left beyond a gap, else at once. Nothing but the progress and
/// this decision changes.
pub proof fn law_progress_is_acknowledged(old: Association, new: Association)
    requires
        new == old.with_progress(new),
    ensures
        if new.ack_state is Idle && new.payload_queue@.chunks.len() == 0 {
            new.delayed_ack_triggered && new.immediate_ack_triggered == old.immediate_ack_triggered
        } else {
            new.immediate_ack_triggered && new.delayed_ack_triggered == old.delayed_ack_triggered
        },
        new.state == old.state,
        new.handshake_completed == old.handshake_completed,
        new.source_port == old.source_port,
        new.destination_port == old.destination_port,
        new.peer_verification_tag == old.peer_verification_tag,
        new.my_max_num_outbound_streams == old.my_max_num_outbound_streams,
        new.my_max_num_inbound_streams == old.my_max_num_inbound_streams,
        new.max_message_size == old.max_message_size,
        new.max_payload_size == old.max_payload_size,
        new.mtu == old.mtu,
        new.cwnd == old.cwnd,
        new.use_forward_tsn == old.use_forward_tsn,
        new.ack_state == old.ack_state,
        new.cumulative_tsn_ack_point == old.cumulative_tsn_ack_point,
        new.advanced_peer_tsn_ack_point == old.advanced_peer_tsn_ack_point,
        new.fwd_tsn_streams == old.fwd_tsn_streams,
{
}

/// The packets hold all chunks in their order and none is empty. One with several
/// chunks takes no more than the MTU, and none could have taken the first chunk of
/// the next: the sizes are 12 bytes for a packet and, for each chunk, 16 bytes and
/// the payload, rounded up to a multiple of four.
pub proof fn law_bundles_hold_all_chunks_in_order(
    packets: Seq<Packet>,
    chunks: Seq<ChunkPayloadData>,
    mtu: u32,
    k: int,
)
    requires
        bundled(groups_of(packets), chunks, mtu),
    ensures
        packets.map_values(|p: Packet| p.chunks@).flatten() == chunks,
        0 <= k < packets.len() ==> packets[k].chunks@.len() > 0,
        0 <= k < packets.len() && packets[k].chunks@.len() > 1 ==> packets[k].chunks@.fold_left(
            12int,
            |sum: int, c: ChunkPayloadData|
                sum + (16 + bytes_content(c.user_data).len() + 3) / 4 * 4,
        ) <= mtu,
        0 <= k < packets.len() - 1 ==> packets[k].chunks@.fold_left(
            12int,
            |sum: int, c: ChunkPayloadData|
                sum + (16 + bytes_content(c.user_data).len() + 3) / 4 * 4,
        ) + (16 + bytes_content(packets[k + 1].chunks@[0].user_data).len() + 3) / 4 * 4 > mtu,
{
    let groups = packets.map_values(|p: Packet| p.chunks@);
    assert(groups =~= groups_of(packets));
    lemma_joined_is_flattened(groups);
    groups.lemma_flatten_and_flatten_alt_are_equivalent();
    if 0 <= k < packets.len() {
        assert(groups_of(packets)[k] == packets[k].chunks@);
        law_packet_size_is_the_sum(packets[k].chunks@);
    }
    if 0 <= k < packets.len() - 1 {
        assert(groups_of(packets)[k + 1] == packets[k + 1].chunks@);
    }
}

proof fn lemma_joined_is_flattened(groups: Seq<Seq<ChunkPayloadData>>)
    ensures
        joined(groups) == groups.flatten_alt(),
    decreases groups.len(),
{
    if groups.len() > 0 {
        lemma_joined_is_flattened(groups.drop_last());
    }
}

} // verus!
