//! What the operations of a pending queue do to its chunks, in terms of the
//! fields of the chunks.

use crate::chunk::ChunkPayloadData;
use crate::octets::bytes_content;
use crate::queue::pending_model::{
    breaks_message, has_message, law_message_cases, lemma_sizes_push, lemma_sizes_split,
    message_broken, message_continues, message_takes, sizes, PendingQueueView,
};
use vstd::prelude::*;

verus! {

/// A new queue holds nothing, and nothing has left it.
pub proof fn law_new_pending_queue_is_empty()
    ensures
        PendingQueueView::empty().unordered == Seq::<ChunkPayloadData>::empty(),
        PendingQueueView::empty().ordered == Seq::<ChunkPayloadData>::empty(),
        PendingQueueView::empty().unordered_popped == 0,
        PendingQueueView::empty().ordered_popped == 0,
        PendingQueueView::empty().queue_len == 0,
        PendingQueueView::empty().n_bytes == 0,
        !PendingQueueView::empty().selected,
        PendingQueueView::empty().wf(),
{
}

/// A chunk is added at the end of the lane of its kind and is counted with its
/// payload; nothing else changes.
pub proof fn law_push_appends_to_the_lane(v: PendingQueueView, c: ChunkPayloadData)
    ensures
        v.with_pushed(c).unordered == if c.unordered {
            v.unordered.push(c)
        } else {
            v.unordered
        },
        v.with_pushed(c).ordered == if c.unordered {
            v.ordered
        } else {
            v.ordered.push(c)
        },
        v.with_pushed(c).queue_len == v.queue_len + 1,
        v.with_pushed(c).n_bytes == v.n_bytes + bytes_content(c.user_data).len(),
        v.with_pushed(c).unordered_popped == v.unordered_popped,
        v.with_pushed(c).ordered_popped == v.ordered_popped,
        v.with_pushed(c).selected == v.selected,
        v.with_pushed(c).unordered_is_selected == v.unordered_is_selected,
{
}

/// The next chunk is the first of the lane of a message that has left in part;
/// if there is no such message, the first unordered chunk, and the first ordered
/// one if there is none. Its position is its kind and the number of chunks of
/// that kind that have left.
pub proof fn law_next_chunk(v: PendingQueueView)
    requires
        v.wf(),
    ensures
        v.lane(true) == v.unordered,
        v.lane(false) == v.ordered,
        v.selected && v.unordered_is_selected && v.unordered.len() > 0 ==> v.next() == Some(
            v.unordered[0],
        ) && v.front() == Some((true, v.unordered_popped)),
        v.selected && v.unordered_is_selected && v.unordered.len() == 0 ==> v.next() is None
            && v.front() is None,
        v.selected && !v.unordered_is_selected && v.ordered.len() > 0 ==> v.next() == Some(
            v.ordered[0],
        ) && v.front() == Some((false, v.ordered_popped)),
        v.selected && !v.unordered_is_selected && v.ordered.len() == 0 ==> v.next() is None
            && v.front() is None,
        !v.selected && v.unordered.len() > 0 ==> v.next() == Some(v.unordered[0]) && v.front()
            == Some((true, v.unordered_popped)),
        !v.selected && v.unordered.len() == 0 && v.ordered.len() > 0 ==> v.next() == Some(
            v.ordered[0],
        ) && v.front() == Some((false, v.ordered_popped)),
        !v.selected && v.unordered.len() == 0 && v.ordered.len() == 0 ==> v.next() is None
            && v.front() is None,
{
}

/// While a message has left in part, a pop takes the next chunk of its lane,
/// whatever is asked for. Otherwise it takes the first chunk of the lane that is
/// asked for, and nothing unless a beginning is asked for.
pub proof fn law_popped_chunk(v: PendingQueueView, beginning_fragment: bool, unordered: bool)
    ensures
        v.selected && v.unordered_is_selected ==> v.popped_chunk(beginning_fragment, unordered)
            == first_of(v.unordered),
        v.selected && !v.unordered_is_selected ==> v.popped_chunk(beginning_fragment, unordered)
            == first_of(v.ordered),
        !v.selected && !beginning_fragment ==> v.popped_chunk(beginning_fragment, unordered) is None,
        !v.selected && beginning_fragment && unordered ==> v.popped_chunk(
            beginning_fragment,
            unordered,
        ) == first_of(v.unordered),
        !v.selected && beginning_fragment && !unordered ==> v.popped_chunk(
            beginning_fragment,
            unordered,
        ) == first_of(v.ordered),
{
}

/// The first chunk of a lane, if it has one.
pub open spec fn first_of(lane: Seq<ChunkPayloadData>) -> Option<ChunkPayloadData> {
    if lane.len() == 0 {
        None
    } else {
        Some(lane[0])
    }
}

/// What a pop leaves: the lane without its first chunk, the counts without that
/// chunk and its payload, one more chunk that has left the lane, and the message
/// as the one to continue exactly if the chunk does not end it.
pub proof fn law_queue_after_a_pop(v: PendingQueueView, unordered: bool)
    requires
        v.wf(),
        (if unordered {
            v.unordered
        } else {
            v.ordered
        }).len() > 0,
    ensures
        ({
            let c = if unordered {
                v.unordered[0]
            } else {
                v.ordered[0]
            };
            let w = v.with_popped(unordered);
            &&& w.unordered == if unordered {
                v.unordered.drop_first()
            } else {
                v.unordered
            }
            &&& w.ordered == if unordered {
                v.ordered
            } else {
                v.ordered.drop_first()
            }
            &&& w.queue_len + 1 == v.queue_len
            &&& w.n_bytes + bytes_content(c.user_data).len() == v.n_bytes
            &&& w.unordered_popped == if unordered {
                v.unordered_popped.wrapping_add(1)
            } else {
                v.unordered_popped
            }
            &&& w.ordered_popped == if unordered {
                v.ordered_popped
            } else {
                v.ordered_popped.wrapping_add(1)
            }
            &&& w.selected == !c.ending_fragment
            &&& !c.ending_fragment ==> w.unordered_is_selected == unordered
            &&& w.wf()
        }),
{
    let lane = v.lane(unordered);
    lemma_sizes_split(lane, 1);
    assert(lane.take(1) =~= Seq::empty().push(lane[0]));
    lemma_sizes_push(Seq::empty(), lane[0]);
    assert(lane.skip(1) =~= lane.drop_first());
}

/// What a drain of the first `n` chunks of a lane leaves: the lane without them,
/// the counts without them and their payload, so many more chunks that have left
/// the lane, and no message to continue.
pub proof fn law_queue_after_a_drain(v: PendingQueueView, unordered: bool, n: int)
    requires
        v.wf(),
        0 <= n <= (if unordered {
            v.unordered
        } else {
            v.ordered
        }).len(),
    ensures
        ({
            let lane = if unordered {
                v.unordered
            } else {
                v.ordered
            };
            let w = v.with_drained(unordered, n);
            &&& w.unordered == if unordered {
                lane.skip(n)
            } else {
                v.unordered
            }
            &&& w.ordered == if unordered {
                v.ordered
            } else {
                lane.skip(n)
            }
            &&& w.queue_len + n == v.queue_len
            &&& w.n_bytes + lane.take(n).fold_right_alt(
                |c: ChunkPayloadData, sum: nat| bytes_content(c.user_data).len() + sum,
                0nat,
            ) == v.n_bytes
            &&& w.unordered_popped == if unordered {
                v.unordered_popped.wrapping_add(n as u64)
            } else {
                v.unordered_popped
            }
            &&& w.ordered_popped == if unordered {
                v.ordered_popped
            } else {
                v.ordered_popped.wrapping_add(n as u64)
            }
            &&& !w.selected
            &&& w.wf()
        }),
{
    let lane = v.lane(unordered);
    lemma_sizes_split(lane, n);
    lemma_bytes_are_summed(lane.take(n));
}

proof fn lemma_bytes_are_summed(chunks: Seq<ChunkPayloadData>)
    ensures
        sizes(chunks) == chunks.fold_right_alt(
            |c: ChunkPayloadData, sum: nat| bytes_content(c.user_data).len() + sum,
            0nat,
        ),
    decreases chunks.len(),
{
    if chunks.len() > 0 {
        lemma_bytes_are_summed(chunks.drop_first());
    }
}

/// A queue is well formed when each chunk waits in the lane of its kind, and the
/// counts are the number of chunks in both lanes and the sum of their payloads.
pub proof fn law_well_formed_pending_queue(v: PendingQueueView)
    ensures
        v.wf() <==> {
            &&& forall|i: int|
                0 <= i < v.unordered.len() ==> (#[trigger] v.unordered[i]).unordered
            &&& forall|i: int| 0 <= i < v.ordered.len() ==> !(#[trigger] v.ordered[i]).unordered
            &&& v.queue_len == v.unordered.len() + v.ordered.len()
            &&& v.n_bytes == v.unordered.fold_right_alt(
                |c: ChunkPayloadData, sum: nat| bytes_content(c.user_data).len() + sum,
                0nat,
            ) + v.ordered.fold_right_alt(
                |c: ChunkPayloadData, sum: nat| bytes_content(c.user_data).len() + sum,
                0nat,
            )
        },
{
    lemma_bytes_are_summed(v.unordered);
    lemma_bytes_are_summed(v.ordered);
}

/// A chunk belongs to the message at the front of its lane exactly if it has the
/// stream, the sequence number and the generation of the first chunk and, unless
/// it is the first itself, no B bit. Payload, TSN and state play no part.
pub proof fn law_fragments_of_one_message(lane: Seq<ChunkPayloadData>, i: int)
    requires
        0 <= i < lane.len(),
    ensures
        !breaks_message(lane, i) <==> {
            &&& lane[i].stream_identifier == lane[0].stream_identifier
            &&& lane[i].stream_sequence_number == lane[0].stream_sequence_number
            &&& lane[i].stream_generation == lane[0].stream_generation
            &&& i > 0 ==> !lane[i].beginning_fragment
        },
{
}

/// The first `n` chunks of a lane are the rest of a message exactly if they share
/// stream, sequence number and generation, none after the first has the B bit,
/// and the last is the only one with the E bit. There is then no other such `n`,
/// and neither error applies.
pub proof fn law_complete_message_is_found(lane: Seq<ChunkPayloadData>, n: int)
    requires
        0 < n <= lane.len(),
    ensures
        message_takes(lane, n) <==> {
            &&& forall|i: int|
                0 <= i < n ==> (#[trigger] lane[i]).stream_identifier == lane[0].stream_identifier
                    && lane[i].stream_sequence_number == lane[0].stream_sequence_number
                    && lane[i].stream_generation == lane[0].stream_generation
            &&& forall|i: int| 0 < i < n ==> !(#[trigger] lane[i]).beginning_fragment
            &&& forall|i: int| 0 <= i < n - 1 ==> !(#[trigger] lane[i]).ending_fragment
            &&& lane[n - 1].ending_fragment
        },
        message_takes(lane, n) ==> has_message(lane) && !message_broken(lane)
            && !message_continues(lane, lane.len() as int),
        message_takes(lane, n) ==> forall|m: int| #[trigger] message_takes(lane, m) ==> m == n,
{
    law_message_cases(lane);
    if message_takes(lane, n) {
        assert forall|i: int| 0 <= i < n implies (#[trigger] lane[i]).stream_identifier
            == lane[0].stream_identifier && lane[i].stream_sequence_number
            == lane[0].stream_sequence_number && lane[i].stream_generation
            == lane[0].stream_generation && (i > 0 ==> !lane[i].beginning_fragment) by {
            assert(!breaks_message(lane, i));
        }
    }
}

/// A message is broken exactly if some chunk comes before its end that has
/// another stream, sequence number or generation, or a B bit of its own.
pub proof fn law_broken_message_is_found(lane: Seq<ChunkPayloadData>, i: int)
    requires
        0 < i < lane.len(),
        forall|j: int| 0 <= j < i ==> !(#[trigger] lane[j]).ending_fragment,
        lane[i].beginning_fragment || lane[i].stream_identifier != lane[0].stream_identifier
            || lane[i].stream_sequence_number != lane[0].stream_sequence_number
            || lane[i].stream_generation != lane[0].stream_generation,
    ensures
        message_broken(lane),
        !has_message(lane),
        !message_continues(lane, lane.len() as int),
    decreases i,
{
    law_message_cases(lane);
    if message_continues(lane, i) {
        assert(breaks_message(lane, i));
    } else {
        let j = choose|j: int|
            0 <= j < i && !(!breaks_message(lane, j) && !(#[trigger] lane[j]).ending_fragment);
        assert(breaks_message(lane, j));
        law_broken_message_is_found(lane, j);
    }
}

/// A broken message has such a chunk.
pub proof fn law_broken_message_has_an_intruder(lane: Seq<ChunkPayloadData>) -> (i: int)
    requires
        message_broken(lane),
    ensures
        0 < i < lane.len(),
        forall|j: int| 0 <= j < i ==> !(#[trigger] lane[j]).ending_fragment,
        lane[i].beginning_fragment || lane[i].stream_identifier != lane[0].stream_identifier
            || lane[i].stream_sequence_number != lane[0].stream_sequence_number
            || lane[i].stream_generation != lane[0].stream_generation,
{
    let i = choose|i: int|
        0 <= i < lane.len() && #[trigger] message_continues(lane, i) && breaks_message(lane, i);
    assert(!breaks_message(lane, 0));
    i
}

/// The end of a message is missing exactly if all chunks of the lane share
/// stream, sequence number and generation, none after the first has the B bit and
/// none at all the E bit.
pub proof fn law_missing_end_is_found(lane: Seq<ChunkPayloadData>)
    requires
        lane.len() > 0,
    ensures
        message_continues(lane, lane.len() as int) <==> {
            &&& forall|i: int|
                0 <= i < lane.len() ==> (#[trigger] lane[i]).stream_identifier
                    == lane[0].stream_identifier && lane[i].stream_sequence_number
                    == lane[0].stream_sequence_number && lane[i].stream_generation
                    == lane[0].stream_generation && !lane[i].ending_fragment
            &&& forall|i: int| 0 < i < lane.len() ==> !(#[trigger] lane[i]).beginning_fragment
        },
{
    if message_continues(lane, lane.len() as int) {
        assert forall|i: int| 0 <= i < lane.len() implies (#[trigger] lane[i]).stream_identifier
            == lane[0].stream_identifier && lane[i].stream_sequence_number
            == lane[0].stream_sequence_number && lane[i].stream_generation
            == lane[0].stream_generation && !lane[i].ending_fragment && (i > 0
            ==> !lane[i].beginning_fragment) by {
            assert(!breaks_message(lane, i));
        }
    }
}

/// Two lanes whose chunks agree in stream, sequence number, generation and the B
/// and E bits hold the same message, or fail in the same way, whatever payload
/// their chunks carry.
pub proof fn law_payload_plays_no_part_in_a_message(
    a: Seq<ChunkPayloadData>,
    b: Seq<ChunkPayloadData>,
    n: int,
)
    requires
        a.len() == b.len(),
        forall|i: int|
            #![trigger a[i]]
            #![trigger b[i]]
            0 <= i < a.len() ==> a[i].stream_identifier == b[i].stream_identifier
                && a[i].stream_sequence_number == b[i].stream_sequence_number
                && a[i].stream_generation == b[i].stream_generation && a[i].beginning_fragment
                == b[i].beginning_fragment && a[i].ending_fragment == b[i].ending_fragment,
    ensures
        message_takes(a, n) <==> message_takes(b, n),
        has_message(a) <==> has_message(b),
        message_broken(a) <==> message_broken(b),
        message_continues(a, n) <==> message_continues(b, n),
{
    assert forall|i: int| 0 <= i < a.len() implies #[trigger] breaks_message(a, i)
        == breaks_message(b, i) by {
        assert(a[i].stream_identifier == b[i].stream_identifier);
        assert(a[0].stream_identifier == b[0].stream_identifier);
    }
    lemma_messages_agree(a, b);
    lemma_messages_agree(b, a);
}

proof fn lemma_messages_agree(a: Seq<ChunkPayloadData>, b: Seq<ChunkPayloadData>)
    requires
        a.len() == b.len(),
        forall|i: int|
            #![trigger breaks_message(a, i)]
            #![trigger breaks_message(b, i)]
            0 <= i < a.len() ==> breaks_message(a, i) == breaks_message(b, i),
        forall|i: int|
            #![trigger a[i]]
            #![trigger b[i]]
            0 <= i < a.len() ==> a[i].ending_fragment == b[i].ending_fragment,
    ensures
        forall|n: int| #[trigger] message_continues(a, n) ==> message_continues(b, n),
        forall|n: int| #[trigger] message_takes(a, n) ==> message_takes(b, n),
        has_message(a) ==> has_message(b),
        message_broken(a) ==> message_broken(b),
{
    assert forall|n: int| #[trigger] message_continues(a, n) implies message_continues(b, n) by {
        assert forall|j: int| 0 <= j < n implies !breaks_message(b, j) && !(
        #[trigger] b[j]).ending_fragment by {
            assert(!breaks_message(a, j) && !a[j].ending_fragment);
        }
    }
    assert forall|n: int| #[trigger] message_takes(a, n) implies message_takes(b, n) by {
        assert(message_continues(a, n - 1));
    }
    if has_message(a) {
        let n = choose|n: int| #[trigger] message_takes(a, n);
        assert(message_takes(b, n));
    }
    if message_broken(a) {
        let i = choose|i: int|
            0 <= i < a.len() && #[trigger] message_continues(a, i) && breaks_message(a, i);
        assert(message_continues(b, i) && breaks_message(b, i));
    }
}

} // verus!
