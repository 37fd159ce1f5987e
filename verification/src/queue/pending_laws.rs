//! What holds of every pending queue.

use crate::chunk::ChunkPayloadData;
use crate::queue::pending_model::{
    lemma_sizes_push, lemma_sizes_split, message_takes, sizes, PendingQueueView,
};
use vstd::prelude::*;

verus! {

/// Once chunks have left a lane, the position that its first chunk had never
/// comes to the front again, whatever is added to the queue: `w` is any queue
/// from whose lane no further chunk has left. So a repeated request to drain a
/// message cannot consume the next one.
pub proof fn law_left_position_is_spent(
    v: PendingQueueView,
    unordered: bool,
    n: int,
    w: PendingQueueView,
)
    requires
        0 < n <= u64::MAX,
        v.front() == Some((unordered, v.popped(unordered))),
        w.popped(unordered) == v.without_front(unordered, n).popped(unordered),
    ensures
        w.front() != v.front(),
{
}

/// The rest of a message is drained once: the position that was drained is not
/// at the front afterwards, nor after more chunks were added, so that draining
/// it again takes nothing.
pub proof fn law_message_is_drained_once(
    v: PendingQueueView,
    unordered: bool,
    n: int,
    c: ChunkPayloadData,
)
    requires
        v.front() == Some((unordered, v.popped(unordered))),
        message_takes(v.lane(unordered), n),
        n <= u64::MAX,
    ensures
        v.with_drained(unordered, n).front() != v.front(),
        v.with_drained(unordered, n).with_pushed(c).front() != v.front(),
{
    let w = v.with_drained(unordered, n);
    law_left_position_is_spent(v, unordered, n, w);
    law_push_keeps_positions(w, c, unordered);
    law_left_position_is_spent(v, unordered, n, w.with_pushed(c));
}

/// Adding chunks leaves the count of the chunks that have left as it is.
pub proof fn law_push_keeps_positions(v: PendingQueueView, c: ChunkPayloadData, unordered: bool)
    ensures
        v.with_pushed(c).popped(unordered) == v.popped(unordered),
{
}

/// The chunk that `peek` shows is the one that `pop` takes when it is asked
/// for that kind of chunk, provided that the chunk begins a message or
/// continues the one that has left in part.
pub proof fn law_peek_then_pop(v: PendingQueueView, c: ChunkPayloadData)
    requires
        v.wf(),
        v.next() == Some(c),
        v.selected || c.beginning_fragment,
    ensures
        v.popped_chunk(c.beginning_fragment, c.unordered) == Some(c),
{
}

/// While a message has left in part and more of it waits, nothing that is added
/// comes before it.
pub proof fn law_begun_message_is_not_interrupted(v: PendingQueueView, c: ChunkPayloadData)
    requires
        v.selected,
        v.next() is Some,
    ensures
        v.with_pushed(c).next() == v.next(),
{
}

/// Between messages an unordered chunk goes before every ordered one.
pub proof fn law_unordered_goes_first(v: PendingQueueView)
    requires
        !v.selected,
        v.unordered.len() > 0,
    ensures
        v.next() == Some(v.unordered[0]),
{
}

/// Each lane is first in, first out: taking the first chunk and adding a new
/// one can be done in either order.
pub proof fn law_lane_is_first_in_first_out(
    v: PendingQueueView,
    unordered: bool,
    c: ChunkPayloadData,
)
    requires
        v.wf(),
        v.lane(unordered).len() > 0,
    ensures
        v.with_pushed(c).with_popped(unordered) == v.with_popped(unordered).with_pushed(c),
        v.with_pushed(c).lane(unordered)[0] == v.lane(unordered)[0],
{
    let lane = v.lane(unordered);
    lemma_sizes_split(lane, 1);
    assert(v.with_pushed(c).lane(unordered).take(1) =~= lane.take(1));
    let a = v.with_pushed(c).with_popped(unordered);
    let b = v.with_popped(unordered).with_pushed(c);
    assert(a.unordered =~= b.unordered);
    assert(a.ordered =~= b.ordered);
}

/// The queue after `n` chunks of a lane were popped.
pub open spec fn after_pops(v: PendingQueueView, unordered: bool, n: nat) -> PendingQueueView
    decreases n,
{
    if n == 0 {
        v
    } else {
        after_pops(v, unordered, (n - 1) as nat).with_popped(unordered)
    }
}

proof fn lemma_after_pops(v: PendingQueueView, unordered: bool, n: int, k: int)
    requires
        v.wf(),
        v.selected ==> v.unordered_is_selected == unordered,
        message_takes(v.lane(unordered), n),
        n <= u64::MAX,
        0 <= k <= n,
    ensures
        after_pops(v, unordered, k as nat) == (PendingQueueView {
            selected: if k == 0 {
                v.selected
            } else {
                k < n
            },
            unordered_is_selected: if k == 0 || n == 1 {
                v.unordered_is_selected
            } else {
                unordered
            },
            ..v.without_front(unordered, k)
        }),
    decreases k,
{
    let lane = v.lane(unordered);
    if k == 0 {
        assert(lane.skip(0) =~= lane);
        assert(lane.take(0) =~= Seq::empty());
        assert(v.without_front(unordered, 0) == v);
    } else {
        lemma_after_pops(v, unordered, n, k - 1);
        let w = after_pops(v, unordered, (k - 1) as nat);
        let rest = lane.skip(k - 1);
        assert(w.lane(unordered) == rest);
        assert(rest[0] == lane[k - 1]);
        assert(rest.skip(1) =~= lane.skip(k));
        assert(rest.take(1) =~= Seq::empty().push(lane[k - 1]));
        lemma_sizes_push(Seq::empty(), lane[k - 1]);
        assert(lane.take(k) =~= lane.take(k - 1).push(lane[k - 1]));
        lemma_sizes_push(lane.take(k - 1), lane[k - 1]);
        lemma_sizes_split(lane, k);
        assert(k < n ==> !lane[k - 1].ending_fragment);
    }
}

/// Draining a message takes the same chunks, in the same order, as popping it
/// chunk by chunk, and leaves the same queue. (Which lane was selected last is
/// of no account once none is.)
pub proof fn law_drain_is_repeated_pop(v: PendingQueueView, unordered: bool, n: int)
    requires
        v.wf(),
        v.selected ==> v.unordered_is_selected == unordered,
        message_takes(v.lane(unordered), n),
        n <= u64::MAX,
    ensures
        forall|k: int|
            0 <= k < n ==> after_pops(v, unordered, #[trigger] (k as nat)).popped_chunk(
                true,
                unordered,
            ) == Some(v.lane(unordered)[k]),
        v.with_drained(unordered, n) == (PendingQueueView {
            unordered_is_selected: v.unordered_is_selected,
            ..after_pops(v, unordered, n as nat)
        }),
{
    let lane = v.lane(unordered);
    assert forall|k: int| 0 <= k < n implies after_pops(
        v,
        unordered,
        #[trigger] (k as nat),
    ).popped_chunk(true, unordered) == Some(lane[k]) by {
        lemma_after_pops(v, unordered, n, k);
        assert(after_pops(v, unordered, k as nat).lane(unordered) == lane.skip(k));
        assert(lane.skip(k)[0] == lane[k]);
    }
    lemma_after_pops(v, unordered, n, n);
}

/// Draining a message takes its chunks and their bytes out of the counts, and
/// leaves the other lane alone.
pub proof fn law_drain_accounts(v: PendingQueueView, unordered: bool, n: int)
    requires
        v.wf(),
        message_takes(v.lane(unordered), n),
    ensures
        v.with_drained(unordered, n).queue_len == v.queue_len - n,
        v.with_drained(unordered, n).n_bytes + sizes(v.lane(unordered).take(n)) == v.n_bytes,
        v.with_drained(unordered, n).lane(!unordered) == v.lane(!unordered),
        v.lane(unordered) == v.lane(unordered).take(n) + v.with_drained(unordered, n).lane(
            unordered,
        ),
{
    lemma_sizes_split(v.lane(unordered), n);
    assert(v.lane(unordered) =~= v.lane(unordered).take(n) + v.lane(unordered).skip(n));
}

} // verus!
