//! What a pending queue holds, and what its operations do to it.

use crate::chunk::ChunkPayloadData;
use vstd::prelude::*;

verus! {

/// What a pending queue holds. Ordered and unordered chunks wait in lanes of
/// their own.
pub struct PendingQueueView {
    /// The unordered chunks, the oldest first.
    pub unordered: Seq<ChunkPayloadData>,
    /// The ordered chunks, the oldest first.
    pub ordered: Seq<ChunkPayloadData>,
    /// How many chunks have left the unordered lane, modulo 2^64.
    pub unordered_popped: u64,
    /// How many chunks have left the ordered lane, modulo 2^64.
    pub ordered_popped: u64,
    /// The number of chunks in both lanes.
    pub queue_len: nat,
    /// The number of payload bytes in both lanes.
    pub n_bytes: nat,
    /// A message has left in part, and the rest of it comes next.
    pub selected: bool,
    /// The lane of the message that has left in part.
    pub unordered_is_selected: bool,
}

/// The number of payload bytes of the chunks.
pub open spec fn sizes(chunks: Seq<ChunkPayloadData>) -> nat
    decreases chunks.len(),
{
    if chunks.len() == 0 {
        0
    } else {
        chunks[0].size() + sizes(chunks.drop_first())
    }
}

/// The chunk at position `i` cannot belong to the message that the first chunk
/// of the lane belongs to.
pub open spec fn breaks_message(lane: Seq<ChunkPayloadData>, i: int) -> bool {
    ||| i != 0 && lane[i].beginning_fragment
    ||| lane[i].stream_identifier != lane[0].stream_identifier
    ||| lane[i].stream_sequence_number != lane[0].stream_sequence_number
    ||| lane[i].stream_generation != lane[0].stream_generation
}

/// The first `n` chunks of the lane belong to one message and do not end it.
pub open spec fn message_continues(lane: Seq<ChunkPayloadData>, n: int) -> bool {
    &&& 0 <= n <= lane.len()
    &&& forall|j: int|
        0 <= j < n ==> !breaks_message(lane, j) && !(#[trigger] lane[j]).ending_fragment
}

/// The message at the front of the lane is made of its first `n` chunks.
pub open spec fn message_takes(lane: Seq<ChunkPayloadData>, n: int) -> bool {
    &&& 0 < n <= lane.len()
    &&& message_continues(lane, n - 1)
    &&& !breaks_message(lane, n - 1)
    &&& lane[n - 1].ending_fragment
}

/// A chunk of another message comes before the end of the message at the front
/// of the lane.
pub open spec fn message_broken(lane: Seq<ChunkPayloadData>) -> bool {
    exists|i: int|
        0 <= i < lane.len() && #[trigger] message_continues(lane, i) && breaks_message(lane, i)
}

/// The front of the lane holds the rest of a message.
pub open spec fn has_message(lane: Seq<ChunkPayloadData>) -> bool {
    exists|n: int| #[trigger] message_takes(lane, n)
}

impl PendingQueueView {
    /// The queue with nothing in it.
    pub open spec fn empty() -> PendingQueueView {
        PendingQueueView {
            unordered: Seq::empty(),
            ordered: Seq::empty(),
            unordered_popped: 0,
            ordered_popped: 0,
            queue_len: 0,
            n_bytes: 0,
            selected: false,
            unordered_is_selected: false,
        }
    }

    /// The parts of the queue agree with each other: each chunk waits in its
    /// lane, and the counts are those of the two lanes.
    pub open spec fn wf(self) -> bool {
        &&& forall|i: int| 0 <= i < self.unordered.len() ==> (#[trigger] self.unordered[i]).unordered
        &&& forall|i: int| 0 <= i < self.ordered.len() ==> !(#[trigger] self.ordered[i]).unordered
        &&& self.queue_len == self.unordered.len() + self.ordered.len()
        &&& self.n_bytes == sizes(self.unordered) + sizes(self.ordered)
    }

    /// One of the lanes.
    pub open spec fn lane(self, unordered: bool) -> Seq<ChunkPayloadData> {
        if unordered {
            self.unordered
        } else {
            self.ordered
        }
    }

    /// How many chunks have left one of the lanes, modulo 2^64.
    pub open spec fn popped(self, unordered: bool) -> u64 {
        if unordered {
            self.unordered_popped
        } else {
            self.ordered_popped
        }
    }

    /// The lane that the next chunk comes from: that of the message that has
    /// left in part, else the unordered lane unless it is empty.
    pub open spec fn next_lane(self) -> bool {
        if self.selected {
            self.unordered_is_selected
        } else {
            self.unordered.len() > 0
        }
    }

    /// The next chunk.
    pub open spec fn next(self) -> Option<ChunkPayloadData> {
        let lane = self.lane(self.next_lane());
        if lane.len() > 0 {
            Some(lane[0])
        } else {
            None
        }
    }

    /// The place of the next chunk: its lane and how many chunks have left the
    /// lane before it, modulo 2^64.
    pub open spec fn front(self) -> Option<(bool, u64)> {
        match self.next() {
            Some(c) => Some((c.unordered, self.popped(c.unordered))),
            None => None,
        }
    }

    /// The queue with a chunk added.
    pub open spec fn with_pushed(self, c: ChunkPayloadData) -> PendingQueueView {
        PendingQueueView {
            unordered: if c.unordered {
                self.unordered.push(c)
            } else {
                self.unordered
            },
            ordered: if c.unordered {
                self.ordered
            } else {
                self.ordered.push(c)
            },
            queue_len: self.queue_len + 1,
            n_bytes: self.n_bytes + c.size(),
            ..self
        }
    }

    /// The queue without the first `n` chunks of a lane.
    pub open spec fn without_front(self, unordered: bool, n: int) -> PendingQueueView {
        let lane = self.lane(unordered);
        PendingQueueView {
            unordered: if unordered {
                lane.skip(n)
            } else {
                self.unordered
            },
            ordered: if unordered {
                self.ordered
            } else {
                lane.skip(n)
            },
            unordered_popped: if unordered {
                self.unordered_popped.wrapping_add(n as u64)
            } else {
                self.unordered_popped
            },
            ordered_popped: if unordered {
                self.ordered_popped
            } else {
                self.ordered_popped.wrapping_add(n as u64)
            },
            queue_len: (self.queue_len - n) as nat,
            n_bytes: (self.n_bytes - sizes(lane.take(n))) as nat,
            ..self
        }
    }

    /// The lane that `pop` takes from, if it takes from any. A message that has
    /// left in part is continued; otherwise only a beginning is taken.
    pub open spec fn pop_lane(self, beginning_fragment: bool, unordered: bool) -> Option<bool> {
        if self.selected {
            Some(self.unordered_is_selected)
        } else if beginning_fragment {
            Some(unordered)
        } else {
            None
        }
    }

    /// The chunk that `pop` returns.
    pub open spec fn popped_chunk(self, beginning_fragment: bool, unordered: bool) -> Option<
        ChunkPayloadData,
    > {
        match self.pop_lane(beginning_fragment, unordered) {
            Some(u) => if self.lane(u).len() > 0 {
                Some(self.lane(u)[0])
            } else {
                None
            },
            None => None,
        }
    }

    /// The queue without the first chunk of a lane. The message of the chunk is
    /// then the one to continue, unless the chunk ends it.
    pub open spec fn with_popped(self, unordered: bool) -> PendingQueueView {
        let ends = self.lane(unordered)[0].ending_fragment;
        PendingQueueView {
            selected: !ends,
            unordered_is_selected: if ends {
                self.unordered_is_selected
            } else {
                unordered
            },
            ..self.without_front(unordered, 1)
        }
    }

    /// The queue without the first `n` chunks of a lane, which make up the rest
    /// of a message.
    pub open spec fn with_drained(self, unordered: bool, n: int) -> PendingQueueView {
        PendingQueueView { selected: false, ..self.without_front(unordered, n) }
    }
}

/// The bytes of two lists together.
pub proof fn lemma_sizes_add(a: Seq<ChunkPayloadData>, b: Seq<ChunkPayloadData>)
    ensures
        sizes(a + b) == sizes(a) + sizes(b),
    decreases a.len(),
{
    if a.len() == 0 {
        assert(a + b =~= b);
    } else {
        lemma_sizes_add(a.drop_first(), b);
        assert((a + b).drop_first() =~= a.drop_first() + b);
    }
}

/// The bytes of a list and one chunk more.
pub proof fn lemma_sizes_push(a: Seq<ChunkPayloadData>, c: ChunkPayloadData)
    ensures
        sizes(a.push(c)) == sizes(a) + c.size(),
{
    assert(a.push(c) =~= a + seq![c]);
    lemma_sizes_add(a, seq![c]);
    reveal_with_fuel(sizes, 2);
}

/// The bytes of the two parts of a list.
pub proof fn lemma_sizes_split(a: Seq<ChunkPayloadData>, n: int)
    requires
        0 <= n <= a.len(),
    ensures
        sizes(a) == sizes(a.take(n)) + sizes(a.skip(n)),
{
    assert(a =~= a.take(n) + a.skip(n));
    lemma_sizes_add(a.take(n), a.skip(n));
}

/// Of a lane that is not empty exactly one of three things holds: its front
/// holds the rest of a message, another message cuts in before the end, or the
/// end is missing. The length of the message is determined by the lane.
pub proof fn law_message_cases(lane: Seq<ChunkPayloadData>)
    requires
        lane.len() > 0,
    ensures
        has_message(lane) ==> !message_broken(lane) && !message_continues(lane, lane.len() as int),
        message_broken(lane) ==> !message_continues(lane, lane.len() as int),
        has_message(lane) || message_broken(lane) || message_continues(lane, lane.len() as int),
        forall|m: int, n: int|
            #![trigger message_takes(lane, m), message_takes(lane, n)]
            message_takes(lane, m) && message_takes(lane, n) ==> m == n,
{
    if has_message(lane) {
        let n = choose|n: int| message_takes(lane, n);
        assert(lane[n - 1].ending_fragment);
        if message_broken(lane) {
            let i = choose|i: int|
                0 <= i < lane.len() && #[trigger] message_continues(lane, i) && breaks_message(
                    lane,
                    i,
                );
            if i < n - 1 {
                assert(!lane[i].ending_fragment);
            }
        }
    } else if message_broken(lane) {
        let i = choose|i: int|
            0 <= i < lane.len() && #[trigger] message_continues(lane, i) && breaks_message(lane, i);
        if message_continues(lane, lane.len() as int) {
            assert(!lane[i].ending_fragment);
        }
    } else {
        lemma_continues(lane, lane.len() as int);
    }
    assert forall|m: int, n: int|
        #![trigger message_takes(lane, m), message_takes(lane, n)]
        message_takes(lane, m) && message_takes(lane, n) implies m == n by {
        assert(lane[m - 1].ending_fragment);
        assert(lane[n - 1].ending_fragment);
    }
}

proof fn lemma_continues(lane: Seq<ChunkPayloadData>, n: int)
    requires
        0 <= n <= lane.len(),
        !has_message(lane),
        !message_broken(lane),
    ensures
        message_continues(lane, n),
    decreases n,
{
    if n > 0 {
        lemma_continues(lane, n - 1);
        assert(!breaks_message(lane, n - 1));
        assert(!message_takes(lane, n));
    }
}

/// Adding a chunk keeps the queue well formed.
pub proof fn law_pending_push_keeps_wf(v: PendingQueueView, c: ChunkPayloadData)
    requires
        v.wf(),
    ensures
        v.with_pushed(c).wf(),
{
    lemma_sizes_push(v.unordered, c);
    lemma_sizes_push(v.ordered, c);
}

/// Taking chunks from the front of a lane keeps the queue well formed.
pub proof fn law_take_keeps_wf(v: PendingQueueView, unordered: bool, n: int)
    requires
        v.wf(),
        0 <= n <= v.lane(unordered).len(),
    ensures
        v.without_front(unordered, n).wf(),
        sizes(v.lane(unordered).take(n)) <= v.n_bytes,
{
    lemma_sizes_split(v.lane(unordered), n);
}

} // verus!
