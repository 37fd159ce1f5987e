//! The chunks that wait to be sent for the first time.

use crate::chunk::ChunkPayloadData;
use crate::error::{other_error, Result};
use crate::queue::pending_model::{
    breaks_message, has_message, law_message_cases, law_pending_push_keeps_wf, law_take_keeps_wf,
    lemma_sizes_push, lemma_sizes_split, message_broken, message_continues, message_takes, sizes, PendingQueueView,
};
use std::collections::VecDeque;
use vstd::prelude::*;

verus! {

/// Chunks of one kind, the oldest first.
pub type PendingBaseQueue = VecDeque<ChunkPayloadData>;

/// Identifies a queued fragment even when its SID, SSN and timestamp are reused.
#[derive(Debug, Copy, Clone, PartialEq, Eq, Structural)]
pub struct PendingPosition {
    unordered: bool,
    position: u64,
}

impl View for PendingPosition {
    type V = (bool, u64);

    closed spec fn view(&self) -> (bool, u64) {
        (self.unordered, self.position)
    }
}

/// A position is its lane and its number: two with the same are equal.
pub proof fn law_position_is_its_view(a: PendingPosition, b: PendingPosition)
    ensures
        a@ == b@ ==> a == b,
{
}

/// Messages that wait to be sent, in fragments. An unordered message goes
/// before the ordered ones, but never between the fragments of another.
#[derive(Debug)]
pub struct PendingQueue {
    unordered_queue: PendingBaseQueue,
    ordered_queue: PendingBaseQueue,
    ordered_popped: u64,
    unordered_popped: u64,
    queue_len: usize,
    n_bytes: usize,
    selected: bool,
    unordered_is_selected: bool,
}

impl View for PendingQueue {
    type V = PendingQueueView;

    closed spec fn view(&self) -> PendingQueueView {
        PendingQueueView {
            unordered: self.unordered_queue@,
            ordered: self.ordered_queue@,
            unordered_popped: self.unordered_popped,
            ordered_popped: self.ordered_popped,
            queue_len: self.queue_len as nat,
            n_bytes: self.n_bytes as nat,
            selected: self.selected,
            unordered_is_selected: self.unordered_is_selected,
        }
    }
}

impl Default for PendingQueue {
    fn default() -> (q: Self)
        ensures
            q@ == PendingQueueView::empty(),
            q@.wf(),
    {
        PendingQueue::new()
    }
}

/// The first chunk of a lane.
fn front(queue: &PendingBaseQueue) -> (r: Option<&ChunkPayloadData>)
    ensures
        match r {
            Some(c) => queue@.len() > 0 && *c == queue@[0],
            None => queue@.len() == 0,
        },
{
    if queue.len() > 0 {
        Some(&queue[0])
    } else {
        None
    }
}

/// Moves the first `count` chunks of a lane into a list.
fn take_front(queue: &mut PendingBaseQueue, count: usize) -> (r: Vec<ChunkPayloadData>)
    requires
        count <= old(queue)@.len(),
    ensures
        r@ == old(queue)@.take(count as int),
        final(queue)@ == old(queue)@.skip(count as int),
{
    let ghost before = queue@;
    let mut chunks: Vec<ChunkPayloadData> = Vec::new();
    let mut i: usize = 0;
    assert(before.skip(0) =~= before);
    while i < count
        invariant
            i <= count <= before.len(),
            chunks@ =~= before.take(i as int),
            queue@ == before.skip(i as int),
        decreases count - i,
    {
        if let Some(c) = queue.pop_front() {
            chunks.push(c);
        }
        i += 1;
        assert(queue@ =~= before.skip(i as int));
    }
    chunks
}

impl PendingQueue {
    /// An empty queue.
    pub fn new() -> (q: Self)
        ensures
            q@ == PendingQueueView::empty(),
            q@.wf(),
    {
        PendingQueue {
            unordered_queue: VecDeque::new(),
            ordered_queue: VecDeque::new(),
            ordered_popped: 0,
            unordered_popped: 0,
            queue_len: 0,
            n_bytes: 0,
            selected: false,
            unordered_is_selected: false,
        }
    }

    /// Adds a chunk at the end of its lane.
    pub fn push(&mut self, c: ChunkPayloadData)
        requires
            old(self)@.wf(),
            old(self)@.n_bytes + c.size() <= usize::MAX,
            old(self)@.queue_len < usize::MAX,
        ensures
            final(self)@ == old(self)@.with_pushed(c),
            final(self)@.wf(),
    {
        self.n_bytes += c.user_data.len();
        if c.unordered {
            self.unordered_queue.push_back(c);
        } else {
            self.ordered_queue.push_back(c);
        }
        self.queue_len += 1;
        proof {
            law_pending_push_keeps_wf(old(self)@, c);
        }
    }

    /// The next chunk.
    pub fn peek(&self) -> (r: Option<&ChunkPayloadData>)
        ensures
            match r {
                Some(c) => self@.next() == Some(*c),
                None => self@.next() is None,
            },
    {
        if self.selected {
            if self.unordered_is_selected {
                return front(&self.unordered_queue);
            } else {
                return front(&self.ordered_queue);
            }
        }
        let c = front(&self.unordered_queue);
        if c.is_some() {
            return c;
        }
        front(&self.ordered_queue)
    }

    /// The place of the next chunk.
    pub fn front_position(&self) -> (r: Option<PendingPosition>)
        ensures
            match r {
                Some(p) => self@.front() == Some(p@),
                None => self@.front() is None,
            },
    {
        match self.peek() {
            Some(c) => {
                let unordered = c.unordered;
                Some(
                    PendingPosition {
                        unordered,
                        position: if unordered {
                            self.unordered_popped
                        } else {
                            self.ordered_popped
                        },
                    },
                )
            },
            None => None,
        }
    }

    /// Finds the end of the message at the front of a lane: how many chunks it
    /// takes and how many bytes they carry.
    fn measure_message(queue: &PendingBaseQueue, unordered: bool) -> (r: Result<(usize, usize)>)
        requires
            queue@.len() > 0,
            forall|i: int| 0 <= i < queue@.len() ==> (#[trigger] queue@[i]).unordered == unordered,
            sizes(queue@) <= usize::MAX,
        ensures
            r is Ok <==> has_message(queue@),
            match r {
                Ok((count, bytes)) => message_takes(queue@, count as int) && bytes == sizes(
                    queue@.take(count as int),
                ),
                Err(e) => {
                    ||| message_broken(queue@) && e.says("invalid pending message fragments"@)
                    ||| message_continues(queue@, queue@.len() as int) && e.says(
                        "pending message has no ending fragment"@,
                    )
                },
            },
    {
        // Validate the complete tail before removing anything. In particular,
        // a missing E bit must not consume the next message's beginning.
        let mut bytes: usize = 0;
        let mut i: usize = 0;
        proof {
            law_message_cases(queue@);
        }
        assert(queue@.take(0) =~= Seq::empty());
        while i < queue.len()
            invariant
                i <= queue@.len(),
                forall|i: int|
                    0 <= i < queue@.len() ==> (#[trigger] queue@[i]).unordered == unordered,
                sizes(queue@) <= usize::MAX,
                message_broken(queue@) ==> !has_message(queue@),
                message_continues(queue@, i as int),
                bytes == sizes(queue@.take(i as int)),
            decreases queue@.len() - i,
        {
            let first = &queue[0];
            let c = &queue[i];
            if (i != 0 && c.beginning_fragment) || c.stream_identifier != first.stream_identifier
                || c.stream_sequence_number != first.stream_sequence_number || c.stream_generation
                != first.stream_generation || c.unordered != unordered {
                assert(breaks_message(queue@, i as int));
                return Err(other_error("invalid pending message fragments"));
            }
            proof {
                assert(queue@.take(i + 1) =~= queue@.take(i as int).push(*c));
                lemma_sizes_push(queue@.take(i as int), *c);
                lemma_sizes_split(queue@, i + 1);
            }
            bytes += c.user_data.len();
            if c.ending_fragment {
                assert(message_takes(queue@, i + 1));
                return Ok((i + 1, bytes));
            }
            i += 1;
        }
        Err(other_error("pending message has no ending fragment"))
    }

    /// Removes the rest of this message once. A repeated call cannot consume
    /// the next message, even when it has the same stream and policy metadata.
    ///
    /// Nothing is removed when the chunk at `position` is not the next one, or
    /// when the chunks that follow it do not make up the rest of a message.
    pub fn drain_message(&mut self, position: PendingPosition) -> (r: Result<Vec<ChunkPayloadData>>)
        requires
            old(self)@.wf(),
        ensures
            final(self)@.wf(),
            ({
                let lane = old(self)@.lane(position@.0);
                if old(self)@.front() != Some(position@) {
                    r matches Ok(chunks) && chunks@.len() == 0 && final(self)@ == old(self)@
                } else {
                    &&& r is Ok <==> (old(self)@.selected || lane[0].beginning_fragment)
                        && has_message(lane)
                    &&& match r {
                        Ok(chunks) => {
                            &&& message_takes(lane, chunks@.len() as int)
                            &&& chunks@ == lane.take(chunks@.len() as int)
                            &&& final(self)@ == old(self)@.with_drained(
                                position@.0,
                                chunks@.len() as int,
                            )
                        },
                        Err(e) => {
                            &&& final(self)@ == old(self)@
                            &&& if !old(self)@.selected && !lane[0].beginning_fragment {
                                e.says("missing pending message beginning"@)
                            } else {
                                ||| message_broken(lane) && e.says(
                                    "invalid pending message fragments"@,
                                )
                                ||| message_continues(lane, lane.len() as int) && e.says(
                                    "pending message has no ending fragment"@,
                                )
                            }
                        },
                    }
                }
            }),
    {
        let ghost before = self@;
        match self.front_position() {
            Some(p) => {
                if p != position {
                    return Ok(Vec::new());
                }
            },
            None => {
                return Ok(Vec::new());
            },
        }
        let ghost lane = before.lane(position@.0);
        let queue = if position.unordered {
            &self.unordered_queue
        } else {
            &self.ordered_queue
        };
        assert(queue@ == lane);
        proof {
            law_take_keeps_wf(before, position@.0, lane.len() as int);
            assert(lane.take(lane.len() as int) =~= lane);
        }
        if !self.selected && !queue[0].beginning_fragment {
            return Err(other_error("missing pending message beginning"));
        }
        let (count, bytes) = match Self::measure_message(queue, position.unordered) {
            Ok(measure) => measure,
            Err(e) => {
                return Err(e);
            },
        };
        proof {
            law_take_keeps_wf(before, position@.0, count as int);
        }
        let chunks = if position.unordered {
            take_front(&mut self.unordered_queue, count)
        } else {
            take_front(&mut self.ordered_queue, count)
        };
        self.queue_len -= count;
        self.n_bytes -= bytes;
        if position.unordered {
            self.unordered_popped = self.unordered_popped.wrapping_add(count as u64);
        } else {
            self.ordered_popped = self.ordered_popped.wrapping_add(count as u64);
        }
        self.selected = false;
        Ok(chunks)
    }

    /// Takes the next chunk of the message that has left in part. If there is
    /// none, takes the first chunk of a lane, provided that the caller expects
    /// the beginning of a message.
    pub fn pop(&mut self, beginning_fragment: bool, unordered: bool) -> (r: Option<
        ChunkPayloadData,
    >)
        requires
            old(self)@.wf(),
        ensures
            final(self)@.wf(),
            r == old(self)@.popped_chunk(beginning_fragment, unordered),
            final(self)@ == match r {
                Some(c) => old(self)@.with_popped(c.unordered),
                None => old(self)@,
            },
    {
        let ghost before = self@;
        let popped = if self.selected {
            let popped = if self.unordered_is_selected {
                self.unordered_queue.pop_front()
            } else {
                self.ordered_queue.pop_front()
            };
            if let Some(p) = &popped {
                if p.ending_fragment {
                    self.selected = false;
                }
            }
            popped
        } else {
            if !beginning_fragment {
                return None;
            }
            if unordered {
                let popped = self.unordered_queue.pop_front();
                if let Some(p) = &popped {
                    if !p.ending_fragment {
                        self.selected = true;
                        self.unordered_is_selected = true;
                    }
                }
                popped
            } else {
                let popped = self.ordered_queue.pop_front();
                if let Some(p) = &popped {
                    if !p.ending_fragment {
                        self.selected = true;
                        self.unordered_is_selected = false;
                    }
                }
                popped
            }
        };
        if let Some(p) = &popped {
            proof {
                let lane = before.lane(p.unordered);
                law_take_keeps_wf(before, p.unordered, 1);
                assert(lane.take(1) =~= seq![*p]);
                lemma_sizes_push(Seq::empty(), *p);
                assert(Seq::empty().push(*p) =~= seq![*p]);
                assert(lane.skip(1) =~= lane.subrange(1, lane.len() as int));
            }
            self.n_bytes -= p.user_data.len();
            self.queue_len -= 1;
            if p.unordered {
                self.unordered_popped = self.unordered_popped.wrapping_add(1);
            } else {
                self.ordered_popped = self.ordered_popped.wrapping_add(1);
            }
        }
        popped
    }

    /// Whether a message has left in part, so that the rest of it comes next.
    pub fn selected(&self) -> (r: bool)
        ensures
            r == self@.selected,
    {
        self.selected
    }

    /// The number of payload bytes in the queue.
    pub fn get_num_bytes(&self) -> (r: usize)
        ensures
            r == self@.n_bytes,
    {
        self.n_bytes
    }

    /// The number of chunks in the queue.
    pub fn len(&self) -> (r: usize)
        ensures
            r == self@.queue_len,
    {
        self.queue_len
    }

    /// Whether no chunk is in the queue.
    pub fn is_empty(&self) -> (r: bool)
        ensures
            r == (self@.queue_len == 0),
    {
        self.len() == 0
    }
}

} // verus!
