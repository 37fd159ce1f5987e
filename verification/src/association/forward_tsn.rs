//! Skipping TSNs whose messages were abandoned.

use crate::association::effects::law_forward_tsn_skips_as_asked;
use crate::association::Association;
use crate::error::{other_error, Result};
use crate::packet::Packet;
use crate::queue::payload_laws::{law_cumulative_step_keeps_newer, law_next_tsn_is_oldest};
use crate::queue::payload_model::PayloadQueueView;
use crate::serial::{
    distance, serial_le, serial_lt, serial_lt16, sna16lt, sna32lt, sna32lte, HALF32,
};
use vstd::prelude::*;

verus! {

/// When the next acknowledgment is sent.
#[derive(Debug, Clone, Copy, PartialEq, Eq, Structural)]
pub enum AckState {
    /// No acknowledgment is due.
    Idle,
    /// With the next packet.
    Immediate,
    /// When the timer for it expires.
    Delay,
}

/// The newest message that is skipped on an ordered stream.
#[derive(Debug, Clone, Copy, PartialEq, Eq, Structural)]
pub struct ChunkForwardTsnStream {
    pub identifier: u16,
    pub sequence: u16,
}

/// The chunk that tells the peer to skip TSNs.
#[derive(Debug)]
pub struct ChunkForwardTsn {
    /// The peer takes everything up to this TSN as received.
    pub new_cumulative_tsn: u32,
    /// The ordered streams on which messages are skipped.
    pub streams: Vec<ChunkForwardTsnStream>,
}

/// No stream is listed twice.
pub open spec fn streams_wf(streams: Seq<ChunkForwardTsnStream>) -> bool {
    forall|i: int, j: int|
        0 <= i < j < streams.len() ==> (#[trigger] streams[i]).identifier != (
        #[trigger] streams[j]).identifier
}

/// The stream is listed at position `i`.
pub open spec fn listed_at(streams: Seq<ChunkForwardTsnStream>, identifier: u16, i: int) -> bool {
    0 <= i < streams.len() && streams[i].identifier == identifier
}

/// The sequence number that is listed for a stream.
pub open spec fn listed(streams: Seq<ChunkForwardTsnStream>, identifier: u16) -> Option<u16> {
    if exists|i: int| listed_at(streams, identifier, i) {
        Some(streams[choose|i: int| listed_at(streams, identifier, i)].sequence)
    } else {
        None
    }
}

/// The greater of the sequence number that was listed and a new one.
pub open spec fn greatest(listed: Option<u16>, sequence: u16) -> u16 {
    match listed {
        Some(s) => if serial_lt16(s, sequence) {
            sequence
        } else {
            s
        },
        None => sequence,
    }
}

/// What is listed for a stream is what stands at its only place in the list.
proof fn lemma_listed(streams: Seq<ChunkForwardTsnStream>, identifier: u16, i: int)
    requires
        streams_wf(streams),
        listed_at(streams, identifier, i),
    ensures
        listed(streams, identifier) == Some(streams[i].sequence),
{
    let k = choose|k: int| listed_at(streams, identifier, k);
    assert(k == i) by {
        if k < i {
            assert(streams[k].identifier != streams[i].identifier);
        } else if i < k {
            assert(streams[i].identifier != streams[k].identifier);
        }
    }
}

/// Two lists that differ only in the sequence number at one place, or by one
/// place more at the end, list the same for every other stream.
proof fn lemma_listed_elsewhere(
    a: Seq<ChunkForwardTsnStream>,
    b: Seq<ChunkForwardTsnStream>,
    at: int,
    identifier: u16,
)
    requires
        streams_wf(a),
        streams_wf(b),
        at < b.len(),
        a.len() <= b.len() <= a.len() + 1,
        b.len() > a.len() ==> at == a.len(),
        b[at].identifier != identifier,
        0 <= at < a.len() ==> a[at].identifier != identifier,
        forall|i: int| 0 <= i < a.len() && i != at ==> a[i] == b[i],
    ensures
        listed(a, identifier) == listed(b, identifier),
{
    if exists|i: int| listed_at(a, identifier, i) {
        let i = choose|i: int| listed_at(a, identifier, i);
        lemma_listed(a, identifier, i);
        assert(listed_at(b, identifier, i));
        lemma_listed(b, identifier, i);
    } else if exists|i: int| listed_at(b, identifier, i) {
        let i = choose|i: int| listed_at(b, identifier, i);
        assert(listed_at(a, identifier, i));
    }
}

/// Where a request to skip to `tsn` leads from `last`: to `tsn`, unless that is
/// half a circle away and so not newer.
pub open spec fn skip_target(last: u32, tsn: u32) -> u32 {
    if serial_lt(last, tsn) {
        tsn
    } else {
        last
    }
}

/// `to` is where the sequence that starts at `from` is closed by chunks of the
/// queue: every TSN after `from` up to `to` is retained, the one after `to` is
/// not.
pub open spec fn closes_at(q: PayloadQueueView, from: u32, to: u32) -> bool {
    &&& distance(from, to) <= HALF32
    &&& forall|t: u32|
        0 < #[trigger] distance(from, t) <= distance(from, to) ==> q.chunks.contains_key(t)
    &&& !q.chunks.contains_key(to.wrapping_add(1))
}

/// `new` holds the chunks of `old` that are newer than `tsn`, and no others.
pub open spec fn dropped_through(old: PayloadQueueView, tsn: u32, new: PayloadQueueView) -> bool {
    &&& forall|t: u32| #[trigger]
        new.chunks.contains_key(t) <==> old.chunks.contains_key(t) && !serial_le(t, tsn)
    &&& forall|t: u32| #[trigger] new.chunks.contains_key(t) ==> new.chunks[t] == old.chunks[t]
    &&& new.duplicates == old.duplicates
}

/// `new` holds the chunks of `old` that lie more than `steps` after `base`.
spec fn dropped_steps(old: PayloadQueueView, base: u32, steps: int, new: PayloadQueueView) -> bool {
    &&& forall|t: u32| #[trigger]
        new.chunks.contains_key(t) <==> old.chunks.contains_key(t) && distance(base, t) > steps
    &&& forall|t: u32| #[trigger] new.chunks.contains_key(t) ==> new.chunks[t] == old.chunks[t]
    &&& new.duplicates == old.duplicates
}

/// Moving on by one TSN, and dropping its chunk if there is one.
proof fn lemma_drop_step(
    old: PayloadQueueView,
    base: u32,
    steps: int,
    now: PayloadQueueView,
    last: u32,
    new: PayloadQueueView,
)
    requires
        dropped_steps(old, base, steps, now),
        steps == distance(base, last),
        steps < HALF32,
        new.chunks == now.chunks.remove(last.wrapping_add(1)),
        new.duplicates == now.duplicates,
    ensures
        dropped_steps(old, base, steps + 1, new),
        steps + 1 == distance(base, last.wrapping_add(1)),
{
    let next = last.wrapping_add(1);
    assert forall|t: u32| #[trigger]
        new.chunks.contains_key(t) <==> old.chunks.contains_key(t) && distance(base, t) > steps
        + 1 by {
        assert(new.chunks.contains_key(t) <==> now.chunks.contains_key(t) && t != next);
    }
    assert forall|t: u32| #[trigger] new.chunks.contains_key(t) implies new.chunks[t]
        == old.chunks[t] by {
        assert(now.chunks.contains_key(t));
    }
}

/// What skipping to `start` and then moving on to `last` have dropped together.
proof fn lemma_progress(
    before: PayloadQueueView,
    base: u32,
    start: u32,
    skipped: PayloadQueueView,
    last: u32,
    after: PayloadQueueView,
)
    requires
        before.wf(),
        before.newer_than(base),
        distance(base, start) < HALF32,
        start == base ==> skipped == before,
        start != base ==> dropped_steps(before, base, distance(base, start), skipped),
        skipped.wf(),
        skipped.newer_than(start),
        closes_at(skipped, start, last),
        dropped_steps(skipped, start, distance(start, last), after),
    ensures
        closes_at(before, start, last),
        dropped_through(before, last, after),
{
    let k = distance(base, start);
    let m = distance(start, last);
    assert forall|t: u32| #[trigger] before.chunks.contains_key(t) implies 0 < distance(base, t)
        <= HALF32 by {
        assert(before.sorted.contains(t));
    }
    assert forall|t: u32| #[trigger]
        skipped.chunks.contains_key(t) <==> before.chunks.contains_key(t) && distance(base, t)
        > k by {}
    assert(k + m <= HALF32) by {
        if m > 0 {
            assert(skipped.chunks.contains_key(last));
            assert(before.chunks.contains_key(last));
        }
    }
    let next = last.wrapping_add(1);
    assert(!before.chunks.contains_key(next)) by {
        assert(!skipped.chunks.contains_key(next));
    }
    assert forall|t: u32| #[trigger]
        after.chunks.contains_key(t) <==> before.chunks.contains_key(t) && !serial_le(t, last) by {
        assert(after.chunks.contains_key(t) <==> skipped.chunks.contains_key(t) && distance(
            start,
            t,
        ) > m);
        if before.chunks.contains_key(t) {
            assert(0 < distance(base, t) <= HALF32);
        }
    }
    assert forall|t: u32| #[trigger] after.chunks.contains_key(t) implies after.chunks[t]
        == before.chunks[t] by {
        assert(skipped.chunks.contains_key(t));
    }
}

impl Association {
    /// Notes that a message was abandoned, for the next FORWARD-TSN. Only
    /// ordered streams are reported: unordered messages carry no meaningful
    /// sequence number.
    pub fn note_abandoned_for_forward_tsn(
        &mut self,
        unordered: bool,
        stream_identifier: u16,
        stream_sequence_number: u16,
    )
        requires
            streams_wf(old(self).fwd_tsn_streams@),
        ensures
            streams_wf(final(self).fwd_tsn_streams@),
            *final(self) == (Association {
                fwd_tsn_streams: final(self).fwd_tsn_streams,
                ..*old(self)
            }),
            unordered ==> *final(self) == *old(self),
            !unordered ==> listed(final(self).fwd_tsn_streams@, stream_identifier) == Some(
                greatest(
                    listed(old(self).fwd_tsn_streams@, stream_identifier),
                    stream_sequence_number,
                ),
            ),
            forall|s: u16|
                s != stream_identifier ==> #[trigger] listed(final(self).fwd_tsn_streams@, s)
                    == listed(old(self).fwd_tsn_streams@, s),
    {
        if unordered {
            return ;
        }
        let ghost before = self.fwd_tsn_streams@;
        let mut i: usize = 0;
        while i < self.fwd_tsn_streams.len()
            invariant
                i <= self.fwd_tsn_streams@.len(),
                !unordered,
                *self == *old(self),
                before == old(self).fwd_tsn_streams@,
                streams_wf(before),
                forall|k: int| 0 <= k < i ==> before[k].identifier != stream_identifier,
            decreases self.fwd_tsn_streams@.len() - i,
        {
            let s: ChunkForwardTsnStream = self.fwd_tsn_streams[i];
            if s.identifier == stream_identifier {
                assert(listed_at(before, stream_identifier, i as int));
                proof {
                    lemma_listed(before, stream_identifier, i as int);
                }
                if sna16lt(s.sequence, stream_sequence_number) {
                    self.fwd_tsn_streams[i] = ChunkForwardTsnStream {
                        identifier: stream_identifier,
                        sequence: stream_sequence_number,
                    };
                }
                proof {
                    let after = self.fwd_tsn_streams@;
                    assert(streams_wf(after)) by {
                        assert forall|a: int, b: int| 0 <= a < b < after.len() implies (
                        #[trigger] after[a]).identifier != (#[trigger] after[b]).identifier by {
                            assert(before[a].identifier != before[b].identifier);
                        }
                    }
                    assert(listed_at(after, stream_identifier, i as int));
                    lemma_listed(after, stream_identifier, i as int);
                    assert forall|t: u16| t != stream_identifier implies #[trigger] listed(after, t)
                        == listed(before, t) by {
                        lemma_listed_elsewhere(before, after, i as int, t);
                    }
                }
                return ;
            }
            i += 1;
        }
        self.fwd_tsn_streams.push(
            ChunkForwardTsnStream {
                identifier: stream_identifier,
                sequence: stream_sequence_number,
            },
        );
        proof {
            let after = self.fwd_tsn_streams@;
            let n = before.len() as int;
            assert(listed_at(after, stream_identifier, n));
            lemma_listed(after, stream_identifier, n);
            assert(!(exists|k: int| listed_at(before, stream_identifier, k)));
            assert forall|t: u16| t != stream_identifier implies #[trigger] listed(after, t)
                == listed(before, t) by {
                lemma_listed_elsewhere(before, after, n, t);
            }
        }
    }

    /// The chunk that tells the peer to skip what was abandoned.
    pub fn create_forward_tsn(&self) -> (r: ChunkForwardTsn)
        ensures
            r.new_cumulative_tsn == self.advanced_peer_tsn_ack_point,
            r.streams@ == self.fwd_tsn_streams@,
    {
        let mut streams: Vec<ChunkForwardTsnStream> = Vec::new();
        let mut i: usize = 0;
        while i < self.fwd_tsn_streams.len()
            invariant
                i <= self.fwd_tsn_streams@.len(),
                streams@ =~= self.fwd_tsn_streams@.take(i as int),
            decreases self.fwd_tsn_streams@.len() - i,
        {
            streams.push(self.fwd_tsn_streams[i]);
            i += 1;
        }
        ChunkForwardTsn { new_cumulative_tsn: self.advanced_peer_tsn_ack_point, streams }
    }

    /// Counts the next TSN as received, and drops its chunk if there is one.
    /// Returns whether there was one.
    fn advance_peer_last_tsn(&mut self) -> (r: bool)
        requires
            old(self).wf(),
        ensures
            final(self).wf(),
            final(self).peer_last_tsn == old(self).peer_last_tsn.wrapping_add(1),
            r == old(self).payload_queue@.chunks.contains_key(final(self).peer_last_tsn),
            final(self).payload_queue@.chunks == old(self).payload_queue@.chunks.remove(
                final(self).peer_last_tsn,
            ),
            final(self).payload_queue@.duplicates == old(self).payload_queue@.duplicates,
            *final(self) == (Association {
                peer_last_tsn: final(self).peer_last_tsn,
                payload_queue: final(self).payload_queue,
                ..*old(self)
            }),
    {
        let next: u32 = self.peer_last_tsn.wrapping_add(1);
        proof {
            law_next_tsn_is_oldest(self.payload_queue@, self.peer_last_tsn);
            law_cumulative_step_keeps_newer(self.payload_queue@, self.peer_last_tsn);
        }
        let popped = self.payload_queue.pop(next);
        assert(self.payload_queue@.chunks =~= old(self).payload_queue@.chunks.remove(next));
        self.peer_last_tsn = next;
        popped.is_some()
    }

    /// Moves on to `tsn`, which is newer than the last TSN that counts as
    /// received, and drops the chunks on the way.
    fn skip_to(&mut self, tsn: u32)
        requires
            old(self).wf(),
            serial_lt(old(self).peer_last_tsn, tsn),
        ensures
            final(self).wf(),
            final(self).peer_last_tsn == tsn,
            dropped_steps(
                old(self).payload_queue@,
                old(self).peer_last_tsn,
                distance(old(self).peer_last_tsn, tsn),
                final(self).payload_queue@,
            ),
            *final(self) == (Association {
                peer_last_tsn: final(self).peer_last_tsn,
                payload_queue: final(self).payload_queue,
                ..*old(self)
            }),
    {
        let ghost base = self.peer_last_tsn;
        let ghost before = self.payload_queue@;
        assert(dropped_steps(before, base, 0, before)) by {
            assert forall|t: u32| #[trigger] before.chunks.contains_key(t) implies distance(base, t)
                > 0 by {
                assert(before.sorted.contains(t));
            }
        }
        while sna32lt(self.peer_last_tsn, tsn)
            invariant
                self.wf(),
                0 < distance(base, tsn) < HALF32,
                distance(base, self.peer_last_tsn) <= distance(base, tsn),
                dropped_steps(
                    before,
                    base,
                    distance(base, self.peer_last_tsn),
                    self.payload_queue@,
                ),
                *self == (Association {
                    peer_last_tsn: self.peer_last_tsn,
                    payload_queue: self.payload_queue,
                    ..*old(self)
                }),
            decreases distance(self.peer_last_tsn, tsn),
        {
            let ghost last = self.peer_last_tsn;
            let ghost now = self.payload_queue@;
            let _ = self.advance_peer_last_tsn();
            proof {
                lemma_drop_step(
                    before,
                    base,
                    distance(base, last),
                    now,
                    last,
                    self.payload_queue@,
                );
            }
        }
    }

    /// Moves on as far as the received chunks reach, and decides how soon to
    /// acknowledge: at once if a gap remains or an acknowledgment is due
    /// already, else with the timer.
    fn handle_peer_last_tsn_and_acknowledgement(&mut self)
        requires
            old(self).wf(),
        ensures
            final(self).wf(),
            closes_at(
                old(self).payload_queue@,
                old(self).peer_last_tsn,
                final(self).peer_last_tsn,
            ),
            dropped_steps(
                old(self).payload_queue@,
                old(self).peer_last_tsn,
                distance(old(self).peer_last_tsn, final(self).peer_last_tsn),
                final(self).payload_queue@,
            ),
            *final(self) == old(self).with_progress(*final(self)),
    {
        let ghost base = self.peer_last_tsn;
        let ghost before = self.payload_queue@;
        assert(dropped_steps(before, base, 0, before)) by {
            assert forall|t: u32| #[trigger] before.chunks.contains_key(t) implies distance(base, t)
                > 0 by {
                assert(before.sorted.contains(t));
            }
        }
        let mut reached = false;
        while !reached
            invariant
                self.wf(),
                before.wf(),
                before.newer_than(base),
                distance(base, self.peer_last_tsn) <= HALF32,
                dropped_steps(
                    before,
                    base,
                    distance(base, self.peer_last_tsn),
                    self.payload_queue@,
                ),
                forall|t: u32|
                    0 < #[trigger] distance(base, t) <= distance(base, self.peer_last_tsn)
                        ==> before.chunks.contains_key(t),
                reached ==> !before.chunks.contains_key(self.peer_last_tsn.wrapping_add(1)),
                *self == (Association {
                    peer_last_tsn: self.peer_last_tsn,
                    payload_queue: self.payload_queue,
                    ..*old(self)
                }),
            decreases (if reached { 0int } else { 1 + HALF32 - distance(base, self.peer_last_tsn) }),
        {
            let ghost last = self.peer_last_tsn;
            let ghost now = self.payload_queue@;
            let next: u32 = self.peer_last_tsn.wrapping_add(1);
            if self.payload_queue.get(next).is_some() {
                let _ = self.advance_peer_last_tsn();
                proof {
                    assert(now.chunks.contains_key(next));
                    assert(before.chunks.contains_key(next));
                    assert(before.sorted.contains(next));
                    lemma_drop_step(
                        before,
                        base,
                        distance(base, last),
                        now,
                        last,
                        self.payload_queue@,
                    );
                }
            } else {
                reached = true;
                proof {
                    assert(!now.chunks.contains_key(next));
                    if before.chunks.contains_key(next) {
                        assert(before.sorted.contains(next));
                    }
                }
            }
        }
        if self.ack_state == AckState::Idle && self.payload_queue.is_empty() {
            self.delayed_ack_triggered = true;
        } else {
            self.immediate_ack_triggered = true;
        }
    }

    /// Skips the TSNs that the peer has abandoned. What was received beyond them
    /// is counted as far as it reaches; the chunks that are thereby no longer
    /// beyond a gap leave the queue. A request that skips nothing new only asks
    /// for an acknowledgment at once. Nothing is sent in return. The streams in
    /// the request are for those who put messages together.
    pub fn handle_forward_tsn(&mut self, c: &ChunkForwardTsn) -> (r: Result<Vec<Packet>>)
        requires
            old(self).wf(),
        ensures
            final(self).wf(),
            r is Ok <==> old(self).use_forward_tsn,
            r is Ok && 0 < (c.new_cumulative_tsn - old(self).peer_last_tsn) % 0x1_0000_0000
                < 0x8000_0000 ==> {
                &&& (c.new_cumulative_tsn - old(self).peer_last_tsn) % 0x1_0000_0000 <= (
                final(self).peer_last_tsn - old(self).peer_last_tsn) % 0x1_0000_0000
                &&& !old(self).payload_queue@.chunks.contains_key(
                    c.new_cumulative_tsn.wrapping_add(1),
                ) ==> final(self).peer_last_tsn == c.new_cumulative_tsn
            },
            match r {
                Ok(reply) => {
                    &&& reply@.len() == 0
                    &&& if serial_le(c.new_cumulative_tsn, old(self).peer_last_tsn) {
                        *final(self) == (Association {
                            ack_state: AckState::Immediate,
                            ..*old(self)
                        })
                    } else {
                        &&& closes_at(
                            old(self).payload_queue@,
                            skip_target(old(self).peer_last_tsn, c.new_cumulative_tsn),
                            final(self).peer_last_tsn,
                        )
                        &&& dropped_through(
                            old(self).payload_queue@,
                            final(self).peer_last_tsn,
                            final(self).payload_queue@,
                        )
                        &&& *final(self) == old(self).with_progress(*final(self))
                    }
                },
                Err(e) => e.says("FORWARD-TSN was not negotiated"@) && *final(self) == *old(self),
            },
    {
        if !self.use_forward_tsn {
            return Err(other_error("FORWARD-TSN was not negotiated"));
        }
        if sna32lte(c.new_cumulative_tsn, self.peer_last_tsn) {
            self.ack_state = AckState::Immediate;
            return Ok(Vec::new());
        }
        let ghost base = self.peer_last_tsn;
        let ghost before = self.payload_queue@;
        if sna32lt(self.peer_last_tsn, c.new_cumulative_tsn) {
            self.skip_to(c.new_cumulative_tsn);
        }
        let ghost start = self.peer_last_tsn;
        let ghost skipped = self.payload_queue@;
        self.handle_peer_last_tsn_and_acknowledgement();
        proof {
            lemma_progress(before, base, start, skipped, self.peer_last_tsn, self.payload_queue@);
            if serial_lt(base, c.new_cumulative_tsn) {
                let n = c.new_cumulative_tsn.wrapping_sub(base);
                assert(base.wrapping_add(n) == c.new_cumulative_tsn);
                law_forward_tsn_skips_as_asked(
                    before,
                    base,
                    n,
                    self.peer_last_tsn,
                    self.payload_queue@,
                );
            }
        }
        Ok(Vec::new())
    }

    /// The association with the progress that `new` has made in what it has
    /// received.
    pub open spec fn with_progress(self, new: Association) -> Association {
        Association {
            peer_last_tsn: new.peer_last_tsn,
            payload_queue: new.payload_queue,
            delayed_ack_triggered: self.delayed_ack_triggered || new.acks_with_timer(),
            immediate_ack_triggered: self.immediate_ack_triggered || !new.acks_with_timer(),
            ..self
        }
    }

    /// No acknowledgment is due yet and no gap remains, so the next one can
    /// wait for its timer.
    pub open spec fn acks_with_timer(self) -> bool {
        self.ack_state == AckState::Idle && self.payload_queue@.chunks.len() == 0
    }
}

/// There is only one place where a sequence is closed.
pub proof fn law_closing_point_is_unique(q: PayloadQueueView, from: u32, a: u32, b: u32)
    requires
        closes_at(q, from, a),
        closes_at(q, from, b),
    ensures
        a == b,
{
    lemma_not_closed_later(q, from, a, b);
    lemma_not_closed_later(q, from, b, a);
}

proof fn lemma_not_closed_later(q: PayloadQueueView, from: u32, a: u32, b: u32)
    requires
        closes_at(q, from, a),
        closes_at(q, from, b),
    ensures
        distance(from, b) <= distance(from, a),
{
    if distance(from, a) < distance(from, b) {
        let next = a.wrapping_add(1);
        assert(distance(from, next) == distance(from, a) + 1);
        assert(q.chunks.contains_key(next));
    }
}

/// A request that was followed skips nothing new when it comes again. (Half a
/// circle of received chunks would hide this.)
pub proof fn law_followed_request_is_spent(q: PayloadQueueView, tsn: u32, last: u32)
    requires
        closes_at(q, tsn, last),
        distance(tsn, last) < HALF32,
    ensures
        serial_le(tsn, last),
{
}

/// Of the sequence numbers that are noted for a stream the greatest is kept:
/// none of the two that were compared comes after it.
pub proof fn law_greatest_is_kept(noted: u16, sequence: u16)
    ensures
        greatest(Some(noted), sequence) == noted || greatest(Some(noted), sequence) == sequence,
        !serial_lt16(greatest(Some(noted), sequence), noted),
        !serial_lt16(greatest(Some(noted), sequence), sequence),
        greatest(Some(greatest(Some(noted), sequence)), sequence) == greatest(
            Some(noted),
            sequence,
        ),
{
}

} // verus!
