//! What a payload queue holds, and what its operations do to it.

use crate::chunk::{ChunkPayloadData, MessageId, MessageReliability};
use crate::queue::gap_report::gap_offset;
use crate::queue::message_tsns::TsnGroup;
use crate::queue::tsn_list::{
    inserted, inserted_at, law_insertion_keeps_order, lemma_ordered_distinct,
};
use crate::serial::{all_follow, fits, follows, ordered, serial_le, serial_lt};
use vstd::prelude::*;

verus! {

/// What a payload queue holds.
pub struct PayloadQueueView {
    /// The retained chunks by TSN.
    pub chunks: Map<u32, ChunkPayloadData>,
    /// The TSNs of the retained chunks, the oldest first.
    pub sorted: Seq<u32>,
    /// The TSNs that were pushed in vain since they were last collected.
    pub duplicates: Seq<u32>,
    /// The number of payload bytes that the retained chunks carry.
    pub n_bytes: nat,
    /// The retained fragments of each message that can be abandoned.
    pub messages: Map<MessageId, TsnGroup>,
}

/// The message that a chunk is grouped under: that of a fragment which may be
/// abandoned. A chunk that is a whole message needs no group.
pub open spec fn group_of(c: ChunkPayloadData) -> Option<MessageId> {
    if c.beginning_fragment && c.ending_fragment || c.reliability == MessageReliability::Reliable {
        None
    } else {
        c.message_id
    }
}

/// The number of payload bytes of the chunks under the listed TSNs.
pub open spec fn total_size(tsns: Seq<u32>, chunks: Map<u32, ChunkPayloadData>) -> nat
    decreases tsns.len(),
{
    if tsns.len() == 0 {
        0
    } else {
        chunks[tsns[0]].size() + total_size(tsns.drop_first(), chunks)
    }
}

impl PayloadQueueView {
    /// The queue with nothing in it.
    pub open spec fn empty() -> PayloadQueueView {
        PayloadQueueView {
            chunks: Map::empty(),
            sorted: Seq::empty(),
            duplicates: Seq::empty(),
            n_bytes: 0,
            messages: Map::empty(),
        }
    }

    /// The chunk under `tsn` is retained and grouped under the message `id`.
    pub open spec fn retains_fragment(self, id: MessageId, tsn: u32) -> bool {
        self.chunks.contains_key(tsn) && group_of(self.chunks[tsn]) == Some(id)
    }

    /// The TSNs that are indexed for the message `id`.
    pub open spec fn indexed(self, id: MessageId) -> Seq<u32> {
        if self.messages.contains_key(id) {
            self.messages[id].tsns()
        } else {
            Seq::empty()
        }
    }

    /// The parts of the queue agree with each other: the TSNs stand in serial
    /// order, each retained chunk has one of them, the byte count is that of
    /// the retained chunks, and the index of the messages lists, in serial
    /// order, the retained fragments that can be abandoned.
    pub open spec fn wf(self) -> bool {
        &&& ordered(self.sorted)
        &&& forall|t: u32| #[trigger] self.chunks.contains_key(t) <==> self.sorted.contains(t)
        &&& forall|t: u32| #[trigger] self.chunks.contains_key(t) ==> self.chunks[t].tsn == t
        &&& self.n_bytes == total_size(self.sorted, self.chunks)
        &&& forall|id: MessageId| #[trigger]
            self.messages.contains_key(id) ==> self.messages[id].tsns().len() > 0
        &&& forall|id: MessageId| ordered(#[trigger] self.indexed(id))
        &&& forall|id: MessageId, t: u32| #[trigger]
            self.indexed(id).contains(t) <==> self.retains_fragment(id, t)
    }

    /// Every retained TSN is newer than `cumulative_tsn`.
    pub open spec fn newer_than(self, cumulative_tsn: u32) -> bool {
        forall|t: u32| #[trigger] self.sorted.contains(t) ==> !serial_le(t, cumulative_tsn)
    }

    /// A chunk with this TSN is neither retained nor covered by
    /// `cumulative_tsn`.
    pub open spec fn accepts(self, tsn: u32, cumulative_tsn: u32) -> bool {
        !self.chunks.contains_key(tsn) && !serial_le(tsn, cumulative_tsn)
    }

    /// `new` is the queue with the chunk `p` added.
    pub open spec fn pushed(self, p: ChunkPayloadData, new: PayloadQueueView) -> bool {
        &&& new.chunks == self.chunks.insert(p.tsn, p)
        &&& inserted(self.sorted, p.tsn, new.sorted)
        &&& new.duplicates == self.duplicates
        &&& new.n_bytes == self.n_bytes + p.size()
        &&& match group_of(p) {
            None => new.messages == self.messages,
            Some(id) => {
                &&& new.messages == self.messages.insert(id, new.messages[id])
                &&& if self.messages.contains_key(id) {
                    self.messages[id].extended(p.tsn, new.messages[id])
                } else {
                    new.messages[id] == TsnGroup::One(p.tsn)
                }
            },
        }
    }

    /// The queue with `tsn` recorded as a duplicate.
    pub open spec fn with_duplicate(self, tsn: u32) -> PayloadQueueView {
        PayloadQueueView { duplicates: self.duplicates.push(tsn), ..self }
    }

    /// `new` is the queue after a push of `p`: with the chunk added if the queue
    /// accepts its TSN, else with the TSN recorded as a duplicate.
    pub open spec fn after_push(
        self,
        p: ChunkPayloadData,
        cumulative_tsn: u32,
        new: PayloadQueueView,
    ) -> bool {
        if self.accepts(p.tsn, cumulative_tsn) {
            self.pushed(p, new)
        } else {
            new == self.with_duplicate(p.tsn)
        }
    }

    /// The oldest retained chunk has this TSN.
    pub open spec fn starts_with(self, tsn: u32) -> bool {
        self.sorted.len() > 0 && self.sorted[0] == tsn
    }

    /// The queue without its oldest chunk.
    pub open spec fn without_first(self) -> PayloadQueueView {
        let tsn = self.sorted[0];
        let c = self.chunks[tsn];
        PayloadQueueView {
            chunks: self.chunks.remove(tsn),
            sorted: self.sorted.drop_first(),
            n_bytes: (self.n_bytes - c.size()) as nat,
            messages: match group_of(c) {
                None => self.messages,
                Some(id) => if self.messages[id].tsns().len() == 1 {
                    self.messages.remove(id)
                } else {
                    self.messages.insert(id, self.messages[id].without_first())
                },
            },
            ..self
        }
    }

    /// The offsets under which the retained TSNs are reported.
    pub open spec fn gap_offsets(self, cumulative_tsn: u32) -> Seq<u16> {
        self.sorted.map_values(|tsn: u32| gap_offset(cumulative_tsn, tsn))
    }

    /// A report can be made: no offset but the last is the largest that there
    /// is, so that the one after each can be named.
    pub open spec fn reportable(self, cumulative_tsn: u32) -> bool {
        forall|i: int|
            0 <= i < self.sorted.len() - 1 ==> gap_offset(cumulative_tsn, #[trigger] self.sorted[i])
                != u16::MAX
    }

    /// The queue with every outstanding chunk marked for retransmission.
    pub open spec fn with_all_to_retransmit(self) -> PayloadQueueView {
        PayloadQueueView {
            chunks: self.chunks.map_values(|c: ChunkPayloadData| c.with_retry()),
            ..self
        }
    }

    /// The queue with `c` in place of the chunk under `tsn`.
    pub open spec fn with_chunk(self, tsn: u32, c: ChunkPayloadData) -> PayloadQueueView {
        PayloadQueueView { chunks: self.chunks.insert(tsn, c), ..self }
    }
}

/// `new` is what `old` becomes when its payload is released: the payload is
/// gone and all else stays.
pub open spec fn released(old: ChunkPayloadData, new: ChunkPayloadData) -> bool {
    &&& new.size() == 0
    &&& new == ChunkPayloadData { user_data: new.user_data, ..old }
}

proof fn lemma_total_insert(s: Seq<u32>, i: int, t: u32, m: Map<u32, ChunkPayloadData>)
    requires
        0 <= i <= s.len(),
    ensures
        total_size(s.insert(i, t), m) == total_size(s, m) + m[t].size(),
    decreases i,
{
    if i == 0 {
        assert(s.insert(0, t).drop_first() =~= s);
    } else {
        lemma_total_insert(s.drop_first(), i - 1, t, m);
        assert(s.insert(i, t).drop_first() =~= s.drop_first().insert(i - 1, t));
    }
}

proof fn lemma_total_agree(
    s: Seq<u32>,
    m1: Map<u32, ChunkPayloadData>,
    m2: Map<u32, ChunkPayloadData>,
)
    requires
        forall|i: int| 0 <= i < s.len() ==> m1[#[trigger] s[i]].size() == m2[s[i]].size(),
    ensures
        total_size(s, m1) == total_size(s, m2),
    decreases s.len(),
{
    if s.len() > 0 {
        assert forall|i: int| 0 <= i < s.drop_first().len() implies m1[#[trigger] s.drop_first()[i]].size()
            == m2[s.drop_first()[i]].size() by {
            assert(s.drop_first()[i] == s[i + 1]);
        }
        assert(m1[s[0]].size() == m2[s[0]].size());
        lemma_total_agree(s.drop_first(), m1, m2);
    }
}

proof fn lemma_total_update(
    s: Seq<u32>,
    m: Map<u32, ChunkPayloadData>,
    t: u32,
    c: ChunkPayloadData,
)
    requires
        s.no_duplicates(),
        s.contains(t),
    ensures
        total_size(s, m.insert(t, c)) == total_size(s, m) - m[t].size() + c.size(),
        total_size(s, m) >= m[t].size(),
    decreases s.len(),
{
    let rest = s.drop_first();
    assert(forall|i: int| 0 <= i < rest.len() ==> rest[i] == s[i + 1]);
    if s[0] == t {
        lemma_total_agree(rest, m, m.insert(t, c));
    } else {
        let k = choose|k: int| 0 <= k < s.len() && s[k] == t;
        assert(rest[k - 1] == t);
        lemma_total_update(rest, m, t, c);
    }
}

/// The payload of a retained chunk is part of the byte count.
pub proof fn lemma_size_is_counted(v: PayloadQueueView, tsn: u32)
    requires
        v.wf(),
        v.chunks.contains_key(tsn),
    ensures
        v.chunks[tsn].size() <= v.n_bytes,
{
    lemma_ordered_distinct(v.sorted);
    lemma_total_update(v.sorted, v.chunks, tsn, v.chunks[tsn]);
}

/// An empty queue is well formed.
pub proof fn lemma_empty_wf()
    ensures
        PayloadQueueView::empty().wf(),
{
    let v = PayloadQueueView::empty();
    assert forall|id: MessageId, t: u32| #[trigger]
        v.indexed(id).contains(t) <==> v.retains_fragment(id, t) by {}
}

/// A group in serial order stays so when it is extended by a TSN that it can
/// compare with all its own.
proof fn lemma_extended_group(g: TsnGroup, t: u32, new: TsnGroup)
    requires
        ordered(g.tsns()),
        fits(g.tsns(), t),
        !g.tsns().contains(t),
        g.extended(t, new),
    ensures
        ordered(new.tsns()),
        forall|x: u32| #[trigger] new.tsns().contains(x) <==> x == t || g.tsns().contains(x),
{
    let s = g.tsns();
    let base = choose|base: u32| #[trigger] follows(base, t) && all_follow(base, s);
    match g {
        TsnGroup::One(first) => {
            assert(s[0] == first);
            assert(s.contains(first));
            let n = new.tsns();
            assert(n.len() == 2);
            assert(n[0] == t && n[1] == first || n[0] == first && n[1] == t);
            assert forall|x: u32| #[trigger] n.contains(x) <==> x == t || s.contains(x) by {
                if x == t || x == first {
                    assert(n[0] == x || n[1] == x);
                }
            }
        },
        TsnGroup::Fragmented(tsns) => {
            if tsns.len() == 0 || serial_lt(tsns.last(), t) {
                let n = tsns.push(t);
                assert forall|i: int, j: int| 0 <= i < j < n.len() implies serial_lt(
                    #[trigger] n[i],
                    #[trigger] n[j],
                ) by {
                    if j == tsns.len() {
                        assert(n[i] == s[i]);
                        assert(follows(base, s[i]));
                        assert(follows(base, s[s.len() - 1]));
                    } else {
                        assert(serial_lt(s[i], s[j]));
                    }
                }
                assert forall|x: u32| #[trigger] n.contains(x) <==> x == t || s.contains(x) by {
                    if s.contains(x) {
                        let k = choose|k: int| 0 <= k < s.len() && s[k] == x;
                        assert(n[k] == x);
                    }
                    assert(n[s.len() as int] == t);
                }
            } else {
                law_insertion_keeps_order(s, t, new.tsns());
            }
        },
    }
}

/// Adding a chunk under a TSN that is not in use, and that can be compared with
/// all that are, keeps the queue well formed.
pub proof fn law_push_keeps_wf(v: PayloadQueueView, p: ChunkPayloadData, new: PayloadQueueView)
    requires
        v.wf(),
        !v.chunks.contains_key(p.tsn),
        fits(v.sorted, p.tsn),
        v.pushed(p, new),
    ensures
        new.wf(),
{
    let t = p.tsn;
    let i = choose|i: int| inserted_at(v.sorted, t, new.sorted, i);
    law_insertion_keeps_order(v.sorted, t, new.sorted);
    lemma_total_agree(v.sorted, v.chunks, new.chunks);
    lemma_total_insert(v.sorted, i, t, new.chunks);
    let base = choose|base: u32| #[trigger] follows(base, t) && all_follow(base, v.sorted);
    assert forall|id: MessageId|
        {
            &&& ordered(#[trigger] new.indexed(id))
            &&& forall|x: u32| #[trigger]
                new.indexed(id).contains(x) <==> new.retains_fragment(id, x)
        } by {
        let s = v.indexed(id);
        assert forall|x: u32| #[trigger] s.contains(x) implies v.retains_fragment(id, x) by {}
        assert(!s.contains(t)) by {
            if s.contains(t) {
                assert(v.retains_fragment(id, t));
            }
        }
        if group_of(p) == Some(id) {
            assert(all_follow(base, s)) by {
                assert forall|k: int| 0 <= k < s.len() implies follows(base, #[trigger] s[k]) by {
                    assert(s.contains(s[k]));
                    assert(v.retains_fragment(id, s[k]));
                    assert(v.sorted.contains(s[k]));
                }
            }
            if v.messages.contains_key(id) {
                lemma_extended_group(v.messages[id], t, new.messages[id]);
            } else {
                assert(new.indexed(id) =~= seq![t]);
                assert forall|x: u32| #[trigger] new.indexed(id).contains(x) <==> x == t by {
                    assert(new.indexed(id)[0] == t);
                }
            }
            assert forall|x: u32| #[trigger]
                new.indexed(id).contains(x) <==> new.retains_fragment(id, x) by {
                assert(new.indexed(id).contains(x) <==> x == t || s.contains(x));
                assert(s.contains(x) <==> v.retains_fragment(id, x));
            }
        } else {
            assert(new.indexed(id) == s);
            assert forall|x: u32| #[trigger]
                new.indexed(id).contains(x) <==> new.retains_fragment(id, x) by {
                assert(s.contains(x) <==> v.retains_fragment(id, x));
            }
        }
    }
    assert forall|id: MessageId| #[trigger] new.messages.contains_key(id) implies new.messages[id].tsns().len()
        > 0 by {
        if group_of(p) == Some(id) {
            assert(new.indexed(id).contains(t) <==> new.retains_fragment(id, t));
        }
    }
}

/// Taking out the oldest chunk keeps the queue well formed.
pub proof fn law_pop_keeps_wf(v: PayloadQueueView)
    requires
        v.wf(),
        v.sorted.len() > 0,
    ensures
        v.without_first().wf(),
        v.chunks.contains_key(v.sorted[0]),
        group_of(v.chunks[v.sorted[0]]) matches Some(id) ==> v.messages.contains_key(id)
            && v.messages[id].tsns()[0] == v.sorted[0],
{
    let new = v.without_first();
    let t = v.sorted[0];
    let c = v.chunks[t];
    let rest = v.sorted.drop_first();
    lemma_ordered_distinct(v.sorted);
    lemma_size_is_counted(v, t);
    assert(v.sorted.contains(t));
    assert(forall|i: int| 0 <= i < rest.len() ==> rest[i] == v.sorted[i + 1]);
    assert forall|x: u32| #[trigger] rest.contains(x) <==> x != t && v.sorted.contains(x) by {
        if rest.contains(x) {
            let k = choose|k: int| 0 <= k < rest.len() && rest[k] == x;
            assert(v.sorted[k + 1] == x);
        }
        if x != t && v.sorted.contains(x) {
            let k = choose|k: int| 0 <= k < v.sorted.len() && v.sorted[k] == x;
            assert(rest[k - 1] == x);
        }
    }
    assert(ordered(new.sorted)) by {
        assert forall|i: int, j: int| 0 <= i < j < rest.len() implies serial_lt(
            #[trigger] rest[i],
            #[trigger] rest[j],
        ) by {
            assert(serial_lt(v.sorted[i + 1], v.sorted[j + 1]));
        }
    }
    lemma_total_agree(rest, v.chunks, new.chunks);
    assert forall|id: MessageId|
        {
            &&& ordered(#[trigger] new.indexed(id))
            &&& new.messages.contains_key(id) ==> new.messages[id].tsns().len() > 0
            &&& forall|x: u32| #[trigger]
                new.indexed(id).contains(x) <==> new.retains_fragment(id, x)
            &&& group_of(c) == Some(id) ==> v.messages.contains_key(id)
                && v.messages[id].tsns()[0] == t
        } by {
        let s = v.indexed(id);
        let n = new.indexed(id);
        assert(ordered(s));
        if group_of(c) == Some(id) {
            assert(v.retains_fragment(id, t));
            assert(s.contains(t));
            assert(s[0] == t) by {
                if s[0] != t {
                    let k = choose|k: int| 0 <= k < s.len() && s[k] == t;
                    assert(serial_lt(s[0], s[k]));
                    assert(s.contains(s[0]));
                    assert(v.retains_fragment(id, s[0]));
                    let q = choose|q: int| 0 <= q < v.sorted.len() && v.sorted[q] == s[0];
                    assert(serial_lt(v.sorted[0], v.sorted[q]));
                }
            }
            assert(n =~= s.drop_first());
            lemma_ordered_distinct(s);
            assert(forall|i: int| 0 <= i < n.len() ==> n[i] == s[i + 1]);
            assert(ordered(n)) by {
                assert forall|i: int, j: int| 0 <= i < j < n.len() implies serial_lt(
                    #[trigger] n[i],
                    #[trigger] n[j],
                ) by {
                    assert(serial_lt(s[i + 1], s[j + 1]));
                }
            }
            assert forall|x: u32| #[trigger] n.contains(x) <==> new.retains_fragment(id, x) by {
                assert(s.contains(x) <==> v.retains_fragment(id, x));
                if n.contains(x) {
                    let k = choose|k: int| 0 <= k < n.len() && n[k] == x;
                    assert(s[k + 1] == x);
                }
                if s.contains(x) && x != t {
                    let k = choose|k: int| 0 <= k < s.len() && s[k] == x;
                    assert(n[k - 1] == x);
                }
            }
        } else {
            assert(n == s);
            assert forall|x: u32| #[trigger] n.contains(x) <==> new.retains_fragment(id, x) by {
                assert(s.contains(x) <==> v.retains_fragment(id, x));
            }
        }
    }
    assert forall|id: MessageId| #[trigger] new.messages.contains_key(id) implies new.messages[id].tsns().len()
        > 0 by {
        let _ = new.indexed(id);
    }
    if let Some(id) = group_of(c) {
        let _ = new.indexed(id);
    }
}

/// Changing a retained chunk in place keeps the queue well formed, as long as
/// the chunk keeps its TSN, its group and the size of its payload.
pub proof fn law_edit_keeps_wf(v: PayloadQueueView, tsn: u32, c: ChunkPayloadData)
    requires
        v.wf(),
        v.chunks.contains_key(tsn),
        c.tsn == tsn,
        group_of(c) == group_of(v.chunks[tsn]),
        c.size() == v.chunks[tsn].size(),
    ensures
        v.with_chunk(tsn, c).wf(),
{
    let new = v.with_chunk(tsn, c);
    lemma_total_agree(v.sorted, v.chunks, new.chunks);
    assert forall|id: MessageId|
        {
            &&& ordered(#[trigger] new.indexed(id))
            &&& forall|x: u32| #[trigger]
                new.indexed(id).contains(x) <==> new.retains_fragment(id, x)
        } by {
        assert(new.indexed(id) == v.indexed(id));
        assert forall|x: u32| #[trigger]
            new.indexed(id).contains(x) <==> new.retains_fragment(id, x) by {
            assert(v.indexed(id).contains(x) <==> v.retains_fragment(id, x));
        }
    }
}

/// Releasing the payload of a retained chunk keeps the queue well formed.
pub proof fn law_release_keeps_wf(v: PayloadQueueView, tsn: u32, c: ChunkPayloadData)
    requires
        v.wf(),
        v.chunks.contains_key(tsn),
        released(v.chunks[tsn], c),
    ensures
        ({
            let n = (v.n_bytes - v.chunks[tsn].size()) as nat;
            PayloadQueueView { n_bytes: n, ..v.with_chunk(tsn, c) }.wf()
        }),
{
    let n = (v.n_bytes - v.chunks[tsn].size()) as nat;
    let new = PayloadQueueView { n_bytes: n, ..v.with_chunk(tsn, c) };
    lemma_ordered_distinct(v.sorted);
    lemma_total_update(v.sorted, v.chunks, tsn, c);
    assert forall|id: MessageId|
        {
            &&& ordered(#[trigger] new.indexed(id))
            &&& forall|x: u32| #[trigger]
                new.indexed(id).contains(x) <==> new.retains_fragment(id, x)
        } by {
        assert(new.indexed(id) == v.indexed(id));
        assert forall|x: u32| #[trigger]
            new.indexed(id).contains(x) <==> new.retains_fragment(id, x) by {
            assert(v.indexed(id).contains(x) <==> v.retains_fragment(id, x));
        }
    }
}

/// The record of duplicates has no part in the well-formedness of a queue.
pub proof fn lemma_duplicates_keep_wf(v: PayloadQueueView, duplicates: Seq<u32>)
    requires
        v.wf(),
    ensures
        (PayloadQueueView { duplicates, ..v }).wf(),
{
    let new = PayloadQueueView { duplicates, ..v };
    assert forall|id: MessageId|
        {
            &&& ordered(#[trigger] new.indexed(id))
            &&& forall|x: u32| #[trigger]
                new.indexed(id).contains(x) <==> new.retains_fragment(id, x)
        } by {
        assert(new.indexed(id) == v.indexed(id));
        assert forall|x: u32| #[trigger]
            new.indexed(id).contains(x) <==> new.retains_fragment(id, x) by {
            assert(v.indexed(id).contains(x) <==> v.retains_fragment(id, x));
        }
    }
}

} // verus!
