//! The chunks that are in flight, or that were received and wait for a gap
//! before them to close.

use crate::chunk::{ChunkPayloadData, GapAckBlock, MessageId, MessageReliability};
use crate::fx_map::{map_contains_key, map_get, map_get_mut, map_insert, map_len, map_remove};
use crate::queue::gap_report::{
    lemma_extend_last, lemma_start_block, offset_of, report_text, reports,
};
use crate::queue::message_tsns::MessageTsns;
use crate::queue::payload_effects::law_index_lists_the_fragments;
use crate::queue::payload_model::{
    group_of, law_edit_keeps_wf, law_pop_keeps_wf, law_push_keeps_wf, law_release_keeps_wf,
    lemma_duplicates_keep_wf, lemma_empty_wf, lemma_size_is_counted, released, PayloadQueueView,
};
use crate::queue::tsn_list::{insert_tsn, inserted, lemma_ordered_distinct};
use crate::serial::{fits, sna32lte};
use crate::text::push_decimal;
use rustc_hash::FxHashMap;
use std::collections::VecDeque;
use vstd::prelude::*;
use vstd::string::StringExecFns;

verus! {

broadcast use vstd::std_specs::hash::group_hash_axioms;

/// Retained chunks, looked up by TSN and kept in the serial order of their
/// TSNs.
#[derive(Debug)]
pub struct PayloadQueue {
    /// Keyed by TSN; per-chunk lookups on both the send (in-flight) and
    /// receive paths. TSNs are window-bounded, so the faster non-SipHash
    /// hasher is safe.
    chunk_map: FxHashMap<u32, ChunkPayloadData>,
    /// TSNs in serial-number order. A `VecDeque` so that `pop`, which almost
    /// always removes the front, is O(1).
    sorted: VecDeque<u32>,
    dup_tsn: Vec<u32>,
    n_bytes: usize,
    /// Sent fragments of messages eligible for abandonment. A whole message
    /// uses its candidate TSN directly; only fragmented messages need a group.
    message_tsns: FxHashMap<MessageId, MessageTsns>,
}

impl View for PayloadQueue {
    type V = PayloadQueueView;

    closed spec fn view(&self) -> PayloadQueueView {
        PayloadQueueView {
            chunks: self.chunk_map@,
            sorted: self.sorted@,
            duplicates: self.dup_tsn@,
            n_bytes: self.n_bytes as nat,
            messages: self.message_tsns@.map_values(|g: MessageTsns| g@),
        }
    }
}

impl Default for PayloadQueue {
    fn default() -> (q: Self)
        ensures
            q@ == PayloadQueueView::empty(),
            q@.wf(),
    {
        PayloadQueue::new()
    }
}

impl PayloadQueue {
    /// An empty queue.
    pub fn new() -> (q: Self)
        ensures
            q@ == PayloadQueueView::empty(),
            q@.wf(),
    {
        let q = PayloadQueue {
            chunk_map: FxHashMap::default(),
            sorted: VecDeque::new(),
            dup_tsn: Vec::new(),
            n_bytes: 0,
            message_tsns: FxHashMap::default(),
        };
        proof {
            assert(q@.messages =~= Map::empty());
            lemma_empty_wf();
        }
        q
    }

    /// Inserts `tsn` into `sorted`, keeping SCTP serial-number order. The place
    /// is found by binary search instead of sorting the whole list on every
    /// push.
    fn insert_sorted(&mut self, tsn: u32)
        ensures
            inserted(old(self)@.sorted, tsn, final(self)@.sorted),
            final(self)@ == (PayloadQueueView { sorted: final(self)@.sorted, ..old(self)@ }),
    {
        insert_tsn(&mut self.sorted, tsn);
    }

    /// Whether `push` would retain the chunk.
    pub fn can_push(&self, p: &ChunkPayloadData, cumulative_tsn: u32) -> (r: bool)
        ensures
            r == self@.accepts(p.tsn, cumulative_tsn),
            r <==> !self@.chunks.contains_key(p.tsn) && 0 < (p.tsn - cumulative_tsn)
                % 0x1_0000_0000 <= 0x8000_0000,
    {
        !(map_contains_key(&self.chunk_map, &p.tsn) || sna32lte(p.tsn, cumulative_tsn))
    }

    fn abandonment_id(p: &ChunkPayloadData) -> (r: Option<MessageId>)
        ensures
            r == group_of(*p),
    {
        if p.beginning_fragment && p.ending_fragment {
            return None;
        }
        match p.reliability {
            MessageReliability::Reliable => None,
            _ => p.message_id,
        }
    }

    /// Retains the chunk whether or not its TSN is in use or outdated.
    ///
    /// A well-formed queue stays so if the TSN is not in use and can be
    /// compared with all that are.
    pub fn push_no_check(&mut self, p: ChunkPayloadData)
        requires
            old(self)@.n_bytes + p.size() <= usize::MAX,
        ensures
            old(self)@.pushed(p, final(self)@),
            old(self)@.wf() && !old(self)@.chunks.contains_key(p.tsn) && fits(
                old(self)@.sorted,
                p.tsn,
            ) ==> final(self)@.wf(),
    {
        let ghost before = self@;
        let tsn: u32 = p.tsn;
        if let Some(id) = Self::abandonment_id(&p) {
            match map_get_mut(&mut self.message_tsns, &id) {
                Some(tsns) => {
                    tsns.insert(tsn);
                },
                None => {
                    let _ = map_insert(&mut self.message_tsns, id, MessageTsns::One(tsn));
                },
            }
            assert(self@.messages =~= before.messages.insert(id, self@.messages[id]));
        }
        let ghost grouped = self@;
        self.n_bytes += p.user_data.len();
        self.insert_sorted(tsn);
        let _ = map_insert(&mut self.chunk_map, tsn, p);
        proof {
            assert(self@.messages == grouped.messages);
            if before.wf() && !before.chunks.contains_key(p.tsn) && fits(before.sorted, p.tsn) {
                law_push_keeps_wf(before, p, self@);
            }
        }
    }

    /// Pushes a payload data. If the payload data is already in our queue or
    /// older than our cumulative_tsn marker, it will be recorded as a
    /// duplicate, which can later be retrieved using `pop_duplicates`.
    pub fn push(&mut self, p: ChunkPayloadData, cumulative_tsn: u32) -> (r: bool)
        requires
            old(self)@.accepts(p.tsn, cumulative_tsn) ==> old(self)@.n_bytes + p.size()
                <= usize::MAX,
        ensures
            r == old(self)@.accepts(p.tsn, cumulative_tsn),
            r <==> !old(self)@.chunks.contains_key(p.tsn) && 0 < (p.tsn - cumulative_tsn)
                % 0x1_0000_0000 <= 0x8000_0000,
            r ==> final(self)@.chunks == old(self)@.chunks.insert(p.tsn, p),
            !r ==> final(self)@.chunks == old(self)@.chunks,
            old(self)@.after_push(p, cumulative_tsn, final(self)@),
            old(self)@.wf() && (r ==> fits(old(self)@.sorted, p.tsn)) ==> final(self)@.wf(),
    {
        if map_contains_key(&self.chunk_map, &p.tsn) || sna32lte(p.tsn, cumulative_tsn) {
            // Found the packet, log in dups
            self.dup_tsn.push(p.tsn);
            proof {
                if old(self)@.wf() {
                    lemma_duplicates_keep_wf(old(self)@, self@.duplicates);
                }
            }
            return false;
        }
        self.push_no_check(p);
        true
    }

    /// Pops only if the oldest chunk's TSN matches the given TSN.
    pub fn pop(&mut self, tsn: u32) -> (r: Option<ChunkPayloadData>)
        requires
            old(self)@.wf(),
        ensures
            final(self)@.wf(),
            match r {
                Some(c) => {
                    &&& old(self)@.starts_with(tsn)
                    &&& c == old(self)@.chunks[tsn]
                    &&& final(self)@ == old(self)@.without_first()
                },
                None => !old(self)@.starts_with(tsn) && final(self)@ == old(self)@,
            },
    {
        let ghost before = self@;
        if self.sorted.len() > 0 && self.sorted[0] == tsn {
            proof {
                law_pop_keeps_wf(before);
                lemma_size_is_counted(before, tsn);
            }
            let _ = self.sorted.pop_front();
            if let Some(c) = map_remove(&mut self.chunk_map, &tsn) {
                if let Some(id) = Self::abandonment_id(&c) {
                    assert(self@.messages == before.messages);
                    if let Some(tsns) = map_get_mut(&mut self.message_tsns, &id) {
                        if tsns.pop(tsn) {
                            let _ = map_remove(&mut self.message_tsns, &id);
                        }
                    }
                }
                self.n_bytes -= c.user_data.len();
                assert(self@.sorted =~= before.sorted.drop_first());
                assert(self@.messages =~= before.without_first().messages);
                return Some(c);
            }
        }
        None
    }

    /// The TSNs of the retained fragments of a message that can be abandoned.
    pub fn message_tsns(&self, id: MessageId) -> (r: Vec<u32>)
        ensures
            r@ == self@.indexed(id),
            self@.wf() ==> r@ == self@.sorted.filter(
                |t: u32|
                    self@.chunks[t].message_id == Some(id) && self@.chunks[t].reliability
                        != MessageReliability::Reliable && (!self@.chunks[t].beginning_fragment
                        || !self@.chunks[t].ending_fragment),
            ),
    {
        proof {
            if self@.wf() {
                law_index_lists_the_fragments(self@, id);
            }
        }
        match map_get(&self.message_tsns, &id) {
            Some(tsns) => tsns.to_vec(),
            None => Vec::new(),
        }
    }

    /// Returns a reference to the chunk with the given TSN value.
    pub fn get(&self, tsn: u32) -> (r: Option<&ChunkPayloadData>)
        ensures
            match r {
                Some(c) => self@.chunks.contains_key(tsn) && *c == self@.chunks[tsn],
                None => !self@.chunks.contains_key(tsn),
            },
    {
        map_get(&self.chunk_map, &tsn)
    }

    /// Lends the chunk with the given TSN value. The borrower's changes are
    /// the only ones that the queue sees.
    pub fn get_mut(&mut self, tsn: u32) -> (r: Option<&mut ChunkPayloadData>)
        ensures
            match r {
                Some(c) => {
                    &&& old(self)@.chunks.contains_key(tsn)
                    &&& *c == old(self)@.chunks[tsn]
                    &&& final(self)@ == old(self)@.with_chunk(tsn, *final(c))
                },
                None => !old(self)@.chunks.contains_key(tsn) && final(self)@ == old(self)@,
            },
    {
        map_get_mut(&mut self.chunk_map, &tsn)
    }

    /// Returns the TSN values that were found duplicate since the last call.
    pub fn pop_duplicates(&mut self) -> (r: Vec<u32>)
        ensures
            r@ == old(self)@.duplicates,
            final(self)@ == (PayloadQueueView { duplicates: Seq::empty(), ..old(self)@ }),
            old(self)@.wf() ==> final(self)@.wf(),
    {
        let mut r: Vec<u32> = Vec::new();
        std::mem::swap(&mut self.dup_tsn, &mut r);
        proof {
            if old(self)@.wf() {
                lemma_duplicates_keep_wf(old(self)@, self@.duplicates);
            }
        }
        r
    }

    /// The received TSNs as runs of offsets from `cumulative_tsn`.
    pub fn get_gap_ack_blocks(&self, cumulative_tsn: u32) -> (r: Vec<GapAckBlock>)
        requires
            self@.wf(),
            self@.reportable(cumulative_tsn),
        ensures
            reports(r@, self@.gap_offsets(cumulative_tsn)),
    {
        let mut gap_ack_blocks: Vec<GapAckBlock> = Vec::new();
        if self.chunk_map.is_empty() {
            proof {
                if self@.sorted.len() > 0 {
                    assert(self@.sorted.contains(self@.sorted[0]));
                    assert(self@.chunks.contains_key(self@.sorted[0]));
                }
                assert(self@.gap_offsets(cumulative_tsn) =~= Seq::empty());
            }
            return gap_ack_blocks;
        }
        let ghost offsets = self@.gap_offsets(cumulative_tsn);
        let n: usize = self.sorted.len();
        proof {
            if n == 0 {
                assert(self@.chunks =~= Map::empty());
            }
        }
        let first: u16 = offset_of(cumulative_tsn, self.sorted[0]);
        let mut b: GapAckBlock = GapAckBlock { start: first, end: first };
        proof {
            lemma_start_block(gap_ack_blocks@, first);
            assert(seq![first] =~= offsets.take(1));
        }
        let mut i: usize = 1;
        while i < n
            invariant
                1 <= i <= n,
                n == self@.sorted.len(),
                self@.sorted == self.sorted@,
                offsets == self@.gap_offsets(cumulative_tsn),
                self@.reportable(cumulative_tsn),
                b.end == offsets[i - 1],
                reports(gap_ack_blocks@.push(b), offsets.take(i as int)),
            decreases n - i,
        {
            let diff: u16 = offset_of(cumulative_tsn, self.sorted[i as usize]);
            let ghost done = gap_ack_blocks@;
            let ghost open = b;
            assert(done.push(open).last() == open);
            assert(offsets[i - 1] != 0xffff);
            assert(offsets.take(i + 1) =~= offsets.take(i as int).push(diff));
            if b.end + 1 == diff {
                b.end += 1;
                proof {
                    lemma_extend_last(done, open);
                    assert forall|k: int| 0 <= k < done.len() implies (#[trigger] done.push(
                        b,
                    )[k]).start <= done.push(b)[k].end by {
                        assert(done.push(open)[k] == done[k]);
                    }
                    assert forall|k: int, l: int|
                        0 <= k < l < done.push(b).len() && l == k + 1 implies (#[trigger] done.push(
                        b,
                    )[k]).end + 1 != (#[trigger] done.push(b)[l]).start by {
                        assert(done.push(open)[k].end + 1 != done.push(open)[l].start);
                    }
                }
            } else {
                gap_ack_blocks.push(b);
                b = GapAckBlock { start: diff, end: diff };
                proof {
                    lemma_start_block(gap_ack_blocks@, diff);
                }
            }
            i += 1;
        }
        assert(offsets.take(n as int) =~= offsets);
        gap_ack_blocks.push(b);
        gap_ack_blocks
    }

    /// The same as text, for people to read.
    pub fn get_gap_ack_blocks_string(&self, cumulative_tsn: u32) -> (r: String)
        requires
            self@.wf(),
            self@.reportable(cumulative_tsn),
        ensures
            exists|blocks: Seq<GapAckBlock>| #[trigger]
                reports(blocks, self@.gap_offsets(cumulative_tsn)) && r@ == report_text(
                    cumulative_tsn,
                    blocks,
                ),
    {
        let blocks: Vec<GapAckBlock> = self.get_gap_ack_blocks(cumulative_tsn);
        let mut s: String = String::new();
        s.append("cumTSN=");
        push_decimal(&mut s, cumulative_tsn);
        let mut i: usize = 0;
        assert(s@ =~= report_text(cumulative_tsn, blocks@.take(0)));
        while i < blocks.len()
            invariant
                i <= blocks@.len(),
                s@ == report_text(cumulative_tsn, blocks@.take(i as int)),
            decreases blocks@.len() - i,
        {
            let b: GapAckBlock = blocks[i];
            s.append(",");
            push_decimal(&mut s, b.start as u32);
            s.append("-");
            push_decimal(&mut s, b.end as u32);
            proof {
                assert(blocks@.take(i + 1).drop_last() =~= blocks@.take(i as int));
                assert(s@ =~= report_text(cumulative_tsn, blocks@.take(i + 1)));
            }
            i += 1;
        }
        assert(blocks@.take(i as int) =~= blocks@);
        s
    }

    /// Records the receipt of the chunk with the given TSN. Returns true when
    /// the chunk is retained and its receipt was not recorded before.
    pub fn acknowledge(&mut self, tsn: u32) -> (r: bool)
        ensures
            r == (old(self)@.chunks.contains_key(tsn) && !old(self)@.chunks[tsn].acknowledged),
            final(self)@ == if old(self)@.chunks.contains_key(tsn) {
                old(self)@.with_chunk(tsn, old(self)@.chunks[tsn].with_receipt())
            } else {
                old(self)@
            },
            old(self)@.wf() ==> final(self)@.wf(),
    {
        let ghost before = self@;
        let r = match map_get_mut(&mut self.chunk_map, &tsn) {
            Some(c) => c.acknowledge(),
            None => false,
        };
        proof {
            if before.wf() && before.chunks.contains_key(tsn) {
                law_edit_keeps_wf(before, tsn, before.chunks[tsn].with_receipt());
            }
        }
        r
    }

    /// Releases each payload byte once, preserving the chunk's acknowledgment
    /// state. Returns the number of bytes that were released.
    pub fn release_payload(&mut self, tsn: u32) -> (r: usize)
        requires
            old(self)@.wf(),
        ensures
            final(self)@.wf(),
            old(self)@.chunks.contains_key(tsn) ==> {
                &&& r == old(self)@.chunks[tsn].size()
                &&& released(old(self)@.chunks[tsn], final(self)@.chunks[tsn])
                &&& final(self)@ == (PayloadQueueView {
                    n_bytes: (old(self)@.n_bytes - r) as nat,
                    ..old(self)@.with_chunk(tsn, final(self)@.chunks[tsn])
                })
            },
            !old(self)@.chunks.contains_key(tsn) ==> r == 0 && final(self)@ == old(self)@,
    {
        let ghost before = self@;
        proof {
            if before.chunks.contains_key(tsn) {
                lemma_size_is_counted(before, tsn);
            }
        }
        if let Some(c) = map_get_mut(&mut self.chunk_map, &tsn) {
            let n: usize = c.user_data.len();
            self.n_bytes -= n;
            c.user_data.clear();
            proof {
                law_release_keeps_wf(before, tsn, self@.chunks[tsn]);
            }
            n
        } else {
            0
        }
    }

    /// The newest retained TSN.
    pub fn get_last_tsn_received(&self) -> (r: Option<&u32>)
        ensures
            match r {
                Some(t) => self@.sorted.len() > 0 && *t == self@.sorted.last(),
                None => self@.sorted.len() == 0,
            },
    {
        let n: usize = self.sorted.len();
        if n == 0 {
            None
        } else {
            Some(&self.sorted[n - 1])
        }
    }

    /// Marks every outstanding chunk for retransmission.
    pub fn mark_all_to_retrasmit(&mut self)
        requires
            old(self)@.wf(),
        ensures
            final(self)@.wf(),
            final(self)@ == old(self)@.with_all_to_retransmit(),
    {
        let ghost before = self@;
        let n: usize = self.sorted.len();
        let mut i: usize = 0;
        proof {
            lemma_ordered_distinct(before.sorted);
        }
        while i < n
            invariant
                i <= n,
                n == before.sorted.len(),
                before.wf(),
                before.sorted.no_duplicates(),
                self@.wf(),
                self@ == (PayloadQueueView { chunks: self@.chunks, ..before }),
                self@.chunks.dom() == before.chunks.dom(),
                forall|k: int|
                    0 <= k < n ==> self@.chunks[#[trigger] before.sorted[k]] == if k < i {
                        before.chunks[before.sorted[k]].with_retry()
                    } else {
                        before.chunks[before.sorted[k]]
                    },
            decreases n - i,
        {
            let tsn: u32 = self.sorted[i];
            let ghost now = self@;
            proof {
                assert(before.sorted.contains(before.sorted[i as int]));
                assert(before.sorted[i as int] == tsn);
            }
            if let Some(c) = map_get_mut(&mut self.chunk_map, &tsn) {
                if c.is_outstanding() {
                    c.retransmit = true;
                }
            }
            proof {
                law_edit_keeps_wf(now, tsn, now.chunks[tsn].with_retry());
                assert(self@ == now.with_chunk(tsn, now.chunks[tsn].with_retry()));
            }
            i += 1;
        }
        proof {
            assert forall|t: u32| #[trigger] self@.chunks.contains_key(t) implies self@.chunks[t]
                == before.chunks[t].with_retry() by {
                assert(before.chunks.contains_key(t));
                let k = choose|k: int| 0 <= k < before.sorted.len() && before.sorted[k] == t;
                assert(before.sorted[k] == t);
            }
            assert(self@.chunks =~= before.with_all_to_retransmit().chunks);
        }
    }

    /// The number of payload bytes that the retained chunks carry.
    pub fn get_num_bytes(&self) -> (r: usize)
        ensures
            r == self@.n_bytes,
    {
        self.n_bytes
    }

    /// The number of retained chunks.
    pub fn len(&self) -> (r: usize)
        ensures
            r == self@.chunks.len(),
    {
        map_len(&self.chunk_map)
    }

    /// Whether no chunk is retained.
    pub fn is_empty(&self) -> (r: bool)
        ensures
            r == (self@.chunks.len() == 0),
    {
        self.len() == 0
    }
}

} // verus!
