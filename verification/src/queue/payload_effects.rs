//! What the operations of a payload queue do to its chunks, in terms of the
//! fields of the chunks and of plain arithmetic on their TSNs.

use crate::chunk::{ChunkPayloadData, GapAckBlock, MessageId, MessageReliability};
use crate::octets::bytes_content;
use crate::queue::gap_report::{
    covered, gap_offset, law_blocks_are_the_maximal_runs, law_offset_is_the_difference, reports,
};
use crate::queue::payload_laws::{
    law_accepted_push_keeps_wf, law_report_names_the_retained_tsns, lemma_ordered_filter,
    lemma_ordered_lists_equal, push_history,
};
use crate::queue::payload_model::{
    group_of, law_pop_keeps_wf, lemma_duplicates_keep_wf, lemma_empty_wf, lemma_size_is_counted,
    released, total_size, PayloadQueueView,
};
use crate::queue::tsn_list::{inserted_at, law_insertion_adds_one_number};
use crate::serial::{law_ordered_lists_ascend, ordered, serial_le, serial_lt};
use vstd::prelude::*;

verus! {

/// A new queue holds nothing, counts nothing and has recorded nothing.
pub proof fn law_new_queue_is_empty(id: MessageId)
    ensures
        PayloadQueueView::empty().chunks == Map::<u32, ChunkPayloadData>::empty(),
        PayloadQueueView::empty().sorted == Seq::<u32>::empty(),
        PayloadQueueView::empty().duplicates == Seq::<u32>::empty(),
        PayloadQueueView::empty().n_bytes == 0,
        PayloadQueueView::empty().indexed(id) == Seq::<u32>::empty(),
        PayloadQueueView::empty().wf(),
{
    lemma_empty_wf();
}

/// A push is accepted exactly when no retained chunk has the TSN and the TSN lies
/// in the half circle after the cumulative one, whatever else the queue holds or
/// has recorded. Then the chunk is retained under its TSN and its payload is
/// counted; else the TSN is recorded as a duplicate and nothing else changes.
pub proof fn law_push_accepts_new_tsns(
    v: PayloadQueueView,
    p: ChunkPayloadData,
    cumulative_tsn: u32,
    new: PayloadQueueView,
)
    requires
        v.after_push(p, cumulative_tsn, new),
    ensures
        v.accepts(p.tsn, cumulative_tsn) <==> !v.chunks.contains_key(p.tsn) && 0 < (p.tsn
            - cumulative_tsn) % 0x1_0000_0000 <= 0x8000_0000,
        if !v.chunks.contains_key(p.tsn) && 0 < (p.tsn - cumulative_tsn) % 0x1_0000_0000
            <= 0x8000_0000 {
            &&& new.chunks == v.chunks.insert(p.tsn, p)
            &&& exists|i: int|
                0 <= i < new.sorted.len() && #[trigger] new.sorted[i] == p.tsn && new.sorted.remove(
                    i,
                ) == v.sorted
            &&& new.duplicates == v.duplicates
            &&& new.n_bytes == v.n_bytes + bytes_content(p.user_data).len()
        } else {
            &&& new.chunks == v.chunks
            &&& new.sorted == v.sorted
            &&& new.duplicates == v.duplicates.push(p.tsn)
            &&& new.n_bytes == v.n_bytes
            &&& new.messages == v.messages
        },
{
    if v.accepts(p.tsn, cumulative_tsn) {
        law_insertion_adds_one_number(v.sorted, p.tsn, new.sorted);
    }
}

/// A push without a check retains the chunk under its TSN and counts its payload.
/// It is listed for its message, once more than before, exactly if it has a
/// message, is not reliable and lacks one of the B and E bits.
pub proof fn law_unchecked_push_retains(
    v: PayloadQueueView,
    p: ChunkPayloadData,
    new: PayloadQueueView,
    id: MessageId,
)
    requires
        v.pushed(p, new),
    ensures
        new.chunks == v.chunks.insert(p.tsn, p),
        new.duplicates == v.duplicates,
        new.n_bytes == v.n_bytes + bytes_content(p.user_data).len(),
        exists|i: int|
            0 <= i < new.sorted.len() && #[trigger] new.sorted[i] == p.tsn && new.sorted.remove(i)
                == v.sorted,
        if p.message_id == Some(id) && p.reliability != MessageReliability::Reliable && !(
        p.beginning_fragment && p.ending_fragment) {
            new.indexed(id).to_multiset() == v.indexed(id).to_multiset().insert(p.tsn)
        } else {
            new.indexed(id) == v.indexed(id)
        },
{
    broadcast use vstd::seq_lib::group_to_multiset_ensures;

    law_insertion_adds_one_number(v.sorted, p.tsn, new.sorted);
    if p.message_id == Some(id) && p.reliability != MessageReliability::Reliable && !(
    p.beginning_fragment && p.ending_fragment) {
        assert(group_of(p) == Some(id));
        let s = v.indexed(id);
        let n = new.indexed(id);
        if v.messages.contains_key(id) {
            if n == s.push(p.tsn) {
            } else if s.len() == 1 && n =~= seq![p.tsn, s[0]] {
                assert(n =~= s.insert(0, p.tsn));
                vstd::seq_lib::to_multiset_insert(s, 0, p.tsn);
            } else if s.len() == 1 && n =~= seq![s[0], p.tsn] {
                assert(n =~= s.push(p.tsn));
            } else {
                let i = choose|i: int| inserted_at(s, p.tsn, n, i);
                vstd::seq_lib::to_multiset_insert(s, i, p.tsn);
            }
        } else {
            assert(n =~= s.push(p.tsn));
        }
    }
}

/// Where every push of a history has led. The cases of the laws below.
proof fn lemma_history(
    chunks: Seq<ChunkPayloadData>,
    cumulative_tsn: u32,
    states: Seq<PayloadQueueView>,
    k: int,
)
    requires
        push_history(chunks, cumulative_tsn, states),
        states[0] == PayloadQueueView::empty(),
        0 <= k <= chunks.len(),
    ensures
        states[k].wf(),
        states[k].newer_than(cumulative_tsn),
        forall|t: u32| #[trigger]
            states[k].chunks.contains_key(t) ==> 0 < (t - cumulative_tsn) % 0x1_0000_0000
                <= 0x8000_0000 && exists|j: int|
                0 <= j < k && #[trigger] chunks[j] == states[k].chunks[t] && chunks[j].tsn == t && (
                forall|m: int| 0 <= m < j ==> (#[trigger] chunks[m]).tsn != t),
        forall|j: int|
            0 <= j < k && 0 < ((#[trigger] chunks[j]).tsn - cumulative_tsn) % 0x1_0000_0000
                <= 0x8000_0000 ==> states[k].chunks.contains_key(chunks[j].tsn),
        states[k].sorted.len() + states[k].duplicates.len() == k,
    decreases k,
{
    if k == 0 {
        lemma_empty_wf();
    } else {
        lemma_history(chunks, cumulative_tsn, states, k - 1);
        let v = states[k - 1];
        let w = states[k];
        let p = chunks[k - 1];
        assert(v.after_push(p, cumulative_tsn, w));
        law_push_accepts_new_tsns(v, p, cumulative_tsn, w);
        if v.accepts(p.tsn, cumulative_tsn) {
            law_accepted_push_keeps_wf(v, p, cumulative_tsn, w);
            assert forall|t: u32| #[trigger] w.chunks.contains_key(t) implies 0 < (t
                - cumulative_tsn) % 0x1_0000_0000 <= 0x8000_0000 && exists|j: int|
                0 <= j < k && #[trigger] chunks[j] == w.chunks[t] && chunks[j].tsn == t && (forall|
                    m: int,
                |
                    0 <= m < j ==> (#[trigger] chunks[m]).tsn != t) by {
                if t == p.tsn {
                    assert(chunks[k - 1] == w.chunks[t]);
                    assert forall|m: int| 0 <= m < k - 1 implies (#[trigger] chunks[m]).tsn != t by {
                        if chunks[m].tsn == t {
                            assert(v.chunks.contains_key(chunks[m].tsn));
                        }
                    }
                } else {
                    assert(v.chunks.contains_key(t));
                }
            }
        } else {
            lemma_duplicates_keep_wf(v, w.duplicates);
            assert forall|t: u32| #[trigger] w.chunks.contains_key(t) implies 0 < (t
                - cumulative_tsn) % 0x1_0000_0000 <= 0x8000_0000 && exists|j: int|
                0 <= j < k && #[trigger] chunks[j] == w.chunks[t] && chunks[j].tsn == t && (forall|
                    m: int,
                |
                    0 <= m < j ==> (#[trigger] chunks[m]).tsn != t) by {
                assert(v.chunks.contains_key(t));
            }
        }
    }
}

/// Of all chunks that are pushed to a new queue, repeats allowed, each one that
/// is newer than the cumulative TSN and the first with its TSN is retained as it
/// was pushed.
pub proof fn law_first_newer_chunk_is_retained(
    chunks: Seq<ChunkPayloadData>,
    cumulative_tsn: u32,
    states: Seq<PayloadQueueView>,
    i: int,
)
    requires
        push_history(chunks, cumulative_tsn, states),
        states[0] == PayloadQueueView::empty(),
        0 <= i < chunks.len(),
        0 < (chunks[i].tsn - cumulative_tsn) % 0x1_0000_0000 <= 0x8000_0000,
        forall|j: int| 0 <= j < i ==> (#[trigger] chunks[j]).tsn != chunks[i].tsn,
    ensures
        states.last().chunks.contains_key(chunks[i].tsn),
        states.last().chunks[chunks[i].tsn] == chunks[i],
{
    lemma_history(chunks, cumulative_tsn, states, chunks.len() as int);
    let w = states.last();
    let t = chunks[i].tsn;
    assert(w.chunks.contains_key(t));
    let j = choose|j: int|
        0 <= j < chunks.len() && #[trigger] chunks[j] == w.chunks[t] && chunks[j].tsn == t && (
        forall|m: int| 0 <= m < j ==> (#[trigger] chunks[m]).tsn != t);
    if i < j {
        assert(chunks[i].tsn != t);
    }
    if j < i {
        assert(chunks[j].tsn != chunks[i].tsn);
    }
}

/// Every chunk that is pushed to a new queue is either retained or recorded as a
/// duplicate, only newer ones are retained, and each of them as it was pushed.
/// The queue is well formed at every step.
pub proof fn law_every_push_is_accounted_for(
    chunks: Seq<ChunkPayloadData>,
    cumulative_tsn: u32,
    states: Seq<PayloadQueueView>,
    k: int,
)
    requires
        push_history(chunks, cumulative_tsn, states),
        states[0] == PayloadQueueView::empty(),
        0 <= k <= chunks.len(),
    ensures
        states[k].wf(),
        states[k].newer_than(cumulative_tsn),
        states[k].sorted.len() + states[k].duplicates.len() == k,
        forall|t: u32| #[trigger]
            states[k].chunks.contains_key(t) <==> 0 < (t - cumulative_tsn) % 0x1_0000_0000
                <= 0x8000_0000 && exists|j: int| 0 <= j < k && (#[trigger] chunks[j]).tsn == t,
        forall|t: u32| #[trigger]
            states[k].chunks.contains_key(t) ==> chunks.contains(states[k].chunks[t]),
{
    lemma_history(chunks, cumulative_tsn, states, k);
}

/// All retained TSNs are newer than a cumulative TSN when each lies in the half
/// circle after it.
pub proof fn law_newer_tsns_follow(v: PayloadQueueView, cumulative_tsn: u32)
    ensures
        v.newer_than(cumulative_tsn) <==> forall|t: u32| #[trigger]
            v.sorted.contains(t) ==> 0 < (t - cumulative_tsn) % 0x1_0000_0000 <= 0x8000_0000,
{
    if v.newer_than(cumulative_tsn) {
        assert forall|t: u32| #[trigger] v.sorted.contains(t) implies 0 < (t - cumulative_tsn)
            % 0x1_0000_0000 <= 0x8000_0000 by {
            assert(!serial_le(t, cumulative_tsn));
        }
    } else {
        let t = choose|t: u32| #[trigger] v.sorted.contains(t) && serial_le(t, cumulative_tsn);
        assert(!(0 < (t - cumulative_tsn) % 0x1_0000_0000 <= 0x8000_0000));
    }
}

/// The list for a message holds, in the order of all retained TSNs, each one
/// whose chunk carries that message, is not reliable and is not a whole message,
/// that is, lacks at least one of the B and E bits.
pub proof fn law_index_lists_the_fragments(v: PayloadQueueView, id: MessageId)
    requires
        v.wf(),
    ensures
        v.indexed(id) == v.sorted.filter(
            |t: u32|
                v.chunks[t].message_id == Some(id) && v.chunks[t].reliability
                    != MessageReliability::Reliable && (!v.chunks[t].beginning_fragment
                    || !v.chunks[t].ending_fragment),
        ),
        forall|t: u32| #[trigger]
            v.indexed(id).contains(t) <==> v.chunks.contains_key(t) && v.chunks[t].message_id
                == Some(id) && v.chunks[t].reliability != MessageReliability::Reliable && (
            !v.chunks[t].beginning_fragment || !v.chunks[t].ending_fragment),
        forall|i: int, j: int|
            0 <= i < j < v.indexed(id).len() ==> 0 < (#[trigger] v.indexed(id)[j]
                - #[trigger] v.indexed(id)[i]) % 0x1_0000_0000 < 0x8000_0000,
{
    let keep = |t: u32|
        v.chunks[t].message_id == Some(id) && v.chunks[t].reliability
            != MessageReliability::Reliable && (!v.chunks[t].beginning_fragment
            || !v.chunks[t].ending_fragment);
    let f = v.sorted.filter(keep);
    lemma_ordered_filter(v.sorted, keep);
    assert forall|t: u32| #[trigger] v.indexed(id).contains(t) <==> f.contains(t) by {
        assert(v.indexed(id).contains(t) <==> v.retains_fragment(id, t));
    }
    lemma_ordered_lists_equal(v.indexed(id), f);
    law_ordered_lists_ascend(v.indexed(id));
}

/// A queue is well formed when its list holds the retained TSNs in ascending
/// order, each chunk stands under its own TSN, the byte count is the sum of the
/// payloads, and the index lists the fragments of each message that can be
/// abandoned and has no empty entry.
pub proof fn law_well_formed_queue(v: PayloadQueueView)
    ensures
        v.wf() <==> {
            &&& forall|i: int, j: int|
                0 <= i < j < v.sorted.len() ==> 0 < (#[trigger] v.sorted[j] - #[trigger] v.sorted[i])
                    % 0x1_0000_0000 < 0x8000_0000
            &&& forall|t: u32| #[trigger] v.chunks.contains_key(t) <==> v.sorted.contains(t)
            &&& forall|t: u32| #[trigger] v.chunks.contains_key(t) ==> v.chunks[t].tsn == t
            &&& v.n_bytes == v.sorted.fold_right_alt(
                |t: u32, sum: nat| bytes_content(v.chunks[t].user_data).len() + sum,
                0nat,
            )
            &&& forall|id: MessageId| #[trigger]
                v.messages.contains_key(id) ==> v.indexed(id).len() > 0
            &&& forall|id: MessageId| #[trigger]
                v.indexed(id) == v.sorted.filter(
                    |t: u32|
                        v.chunks[t].message_id == Some(id) && v.chunks[t].reliability
                            != MessageReliability::Reliable && (!v.chunks[t].beginning_fragment
                            || !v.chunks[t].ending_fragment),
                )
        },
{
    law_ordered_lists_ascend(v.sorted);
    lemma_bytes_are_summed(v.sorted, v.chunks);
    if v.wf() {
        assert forall|id: MessageId| #[trigger]
            v.indexed(id) == v.sorted.filter(
                |t: u32|
                    v.chunks[t].message_id == Some(id) && v.chunks[t].reliability
                        != MessageReliability::Reliable && (!v.chunks[t].beginning_fragment
                        || !v.chunks[t].ending_fragment),
            ) by {
            law_index_lists_the_fragments(v, id);
        }
        assert forall|id: MessageId| #[trigger] v.messages.contains_key(id) implies v.indexed(
            id,
        ).len() > 0 by {}
    }
    if (forall|i: int, j: int|
        0 <= i < j < v.sorted.len() ==> 0 < (#[trigger] v.sorted[j] - #[trigger] v.sorted[i])
            % 0x1_0000_0000 < 0x8000_0000) && (forall|t: u32| #[trigger]
        v.chunks.contains_key(t) <==> v.sorted.contains(t)) && (forall|id: MessageId| #[trigger]
        v.indexed(id) == v.sorted.filter(
            |t: u32|
                v.chunks[t].message_id == Some(id) && v.chunks[t].reliability
                    != MessageReliability::Reliable && (!v.chunks[t].beginning_fragment
                    || !v.chunks[t].ending_fragment),
        )) && (forall|id: MessageId| #[trigger]
        v.messages.contains_key(id) ==> v.indexed(id).len() > 0) {
        assert forall|id: MessageId|
            {
                &&& ordered(#[trigger] v.indexed(id))
                &&& forall|t: u32| #[trigger]
                    v.indexed(id).contains(t) <==> v.retains_fragment(id, t)
            } by {
            let keep = |t: u32|
                v.chunks[t].message_id == Some(id) && v.chunks[t].reliability
                    != MessageReliability::Reliable && (!v.chunks[t].beginning_fragment
                    || !v.chunks[t].ending_fragment);
            lemma_ordered_filter(v.sorted, keep);
            assert(v.indexed(id) == v.sorted.filter(keep));
        }
        assert forall|id: MessageId| #[trigger] v.messages.contains_key(id) implies v.messages[id].tsns().len()
            > 0 by {
            assert(v.indexed(id).len() > 0);
        }
    }
}

proof fn lemma_bytes_are_summed(s: Seq<u32>, chunks: Map<u32, ChunkPayloadData>)
    ensures
        total_size(s, chunks) == s.fold_right_alt(
            |t: u32, sum: nat| bytes_content(chunks[t].user_data).len() + sum,
            0nat,
        ),
    decreases s.len(),
{
    if s.len() > 0 {
        lemma_bytes_are_summed(s.drop_first(), chunks);
    }
}

/// A pop takes the chunk under a TSN exactly when all other retained TSNs come
/// after that one. The chunk, its bytes and its place in the list of its message
/// are then gone, and all else stays.
pub proof fn law_pop_takes_a_chunk_before_all_others(v: PayloadQueueView, tsn: u32, id: MessageId)
    requires
        v.wf(),
    ensures
        v.starts_with(tsn) <==> v.chunks.contains_key(tsn) && forall|t: u32| #[trigger]
            v.chunks.contains_key(t) && t != tsn ==> 0 < (t - tsn) % 0x1_0000_0000 < 0x8000_0000,
        v.starts_with(tsn) ==> {
            &&& v.without_first().chunks == v.chunks.remove(tsn)
            &&& v.without_first().sorted == v.sorted.drop_first()
            &&& v.without_first().duplicates == v.duplicates
            &&& v.without_first().n_bytes + bytes_content(v.chunks[tsn].user_data).len() == v.n_bytes
            &&& v.without_first().indexed(id) == v.indexed(id).filter(|t: u32| t != tsn)
            &&& v.without_first().wf()
        },
{
    if v.starts_with(tsn) {
        assert(v.sorted.contains(v.sorted[0]));
        assert forall|t: u32| #[trigger] v.chunks.contains_key(t) && t != tsn implies 0 < (t - tsn)
            % 0x1_0000_0000 < 0x8000_0000 by {
            let k = choose|k: int| 0 <= k < v.sorted.len() && v.sorted[k] == t;
            assert(serial_lt(v.sorted[0], v.sorted[k]));
        }
        law_pop_keeps_wf(v);
        lemma_size_is_counted(v, tsn);
        let w = v.without_first();
        let f = v.indexed(id).filter(|t: u32| t != tsn);
        lemma_ordered_filter(v.indexed(id), |t: u32| t != tsn);
        law_index_lists_the_fragments(v, id);
        law_index_lists_the_fragments(w, id);
        assert forall|t: u32| #[trigger] w.indexed(id).contains(t) <==> f.contains(t) by {
            assert(f.contains(t) <==> v.indexed(id).contains(t) && t != tsn);
        }
        lemma_ordered_lists_equal(w.indexed(id), f);
    } else if v.chunks.contains_key(tsn) {
        let k = choose|k: int| 0 <= k < v.sorted.len() && v.sorted[k] == tsn;
        assert(v.sorted.contains(v.sorted[0]));
        assert(serial_lt(v.sorted[0], v.sorted[k]));
        assert(v.chunks.contains_key(v.sorted[0]));
    }
}

/// The last of the listed TSNs comes after all others.
pub proof fn law_last_tsn_is_after_all_others(v: PayloadQueueView, t: u32)
    requires
        v.wf(),
        v.chunks.contains_key(t),
    ensures
        v.sorted.len() > 0,
        v.chunks.contains_key(v.sorted.last()),
        t == v.sorted.last() || 0 < (v.sorted.last() - t) % 0x1_0000_0000 < 0x8000_0000,
{
    let k = choose|k: int| 0 <= k < v.sorted.len() && v.sorted[k] == t;
    let l = v.sorted.len() - 1;
    assert(v.sorted.contains(v.sorted[l]));
    if k < l {
        assert(serial_lt(v.sorted[k], v.sorted[l]));
    }
}

/// Changing a chunk in place changes nothing but that chunk.
pub proof fn law_change_in_place(v: PayloadQueueView, tsn: u32, c: ChunkPayloadData)
    ensures
        v.with_chunk(tsn, c).chunks == v.chunks.insert(tsn, c),
        v.with_chunk(tsn, c).sorted == v.sorted,
        v.with_chunk(tsn, c).duplicates == v.duplicates,
        v.with_chunk(tsn, c).n_bytes == v.n_bytes,
        v.with_chunk(tsn, c).messages == v.messages,
{
}

/// Releasing a payload leaves no byte of it and changes nothing else in the
/// chunk.
pub proof fn law_release_takes_only_the_payload(c: ChunkPayloadData, new: ChunkPayloadData)
    ensures
        released(c, new) <==> bytes_content(new.user_data).len() == 0 && new
            == (ChunkPayloadData { user_data: new.user_data, ..c }),
{
}

/// Marking all chunks reaches every retained chunk that is neither acknowledged
/// nor given up, and changes nothing but the marks.
pub proof fn law_marking_reaches_every_chunk(v: PayloadQueueView, t: u32)
    ensures
        v.with_all_to_retransmit().chunks.contains_key(t) <==> v.chunks.contains_key(t),
        v.chunks.contains_key(t) ==> v.with_all_to_retransmit().chunks[t] == (ChunkPayloadData {
            retransmit: v.chunks[t].retransmit || (!v.chunks[t].acknowledged
                && !v.chunks[t].abandoned),
            ..v.chunks[t]
        }),
        v.with_all_to_retransmit().sorted == v.sorted,
        v.with_all_to_retransmit().duplicates == v.duplicates,
        v.with_all_to_retransmit().n_bytes == v.n_bytes,
        v.with_all_to_retransmit().messages == v.messages,
{
}

/// The offsets to report are those of the retained TSNs in their order. A report
/// can be made unless one of them, other than the last, is 65535.
pub proof fn law_offsets_to_report(v: PayloadQueueView, cumulative_tsn: u32)
    ensures
        v.gap_offsets(cumulative_tsn).len() == v.sorted.len(),
        forall|i: int|
            0 <= i < v.sorted.len() ==> (#[trigger] v.gap_offsets(cumulative_tsn)[i]) as int == if v.sorted[i]
                >= cumulative_tsn {
                (v.sorted[i] - cumulative_tsn) % 65536
            } else {
                0
            },
        v.reportable(cumulative_tsn) <==> forall|i: int|
            0 <= i < v.sorted.len() - 1 ==> #[trigger] v.gap_offsets(cumulative_tsn)[i] != 65535,
{
    let o = v.gap_offsets(cumulative_tsn);
    assert(forall|i: int|
        #![auto]
        0 <= i < v.sorted.len() ==> o[i] == gap_offset(cumulative_tsn, v.sorted[i]));
    if v.reportable(cumulative_tsn) {
        assert forall|i: int| 0 <= i < v.sorted.len() - 1 implies #[trigger] o[i] != 65535 by {
            assert(gap_offset(cumulative_tsn, v.sorted[i]) != u16::MAX);
        }
    } else {
        let i = choose|i: int|
            0 <= i < v.sorted.len() - 1 && gap_offset(cumulative_tsn, #[trigger] v.sorted[i])
                == u16::MAX;
        assert(o[i] == 65535);
    }
}

/// When all retained TSNs lie at most 65535 above the cumulative one, with no
/// wrap-around, a report can be made; a TSN is retained exactly when a block
/// reaches over its offset; and between two blocks at least one TSN is missing.
pub proof fn law_report_shows_what_is_retained(
    v: PayloadQueueView,
    cumulative_tsn: u32,
    blocks: Seq<GapAckBlock>,
    t: u32,
    k: int,
)
    requires
        v.wf(),
        forall|t: u32| #[trigger]
            v.chunks.contains_key(t) ==> cumulative_tsn <= t <= cumulative_tsn + 65535,
        reports(blocks, v.gap_offsets(cumulative_tsn)),
    ensures
        v.reportable(cumulative_tsn),
        v.chunks.contains_key(t) <==> exists|i: int|
            0 <= i < blocks.len() && cumulative_tsn + (#[trigger] blocks[i]).start <= t
                <= cumulative_tsn + blocks[i].end,
        0 <= k < blocks.len() ==> blocks[k].start <= blocks[k].end,
        0 <= k < blocks.len() - 1 ==> blocks[k].end + 1 < blocks[k + 1].start,
{
    let o = v.gap_offsets(cumulative_tsn);
    lemma_offsets_ascend(v, cumulative_tsn);
    if cumulative_tsn <= t <= cumulative_tsn + 65535 {
        let d = (t - cumulative_tsn) as u16;
        law_report_names_the_retained_tsns(v, cumulative_tsn, blocks, d);
        assert(covered(blocks, d) <==> v.chunks.contains_key(t));
        if covered(blocks, d) {
            let i = choose|i: int|
                0 <= i < blocks.len() && (#[trigger] blocks[i]).start <= d <= blocks[i].end;
            assert(cumulative_tsn + blocks[i].start <= t <= cumulative_tsn + blocks[i].end);
        } else {
            assert forall|i: int| 0 <= i < blocks.len() implies !(cumulative_tsn + (
            #[trigger] blocks[i]).start <= t <= cumulative_tsn + blocks[i].end) by {
                assert(!(blocks[i].start <= d <= blocks[i].end));
            }
        }
    }
    if 0 <= k < blocks.len() - 1 {
        let cuts = law_blocks_are_the_maximal_runs(blocks, o);
        let c = cuts[k + 1];
        assert(blocks[k].end == o[c - 1]);
        assert(blocks[k + 1].start == o[c]);
        assert(0 <= c - 1 < c < o.len());
        assert(o[c - 1] < o[c]);
    }
}

/// Offsets within reach of a report stand for the TSNs themselves, so they ascend
/// as the TSNs do, and only the last can be the largest.
proof fn lemma_offsets_ascend(v: PayloadQueueView, cumulative_tsn: u32)
    requires
        v.wf(),
        forall|t: u32| #[trigger]
            v.chunks.contains_key(t) ==> cumulative_tsn <= t <= cumulative_tsn + 65535,
    ensures
        v.reportable(cumulative_tsn),
        forall|i: int, j: int|
            0 <= i < j < v.sorted.len() ==> #[trigger] v.gap_offsets(cumulative_tsn)[i]
                < #[trigger] v.gap_offsets(cumulative_tsn)[j],
{
    let o = v.gap_offsets(cumulative_tsn);
    assert forall|i: int| 0 <= i < v.sorted.len() implies cumulative_tsn + #[trigger] o[i]
        == v.sorted[i] by {
        assert(v.sorted.contains(v.sorted[i]));
        assert(v.chunks.contains_key(v.sorted[i]));
        law_offset_is_the_difference(cumulative_tsn, v.sorted[i]);
    }
    assert forall|i: int, j: int| 0 <= i < j < v.sorted.len() implies #[trigger] o[i]
        < #[trigger] o[j] by {
        assert(v.sorted.contains(v.sorted[j]));
        assert(v.chunks.contains_key(v.sorted[j]));
        assert(serial_lt(v.sorted[i], v.sorted[j]));
    }
    assert forall|i: int| 0 <= i < v.sorted.len() - 1 implies gap_offset(
        cumulative_tsn,
        #[trigger] v.sorted[i],
    ) != u16::MAX by {
        assert(o[i] < o[v.sorted.len() - 1]);
    }
}

} // verus!
