//! What holds of every payload queue.

use crate::chunk::{ChunkPayloadData, GapAckBlock, MessageId};
use crate::queue::gap_report::{covered, gap_offset, law_report_covers, reports};
use crate::queue::payload_model::{
    group_of, law_pop_keeps_wf, law_push_keeps_wf, lemma_empty_wf, released, PayloadQueueView,
};
use crate::queue::tsn_list::{inserted_at, lemma_insert_contains, lemma_ordered_distinct};
use crate::serial::{all_follow, fits, follows, ordered, serial_le, serial_lt};
use vstd::prelude::*;

verus! {

/// A queue whose TSNs are all newer than the cumulative TSN stays well formed
/// and so when a chunk is pushed that is newer too.
pub proof fn law_accepted_push_keeps_wf(
    v: PayloadQueueView,
    p: ChunkPayloadData,
    cumulative_tsn: u32,
    new: PayloadQueueView,
)
    requires
        v.wf(),
        v.newer_than(cumulative_tsn),
        v.accepts(p.tsn, cumulative_tsn),
        v.pushed(p, new),
    ensures
        fits(v.sorted, p.tsn),
        new.wf(),
        new.newer_than(cumulative_tsn),
{
    assert(follows(cumulative_tsn, p.tsn));
    assert(all_follow(cumulative_tsn, v.sorted)) by {
        assert forall|i: int| 0 <= i < v.sorted.len() implies follows(
            cumulative_tsn,
            #[trigger] v.sorted[i],
        ) by {
            assert(v.sorted.contains(v.sorted[i]));
        }
    }
    law_push_keeps_wf(v, p, new);
    let i = choose|i: int| inserted_at(v.sorted, p.tsn, new.sorted, i);
    assert forall|t: u32| #[trigger] new.sorted.contains(t) implies !serial_le(t, cumulative_tsn) by {
        lemma_insert_contains(v.sorted, i, p.tsn, t);
    }
}

/// When all retained TSNs are newer than the cumulative TSN, the TSN right
/// after it can only be retained as the oldest one.
pub proof fn law_next_tsn_is_oldest(v: PayloadQueueView, cumulative_tsn: u32)
    requires
        v.wf(),
        v.newer_than(cumulative_tsn),
    ensures
        v.starts_with(cumulative_tsn.wrapping_add(1)) <==> v.chunks.contains_key(
            cumulative_tsn.wrapping_add(1),
        ),
{
    let next = cumulative_tsn.wrapping_add(1);
    if v.chunks.contains_key(next) {
        let k = choose|k: int| 0 <= k < v.sorted.len() && v.sorted[k] == next;
        if k > 0 {
            assert(serial_lt(v.sorted[0], v.sorted[k]));
            assert(v.sorted.contains(v.sorted[0]));
        }
    }
    if v.starts_with(next) {
        assert(v.sorted.contains(v.sorted[0]));
    }
}

/// When the cumulative TSN moves on by one, and the chunk that it moves over is
/// popped if it is retained, the retained TSNs are still all newer.
pub proof fn law_cumulative_step_keeps_newer(v: PayloadQueueView, cumulative_tsn: u32)
    requires
        v.wf(),
        v.newer_than(cumulative_tsn),
    ensures
        ({
            let next = cumulative_tsn.wrapping_add(1);
            if v.starts_with(next) {
                v.without_first().newer_than(next)
            } else {
                v.newer_than(next)
            }
        }),
{
    let next = cumulative_tsn.wrapping_add(1);
    law_next_tsn_is_oldest(v, cumulative_tsn);
    if v.starts_with(next) {
        law_pop_keeps_wf(v);
        let w = v.without_first();
        assert forall|t: u32| #[trigger] w.sorted.contains(t) implies !serial_le(t, next) by {
            let k = choose|k: int| 0 <= k < w.sorted.len() && w.sorted[k] == t;
            assert(w.sorted[k] == v.sorted[k + 1]);
            assert(serial_lt(v.sorted[0], v.sorted[k + 1]));
        }
    } else {
        assert forall|t: u32| #[trigger] v.sorted.contains(t) implies !serial_le(t, next) by {
            assert(v.chunks.contains_key(t));
            assert(t != next);
        }
    }
}

/// A pushed chunk can be read back, and no other chunk changes.
pub proof fn law_push_is_read_back(
    v: PayloadQueueView,
    p: ChunkPayloadData,
    new: PayloadQueueView,
    tsn: u32,
)
    requires
        v.pushed(p, new),
    ensures
        new.chunks.contains_key(p.tsn) && new.chunks[p.tsn] == p,
        tsn != p.tsn ==> (new.chunks.contains_key(tsn) <==> v.chunks.contains_key(tsn)),
        tsn != p.tsn && v.chunks.contains_key(tsn) ==> new.chunks[tsn] == v.chunks[tsn],
{
}

/// While a chunk is retained, a second one with its TSN is refused, whatever
/// the cumulative TSN.
pub proof fn law_retained_tsn_is_refused(
    v: PayloadQueueView,
    p: ChunkPayloadData,
    new: PayloadQueueView,
    cumulative_tsn: u32,
)
    requires
        v.pushed(p, new),
    ensures
        !new.accepts(p.tsn, cumulative_tsn),
{
}

/// Chunks are popped in the serial order of their TSNs: all that remain after a
/// pop come after the popped one.
pub proof fn law_pop_takes_the_oldest(v: PayloadQueueView, tsn: u32)
    requires
        v.wf(),
        v.starts_with(tsn),
    ensures
        forall|t: u32| #[trigger] v.without_first().chunks.contains_key(t) ==> serial_lt(tsn, t),
{
    law_pop_keeps_wf(v);
    let w = v.without_first();
    assert forall|t: u32| #[trigger] w.chunks.contains_key(t) implies serial_lt(tsn, t) by {
        let k = choose|k: int| 0 <= k < w.sorted.len() && w.sorted[k] == t;
        assert(w.sorted[k] == v.sorted[k + 1]);
        assert(serial_lt(v.sorted[0], v.sorted[k + 1]));
    }
}

/// Each payload byte is released once: what is left after a release has no
/// payload to release, and its acknowledgment state is what it was.
pub proof fn law_payload_is_released_once(
    c0: ChunkPayloadData,
    c1: ChunkPayloadData,
    c2: ChunkPayloadData,
)
    requires
        released(c0, c1),
        released(c1, c2),
    ensures
        c1.size() == 0,
        c1.acknowledged == c0.acknowledged,
        c2 == (ChunkPayloadData { user_data: c2.user_data, ..c1 }),
{
}

/// A receipt is recorded once: recording it again changes nothing, and it
/// leaves the payload as it is.
pub proof fn law_receipt_is_recorded_once(c: ChunkPayloadData)
    ensures
        c.with_receipt().acknowledged,
        c.with_receipt().with_receipt() == c.with_receipt(),
        c.with_receipt().user_data == c.user_data,
        !c.with_receipt().outstanding(),
{
}

/// Marking all chunks marks exactly the outstanding ones, un-marks none, and
/// doing it twice is doing it once.
pub proof fn law_mark_all_to_retransmit(v: PayloadQueueView)
    ensures
        v.with_all_to_retransmit().with_all_to_retransmit() == v.with_all_to_retransmit(),
        forall|t: u32| #[trigger]
            v.chunks.contains_key(t) ==> v.with_all_to_retransmit().chunks[t].retransmit == (
            v.chunks[t].retransmit || v.chunks[t].outstanding()),
{
    let w = v.with_all_to_retransmit();
    assert(w.with_all_to_retransmit().chunks =~= w.chunks);
}

/// The number of retained chunks is the number of TSNs in the list.
pub proof fn law_one_tsn_per_chunk(v: PayloadQueueView)
    requires
        v.wf(),
    ensures
        v.chunks.dom().finite(),
        v.chunks.len() == v.sorted.len(),
{
    lemma_ordered_distinct(v.sorted);
    v.sorted.unique_seq_to_set();
    assert(v.chunks.dom() =~= v.sorted.to_set());
}

/// Two lists in serial order that hold the same numbers are the same list.
pub proof fn lemma_ordered_lists_equal(a: Seq<u32>, b: Seq<u32>)
    requires
        ordered(a),
        ordered(b),
        forall|x: u32| #[trigger] a.contains(x) <==> b.contains(x),
    ensures
        a == b,
    decreases a.len(),
{
    if a.len() == 0 {
        if b.len() > 0 {
            assert(b.contains(b[0]));
            assert(a.contains(b[0]));
        }
        assert(a =~= b);
    } else {
        assert(a.contains(a[0]));
        assert(b.contains(b[0]));
        assert(a.contains(b[0]));
        let i = choose|i: int| 0 <= i < b.len() && b[i] == a[0];
        let j = choose|j: int| 0 <= j < a.len() && a[j] == b[0];
        if i > 0 {
            assert(serial_lt(b[0], b[i]));
            if j > 0 {
                assert(serial_lt(a[0], a[j]));
            }
        }
        assert(a[0] == b[0]);
        let ra = a.drop_first();
        let rb = b.drop_first();
        lemma_ordered_rest(a);
        lemma_ordered_rest(b);
        assert forall|x: u32| #[trigger] ra.contains(x) <==> rb.contains(x) by {
            assert(a.contains(x) <==> b.contains(x));
        }
        lemma_ordered_lists_equal(ra, rb);
        assert(a =~= seq![a[0]] + ra);
        assert(b =~= seq![b[0]] + rb);
    }
}

/// A list in serial order without its first number.
proof fn lemma_ordered_rest(a: Seq<u32>)
    requires
        ordered(a),
        a.len() > 0,
    ensures
        ordered(a.drop_first()),
        forall|x: u32| #[trigger] a.drop_first().contains(x) <==> a.contains(x) && x != a[0],
{
    let r = a.drop_first();
    lemma_ordered_distinct(a);
    assert(forall|i: int| 0 <= i < r.len() ==> r[i] == a[i + 1]);
    assert forall|i: int, j: int| 0 <= i < j < r.len() implies serial_lt(
        #[trigger] r[i],
        #[trigger] r[j],
    ) by {
        assert(serial_lt(a[i + 1], a[j + 1]));
    }
    assert forall|x: u32| #[trigger] r.contains(x) <==> a.contains(x) && x != a[0] by {
        if r.contains(x) {
            let k = choose|k: int| 0 <= k < r.len() && r[k] == x;
            assert(a[k + 1] == x);
        }
        if a.contains(x) && x != a[0] {
            let k = choose|k: int| 0 <= k < a.len() && a[k] == x;
            assert(r[k - 1] == x);
        }
    }
}

/// A list in serial order from which some numbers were left out.
pub proof fn lemma_ordered_filter(a: Seq<u32>, keep: spec_fn(u32) -> bool)
    requires
        ordered(a),
    ensures
        ordered(a.filter(keep)),
        forall|x: u32| #[trigger] a.filter(keep).contains(x) <==> a.contains(x) && keep(x),
    decreases a.len(),
{
    reveal(Seq::filter);
    if a.len() > 0 {
        let front = a.drop_last();
        assert(forall|i: int| 0 <= i < front.len() ==> front[i] == a[i]);
        lemma_ordered_filter(front, keep);
        let f = front.filter(keep);
        let last = a.last();
        assert forall|x: u32| #[trigger] a.contains(x) <==> front.contains(x) || x == last by {
            if a.contains(x) {
                let k = choose|k: int| 0 <= k < a.len() && a[k] == x;
                if k < front.len() {
                    assert(front[k] == x);
                }
            }
            if front.contains(x) {
                let k = choose|k: int| 0 <= k < front.len() && front[k] == x;
                assert(a[k] == x);
            }
            assert(a[a.len() - 1] == last);
        }
        if keep(last) {
            let n = f.push(last);
            assert(a.filter(keep) == n);
            assert forall|i: int, j: int| 0 <= i < j < n.len() implies serial_lt(
                #[trigger] n[i],
                #[trigger] n[j],
            ) by {
                if j < f.len() {
                    assert(serial_lt(f[i], f[j]));
                } else {
                    assert(f.contains(f[i]));
                    let k = choose|k: int| 0 <= k < front.len() && front[k] == f[i];
                    assert(serial_lt(a[k], a[a.len() - 1]));
                }
            }
            assert forall|x: u32| #[trigger] n.contains(x) <==> f.contains(x) || x == last by {
                if f.contains(x) {
                    let k = choose|k: int| 0 <= k < f.len() && f[k] == x;
                    assert(n[k] == x);
                }
                assert(n[f.len() as int] == last);
            }
        }
    }
}

/// What is indexed for a message is the list of the retained TSNs, in their
/// order, of its fragments that can be abandoned.
pub proof fn law_message_index_is_complete(v: PayloadQueueView, id: MessageId)
    requires
        v.wf(),
    ensures
        v.indexed(id) == v.sorted.filter(|t: u32| group_of(v.chunks[t]) == Some(id)),
{
    let keep = |t: u32| group_of(v.chunks[t]) == Some(id);
    lemma_ordered_filter(v.sorted, keep);
    let f = v.sorted.filter(keep);
    assert forall|x: u32| #[trigger] v.indexed(id).contains(x) <==> f.contains(x) by {
        assert(v.indexed(id).contains(x) <==> v.retains_fragment(id, x));
    }
    lemma_ordered_lists_equal(v.indexed(id), f);
}

/// The retained chunks determine the rest of a queue: the order of their TSNs,
/// the byte count and what is indexed for each message.
pub proof fn law_chunks_determine_the_queue(v: PayloadQueueView, w: PayloadQueueView)
    requires
        v.wf(),
        w.wf(),
        v.chunks == w.chunks,
    ensures
        v.sorted == w.sorted,
        v.n_bytes == w.n_bytes,
        forall|id: MessageId| #[trigger] v.indexed(id) == w.indexed(id),
{
    assert forall|t: u32| #[trigger] v.sorted.contains(t) <==> w.sorted.contains(t) by {
        assert(v.chunks.contains_key(t) <==> v.sorted.contains(t));
        assert(w.chunks.contains_key(t) <==> w.sorted.contains(t));
    }
    lemma_ordered_lists_equal(v.sorted, w.sorted);
    assert forall|id: MessageId| #[trigger] v.indexed(id) == w.indexed(id) by {
        assert forall|t: u32| #[trigger] v.indexed(id).contains(t) <==> w.indexed(id).contains(
            t,
        ) by {
            assert(v.retains_fragment(id, t) <==> w.retains_fragment(id, t));
        }
        lemma_ordered_lists_equal(v.indexed(id), w.indexed(id));
    }
}

/// `states` are the states of a queue to which the chunks are pushed one after
/// the other: the state before each push, and the last one.
pub open spec fn push_history(
    chunks: Seq<ChunkPayloadData>,
    cumulative_tsn: u32,
    states: Seq<PayloadQueueView>,
) -> bool {
    &&& states.len() == chunks.len() + 1
    &&& forall|i: int, j: int|
        0 <= i < chunks.len() && j == i + 1 ==> (#[trigger] states[i]).after_push(
            chunks[i],
            cumulative_tsn,
            #[trigger] states[j],
        )
}

/// No two of the chunks have the same TSN, and all are newer than
/// `cumulative_tsn`.
pub open spec fn distinct_and_newer(chunks: Seq<ChunkPayloadData>, cumulative_tsn: u32) -> bool {
    &&& forall|i: int, j: int|
        0 <= i < j < chunks.len() ==> (#[trigger] chunks[i]).tsn != (#[trigger] chunks[j]).tsn
    &&& forall|i: int|
        0 <= i < chunks.len() ==> !serial_le((#[trigger] chunks[i]).tsn, cumulative_tsn)
}

/// `map` holds the chunks under their TSNs, and nothing else.
pub open spec fn holds_exactly(
    map: Map<u32, ChunkPayloadData>,
    chunks: Seq<ChunkPayloadData>,
) -> bool {
    &&& forall|i: int|
        0 <= i < chunks.len() ==> map.contains_key((#[trigger] chunks[i]).tsn)
            && map[chunks[i].tsn] == chunks[i]
    &&& forall|t: u32| #[trigger]
        map.contains_key(t) ==> map[t].tsn == t && chunks.contains(map[t])
}

/// Chunks with distinct TSNs that are all newer than the cumulative TSN are all
/// accepted by a new queue. It then holds exactly them and is well formed, and
/// no duplicate was recorded.
pub proof fn law_distinct_pushes_are_accepted(
    chunks: Seq<ChunkPayloadData>,
    cumulative_tsn: u32,
    states: Seq<PayloadQueueView>,
)
    requires
        push_history(chunks, cumulative_tsn, states),
        states[0] == PayloadQueueView::empty(),
        distinct_and_newer(chunks, cumulative_tsn),
    ensures
        forall|i: int|
            0 <= i < chunks.len() ==> (#[trigger] states[i]).accepts(chunks[i].tsn, cumulative_tsn),
        states.last().wf(),
        states.last().newer_than(cumulative_tsn),
        holds_exactly(states.last().chunks, chunks),
        states.last().duplicates == Seq::<u32>::empty(),
    decreases chunks.len(),
{
    if chunks.len() == 0 {
        lemma_empty_wf();
    } else {
        let n = chunks.len() - 1;
        let front = chunks.drop_last();
        let before = states.drop_last();
        let p = chunks[n];
        assert(forall|i: int| 0 <= i < front.len() ==> front[i] == chunks[i]);
        assert(forall|i: int| 0 <= i < before.len() ==> before[i] == states[i]);
        law_distinct_pushes_are_accepted(front, cumulative_tsn, before);
        let v = states[n];
        let w = states[n + 1];
        assert(before.last() == v);
        assert(v.accepts(p.tsn, cumulative_tsn)) by {
            if v.chunks.contains_key(p.tsn) {
                let i = choose|i: int| 0 <= i < front.len() && front[i] == v.chunks[p.tsn];
                assert(chunks[i].tsn != chunks[n].tsn);
            }
        }
        assert(states[n].after_push(chunks[n], cumulative_tsn, states[n + 1]));
        law_accepted_push_keeps_wf(v, p, cumulative_tsn, w);
        assert forall|i: int| 0 <= i < chunks.len() implies w.chunks.contains_key(
            (#[trigger] chunks[i]).tsn,
        ) && w.chunks[chunks[i].tsn] == chunks[i] by {
            if i < n {
                assert(front[i] == chunks[i]);
                assert(chunks[i].tsn != chunks[n].tsn);
            }
        }
        assert forall|t: u32| #[trigger] w.chunks.contains_key(t) implies w.chunks[t].tsn == t
            && chunks.contains(w.chunks[t]) by {
            if t == p.tsn {
                assert(chunks[n] == p);
            } else {
                assert(v.chunks.contains_key(t));
                let i = choose|i: int| 0 <= i < front.len() && front[i] == v.chunks[t];
                assert(chunks[i] == w.chunks[t]);
            }
        }
    }
}

/// The order of pushes is immaterial: new queues to which the same chunks are
/// pushed in different orders, all with distinct TSNs and newer than the
/// cumulative TSN, end up with the same chunks, order, byte count, indexed
/// fragments and offsets to report, and neither has recorded a duplicate.
pub proof fn law_order_of_pushes_is_immaterial(
    chunks1: Seq<ChunkPayloadData>,
    states1: Seq<PayloadQueueView>,
    chunks2: Seq<ChunkPayloadData>,
    states2: Seq<PayloadQueueView>,
    cumulative_tsn: u32,
)
    requires
        push_history(chunks1, cumulative_tsn, states1),
        push_history(chunks2, cumulative_tsn, states2),
        states1[0] == PayloadQueueView::empty(),
        states2[0] == PayloadQueueView::empty(),
        distinct_and_newer(chunks1, cumulative_tsn),
        chunks1.to_multiset() == chunks2.to_multiset(),
    ensures
        forall|i: int|
            0 <= i < chunks1.len() ==> (#[trigger] states1[i]).accepts(
                chunks1[i].tsn,
                cumulative_tsn,
            ),
        forall|i: int|
            0 <= i < chunks2.len() ==> (#[trigger] states2[i]).accepts(
                chunks2[i].tsn,
                cumulative_tsn,
            ),
        states1.last().wf(),
        states2.last().wf(),
        states1.last().chunks == states2.last().chunks,
        states1.last().sorted == states2.last().sorted,
        states1.last().n_bytes == states2.last().n_bytes,
        states1.last().duplicates == Seq::<u32>::empty(),
        states2.last().duplicates == Seq::<u32>::empty(),
        forall|id: MessageId| #[trigger]
            states1.last().indexed(id) == states2.last().indexed(id),
        states1.last().gap_offsets(cumulative_tsn) == states2.last().gap_offsets(cumulative_tsn),
        states1.last().reportable(cumulative_tsn) == states2.last().reportable(cumulative_tsn),
{
    lemma_rearranged(chunks1, chunks2, cumulative_tsn);
    law_distinct_pushes_are_accepted(chunks1, cumulative_tsn, states1);
    law_distinct_pushes_are_accepted(chunks2, cumulative_tsn, states2);
    let v = states1.last();
    let w = states2.last();
    assert forall|t: u32| #[trigger] v.chunks.contains_key(t) implies w.chunks.contains_key(t)
        && w.chunks[t] == v.chunks[t] by {
        assert(chunks2.contains(v.chunks[t]));
        let i = choose|i: int| 0 <= i < chunks2.len() && chunks2[i] == v.chunks[t];
        assert(w.chunks.contains_key(chunks2[i].tsn));
    }
    assert forall|t: u32| #[trigger] w.chunks.contains_key(t) implies v.chunks.contains_key(t) by {
        assert(chunks1.contains(w.chunks[t]));
        let i = choose|i: int| 0 <= i < chunks1.len() && chunks1[i] == w.chunks[t];
        assert(v.chunks.contains_key(chunks1[i].tsn));
    }
    assert(v.chunks =~= w.chunks);
    law_chunks_determine_the_queue(v, w);
}

/// A rearranged list holds the same chunks, and their TSNs are still distinct.
proof fn lemma_rearranged(
    chunks1: Seq<ChunkPayloadData>,
    chunks2: Seq<ChunkPayloadData>,
    cumulative_tsn: u32,
)
    requires
        distinct_and_newer(chunks1, cumulative_tsn),
        chunks1.to_multiset() == chunks2.to_multiset(),
    ensures
        forall|c: ChunkPayloadData| #[trigger] chunks1.contains(c) <==> chunks2.contains(c),
        distinct_and_newer(chunks2, cumulative_tsn),
{
    broadcast use vstd::seq_lib::group_to_multiset_ensures;

    assert forall|c: ChunkPayloadData| #[trigger] chunks1.contains(c) <==> chunks2.contains(c) by {
        assert(chunks1.contains(c) <==> chunks1.to_multiset().count(c) > 0);
        assert(chunks2.contains(c) <==> chunks2.to_multiset().count(c) > 0);
    }
    assert(chunks1.no_duplicates());
    chunks1.lemma_multiset_has_no_duplicates();
    assert(chunks2.no_duplicates()) by {
        chunks2.lemma_multiset_has_no_duplicates_conv();
    }
    assert forall|i: int, j: int| 0 <= i < j < chunks2.len() implies (#[trigger] chunks2[i]).tsn
        != (#[trigger] chunks2[j]).tsn by {
        assert(chunks2.contains(chunks2[i]) && chunks1.contains(chunks2[i]));
        assert(chunks2.contains(chunks2[j]) && chunks1.contains(chunks2[j]));
        let a = choose|a: int| 0 <= a < chunks1.len() && chunks1[a] == chunks2[i];
        let b = choose|b: int| 0 <= b < chunks1.len() && chunks1[b] == chunks2[j];
        assert(a != b);
        if a < b {
            assert(chunks1[a].tsn != chunks1[b].tsn);
        } else {
            assert(chunks1[b].tsn != chunks1[a].tsn);
        }
    }
    assert forall|i: int| 0 <= i < chunks2.len() implies !serial_le(
        (#[trigger] chunks2[i]).tsn,
        cumulative_tsn,
    ) by {
        assert(chunks2.contains(chunks2[i]) && chunks1.contains(chunks2[i]));
        let a = choose|a: int| 0 <= a < chunks1.len() && chunks1[a] == chunks2[i];
        assert(!serial_le(chunks1[a].tsn, cumulative_tsn));
    }
}

/// Every retained TSN lies at most 65535 above the cumulative TSN, with no
/// wrap-around in between.
pub open spec fn within_report(v: PayloadQueueView, cumulative_tsn: u32) -> bool {
    forall|t: u32| #[trigger]
        v.chunks.contains_key(t) ==> cumulative_tsn <= t && t - cumulative_tsn <= u16::MAX
}

/// A queue whose TSNs are all within reach of a report can be reported, and the
/// report covers exactly the retained TSNs.
pub proof fn law_report_names_the_retained_tsns(
    v: PayloadQueueView,
    cumulative_tsn: u32,
    blocks: Seq<GapAckBlock>,
    offset: u16,
)
    requires
        v.wf(),
        within_report(v, cumulative_tsn),
        reports(blocks, v.gap_offsets(cumulative_tsn)),
    ensures
        v.reportable(cumulative_tsn),
        covered(blocks, offset) <==> cumulative_tsn + offset <= u32::MAX && v.chunks.contains_key(
            (cumulative_tsn + offset) as u32,
        ),
{
    let offsets = v.gap_offsets(cumulative_tsn);
    assert forall|i: int| 0 <= i < v.sorted.len() implies v.chunks.contains_key(
        #[trigger] v.sorted[i],
    ) by {
        assert(v.sorted.contains(v.sorted[i]));
    }
    assert forall|i: int| 0 <= i < v.sorted.len() - 1 implies gap_offset(
        cumulative_tsn,
        #[trigger] v.sorted[i],
    ) != u16::MAX by {
        let last = v.sorted[v.sorted.len() - 1];
        assert(serial_lt(v.sorted[i], last));
        assert(v.chunks.contains_key(last));
    }
    law_report_covers(blocks, offsets, offset);
    if offsets.contains(offset) {
        let i = choose|i: int| 0 <= i < offsets.len() && offsets[i] == offset;
        assert(v.chunks.contains_key(v.sorted[i]));
        assert(v.sorted[i] == cumulative_tsn + offset);
    }
    if cumulative_tsn + offset <= u32::MAX && v.chunks.contains_key(
        (cumulative_tsn + offset) as u32,
    ) {
        let t = (cumulative_tsn + offset) as u32;
        let i = choose|i: int| 0 <= i < v.sorted.len() && v.sorted[i] == t;
        assert(offsets[i] == offset);
    }
}

} // verus!
