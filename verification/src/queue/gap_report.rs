//! The report of the TSNs that were received out of order.

use crate::chunk::GapAckBlock;
use crate::text::decimal;
use vstd::prelude::*;

verus! {

/// The offset under which `tsn` is reported. It is the 16 low bits of the
/// distance of `tsn` from `cumulative_tsn`, or 0 for a TSN that is numerically
/// smaller.
pub open spec fn gap_offset(cumulative_tsn: u32, tsn: u32) -> u16 {
    if tsn >= cumulative_tsn {
        ((tsn - cumulative_tsn) % 0x1_0000) as u16
    } else {
        0
    }
}

/// The offsets that a block stands for.
pub open spec fn run(b: GapAckBlock) -> Seq<u16> {
    Seq::new((b.end - b.start + 1) as nat, |i: int| (b.start + i) as u16)
}

/// The offsets that the blocks stand for, one block after the other.
pub open spec fn expand(blocks: Seq<GapAckBlock>) -> Seq<u16>
    decreases blocks.len(),
{
    if blocks.len() == 0 {
        Seq::empty()
    } else {
        expand(blocks.drop_last()) + run(blocks.last())
    }
}

/// The blocks stand for the offsets, in their order, and no block could be
/// joined with the one before it.
pub open spec fn reports(blocks: Seq<GapAckBlock>, offsets: Seq<u16>) -> bool {
    &&& forall|k: int| 0 <= k < blocks.len() ==> (#[trigger] blocks[k]).start <= blocks[k].end
    &&& expand(blocks) == offsets
    &&& forall|k: int, l: int|
        0 <= k < l < blocks.len() && l == k + 1 ==> (#[trigger] blocks[k]).end + 1 != (
        #[trigger] blocks[l]).start
}

/// The offset of `tsn` from `cumulative_tsn`.
pub fn offset_of(cumulative_tsn: u32, tsn: u32) -> (r: u16)
    ensures
        r == gap_offset(cumulative_tsn, tsn),
{
    if tsn >= cumulative_tsn {
        let d: u32 = tsn - cumulative_tsn;
        assert((#[verifier::truncate] (d as u16)) == (d % 0x1_0000) as u16) by (bit_vector);
        #[verifier::truncate]
        (d as u16)
    } else {
        0
    }
}

/// A block that is extended by one stands for one offset more.
pub proof fn lemma_extend_last(blocks: Seq<GapAckBlock>, b: GapAckBlock)
    requires
        b.start <= b.end,
        b.end < u16::MAX,
    ensures
        expand(blocks.push(GapAckBlock { start: b.start, end: (b.end + 1) as u16 })) == expand(
            blocks.push(b),
        ).push((b.end + 1) as u16),
{
    let c = GapAckBlock { start: b.start, end: (b.end + 1) as u16 };
    assert(blocks.push(c).drop_last() =~= blocks);
    assert(blocks.push(b).drop_last() =~= blocks);
    assert(run(c) =~= run(b).push((b.end + 1) as u16));
    assert(expand(blocks.push(c)) =~= expand(blocks.push(b)).push((b.end + 1) as u16));
}

/// A new block for one offset stands for that offset.
pub proof fn lemma_start_block(blocks: Seq<GapAckBlock>, o: u16)
    ensures
        expand(blocks.push(GapAckBlock { start: o, end: o })) == expand(blocks).push(o),
{
    let c = GapAckBlock { start: o, end: o };
    assert(blocks.push(c).drop_last() =~= blocks);
    assert(run(c) =~= seq![o]);
    assert(expand(blocks.push(c)) =~= expand(blocks).push(o));
}

/// The last offset that blocks stand for is the end of the last block.
proof fn lemma_expand_last(blocks: Seq<GapAckBlock>)
    requires
        blocks.len() > 0,
        forall|k: int| 0 <= k < blocks.len() ==> (#[trigger] blocks[k]).start <= blocks[k].end,
    ensures
        expand(blocks).len() > 0,
        expand(blocks).last() == blocks.last().end,
{
    let b = blocks[blocks.len() - 1];
    assert(run(b).last() == b.end);
}

/// There is only one way to report a list of offsets.
pub proof fn law_report_is_unique(b1: Seq<GapAckBlock>, b2: Seq<GapAckBlock>, offsets: Seq<u16>)
    requires
        reports(b1, offsets),
        reports(b2, offsets),
    ensures
        b1 == b2,
    decreases offsets.len(),
{
    if b1.len() == 0 || b2.len() == 0 {
        if b1.len() > 0 {
            lemma_expand_last(b1);
        }
        if b2.len() > 0 {
            lemma_expand_last(b2);
        }
        assert(b1 =~= b2);
    } else {
        lemma_expand_last(b1);
        lemma_expand_last(b2);
        lemma_last_run_not_longer(b1, b2, offsets);
        lemma_last_run_not_longer(b2, b1, offsets);
        let l = b1[b1.len() - 1];
        assert(l == b2[b2.len() - 1]);
        let rest = offsets.take(offsets.len() - run(l).len());
        assert(expand(b1.drop_last()) =~= rest);
        assert(expand(b2.drop_last()) =~= rest);
        lemma_reports_prefix(b1, rest);
        lemma_reports_prefix(b2, rest);
        law_report_is_unique(b1.drop_last(), b2.drop_last(), rest);
        assert(b1 =~= b1.drop_last().push(l));
        assert(b2 =~= b2.drop_last().push(l));
    }
}

proof fn lemma_reports_prefix(b: Seq<GapAckBlock>, rest: Seq<u16>)
    requires
        b.len() > 0,
        reports(b, expand(b)),
        expand(b.drop_last()) == rest,
    ensures
        reports(b.drop_last(), rest),
{
    let p = b.drop_last();
    assert(forall|k: int| 0 <= k < p.len() ==> p[k] == b[k]);
}

proof fn lemma_last_run_not_longer(b1: Seq<GapAckBlock>, b2: Seq<GapAckBlock>, offsets: Seq<u16>)
    requires
        b1.len() > 0,
        b2.len() > 0,
        reports(b1, offsets),
        reports(b2, offsets),
        b1.last().end == b2.last().end,
    ensures
        b1.last().start >= b2.last().start,
{
    let l1 = b1[b1.len() - 1];
    let l2 = b2[b2.len() - 1];
    if l1.start < l2.start {
        let n = offsets.len();
        // The offset right before the shorter run.
        let i = n - run(l2).len() - 1;
        assert(run(l1).len() == l1.end - l1.start + 1);
        assert(offsets == expand(b1.drop_last()) + run(l1));
        assert(offsets == expand(b2.drop_last()) + run(l2));
        assert(offsets[i] == run(l1)[i - expand(b1.drop_last()).len()]);
        assert(offsets[i] == l2.start - 1);
        let p2 = b2.drop_last();
        if p2.len() > 0 {
            assert(forall|k: int| 0 <= k < p2.len() ==> p2[k] == b2[k]);
            lemma_expand_last(p2);
            assert(offsets[i] == expand(p2).last());
            assert(b2[b2.len() - 2].end + 1 != b2[b2.len() - 1].start);
        }
    }
}

/// An offset is reported when some block covers it.
pub open spec fn covered(blocks: Seq<GapAckBlock>, o: u16) -> bool {
    exists|k: int| 0 <= k < blocks.len() && (#[trigger] blocks[k]).start <= o <= blocks[k].end
}

/// The offsets that a report stands for are those that its blocks cover.
pub proof fn law_report_covers(blocks: Seq<GapAckBlock>, offsets: Seq<u16>, o: u16)
    requires
        reports(blocks, offsets),
    ensures
        covered(blocks, o) <==> offsets.contains(o),
    decreases blocks.len(),
{
    if blocks.len() > 0 {
        let front = blocks.drop_last();
        let b = blocks[blocks.len() - 1];
        assert(forall|k: int| 0 <= k < front.len() ==> front[k] == blocks[k]);
        law_report_covers(front, expand(front), o);
        if offsets.contains(o) {
            let i = choose|i: int| 0 <= i < offsets.len() && offsets[i] == o;
            if i < expand(front).len() {
                assert(expand(front)[i] == o);
                let k = choose|k: int| 0 <= k < front.len() && (#[trigger] front[k]).start <= o
                    <= front[k].end;
                assert(blocks[k].start <= o <= blocks[k].end);
            } else {
                assert(run(b)[i - expand(front).len()] == o);
                assert(blocks[blocks.len() - 1].start <= o <= blocks[blocks.len() - 1].end);
            }
        }
        if covered(blocks, o) {
            let k = choose|k: int| 0 <= k < blocks.len() && (#[trigger] blocks[k]).start <= o
                <= blocks[k].end;
            if k < front.len() {
                assert(front[k].start <= o <= front[k].end);
                let i = choose|i: int| 0 <= i < expand(front).len() && expand(front)[i] == o;
                assert(offsets[i] == o);
            } else {
                assert(run(b)[o - b.start] == o);
                assert(offsets[expand(front).len() + (o - b.start)] == o);
            }
        }
    }
}

/// The text of the blocks: `,start-end` for each.
pub open spec fn blocks_text(blocks: Seq<GapAckBlock>) -> Seq<char>
    decreases blocks.len(),
{
    if blocks.len() == 0 {
        Seq::empty()
    } else {
        let b = blocks.last();
        blocks_text(blocks.drop_last()) + ","@ + decimal(b.start as nat) + "-"@ + decimal(
            b.end as nat,
        )
    }
}

/// The text of a report: the cumulative TSN, then the blocks.
pub open spec fn report_text(cumulative_tsn: u32, blocks: Seq<GapAckBlock>) -> Seq<char> {
    "cumTSN="@ + decimal(cumulative_tsn as nat) + blocks_text(blocks)
}

/// The offset of a TSN that is numerically `d` above the cumulative one is the
/// remainder of `d` by 65536, and `d` itself below that; a TSN that is
/// numerically smaller has the offset 0.
pub proof fn law_offset_is_the_difference(cumulative_tsn: u32, tsn: u32)
    ensures
        tsn >= cumulative_tsn ==> gap_offset(cumulative_tsn, tsn) as int == (tsn - cumulative_tsn)
            % 65536,
        cumulative_tsn <= tsn <= cumulative_tsn + 65535 ==> cumulative_tsn + gap_offset(
            cumulative_tsn,
            tsn,
        ) == tsn,
        tsn < cumulative_tsn ==> gap_offset(cumulative_tsn, tsn) == 0,
{
}

/// The blocks of a report are the maximal runs of consecutive offsets: block `k`
/// reaches from the offset at `cuts[k]` to the one before `cuts[k + 1]`, each
/// offset between them is one more than that before it, and the offset at a cut
/// is not.
pub proof fn law_blocks_are_the_maximal_runs(blocks: Seq<GapAckBlock>, offsets: Seq<u16>) -> (cuts:
    Seq<int>)
    requires
        reports(blocks, offsets),
    ensures
        cuts.len() == blocks.len() + 1,
        cuts[0] == 0,
        cuts[blocks.len() as int] == offsets.len(),
        forall|k: int|
            #![trigger blocks[k]]
            0 <= k < blocks.len() ==> blocks[k].start == offsets[cuts[k]] && blocks[k].end
                == offsets[cuts[k + 1] - 1] && 0 <= cuts[k] < cuts[k + 1] <= offsets.len(),
        forall|k: int, i: int|
            #![trigger blocks[k], offsets[i]]
            0 <= k < blocks.len() && cuts[k] <= i < cuts[k + 1] ==> offsets[i] == blocks[k].start + (
            i - cuts[k]),
        forall|k: int|
            #![trigger blocks[k]]
            0 < k < blocks.len() ==> blocks[k].start != offsets[cuts[k] - 1] + 1,
    decreases blocks.len(),
{
    if blocks.len() == 0 {
        seq![0int]
    } else {
        let n = blocks.len() - 1;
        let front = blocks.drop_last();
        let b = blocks[n];
        let rest = expand(front);
        assert(offsets == rest + run(b));
        lemma_reports_prefix(blocks, rest);
        let inner = law_blocks_are_the_maximal_runs(front, rest);
        let cuts = inner.push(offsets.len() as int);
        assert(forall|k: int| 0 <= k <= n ==> cuts[k] == inner[k]);
        assert(run(b)[0] == b.start && run(b).last() == b.end);
        assert(offsets[rest.len() as int] == b.start);
        assert(offsets.last() == b.end);
        assert forall|k: int|
            #![trigger blocks[k]]
            0 <= k < blocks.len() implies blocks[k].start == offsets[cuts[k]] && blocks[k].end
            == offsets[cuts[k + 1] - 1] && 0 <= cuts[k] < cuts[k + 1] <= offsets.len() by {
            if k < n {
                assert(front[k] == blocks[k]);
                assert(offsets[cuts[k]] == rest[inner[k]]);
                assert(offsets[cuts[k + 1] - 1] == rest[inner[k + 1] - 1]);
            }
        }
        assert forall|k: int, i: int|
            #![trigger blocks[k], offsets[i]]
            0 <= k < blocks.len() && cuts[k] <= i < cuts[k + 1] implies offsets[i]
            == blocks[k].start + (i - cuts[k]) by {
            if k < n {
                assert(front[k] == blocks[k]);
                assert(rest[i] == offsets[i]);
            } else {
                assert(offsets[i] == run(b)[i - rest.len()]);
            }
        }
        assert forall|k: int|
            #![trigger blocks[k]]
            0 < k < blocks.len() implies blocks[k].start != offsets[cuts[k] - 1] + 1 by {
            assert(front[k - 1] == blocks[k - 1]);
            if k < n {
                assert(front[k] == blocks[k]);
                assert(offsets[cuts[k]] == rest[inner[k]]);
                assert(offsets[cuts[k] - 1] == rest[inner[k] - 1]);
            } else {
                assert(offsets[cuts[k] - 1] == rest[inner[n] - 1]);
                assert(blocks[n - 1].end + 1 != blocks[n].start);
            }
        }
        cuts
    }
}

/// A report of nothing is the cumulative TSN; each block adds a comma and its two
/// ends with a hyphen between them, all in decimal.
pub proof fn law_report_is_written_block_by_block(
    cumulative_tsn: u32,
    blocks: Seq<GapAckBlock>,
    b: GapAckBlock,
)
    ensures
        report_text(cumulative_tsn, Seq::empty()) == "cumTSN="@ + decimal(cumulative_tsn as nat),
        report_text(cumulative_tsn, blocks.push(b)) == report_text(cumulative_tsn, blocks) + ","@
            + decimal(b.start as nat) + "-"@ + decimal(b.end as nat),
{
    assert(blocks.push(b).drop_last() =~= blocks);
    assert(report_text(cumulative_tsn, Seq::empty()) =~= "cumTSN="@ + decimal(
        cumulative_tsn as nat,
    ));
    assert(report_text(cumulative_tsn, blocks.push(b)) =~= report_text(cumulative_tsn, blocks)
        + ","@ + decimal(b.start as nat) + "-"@ + decimal(b.end as nat));
}

} // verus!
