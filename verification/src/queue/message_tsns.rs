//! The TSNs under which the fragments of one message are retained.

use crate::queue::tsn_list::{insert_tsn, inserted, law_insertion_ascends_in_half_circle};
use crate::serial::{serial_lt, sna32lt};
use std::collections::VecDeque;
use vstd::prelude::*;

verus! {

/// A fragmented message may have only one retained DATA chunk. Store that TSN
/// inline until another fragment is queued.
#[derive(Debug)]
pub enum MessageTsns {
    One(u32),
    Fragmented(VecDeque<u32>),
}

/// What a [`MessageTsns`] holds.
pub enum TsnGroup {
    One(u32),
    Fragmented(Seq<u32>),
}

impl TsnGroup {
    /// The TSNs of the group, the oldest first.
    pub open spec fn tsns(self) -> Seq<u32> {
        match self {
            TsnGroup::One(tsn) => seq![tsn],
            TsnGroup::Fragmented(tsns) => tsns,
        }
    }

    /// `new` is the group with `tsn` added at its place.
    pub open spec fn extended(self, tsn: u32, new: TsnGroup) -> bool {
        match self {
            TsnGroup::One(first) => new == TsnGroup::Fragmented(
                if serial_lt(tsn, first) {
                    seq![tsn, first]
                } else {
                    seq![first, tsn]
                },
            ),
            TsnGroup::Fragmented(tsns) => if tsns.len() == 0 || serial_lt(tsns.last(), tsn) {
                new == TsnGroup::Fragmented(tsns.push(tsn))
            } else {
                new is Fragmented && inserted(tsns, tsn, new.tsns())
            },
        }
    }

    /// The group without its oldest TSN. A group of one TSN that is stored
    /// inline stays as it is: the whole group is dropped in its place.
    pub open spec fn without_first(self) -> TsnGroup {
        match self {
            TsnGroup::One(first) => TsnGroup::One(first),
            TsnGroup::Fragmented(tsns) => TsnGroup::Fragmented(tsns.drop_first()),
        }
    }
}

impl View for MessageTsns {
    type V = TsnGroup;

    open spec fn view(&self) -> TsnGroup {
        match self {
            MessageTsns::One(tsn) => TsnGroup::One(*tsn),
            MessageTsns::Fragmented(tsns) => TsnGroup::Fragmented(tsns@),
        }
    }
}

impl MessageTsns {
    /// Adds `tsn` at its place in the serial order.
    pub fn insert(&mut self, tsn: u32)
        ensures
            old(self)@.extended(tsn, final(self)@),
    {
        match self {
            MessageTsns::One(first) => {
                let first: u32 = *first;
                let mut pair: VecDeque<u32> = VecDeque::new();
                if sna32lt(tsn, first) {
                    pair.push_back(tsn);
                    pair.push_back(first);
                    assert(pair@ =~= seq![tsn, first]);
                } else {
                    pair.push_back(first);
                    pair.push_back(tsn);
                    assert(pair@ =~= seq![first, tsn]);
                }
                *self = MessageTsns::Fragmented(pair);
            },
            MessageTsns::Fragmented(tsns) => {
                let n: usize = tsns.len();
                if n == 0 || sna32lt(tsns[n - 1], tsn) {
                    tsns.push_back(tsn);
                } else {
                    insert_tsn(tsns, tsn);
                }
            },
        }
    }

    /// Cumulative acknowledgment removes only a prefix of a message's TSNs.
    /// Returns true when the whole index entry can be removed.
    pub fn pop(&mut self, tsn: u32) -> (r: bool)
        requires
            old(self)@.tsns().len() > 0,
            old(self)@.tsns()[0] == tsn,
        ensures
            r == (old(self)@.tsns().len() == 1),
            final(self)@ == old(self)@.without_first(),
    {
        match self {
            MessageTsns::One(_) => true,
            MessageTsns::Fragmented(tsns) => {
                let _ = tsns.pop_front();
                tsns.len() == 0
            },
        }
    }

    /// The TSNs of the group, the oldest first.
    pub fn to_vec(&self) -> (r: Vec<u32>)
        ensures
            r@ == self@.tsns(),
    {
        match self {
            MessageTsns::One(tsn) => vec![*tsn],
            MessageTsns::Fragmented(tsns) => {
                let mut r: Vec<u32> = Vec::new();
                let mut i: usize = 0;
                while i < tsns.len()
                    invariant
                        i <= tsns@.len(),
                        r@ =~= tsns@.take(i as int),
                    decreases tsns@.len() - i,
                {
                    r.push(tsns[i]);
                    i += 1;
                }
                r
            },
        }
    }
}

/// What is stored inline is one TSN, and a list stands for itself.
pub proof fn law_group_lists_its_tsns(tsn: u32, tsns: VecDeque<u32>)
    ensures
        MessageTsns::One(tsn)@.tsns() == seq![tsn],
        MessageTsns::Fragmented(tsns)@.tsns() == tsns@,
{
}

/// A group whose TSNs ascend within the half circle after `base` still does so
/// when it is extended by a new TSN of the half circle; it holds that one once
/// more and all else as often as before.
pub proof fn law_extension_ascends_in_half_circle(
    base: u32,
    g: TsnGroup,
    t: u32,
    new: TsnGroup,
)
    requires
        0 < (t - base) % 0x1_0000_0000 <= 0x8000_0000,
        forall|i: int|
            0 <= i < g.tsns().len() ==> 0 < (#[trigger] g.tsns()[i] - base) % 0x1_0000_0000
                <= 0x8000_0000,
        forall|i: int, j: int|
            0 <= i < j < g.tsns().len() ==> (#[trigger] g.tsns()[i] - base) % 0x1_0000_0000 < (
            #[trigger] g.tsns()[j] - base) % 0x1_0000_0000,
        !g.tsns().contains(t),
        g.extended(t, new),
    ensures
        new.tsns().to_multiset() == g.tsns().to_multiset().insert(t),
        forall|i: int, j: int|
            0 <= i < j < new.tsns().len() ==> (#[trigger] new.tsns()[i] - base) % 0x1_0000_0000 < (
            #[trigger] new.tsns()[j] - base) % 0x1_0000_0000,
{
    broadcast use vstd::seq_lib::group_to_multiset_ensures;

    let s = g.tsns();
    let n = new.tsns();
    match g {
        TsnGroup::One(first) => {
            assert(s[0] == first);
            assert(s.contains(first));
            if serial_lt(t, first) {
                assert(n =~= s.insert(0, t));
                vstd::seq_lib::to_multiset_insert(s, 0, t);
            } else {
                assert(n =~= s.push(t));
            }
        },
        TsnGroup::Fragmented(tsns) => {
            if tsns.len() == 0 || serial_lt(tsns.last(), t) {
                assert(n =~= s.push(t));
                assert forall|i: int, j: int| 0 <= i < j < n.len() implies (#[trigger] n[i] - base)
                    % 0x1_0000_0000 < (#[trigger] n[j] - base) % 0x1_0000_0000 by {
                    let l = s.len() - 1;
                    if j == s.len() {
                        assert(n[i] == s[i]);
                        assert(0 < (s[l] - base) % 0x1_0000_0000 <= 0x8000_0000);
                        if i < l {
                            assert((s[i] - base) % 0x1_0000_0000 < (s[l] - base) % 0x1_0000_0000);
                        }
                    } else {
                        assert((s[i] - base) % 0x1_0000_0000 < (s[j] - base) % 0x1_0000_0000);
                    }
                }
            } else {
                law_insertion_ascends_in_half_circle(base, s, t, n);
            }
        },
    }
}

/// The second fragment goes before the first exactly if some steps, but fewer than
/// half a turn, lead from it to the first.
pub proof fn law_second_fragment(first: u32, t: u32, new: TsnGroup)
    requires
        TsnGroup::One(first).extended(t, new),
    ensures
        new.tsns() == if 0 < (first - t) % 0x1_0000_0000 < 0x8000_0000 {
            seq![t, first]
        } else {
            seq![first, t]
        },
{
}

/// A group of several TSNs without its oldest is the list of the others.
pub proof fn law_group_without_first(g: TsnGroup)
    requires
        g.tsns().len() > 1,
    ensures
        g.without_first().tsns() == g.tsns().drop_first(),
{
}

} // verus!
