//! Lists of TSNs in serial order.

use crate::serial::{
    all_follow, fits, follows, law_half_circle_fits, ordered, serial_lt, sna32lt,
};
use std::collections::VecDeque;
use vstd::prelude::*;

verus! {

/// The numbers of `s` before position `i` come before `t`, the others do not.
pub open spec fn is_partition_point(s: Seq<u32>, t: u32, i: int) -> bool {
    &&& 0 <= i <= s.len()
    &&& forall|j: int| 0 <= j < i ==> serial_lt(#[trigger] s[j], t)
    &&& forall|j: int| i <= j < s.len() ==> !serial_lt(#[trigger] s[j], t)
}

/// `new` is `old` with `t` inserted at position `i`. If `old` has a partition
/// point for `t`, `i` is that point.
pub open spec fn inserted_at(old: Seq<u32>, t: u32, new: Seq<u32>, i: int) -> bool {
    &&& 0 <= i <= old.len()
    &&& new == old.insert(i, t)
    &&& forall|k: int| #[trigger] is_partition_point(old, t, k) ==> k == i
}

/// `new` is `old` with `t` inserted, at the partition point for `t` if there
/// is one.
pub open spec fn inserted(old: Seq<u32>, t: u32, new: Seq<u32>) -> bool {
    exists|i: int| inserted_at(old, t, new, i)
}

/// Returns a position at which `tsn` can be inserted; the partition point for
/// `tsn` if there is one. Halves the list at each step.
pub fn partition_point(tsns: &VecDeque<u32>, tsn: u32) -> (r: usize)
    ensures
        r <= tsns@.len(),
        forall|k: int| #[trigger] is_partition_point(tsns@, tsn, k) ==> k == r,
{
    let mut lo: usize = 0;
    let mut hi: usize = tsns.len();
    while lo < hi
        invariant
            lo <= hi <= tsns@.len(),
            forall|k: int| #[trigger] is_partition_point(tsns@, tsn, k) ==> lo <= k <= hi,
        decreases hi - lo,
    {
        let mid: usize = lo + (hi - lo) / 2;
        if sna32lt(tsns[mid], tsn) {
            lo = mid + 1;
        } else {
            hi = mid;
        }
    }
    lo
}

/// Inserts `tsn` at its place in the serial order.
pub fn insert_tsn(tsns: &mut VecDeque<u32>, tsn: u32)
    ensures
        inserted(old(tsns)@, tsn, final(tsns)@),
{
    let index: usize = partition_point(tsns, tsn);
    tsns.insert(index, tsn);
    assert(inserted_at(old(tsns)@, tsn, tsns@, index as int));
}

/// A list in serial order, extended by a number that can be compared with all
/// of it, has exactly one place for the number; with the number there the list
/// is still in serial order and holds the number and what it held before.
pub proof fn law_insertion_keeps_order(s: Seq<u32>, t: u32, new: Seq<u32>)
    requires
        ordered(s),
        fits(s, t),
        !s.contains(t),
        inserted(s, t, new),
    ensures
        ordered(new),
        new.len() == s.len() + 1,
        forall|x: u32| #[trigger] new.contains(x) <==> x == t || s.contains(x),
{
    let i = choose|i: int| inserted_at(s, t, new, i);
    let base = choose|base: u32| #[trigger] follows(base, t) && all_follow(base, s);
    let k = lemma_has_partition_point(base, s, t);
    assert(k == i);
    assert forall|a: int, b: int| 0 <= a < b < new.len() implies serial_lt(
        #[trigger] new[a],
        #[trigger] new[b],
    ) by {
        let sa = if a < i { a } else { a - 1 };
        let sb = if b < i { b } else { b - 1 };
        if a == i {
            assert(new[b] == s[sb]);
            assert(!serial_lt(s[sb], t));
            assert(follows(base, s[sb]));
            assert(s.contains(s[sb]));
        } else if b == i {
            assert(new[a] == s[sa]);
        } else {
            assert(new[a] == s[sa] && new[b] == s[sb]);
        }
    }
    assert forall|x: u32| #[trigger] new.contains(x) <==> x == t || s.contains(x) by {
        lemma_insert_contains(s, i, t, x);
    }
}

/// What a list holds after an insertion.
pub proof fn lemma_insert_contains(s: Seq<u32>, i: int, t: u32, x: u32)
    requires
        0 <= i <= s.len(),
    ensures
        s.insert(i, t).contains(x) <==> x == t || s.contains(x),
{
    let new = s.insert(i, t);
    assert(new[i] == t);
    if s.contains(x) {
        let j = choose|j: int| 0 <= j < s.len() && s[j] == x;
        assert(new[if j < i { j } else { j + 1 }] == x);
    }
    if new.contains(x) {
        let j = choose|j: int| 0 <= j < new.len() && new[j] == x;
        if j < i {
            assert(s[j] == x);
        } else if j > i {
            assert(s[j - 1] == x);
        }
    }
}

/// A list in serial order within a half circle has a partition point for every
/// number of the half circle.
proof fn lemma_has_partition_point(base: u32, s: Seq<u32>, t: u32) -> (i: int)
    requires
        ordered(s),
        follows(base, t),
        all_follow(base, s),
    ensures
        is_partition_point(s, t, i),
    decreases s.len(),
{
    if s.len() == 0 {
        0
    } else if serial_lt(s.last(), t) {
        assert forall|j: int| 0 <= j < s.len() implies serial_lt(#[trigger] s[j], t) by {
            assert(follows(base, s[j]));
            assert(follows(base, s.last()));
            if j < s.len() - 1 {
                assert(serial_lt(s[j], s[s.len() - 1]));
            }
        }
        s.len() as int
    } else {
        let front = s.drop_last();
        assert(forall|j: int| 0 <= j < front.len() ==> front[j] == s[j]);
        assert(all_follow(base, front)) by {
            assert forall|j: int| 0 <= j < front.len() implies follows(base, #[trigger] front[j]) by {
                assert(follows(base, s[j]));
            }
        }
        let i = lemma_has_partition_point(base, front, t);
        assert forall|j: int| 0 <= j < i implies serial_lt(#[trigger] s[j], t) by {
            assert(serial_lt(front[j], t));
        }
        assert forall|j: int| i <= j < s.len() implies !serial_lt(#[trigger] s[j], t) by {
            if j < front.len() {
                assert(!serial_lt(front[j], t));
            }
        }
        i
    }
}

/// A list in serial order names no number twice.
pub proof fn lemma_ordered_distinct(s: Seq<u32>)
    requires
        ordered(s),
    ensures
        s.no_duplicates(),
{
    assert forall|i: int, j: int| 0 <= i < s.len() && 0 <= j < s.len() && i != j implies s[i]
        != s[j] by {
        if i < j {
            assert(serial_lt(s[i], s[j]));
        } else {
            assert(serial_lt(s[j], s[i]));
        }
    }
}

/// In a list whose numbers ascend within the half circle after `base`, a new
/// number of the half circle is inserted so that they still ascend; the list
/// holds it once more and all else as often as before.
pub proof fn law_insertion_ascends_in_half_circle(
    base: u32,
    s: Seq<u32>,
    t: u32,
    new: Seq<u32>,
)
    requires
        0 < (t - base) % 0x1_0000_0000 <= 0x8000_0000,
        forall|i: int|
            0 <= i < s.len() ==> 0 < (#[trigger] s[i] - base) % 0x1_0000_0000 <= 0x8000_0000,
        forall|i: int, j: int|
            0 <= i < j < s.len() ==> (#[trigger] s[i] - base) % 0x1_0000_0000 < (#[trigger] s[j]
                - base) % 0x1_0000_0000,
        !s.contains(t),
        inserted(s, t, new),
    ensures
        new.len() == s.len() + 1,
        new.to_multiset() == s.to_multiset().insert(t),
        forall|i: int, j: int|
            0 <= i < j < new.len() ==> (#[trigger] new[i] - base) % 0x1_0000_0000 < (
            #[trigger] new[j] - base) % 0x1_0000_0000,
{
    law_half_circle_fits(base, s, t);
    assert(ordered(s)) by {
        assert forall|i: int, j: int| 0 <= i < j < s.len() implies serial_lt(
            #[trigger] s[i],
            #[trigger] s[j],
        ) by {
            assert((s[i] - base) % 0x1_0000_0000 < (s[j] - base) % 0x1_0000_0000);
        }
    }
    law_insertion_keeps_order(s, t, new);
    let k = choose|k: int| inserted_at(s, t, new, k);
    vstd::seq_lib::to_multiset_insert(s, k, t);
    assert forall|i: int, j: int| 0 <= i < j < new.len() implies (#[trigger] new[i] - base)
        % 0x1_0000_0000 < (#[trigger] new[j] - base) % 0x1_0000_0000 by {
        assert(serial_lt(new[i], new[j]));
        assert(new.contains(new[i]));
        assert(new.contains(new[j]));
        assert(0 < (new[i] - base) % 0x1_0000_0000 <= 0x8000_0000) by {
            if s.contains(new[i]) {
                let q = choose|q: int| 0 <= q < s.len() && s[q] == new[i];
                assert(0 < (s[q] - base) % 0x1_0000_0000 <= 0x8000_0000);
            }
        }
        assert(0 < (new[j] - base) % 0x1_0000_0000 <= 0x8000_0000) by {
            if s.contains(new[j]) {
                let q = choose|q: int| 0 <= q < s.len() && s[q] == new[j];
                assert(0 < (s[q] - base) % 0x1_0000_0000 <= 0x8000_0000);
            }
        }
    }
}

/// An insertion puts the number in at one place of any list, and leaves the rest
/// as it was.
pub proof fn law_insertion_adds_one_number(s: Seq<u32>, t: u32, new: Seq<u32>)
    requires
        inserted(s, t, new),
    ensures
        new.len() == s.len() + 1,
        new.contains(t),
        exists|i: int| 0 <= i < new.len() && #[trigger] new[i] == t && new.remove(i) == s,
{
    let i = choose|i: int| inserted_at(s, t, new, i);
    assert(new[i] == t);
    assert(new.remove(i) =~= s);
}

} // verus!
