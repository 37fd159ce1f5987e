//! Serial number arithmetic on transmission and stream sequence numbers.
//!
//! Sequence numbers wrap around, so they are compared by the distance that
//! separates them on the circle: `a` comes before `b` when walking forward
//! from `a` reaches `b` in fewer than half of the steps of a full turn.

use vstd::prelude::*;

verus! {

/// Half of the 32-bit number circle.
pub const HALF32: u32 = 0x8000_0000;

/// Half of the 16-bit number circle.
pub const HALF16: u16 = 0x8000;

/// The number of forward steps that lead from `from` to `to` on the 32-bit
/// number circle.
pub open spec fn distance(from: u32, to: u32) -> int {
    if from <= to {
        to - from
    } else {
        to - from + 0x1_0000_0000
    }
}

/// `a` comes strictly before `b`.
pub open spec fn serial_lt(a: u32, b: u32) -> bool {
    0 < distance(a, b) < HALF32
}

/// `a` comes before `b` or is equal to it.
pub open spec fn serial_le(a: u32, b: u32) -> bool {
    a == b || serial_lt(a, b)
}

/// The number of forward steps that lead from `from` to `to` on the 16-bit
/// number circle.
pub open spec fn distance16(from: u16, to: u16) -> int {
    if from <= to {
        to - from
    } else {
        to - from + 0x1_0000
    }
}

/// `a` comes strictly before `b`, on 16-bit numbers.
pub open spec fn serial_lt16(a: u16, b: u16) -> bool {
    0 < distance16(a, b) < HALF16
}

/// Serial "less than" on 32-bit numbers.
pub fn sna32lt(i1: u32, i2: u32) -> (r: bool)
    ensures
        r == serial_lt(i1, i2),
{
    (i1 < i2 && i2 - i1 < HALF32) || (i1 > i2 && i1 - i2 > HALF32)
}

/// Serial "less than or equal" on 32-bit numbers.
pub fn sna32lte(i1: u32, i2: u32) -> (r: bool)
    ensures
        r == serial_le(i1, i2),
{
    i1 == i2 || sna32lt(i1, i2)
}

/// Serial "less than" on 16-bit numbers.
pub fn sna16lt(i1: u16, i2: u16) -> (r: bool)
    ensures
        r == serial_lt16(i1, i2),
{
    (i1 < i2 && i2 - i1 < HALF16) || (i1 > i2 && i1 - i2 > HALF16)
}

/// `t` lies in the half circle that follows `base`.
pub open spec fn follows(base: u32, t: u32) -> bool {
    0 < distance(base, t) <= HALF32
}

/// Every number of `s` lies in the half circle that follows `base`.
pub open spec fn all_follow(base: u32, s: Seq<u32>) -> bool {
    forall|i: int| 0 <= i < s.len() ==> follows(base, #[trigger] s[i])
}

/// `t` can be compared with all of `s`: some half circle holds them all.
pub open spec fn fits(s: Seq<u32>, t: u32) -> bool {
    exists|base: u32| #[trigger] follows(base, t) && all_follow(base, s)
}

/// The numbers of `s` stand in strictly ascending serial order.
pub open spec fn ordered(s: Seq<u32>) -> bool {
    forall|i: int, j: int| 0 <= i < j < s.len() ==> serial_lt(#[trigger] s[i], #[trigger] s[j])
}

/// No number comes before itself.
pub proof fn law_serial_irreflexive(a: u32)
    ensures
        !serial_lt(a, a),
{
}

/// Of two numbers at most one comes before the other.
pub proof fn law_serial_asymmetric(a: u32, b: u32)
    requires
        serial_lt(a, b),
    ensures
        !serial_lt(b, a),
{
}

/// Two different numbers are comparable, unless they are exactly half a
/// circle apart, in which case neither comes before the other.
pub proof fn law_serial_trichotomy(a: u32, b: u32)
    ensures
        distance(a, b) != HALF32 ==> (a == b || serial_lt(a, b) || serial_lt(b, a)),
        distance(a, b) == HALF32 ==> !serial_lt(a, b) && !serial_lt(b, a),
{
}

/// Moving both numbers forward by the same amount keeps their order.
pub proof fn law_serial_shift(a: u32, b: u32, n: u32)
    ensures
        serial_lt(a, b) == serial_lt(a.wrapping_add(n), b.wrapping_add(n)),
{
}

/// Within a half circle the serial order is the order of the distances from
/// the number that the half circle follows; there it is a strict total order.
pub proof fn law_serial_total_in_half_circle(base: u32, a: u32, b: u32)
    requires
        follows(base, a),
        follows(base, b),
    ensures
        serial_lt(a, b) <==> distance(base, a) < distance(base, b),
        a == b || serial_lt(a, b) || serial_lt(b, a),
{
}

/// Within a half circle the serial order is transitive.
pub proof fn law_serial_transitive_in_half_circle(base: u32, a: u32, b: u32, c: u32)
    requires
        follows(base, a),
        follows(base, b),
        follows(base, c),
        serial_lt(a, b),
        serial_lt(b, c),
    ensures
        serial_lt(a, c),
{
}

/// The distance is the difference on the number circle.
pub proof fn law_distance_is_the_difference(a: u32, b: u32)
    ensures
        distance(a, b) == (b - a) % 0x1_0000_0000,
        a.wrapping_add(((b - a) % 0x1_0000_0000) as u32) == b,
{
}

/// The number that `n` steps lead to comes after the one they start from
/// exactly when there are some steps, but fewer than half a turn.
pub proof fn law_steps_forward_come_after(a: u32, n: u32)
    ensures
        distance(a, a.wrapping_add(n)) == n,
        serial_lt(a, a.wrapping_add(n)) <==> 0 < n < 0x8000_0000,
        serial_le(a, a.wrapping_add(n)) <==> n < 0x8000_0000,
        serial_lt(a.wrapping_add(n), a) <==> n > 0x8000_0000,
        serial_le(a.wrapping_add(n), a) <==> n == 0 || n > 0x8000_0000,
        follows(a, a.wrapping_add(n)) <==> 0 < n <= 0x8000_0000,
{
}

/// The same on 16-bit numbers.
pub proof fn law_steps_forward_come_after16(a: u16, n: u16)
    ensures
        distance16(a, a.wrapping_add(n)) == n,
        serial_lt16(a, a.wrapping_add(n)) <==> 0 < n < 0x8000,
        serial_lt16(a.wrapping_add(n), a) <==> n > 0x8000,
{
}

/// A list is in serial order when each of its numbers is reached from every
/// earlier one in some steps, but fewer than half a turn.
pub proof fn law_ordered_lists_ascend(s: Seq<u32>)
    ensures
        ordered(s) <==> forall|i: int, j: int|
            0 <= i < j < s.len() ==> 0 < (#[trigger] s[j] - #[trigger] s[i]) % 0x1_0000_0000
                < 0x8000_0000,
{
    assert(forall|a: u32, b: u32|
        #![auto]
        serial_lt(a, b) <==> 0 < (b - a) % 0x1_0000_0000 < 0x8000_0000);
    if ordered(s) {
        assert forall|i: int, j: int| 0 <= i < j < s.len() implies 0 < (#[trigger] s[j]
            - #[trigger] s[i]) % 0x1_0000_0000 < 0x8000_0000 by {
            assert(serial_lt(s[i], s[j]));
        }
    } else {
        let (i, j) = choose|i: int, j: int|
            0 <= i < j < s.len() && !serial_lt(#[trigger] s[i], #[trigger] s[j]);
        assert(!(0 < (s[j] - s[i]) % 0x1_0000_0000 < 0x8000_0000));
    }
}

/// A number can be compared with a list when some half circle holds them all.
pub proof fn law_half_circle_fits(base: u32, s: Seq<u32>, t: u32)
    requires
        0 < (t - base) % 0x1_0000_0000 <= 0x8000_0000,
        forall|i: int|
            0 <= i < s.len() ==> 0 < (#[trigger] s[i] - base) % 0x1_0000_0000 <= 0x8000_0000,
    ensures
        fits(s, t),
{
    assert(follows(base, t));
    assert forall|i: int| 0 <= i < s.len() implies follows(base, #[trigger] s[i]) by {
        assert(0 < (s[i] - base) % 0x1_0000_0000 <= 0x8000_0000);
    }
}

} // verus!
