//! Angles and legs of a route.
//!
//! Distances count billionths of a nautical mile, bearings millionths of a
//! degree. Great-circle distance and bearing between two positions come from
//! the caller.

use crate::number::SPAN_LIMIT;
use vstd::prelude::*;

verus! {

/// A full turn, in millionths of a degree.
pub const FULL_TURN: i64 = 360_000_000;

/// Half a turn.
pub const HALF_TURN: i64 = 180_000_000;

/// The great circle from one position to the next.
#[derive(Debug, Clone, Copy, PartialEq, Eq, Structural)]
pub struct Leg {
    /// Length, billionths of a nautical mile
    pub distance_nm: i64,
    /// Initial bearing, millionths of a degree
    pub bearing_deg: i64,
}

impl Leg {
    pub open spec fn wf(self) -> bool {
        0 <= self.distance_nm <= SPAN_LIMIT && 0 <= self.bearing_deg < FULL_TURN
    }
}

/// The smallest turn from one direction to another, right turns positive.
pub open spec fn turn_between(from_deg: int, to_deg: int) -> int {
    let d = (to_deg - from_deg) % (FULL_TURN as int);
    if d > HALF_TURN {
        d - FULL_TURN
    } else {
        d
    }
}

/// Signed smallest angle from `from_deg` to `to_deg`, more than half a turn left
/// and at most half a turn right. Positive is a turn to the right.
pub fn angle_diff_deg(from_deg: i64, to_deg: i64) -> (r: i64)
    ensures
        r == turn_between(from_deg as int, to_deg as int),
        -HALF_TURN < r <= HALF_TURN,
{
    let d: i128 = euclidean(to_deg as i128 - from_deg as i128);
    if d > HALF_TURN as i128 {
        (d - FULL_TURN as i128) as i64
    } else {
        d as i64
    }
}

/// The remainder of an angle after full turns, none of them negative.
fn euclidean(d: i128) -> (r: i128)
    requires
        -0x1_0000_0000_0000_0000 <= d <= 0x1_0000_0000_0000_0000,
    ensures
        r == d as int % FULL_TURN as int,
        0 <= r < FULL_TURN,
{
    if d >= 0 {
        d % FULL_TURN as i128
    } else {
        let m: i128 = (-d) % FULL_TURN as i128;
        proof {
            lemma_negative_remainder(d as int, FULL_TURN as int);
        }
        if m == 0 {
            0
        } else {
            FULL_TURN as i128 - m
        }
    }
}

proof fn lemma_negative_remainder(d: int, n: int)
    requires
        d < 0,
        0 < n,
    ensures
        d % n == (if (-d) % n == 0 {
            0
        } else {
            n - (-d) % n
        }),
{
    let m = -d;
    assert(m == n * (m / n) + m % n) by (nonlinear_arith)
        requires
            0 < n,
    ;
    if m % n == 0 {
        assert(d == n * (-(m / n)) + 0) by (nonlinear_arith)
            requires
                m == n * (m / n) + m % n,
                m % n == 0,
                d == -m,
        ;
        vstd::arithmetic::div_mod::lemma_fundamental_div_mod_converse(d, n, -(m / n), 0);
    } else {
        assert(d == n * (-(m / n) - 1) + (n - m % n)) by (nonlinear_arith)
            requires
                m == n * (m / n) + m % n,
                d == -m,
        ;
        vstd::arithmetic::div_mod::lemma_fundamental_div_mod_converse(
            d,
            n,
            -(m / n) - 1,
            n - m % n,
        );
    }
}

/// A direction within one turn.
pub fn within_turn(deg: i64) -> (r: i64)
    ensures
        r == deg as int % FULL_TURN as int,
        0 <= r < FULL_TURN,
{
    euclidean(deg as i128) as i64
}

/// Turning by the difference of two directions leads from one to the other.
pub proof fn turn_leads_to(from_deg: int, to_deg: int)
    ensures
        (from_deg + turn_between(from_deg, to_deg)) % (FULL_TURN as int) == to_deg % (
        FULL_TURN as int),
        -HALF_TURN < turn_between(from_deg, to_deg) <= HALF_TURN,
{
}

/// A turn the other way is as long, half a turn aside.
pub proof fn turn_reverses(from_deg: int, to_deg: int)
    requires
        turn_between(from_deg, to_deg) != HALF_TURN,
    ensures
        turn_between(to_deg, from_deg) == -turn_between(from_deg, to_deg),
{
}

} // verus!
