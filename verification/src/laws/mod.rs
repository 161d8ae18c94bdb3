//! What the library promises, said of inputs and results alone: in numbers,
//! positions and texts, whatever way the results are computed.

pub mod agent;
pub mod briefing;
pub mod identity;
pub mod number;
pub mod opensky;
pub mod performance;
pub mod plan;
pub mod record;
pub mod replay;
pub mod run;
pub mod sections;
pub mod text;
pub mod winds;

use vstd::prelude::*;

verus! {

/// Whether `m` is as much of `whole` as `num` over `den` allows: the greatest
/// number that is no more than either.
pub open spec fn greatest_part(m: int, whole: int, num: int, den: int) -> bool {
    &&& 0 <= m <= whole
    &&& m * den <= num
    &&& m == whole || (m + 1) * den > num
}

pub open spec fn size(d: int) -> int {
    if d < 0 {
        -d
    } else {
        d
    }
}

/// Whether `v` is on the way from `from` to `to`.
pub open spec fn on_the_way(v: int, from: int, to: int) -> bool {
    (from <= to ==> from <= v <= to) && (to <= from ==> to <= v <= from)
}

/// Whether `v` is the part `num` over `den` of the way from `from` to `to`, but for
/// less than a unit of rounding.
pub open spec fn in_proportion(v: int, from: int, to: int, num: int, den: int) -> bool {
    -den < (v - from) * den - (to - from) * num < den
}

/// Whether `n` is `v` over `unit` without the part after the point.
pub open spec fn whole_part(n: int, v: int, unit: int) -> bool {
    &&& v >= 0 ==> n * unit <= v < (n + 1) * unit
    &&& v <= 0 ==> (n - 1) * unit < v <= n * unit
}

/// A quotient is the greatest number that, times the divisor, is no more.
pub proof fn lemma_quotient(n: int, d: int, m: int)
    requires
        0 < d,
    ensures
        m <= n / d <==> m * d <= n,
        m >= n / d <==> (m + 1) * d > n,
        0 <= n ==> 0 <= n / d,
{
    let q = n / d;
    assert(q * d <= n < (q + 1) * d) by (nonlinear_arith)
        requires
            0 < d,
            q == n / d,
    ;
    assert(m <= q <==> m * d <= n) by (nonlinear_arith)
        requires
            q * d <= n < (q + 1) * d,
            0 < d,
    ;
    assert(m >= q <==> (m + 1) * d > n) by (nonlinear_arith)
        requires
            q * d <= n < (q + 1) * d,
            0 < d,
    ;
    assert(0 <= n ==> 0 <= q) by (nonlinear_arith)
        requires
            q * d <= n < (q + 1) * d,
            0 < d,
    ;
}

} // verus!
