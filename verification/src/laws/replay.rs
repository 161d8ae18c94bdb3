//! Where a replay puts a flight.

use crate::laws::{in_proportion, lemma_quotient, on_the_way};
use crate::number::scaled;
use crate::replay::sampler::{
    lerp, sample_holds_last_position, sample_is_on_leg, sample_starts_at_departure, state_at,
};
use crate::shared::plan::{is_plan, PlanPointView};
use vstd::prelude::*;

verus! {

proof fn lemma_in_proportion(x: int, y: int, t: int, from: int, to: int)
    requires
        from <= t < to,
    ensures
        in_proportion(lerp(x, y, t, from, to), x, y, t - from, to - from),
{
    let (d, num, den) = (y - x, t - from, to - from);
    let m = if d >= 0 {
        d
    } else {
        -d
    };
    let q = m * num / den;
    lemma_quotient(m * num, den, q);
    assert(scaled(d, num, den) == if d >= 0 {
        q
    } else {
        -q
    });
    assert((q + 1) * den == q * den + den) by (nonlinear_arith);
    if d < 0 {
        assert(d * num == -(m * num)) by (nonlinear_arith)
            requires
                m == -d,
        ;
        assert(-q * den == -(q * den)) by (nonlinear_arith);
    }
}

/// Between two points of a plan latitude, longitude, altitude, ground speed and
/// airspeed are in proportion to the time gone since the one, and on the way to
/// those of the other; the track is that of the leg, and the other is next.
pub proof fn sample_is_in_proportion(points: Seq<PlanPointView>, t: int, i: int)
    requires
        is_plan(points),
        0 <= i,
        i + 1 < points.len(),
        points[i].time_s <= t < points[i + 1].time_s,
    ensures
        ({
            let (s, a, b) = (state_at(points, t), points[i], points[i + 1]);
            let (gone, whole) = (t - a.time_s, b.time_s - a.time_s);
            &&& in_proportion(s.lat, a.lat as int, b.lat as int, gone, whole)
            &&& in_proportion(s.lon, a.lon as int, b.lon as int, gone, whole)
            &&& in_proportion(s.altitude_ft, a.altitude_ft as int, b.altitude_ft as int, gone, whole)
            &&& in_proportion(s.gs_kts, a.gs_kts as int, b.gs_kts as int, gone, whole)
            &&& in_proportion(s.tas_kts, a.tas_kts as int, b.tas_kts as int, gone, whole)
            &&& on_the_way(s.lat, a.lat as int, b.lat as int)
            &&& on_the_way(s.lon, a.lon as int, b.lon as int)
            &&& on_the_way(s.altitude_ft, a.altitude_ft as int, b.altitude_ft as int)
            &&& on_the_way(s.gs_kts, a.gs_kts as int, b.gs_kts as int)
            &&& on_the_way(s.tas_kts, a.tas_kts as int, b.tas_kts as int)
            &&& s.track_deg == a.track_deg
            &&& s.next_ident == Some(b.ident)
            &&& !s.ended
        }),
{
    sample_is_on_leg(points, t, i);
    let (a, b) = (points[i], points[i + 1]);
    let (from, to) = (a.time_s as int, b.time_s as int);
    lemma_in_proportion(a.lat as int, b.lat as int, t, from, to);
    lemma_in_proportion(a.lon as int, b.lon as int, t, from, to);
    lemma_in_proportion(a.altitude_ft as int, b.altitude_ft as int, t, from, to);
    lemma_in_proportion(a.gs_kts as int, b.gs_kts as int, t, from, to);
    lemma_in_proportion(a.tas_kts as int, b.tas_kts as int, t, from, to);
}

/// From the time of the last point on a flight is at that point, with its altitude
/// and track, at rest, and has no next point; before departure it is where it
/// departs.
pub proof fn sample_ends_and_starts(points: Seq<PlanPointView>, t: int)
    requires
        is_plan(points),
    ensures
        ({
            let (s, p) = (state_at(points, t), points[points.len() - 1]);
            &&& t >= p.time_s ==> {
                &&& s.ended && s.next_ident is None
                &&& s.lat == p.lat && s.lon == p.lon
                &&& s.altitude_ft == p.altitude_ft && s.track_deg == p.track_deg
                &&& s.gs_kts == 0 && s.tas_kts == 0
            }
            &&& 0 <= t < p.time_s ==> !s.ended
            &&& t < 0 ==> s == state_at(points, 0)
        }),
{
    sample_holds_last_position(points, t);
    if t < 0 {
        sample_starts_at_departure(points, t);
    }
}

} // verus!
