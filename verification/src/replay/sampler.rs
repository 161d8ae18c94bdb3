//! Where a flight plan puts the aircraft at a moment: the plan interpolated as a
//! pure function of elapsed time.

use crate::number::{
    is_reading, lemma_scaled, lemma_scaled_grows, scale, scaled, NANO, READING_LIMIT,
};
use crate::shared::geo::FULL_TURN;
use crate::shared::plan::{is_plan, point_in_bounds, FlightPlan, PlanPoint, PlanPointView};
use crate::text::text_of;
use vstd::prelude::*;

verus! {

/// Interpolated aircraft state at a point in time, in the units of the plan.
#[derive(Debug, Clone)]
pub struct SimulatedState {
    pub lat: i64,
    pub lon: i64,
    pub altitude_ft: i64,
    pub gs_kts: i64,
    pub tas_kts: i64,
    pub track_deg: i64,
    /// Next waypoint ahead (none once the destination is reached)
    pub next_ident: Option<String>,
    /// Whether the destination has been reached
    pub ended: bool,
}

#[verifier::ext_equal]
pub struct StateView {
    pub lat: int,
    pub lon: int,
    pub altitude_ft: int,
    pub gs_kts: int,
    pub tas_kts: int,
    pub track_deg: int,
    pub next_ident: Option<Seq<char>>,
    pub ended: bool,
}

impl View for SimulatedState {
    type V = StateView;

    open spec fn view(&self) -> StateView {
        StateView {
            lat: self.lat as int,
            lon: self.lon as int,
            altitude_ft: self.altitude_ft as int,
            gs_kts: self.gs_kts as int,
            tas_kts: self.tas_kts as int,
            track_deg: self.track_deg as int,
            next_ident: text_of(self.next_ident),
            ended: self.ended,
        }
    }
}

/// The first leg from `i` on whose end lies past time `t`.
pub open spec fn leg_from(points: Seq<PlanPointView>, t: int, i: int) -> int
    decreases points.len() - i,
{
    if i + 1 < points.len() && points[i + 1].time_s <= t {
        leg_from(points, t, i + 1)
    } else {
        i
    }
}

/// A value at time `t` on the way from one point to the next.
pub open spec fn lerp(x: int, y: int, t: int, from: int, to: int) -> int {
    x + scaled(y - x, t - from, to - from)
}

/// The last position, at rest.
pub open spec fn arrived_state(p: PlanPointView) -> StateView {
    StateView {
        lat: p.lat as int,
        lon: p.lon as int,
        altitude_ft: p.altitude_ft as int,
        gs_kts: 0,
        tas_kts: 0,
        track_deg: p.track_deg as int,
        next_ident: None,
        ended: true,
    }
}

/// The state at time `t` on the leg from `a` to `b`: the track of the leg, all
/// else in proportion to the time.
pub open spec fn leg_state(a: PlanPointView, b: PlanPointView, t: int) -> StateView {
    let (from, to) = (a.time_s as int, b.time_s as int);
    StateView {
        lat: lerp(a.lat as int, b.lat as int, t, from, to),
        lon: lerp(a.lon as int, b.lon as int, t, from, to),
        altitude_ft: lerp(a.altitude_ft as int, b.altitude_ft as int, t, from, to),
        gs_kts: lerp(a.gs_kts as int, b.gs_kts as int, t, from, to),
        tas_kts: lerp(a.tas_kts as int, b.tas_kts as int, t, from, to),
        track_deg: a.track_deg as int,
        next_ident: Some(b.ident),
        ended: false,
    }
}

/// The state `elapsed_s` microseconds after departure; before it, that at
/// departure.
pub open spec fn state_at(points: Seq<PlanPointView>, elapsed_s: int) -> StateView {
    let t = if elapsed_s > 0 {
        elapsed_s
    } else {
        0
    };
    if t >= points.last().time_s {
        arrived_state(points.last())
    } else {
        let i = leg_from(points, t, 0);
        leg_state(points[i], points[i + 1], t)
    }
}

proof fn lemma_leg_from(points: Seq<PlanPointView>, t: int, i: int)
    requires
        is_plan(points),
        0 <= i < points.len(),
        points[i].time_s <= t < points.last().time_s,
    ensures
        ({
            let k = leg_from(points, t, i);
            i <= k && k + 1 < points.len() && points[k].time_s <= t < points[k + 1].time_s
        }),
    decreases points.len() - i,
{
    assert(i + 1 < points.len());
    if points[i + 1].time_s <= t {
        lemma_leg_from(points, t, i + 1);
    }
}

/// Interpolated state `elapsed_s` microseconds after departure.
///
/// Past the destination the final position, with zero speed.
pub fn sample(plan: &FlightPlan, elapsed_s: i64) -> (r: SimulatedState)
    requires
        plan.wf(),
    ensures
        r@ == state_at(plan@, elapsed_s as int),
        r.lat == state_at(plan@, elapsed_s as int).lat,
        r.lon == state_at(plan@, elapsed_s as int).lon,
        r.altitude_ft == state_at(plan@, elapsed_s as int).altitude_ft,
        r.gs_kts == state_at(plan@, elapsed_s as int).gs_kts,
        r.tas_kts == state_at(plan@, elapsed_s as int).tas_kts,
        r.track_deg == state_at(plan@, elapsed_s as int).track_deg,
        r.ended == state_at(plan@, elapsed_s as int).ended,
{
    let pts = plan.points();
    let ghost points = plan@;
    proof {
        assert(points.len() == pts@.len());
        assert(forall|k: int| 0 <= k < pts@.len() ==> (#[trigger] pts@[k])@ == points[k]);
    }
    let last: &PlanPoint = &pts[pts.len() - 1];
    let t: u64 = if elapsed_s > 0 {
        elapsed_s as u64
    } else {
        0
    };
    if t >= last.time_s {
        let s = SimulatedState {
            lat: last.lat,
            lon: last.lon,
            altitude_ft: last.altitude_ft,
            gs_kts: 0,
            tas_kts: 0,
            track_deg: last.track_deg,
            next_ident: None,
            ended: true,
        };
        proof {
            assert(s@ =~= arrived_state(points.last()));
        }
        return s;
    }
    let mut i: usize = 0;
    while i + 1 < pts.len() && pts[i + 1].time_s <= t
        invariant
            i < pts.len(),
            points.len() == pts@.len(),
            forall|k: int| 0 <= k < pts@.len() ==> (#[trigger] pts@[k])@ == points[k],
            leg_from(points, t as int, i as int) == leg_from(points, t as int, 0),
        decreases pts@.len() - i,
    {
        assert(points[i + 1] == pts@[i + 1]@);
        i += 1;
    }
    proof {
        lemma_leg_from(points, t as int, 0);
        if i + 1 < pts@.len() {
            assert(points[i + 1] == pts@[i + 1]@);
        }
        assert(i == leg_from(points, t as int, 0));
        assert(point_in_bounds(points[i as int]) && point_in_bounds(points[i + 1]));
    }
    let a: &PlanPoint = &pts[i];
    let b: &PlanPoint = &pts[i + 1];
    let gone: u64 = t - a.time_s;
    let whole: u64 = b.time_s - a.time_s;
    let s = SimulatedState {
        lat: a.lat + scale(b.lat - a.lat, gone, whole),
        lon: a.lon + scale(b.lon - a.lon, gone, whole),
        altitude_ft: a.altitude_ft + scale(b.altitude_ft - a.altitude_ft, gone, whole),
        gs_kts: a.gs_kts + scale(b.gs_kts - a.gs_kts, gone, whole),
        tas_kts: a.tas_kts + scale(b.tas_kts - a.tas_kts, gone, whole),
        track_deg: a.track_deg,
        next_ident: Some(b.ident.clone()),
        ended: false,
    };
    proof {
        assert(s@ =~= leg_state(points[i as int], points[i + 1], t as int));
    }
    s
}

/// Whether `v` is one of `x` and `y` or between them.
pub open spec fn between(v: int, x: int, y: int) -> bool {
    x <= v <= y || y <= v <= x
}

/// While under way the aircraft is on the one leg whose times hold the moment,
/// with every value between those at the ends of the leg, and the next waypoint
/// is the end of it.
pub proof fn sample_is_on_leg(points: Seq<PlanPointView>, t: int, i: int)
    requires
        is_plan(points),
        0 <= i,
        i + 1 < points.len(),
        points[i].time_s <= t < points[i + 1].time_s,
    ensures
        ({
            let (s, a, b) = (state_at(points, t), points[i], points[i + 1]);
            &&& s == leg_state(a, b, t)
            &&& !s.ended
            &&& s.next_ident == Some(b.ident)
            &&& s.track_deg == a.track_deg
            &&& between(s.lat, a.lat as int, b.lat as int)
            &&& between(s.lon, a.lon as int, b.lon as int)
            &&& between(s.altitude_ft, a.altitude_ft as int, b.altitude_ft as int)
            &&& between(s.gs_kts, a.gs_kts as int, b.gs_kts as int)
            &&& between(s.tas_kts, a.tas_kts as int, b.tas_kts as int)
        }),
{
    assert(points[i + 1].time_s <= points.last().time_s);
    lemma_leg_from(points, t, 0);
    let k = leg_from(points, t, 0);
    if k < i {
        assert(points[k + 1].time_s <= points[i].time_s);
    } else if i < k {
        assert(points[i + 1].time_s <= points[k].time_s);
    }
    let (a, b) = (points[i], points[i + 1]);
    let (num, den) = (t - a.time_s, b.time_s - a.time_s);
    lemma_scaled(b.lat - a.lat, num, den);
    lemma_scaled(b.lon - a.lon, num, den);
    lemma_scaled(b.altitude_ft - a.altitude_ft, num, den);
    lemma_scaled(b.gs_kts - a.gs_kts, num, den);
    lemma_scaled(b.tas_kts - a.tas_kts, num, den);
}

/// A plan is passed through each of its points at its time, unless a later point
/// has the same time.
pub proof fn sample_meets_points(points: Seq<PlanPointView>, i: int)
    requires
        is_plan(points),
        0 <= i,
        i + 1 < points.len(),
        points[i].time_s < points[i + 1].time_s,
    ensures
        ({
            let (s, p) = (state_at(points, points[i].time_s as int), points[i]);
            s.lat == p.lat && s.lon == p.lon && s.altitude_ft == p.altitude_ft && s.gs_kts
                == p.gs_kts && s.tas_kts == p.tas_kts && s.track_deg == p.track_deg
        }),
{
    let (a, b) = (points[i], points[i + 1]);
    sample_is_on_leg(points, a.time_s as int, i);
    let den = b.time_s - a.time_s;
    lemma_scaled(b.lat - a.lat, 0, den);
    lemma_scaled(b.lon - a.lon, 0, den);
    lemma_scaled(b.altitude_ft - a.altitude_ft, 0, den);
    lemma_scaled(b.gs_kts - a.gs_kts, 0, den);
    lemma_scaled(b.tas_kts - a.tas_kts, 0, den);
}

/// From the arrival on the aircraft holds its last position, at rest, for good;
/// and before it has not arrived.
pub proof fn sample_holds_last_position(points: Seq<PlanPointView>, t: int)
    requires
        is_plan(points),
    ensures
        state_at(points, t).ended <==> t >= points.last().time_s || points.last().time_s == 0,
        t >= points.last().time_s ==> state_at(points, t) == arrived_state(points.last()),
{
}

/// The state is within the bounds of its units at any time.
pub proof fn sample_in_bounds(points: Seq<PlanPointView>, t: int)
    requires
        is_plan(points),
    ensures
        ({
            let s = state_at(points, t);
            &&& -90 * 60 * NANO <= s.lat <= 90 * 60 * NANO
            &&& -180 * 60 * NANO <= s.lon <= 180 * 60 * NANO
            &&& is_reading(s.altitude_ft)
            &&& is_reading(s.gs_kts)
            &&& -2 * READING_LIMIT <= s.tas_kts <= 2 * READING_LIMIT
            &&& 0 <= s.track_deg < FULL_TURN
        }),
{
    let u = if t > 0 {
        t
    } else {
        0
    };
    if u >= points.last().time_s {
        assert(point_in_bounds(points[points.len() - 1]));
    } else {
        lemma_leg_from(points, u, 0);
        let i = leg_from(points, u, 0);
        assert(point_in_bounds(points[i]) && point_in_bounds(points[i + 1]));
        sample_is_on_leg(points, u, i);
    }
}

/// Before departure the state is that at departure.
pub proof fn sample_starts_at_departure(points: Seq<PlanPointView>, t: int)
    requires
        t <= 0,
    ensures
        state_at(points, t) == state_at(points, 0),
{
}

/// Along a leg each value moves one way only.
pub proof fn sample_moves_one_way(points: Seq<PlanPointView>, i: int, t: int, u: int)
    requires
        is_plan(points),
        0 <= i,
        i + 1 < points.len(),
        points[i].time_s <= t <= u < points[i + 1].time_s,
    ensures
        ({
            let (s, r, a, b) = (state_at(points, t), state_at(points, u), points[i], points[i + 1]);
            &&& a.lat <= b.lat ==> s.lat <= r.lat
            &&& a.lat >= b.lat ==> s.lat >= r.lat
            &&& a.lon <= b.lon ==> s.lon <= r.lon
            &&& a.lon >= b.lon ==> s.lon >= r.lon
            &&& a.altitude_ft <= b.altitude_ft ==> s.altitude_ft <= r.altitude_ft
            &&& a.altitude_ft >= b.altitude_ft ==> s.altitude_ft >= r.altitude_ft
        }),
{
    sample_is_on_leg(points, t, i);
    sample_is_on_leg(points, u, i);
    let (a, b) = (points[i], points[i + 1]);
    let den = b.time_s - a.time_s;
    lemma_scaled_grows(b.lat - a.lat, t - a.time_s, u - a.time_s, den);
    lemma_scaled_grows(b.lon - a.lon, t - a.time_s, u - a.time_s, den);
    lemma_scaled_grows(b.altitude_ft - a.altitude_ft, t - a.time_s, u - a.time_s, den);
}

} // verus!
