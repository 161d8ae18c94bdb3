//! What a plan makes of waypoints, and a briefing's speeds of its route.

use crate::laws::{in_proportion, lemma_quotient, whole_part};
use crate::number::scaled;
use crate::shared::geo::Leg;
use crate::shared::lido::flight_log::in_bounds;
use crate::shared::lido::{LidoBriefingView, WaypointView};
use crate::shared::plan::{
    all_in_bounds, altitudes, arrived, briefing_route, departed, distance_of, filled, first_value,
    ground_speeds, last_value, legs_wf, lemma_resolved, lemma_time_grows, plan_points, stages,
};
use vstd::prelude::*;

verus! {

/// The time from one point of a plan to the next is the length of the leg over the
/// average of the ground speeds at its ends: `7_200_000` billionths of a mile in a
/// microsecond for each millionth of a knot in their sum. No time passes where that
/// is not positive, and the timeline stays at the end of its type past it.
pub proof fn legs_take_their_time(ws: Seq<WaypointView>, legs: Seq<Leg>, i: int)
    requires
        0 < i < ws.len(),
        legs.len() + 1 == ws.len(),
        legs_wf(legs),
    ensures
        ({
            let points = plan_points(ws, legs);
            let (a, b) = (points[i - 1], points[i]);
            let sum = a.gs_kts + b.gs_kts;
            let way = 7_200_000 * legs[i - 1].distance_nm;
            let took = b.time_s - a.time_s;
            &&& points[0].time_s == 0
            &&& 0 <= took
            &&& sum <= 0 ==> took == 0
            &&& sum > 0 ==> took * sum <= way
            &&& sum > 0 ==> b.time_s == u64::MAX || way < (took + 1) * sum
        }),
{
    lemma_time_grows(ws, legs, i - 1, i);
    lemma_time_grows(ws, legs, i, i);
    assert(legs[i - 1].wf());
    let points = plan_points(ws, legs);
    let (a, b) = (points[i - 1], points[i]);
    let sum = a.gs_kts + b.gs_kts;
    let way = 7_200_000 * legs[i - 1].distance_nm;
    if sum > 0 {
        lemma_quotient(way, sum, b.time_s - a.time_s);
    }
}

/// Whether `v` is what a list of values with gaps has at `i`: the last value at or
/// before it, else the first one after it.
pub open spec fn fills(v: i64, values: Seq<Option<i64>>, i: int) -> bool {
    &&& forall|j: int|
        0 <= j <= i && (#[trigger] values[j]) is Some && (forall|k: int|
            j < k <= i ==> (#[trigger] values[k]) is None) ==> values[j] == Some(v)
    &&& forall|j: int|
        i < j < values.len() && (#[trigger] values[j]) is Some && (forall|k: int|
            0 <= k < j ==> (#[trigger] values[k]) is None) ==> values[j] == Some(v)
}

proof fn lemma_last(values: Seq<Option<i64>>, i: int, j: int)
    requires
        0 <= j <= i < values.len(),
        values[j] is Some,
        forall|k: int| j < k <= i ==> (#[trigger] values[k]) is None,
    ensures
        last_value(values, i) == values[j],
    decreases i - j,
{
    if j < i {
        assert(values[i] is None);
        lemma_last(values, i - 1, j);
    }
}

proof fn lemma_no_last(values: Seq<Option<i64>>, i: int)
    requires
        i < values.len(),
        forall|k: int| 0 <= k <= i ==> (#[trigger] values[k]) is None,
    ensures
        last_value(values, i) is None,
    decreases i + 1,
{
    if 0 <= i {
        assert(values[i] is None);
        lemma_no_last(values, i - 1);
    }
}

proof fn lemma_first(values: Seq<Option<i64>>, i: int, j: int)
    requires
        0 <= i <= j < values.len(),
        values[j] is Some,
        forall|k: int| i <= k < j ==> (#[trigger] values[k]) is None,
    ensures
        first_value(values, i) == values[j],
    decreases j - i,
{
    if i < j {
        assert(values[i] is None);
        lemma_first(values, i + 1, j);
    }
}

proof fn lemma_fills(values: Seq<Option<i64>>, i: int, v: i64)
    requires
        0 <= i < values.len(),
        filled(values, i) is Some ==> filled(values, i) == Some(v),
    ensures
        fills(v, values, i),
{
    assert forall|j: int|
        0 <= j <= i && (#[trigger] values[j]) is Some && (forall|k: int|
            j < k <= i ==> (#[trigger] values[k]) is None) implies values[j] == Some(v) by {
        lemma_last(values, i, j);
    }
    assert forall|j: int|
        i < j < values.len() && (#[trigger] values[j]) is Some && (forall|k: int|
            0 <= k < j ==> (#[trigger] values[k]) is None) implies values[j] == Some(v) by {
        lemma_no_last(values, i);
        lemma_first(values, i, j);
    }
}

/// Filling gaps puts the last value before a gap into it, or the first one after it
/// where there is none before.
pub proof fn gaps_are_filled_from_before(values: Seq<Option<i64>>, i: int)
    requires
        0 <= i < values.len(),
    ensures
        filled(values, i) matches Some(v) ==> fills(v, values, i),
        filled(values, i) is None ==> forall|k: int| 0 <= k < values.len() ==> (#[trigger] values[k])
            is None,
{
    if let Some(v) = filled(values, i) {
        lemma_fills(values, i, v);
    }
    crate::shared::plan::filling_keeps_values(values, i);
}

/// The points of a plan are its waypoints with gaps filled: places as they are; the
/// ground speed and the altitude of the waypoint, else the last one before it, else
/// the first one after it, an airport without an altitude being on the surface; the
/// airspeed of the waypoint, else its ground speed less the wind component. The
/// track is that of the leg ahead, at the last point of the leg behind.
pub proof fn points_are_waypoints_with_gaps_filled(ws: Seq<WaypointView>, legs: Seq<Leg>, i: int)
    requires
        0 <= i < ws.len(),
        2 <= ws.len(),
        legs.len() + 1 == ws.len(),
        all_in_bounds(ws),
    ensures
        ({
            let (p, w) = (plan_points(ws, legs)[i], ws[i]);
            let speeds = Seq::new(ws.len(), |k: int| ws[k].gs_kts);
            let levels = Seq::new(
                ws.len(),
                |k: int|
                    if (k == 0 || k == ws.len() - 1) && ws[k].altitude_ft is None {
                        Some(0i64)
                    } else {
                        ws[k].altitude_ft
                    },
            );
            &&& plan_points(ws, legs).len() == ws.len()
            &&& p.ident == w.ident && p.lat == w.lat && p.lon == w.lon
            &&& fills(p.gs_kts, speeds, i)
            &&& fills(p.altitude_ft, levels, i)
            &&& w.tas_kts matches Some(v) ==> p.tas_kts == v
            &&& w.tas_kts is None ==> (w.wind_comp_kts matches Some(v) ==> p.tas_kts == p.gs_kts
                - v)
            &&& w.tas_kts is None && w.wind_comp_kts is None ==> p.tas_kts == p.gs_kts
            &&& i < ws.len() - 1 ==> p.track_deg == legs[i].bearing_deg
            &&& i == ws.len() - 1 ==> p.track_deg == legs[i - 1].bearing_deg
        }),
{
    let p = plan_points(ws, legs)[i];
    let speeds = Seq::new(ws.len(), |k: int| ws[k].gs_kts);
    let levels = Seq::new(
        ws.len(),
        |k: int|
            if (k == 0 || k == ws.len() - 1) && ws[k].altitude_ft is None {
                Some(0i64)
            } else {
                ws[k].altitude_ft
            },
    );
    assert(speeds =~= ground_speeds(ws));
    assert(levels =~= altitudes(ws));
    lemma_fills(speeds, i, p.gs_kts);
    lemma_fills(levels, i, p.altitude_ft);
    lemma_resolved(ws, i);
    assert(in_bounds(ws[i]));
}

/// The length of a route is that of its legs together.
pub proof fn distance_is_summed(legs: Seq<Leg>, n: int)
    requires
        0 <= n < legs.len(),
    ensures
        distance_of(legs, 0) == 0,
        distance_of(legs, n + 1) - distance_of(legs, n) == legs[n].distance_nm,
{
}

/// The part of a number is what it should be but for less than a unit.
pub proof fn lemma_part(d: int, num: int, den: int)
    requires
        0 <= num <= den,
        0 < den,
    ensures
        whole_part(scaled(d, num, den), d * num, den),
        -den < scaled(d, num, den) * den - d * num < den,
        d >= 0 ==> 0 <= scaled(d, num, den) <= d,
        d <= 0 ==> d <= scaled(d, num, den) <= 0,
{
    crate::number::lemma_scaled(d, num, den);
    let m = if d >= 0 {
        d
    } else {
        -d
    };
    let q = m * num / den;
    lemma_quotient(m * num, den, q);
    assert((q + 1) * den == q * den + den) by (nonlinear_arith);
    assert(0 <= m * num) by (nonlinear_arith)
        requires
            0 <= m,
            0 <= num,
    ;
    if d < 0 {
        assert(d * num == -(m * num)) by (nonlinear_arith)
            requires
                m == -d,
        ;
        assert(-q * den == -(q * den)) by (nonlinear_arith);
        assert((-q - 1) * den == -(q * den) - den) by (nonlinear_arith);
        assert((-q + 1) * den == -(q * den) + den) by (nonlinear_arith);
    }
}

/// Whether a point was added to the leg from `a` to `b`, the part `num` over `den`
/// along it: it has a name, a position, an altitude and a ground speed.
pub open spec fn is_added(
    p: WaypointView,
    ident: Seq<char>,
    a: WaypointView,
    b: WaypointView,
    num: int,
    den: int,
    gs_kts: int,
) -> bool {
    &&& p.ident == ident
    &&& in_proportion(p.lat as int, a.lat as int, b.lat as int, num, den)
    &&& in_proportion(p.lon as int, a.lon as int, b.lon as int, num, den)
    &&& p.gs_kts matches Some(v) && v == gs_kts
    &&& p.tas_kts is None && p.wind_comp_kts is None && p.cum_time_min is None
}

/// The value that a waypoint has, else another.
pub open spec fn value_else(v: Option<i64>, other: int) -> int {
    match v {
        Some(x) => x as int,
        None => other,
    }
}

pub open spec fn lesser(a: int, b: int) -> int {
    if a <= b {
        a
    } else {
        b
    }
}

/// Whether a waypoint is another but for its ground speed and altitude.
pub open spec fn same_but_speed(p: WaypointView, q: WaypointView) -> bool {
    &&& p.ident == q.ident && p.lat == q.lat && p.lon == q.lon
    &&& p.tas_kts == q.tas_kts && p.wind_comp_kts == q.wind_comp_kts
    &&& p.cum_time_min == q.cum_time_min
}

/// A departure lifts off at V2. On a first leg of more than three miles it comes by
/// a point named "CLIMB" two miles along it, at the speed of the next waypoint or
/// 250 knots, the lesser, and at two miles' share of its altitude. All else stays
/// as it is, and all of it without V2.
pub proof fn departure_accelerates(ws: Seq<WaypointView>, v2_kts: i64, leg_nm: int)
    requires
        all_in_bounds(ws),
        ws.len() >= 2,
    ensures
        departed(ws, None, leg_nm) == ws,
        ({
            let out = departed(ws, Some(v2_kts), leg_nm);
            let (a, b) = (ws[0], ws[1]);
            &&& same_but_speed(out[0], a) && out[0].altitude_ft == a.altitude_ft
            &&& out[0].gs_kts == Some(v2_kts)
            &&& leg_nm <= 3_000_000_000 ==> out.len() == ws.len() && forall|i: int|
                1 <= i < ws.len() ==> out[i] == #[trigger] ws[i]
            &&& leg_nm > 3_000_000_000 ==> {
                &&& out.len() == ws.len() + 1
                &&& forall|i: int| 1 <= i < ws.len() ==> out[i + 1] == #[trigger] ws[i]
                &&& is_added(
                    out[1],
                    "CLIMB"@,
                    a,
                    b,
                    2_000_000_000,
                    leg_nm,
                    lesser(value_else(b.gs_kts, 250_000_000), 250_000_000),
                )
                &&& out[1].altitude_ft matches Some(alt) && whole_part(
                    alt as int,
                    value_else(b.altitude_ft, 0) * 2_000_000_000,
                    leg_nm,
                )
            }
        }),
{
    let (a, b) = (ws[0], ws[1]);
    assert(in_bounds(a) && in_bounds(b));
    if leg_nm > 3_000_000_000 {
        lemma_part(b.lat - a.lat, 2_000_000_000, leg_nm);
        lemma_part(b.lon - a.lon, 2_000_000_000, leg_nm);
        lemma_part(value_else(b.altitude_ft, 0), 2_000_000_000, leg_nm);
    }
}

/// Whether a point is the stage `dist` miles out on the leg from `a` to `b`: no
/// higher than the altitude of `a` falls to there in proportion, and than 318 feet
/// for each mile.
pub open spec fn is_stage(
    p: WaypointView,
    ident: Seq<char>,
    a: WaypointView,
    b: WaypointView,
    dist: int,
    leg_nm: int,
    gs_kts: int,
) -> bool {
    &&& is_added(p, ident, a, b, leg_nm - dist * 1_000_000_000, leg_nm, gs_kts)
    &&& p.altitude_ft matches Some(alt) && ({
        let (share, glide) = (
            value_else(a.altitude_ft, 0) * (dist * 1_000_000_000),
            318_000_000 * dist,
        );
        if alt == glide {
            glide * leg_nm <= share
        } else {
            alt < glide && whole_part(alt as int, share, leg_nm)
        }
    })
}

/// Whether the last leg has room for a stage: it is less than nine tenths of it
/// out.
pub open spec fn has_room(dist: int, leg_nm: int) -> bool {
    dist * 10_000_000_000 < leg_nm * 9
}

proof fn lemma_stage(
    p: WaypointView,
    ident: Seq<char>,
    a: WaypointView,
    b: WaypointView,
    dist: int,
    leg_nm: int,
    gs_kts: i64,
)
    requires
        in_bounds(a),
        in_bounds(b),
        0 < dist <= 15,
        has_room(dist, leg_nm),
        p == crate::shared::plan::stage_point(ident, a, b, dist, leg_nm, gs_kts),
    ensures
        is_stage(p, ident, a, b, dist, leg_nm, gs_kts as int),
{
    let out = dist * 1_000_000_000;
    lemma_part(b.lat - a.lat, leg_nm - out, leg_nm);
    lemma_part(b.lon - a.lon, leg_nm - out, leg_nm);
    let alt = value_else(a.altitude_ft, 0);
    lemma_part(alt, out, leg_nm);
    let (linear, glide) = (scaled(alt, out, leg_nm), 318_000_000 * dist);
    if linear >= glide {
        assert(glide * leg_nm <= linear * leg_nm) by (nonlinear_arith)
            requires
                glide <= linear,
                0 < leg_nm,
        ;
        assert(alt >= 0 && 0 <= alt * out) by (nonlinear_arith)
            requires
                0 <= out,
                alt >= 0,
        ;
    }
}

/// An arrival slows down by stages on its last leg, as far as that has room for
/// them: to 250, to 200 and to 15 knots above VREF fifteen, ten and four miles out,
/// never faster than the leg starts with, and comes in at VREF. All else stays as
/// it is, and all of it without VREF.
pub proof fn arrival_slows_down(ws: Seq<WaypointView>, vref_kts: i64, leg_nm: int)
    requires
        all_in_bounds(ws),
        ws.len() >= 2,
        vref_kts + 15_000_000 <= i64::MAX,
    ensures
        arrived(ws, None, leg_nm) == ws,
        ({
            let out = arrived(ws, Some(vref_kts), leg_nm);
            let n = ws.len() as int;
            let (a, b, end) = (ws[n - 2], ws[n - 1], out[out.len() - 1]);
            let gs = value_else(a.gs_kts, 250_000_000);
            let (first, second, third) = (
                lesser(gs, 250_000_000),
                lesser(gs, 200_000_000),
                lesser(gs, vref_kts + 15_000_000),
            );
            &&& forall|i: int| 0 <= i < n - 1 ==> out[i] == #[trigger] ws[i]
            &&& same_but_speed(end, b)
            &&& end.gs_kts == Some(vref_kts)
            &&& end.altitude_ft matches Some(alt) && alt == value_else(b.altitude_ft, 0)
            &&& if has_room(15, leg_nm) {
                &&& out.len() == n + 3
                &&& is_stage(out[n - 1], "FIN15"@, a, b, 15, leg_nm, first)
                &&& is_stage(out[n], "FIN10"@, a, b, 10, leg_nm, second)
                &&& is_stage(out[n + 1], "FIN04"@, a, b, 4, leg_nm, third)
            } else if has_room(10, leg_nm) {
                &&& out.len() == n + 2
                &&& is_stage(out[n - 1], "FIN10"@, a, b, 10, leg_nm, second)
                &&& is_stage(out[n], "FIN04"@, a, b, 4, leg_nm, third)
            } else if has_room(4, leg_nm) {
                &&& out.len() == n + 1
                &&& is_stage(out[n - 1], "FIN04"@, a, b, 4, leg_nm, third)
            } else {
                out.len() == n
            }
        }),
{
    let n = ws.len() as int;
    let (a, b) = (ws[n - 2], ws[n - 1]);
    assert(in_bounds(a) && in_bounds(b));
    let out = arrived(ws, Some(vref_kts), leg_nm);
    let gs = value_else(a.gs_kts, 250_000_000);
    let first = lesser(gs, 250_000_000) as i64;
    let second = lesser(gs, 200_000_000) as i64;
    let third = lesser(gs, vref_kts + 15_000_000) as i64;
    let added = stages(a, b, vref_kts, leg_nm);
    if has_room(15, leg_nm) {
        assert(added.len() == 3);
        lemma_stage(added[0], "FIN15"@, a, b, 15, leg_nm, first);
        lemma_stage(added[1], "FIN10"@, a, b, 10, leg_nm, second);
        lemma_stage(added[2], "FIN04"@, a, b, 4, leg_nm, third);
    } else if has_room(10, leg_nm) {
        assert(added.len() == 2);
        lemma_stage(added[0], "FIN10"@, a, b, 10, leg_nm, second);
        lemma_stage(added[1], "FIN04"@, a, b, 4, leg_nm, third);
    } else if has_room(4, leg_nm) {
        assert(added.len() == 1);
        lemma_stage(added[0], "FIN04"@, a, b, 4, leg_nm, third);
    }
}

/// The route of a briefing is that of its waypoints, with the departure for its V2
/// and then the arrival for its VREF.
pub proof fn route_has_both_profiles(b: LidoBriefingView, departure_nm: int, final_nm: int)
    ensures
        briefing_route(b, departure_nm, final_nm) == arrived(
            departed(b.waypoints, b.v2_kts, departure_nm),
            b.vref_kts,
            final_nm,
        ),
{
}

} // verus!
