//! Flight plan: the route built from a briefing.
//!
//! The waypoints of a briefing resolved into targets for each leg (ground speed,
//! altitude), bearings and a timeline. Replay samples the plan as a function of
//! time, an agent flies it step by step; both fly the same route.
//!
//! The timeline comes from the length of each leg and the average of the ground
//! speeds at its ends, not from the TTLT column of the log: that counts whole
//! minutes, so waypoints close to each other can share a time.

use crate::number::{
    at_most, is_reading, lemma_scaled, scale, scaled, NANO, READING_LIMIT, SPAN_LIMIT,
};
use crate::shared::geo::{Leg, FULL_TURN};
use crate::shared::lido::flight_log::in_bounds;
use crate::shared::lido::{
    waypoint_views, LidoBriefing, LidoBriefingView, Waypoint, WaypointView,
};
use crate::text::{chars_of, string_of};
use vstd::prelude::*;

verus! {

/// Speed limit below flight level 100, the target near the airports: 250 kt.
pub const MAX_LOW_ALT_SPEED_KTS: i64 = 250_000_000;

/// Altitude for each mile to go on final approach, a glide of about three
/// degrees: 318 ft.
pub const APPROACH_GLIDE_FT_PER_NM: i64 = 318_000_000;

/// Distance over which the departure accelerates from V2: 2 nm.
pub const DEPARTURE_ACCEL_DIST_NM: i64 = 2_000_000_000;

/// Legs up to this length have no room for the acceleration point: 3 nm.
pub const DEPARTURE_MIN_LEG_NM: i64 = 3_000_000_000;

/// Target of the second stage on final: 200 kt.
pub const SECOND_STAGE_KTS: i64 = 200_000_000;

/// What the third stage on final keeps above VREF: 15 kt.
pub const THIRD_STAGE_MARGIN_KTS: i64 = 15_000_000;

/// A waypoint with all values resolved and a time.
///
/// Units are those of [`Waypoint`]; the time counts microseconds from departure
/// and stays at the largest value past it.
#[derive(Debug, Clone)]
pub struct PlanPoint {
    pub ident: String,
    pub lat: i64,
    pub lon: i64,
    pub altitude_ft: i64,
    pub gs_kts: i64,
    pub tas_kts: i64,
    /// Time from departure
    pub time_s: u64,
    /// Great-circle bearing towards the next waypoint, millionths of a degree
    pub track_deg: i64,
}

#[verifier::ext_equal]
pub struct PlanPointView {
    pub ident: Seq<char>,
    pub lat: i64,
    pub lon: i64,
    pub altitude_ft: i64,
    pub gs_kts: i64,
    pub tas_kts: i64,
    pub time_s: u64,
    pub track_deg: i64,
}

impl View for PlanPoint {
    type V = PlanPointView;

    open spec fn view(&self) -> PlanPointView {
        PlanPointView {
            ident: self.ident@,
            lat: self.lat,
            lon: self.lon,
            altitude_ft: self.altitude_ft,
            gs_kts: self.gs_kts,
            tas_kts: self.tas_kts,
            time_s: self.time_s,
            track_deg: self.track_deg,
        }
    }
}

pub open spec fn point_views(v: Seq<PlanPoint>) -> Seq<PlanPointView> {
    Seq::new(v.len(), |i: int| v[i]@)
}

/// Why no plan can be built.
#[derive(Debug, Clone, Copy, PartialEq, Eq, Structural)]
pub enum PlanError {
    /// A plan needs two waypoints at the least
    TooFewWaypoints { count: usize },
    /// No waypoint has a ground speed, so there is no timeline
    NoGroundSpeeds,
}

/// The route an aircraft flies: resolved waypoints with targets for each leg.
#[derive(Debug)]
pub struct FlightPlan {
    points: Vec<PlanPoint>,
    legs: Vec<Leg>,
}

/// The last value at or before `i`.
pub open spec fn last_value(v: Seq<Option<i64>>, i: int) -> Option<i64>
    decreases i + 1,
{
    if i < 0 || i >= v.len() {
        None
    } else {
        match v[i] {
            Some(x) => Some(x),
            None => last_value(v, i - 1),
        }
    }
}

/// The first value at or after `i`.
pub open spec fn first_value(v: Seq<Option<i64>>, i: int) -> Option<i64>
    decreases v.len() - i,
{
    if i < 0 || i >= v.len() {
        None
    } else {
        match v[i] {
            Some(x) => Some(x),
            None => first_value(v, i + 1),
        }
    }
}

/// A value with gaps filled: the last one before a gap, the first one after it
/// where there is none before.
pub open spec fn filled(v: Seq<Option<i64>>, i: int) -> Option<i64> {
    match last_value(v, i) {
        Some(x) => Some(x),
        None => first_value(v, i),
    }
}

/// Filling gaps keeps the values that are there, and leaves no gap unless there
/// is no value at all. What it puts into a gap is one of the values.
pub proof fn filling_keeps_values(v: Seq<Option<i64>>, i: int)
    requires
        0 <= i < v.len(),
    ensures
        v[i] is Some ==> filled(v, i) == v[i],
        filled(v, i) is None <==> forall|k: int| 0 <= k < v.len() ==> #[trigger] v[k] is None,
        filled(v, i) is Some ==> exists|k: int| 0 <= k < v.len() && #[trigger] v[k] == filled(v, i),
{
    lemma_last_value(v, i);
    lemma_first_value(v, i);
}

proof fn lemma_last_value(v: Seq<Option<i64>>, i: int)
    requires
        0 <= i < v.len(),
    ensures
        last_value(v, i) is None <==> forall|k: int| 0 <= k <= i ==> #[trigger] v[k] is None,
        last_value(v, i) is Some ==> exists|k: int|
            0 <= k <= i && #[trigger] v[k] == last_value(v, i),
    decreases i,
{
    reveal_with_fuel(last_value, 2);
    if v[i] is None {
        if i > 0 {
            lemma_last_value(v, i - 1);
        }
    } else {
        assert(v[i] == last_value(v, i));
    }
}

proof fn lemma_first_value(v: Seq<Option<i64>>, i: int)
    requires
        0 <= i < v.len(),
    ensures
        first_value(v, i) is None <==> forall|k: int| i <= k < v.len() ==> #[trigger] v[k] is None,
        first_value(v, i) is Some ==> exists|k: int|
            i <= k < v.len() && #[trigger] v[k] == first_value(v, i),
    decreases v.len() - i,
{
    reveal_with_fuel(first_value, 2);
    if v[i] is None {
        if i + 1 < v.len() {
            lemma_first_value(v, i + 1);
        }
    } else {
        assert(v[i] == first_value(v, i));
    }
}

/// Fill gaps from the values before them, then from those after them.
pub fn fill_gaps(values: &mut Vec<Option<i64>>)
    ensures
        final(values)@ == Seq::new(old(values)@.len(), |i: int| filled(old(values)@, i)),
{
    let ghost v = values@;
    let mut last: Option<i64> = None;
    let mut i: usize = 0;
    while i < values.len()
        invariant
            v == old(values)@,
            values@.len() == v.len(),
            i <= v.len(),
            last == last_value(v, i - 1),
            forall|k: int| 0 <= k < i ==> #[trigger] values@[k] == last_value(v, k),
            forall|k: int| i <= k < v.len() ==> #[trigger] values@[k] == v[k],
        decreases v.len() - i,
    {
        if values[i].is_some() {
            last = values[i];
        } else {
            values.set(i, last);
        }
        i += 1;
    }
    let mut next: Option<i64> = None;
    let mut n: usize = values.len();
    while n > 0
        invariant
            v == old(values)@,
            values@.len() == v.len(),
            n <= v.len(),
            n < v.len() && last_value(v, n as int) is None ==> next == first_value(v, n as int),
            n < v.len() && last_value(v, n as int) is Some ==> next == last_value(v, n as int),
            n == v.len() ==> next is None,
            forall|k: int| 0 <= k < n ==> #[trigger] values@[k] == last_value(v, k),
            forall|k: int| n <= k < v.len() ==> #[trigger] values@[k] == filled(v, k),
        decreases n,
    {
        n -= 1;
        assert(values@[n as int] == last_value(v, n as int));
        if values[n].is_some() {
            next = values[n];
        } else {
            proof {
                if n + 1 < v.len() {
                    assert(last_value(v, n + 1) == v[n + 1]);
                }
            }
            values.set(n, next);
        }
    }
    proof {
        assert(values@ =~= Seq::new(v.len(), |i: int| filled(v, i)));
    }
}

pub open spec fn or_else(v: Option<i64>, d: i64) -> i64 {
    match v {
        Some(x) => x,
        None => d,
    }
}

pub open spec fn least(a: i64, b: i64) -> i64 {
    if a <= b {
        a
    } else {
        b
    }
}

/// A position the part `num` over `den` of the way from one waypoint to another.
pub open spec fn along(from: int, to: int, num: int, den: int) -> int {
    from + scaled(to - from, num, den)
}

/// A point added to a leg.
pub open spec fn profile_point(
    ident: Seq<char>,
    a: WaypointView,
    b: WaypointView,
    num: int,
    den: int,
    altitude_ft: int,
    gs_kts: i64,
) -> WaypointView {
    WaypointView {
        ident,
        lat: along(a.lat as int, b.lat as int, num, den) as i64,
        lon: along(a.lon as int, b.lon as int, num, den) as i64,
        altitude_ft: Some(altitude_ft as i64),
        tas_kts: None,
        gs_kts: Some(gs_kts),
        wind_comp_kts: None,
        cum_time_min: None,
    }
}

/// Where the acceleration after take-off ends, on the leg from `a` to `b`.
pub open spec fn climb_point(a: WaypointView, b: WaypointView, leg_nm: int) -> WaypointView {
    profile_point(
        "CLIMB"@,
        a,
        b,
        DEPARTURE_ACCEL_DIST_NM as int,
        leg_nm,
        scaled(or_else(b.altitude_ft, 0) as int, DEPARTURE_ACCEL_DIST_NM as int, leg_nm),
        least(or_else(b.gs_kts, MAX_LOW_ALT_SPEED_KTS), MAX_LOW_ALT_SPEED_KTS),
    )
}

pub open spec fn with_speed(w: WaypointView, gs_kts: i64) -> WaypointView {
    WaypointView { gs_kts: Some(gs_kts), ..w }
}

/// Waypoints with the speed profile of the departure: off the ground at V2, and
/// on a first leg that is long enough an added point by which the speed has
/// grown towards the low-altitude limit.
pub open spec fn departed(ws: Seq<WaypointView>, v2_kts: Option<i64>, leg_nm: int) -> Seq<
    WaypointView,
> {
    match v2_kts {
        Some(v2) if ws.len() >= 2 => {
            let out = ws.update(0, with_speed(ws[0], v2));
            if leg_nm <= DEPARTURE_MIN_LEG_NM {
                out
            } else {
                out.insert(1, climb_point(ws[0], ws[1], leg_nm))
            }
        },
        _ => ws,
    }
}

/// The destination at VREF, on the surface where the log gives no altitude.
pub open spec fn landing_point(w: WaypointView, vref_kts: i64) -> WaypointView {
    WaypointView {
        gs_kts: Some(vref_kts),
        altitude_ft: Some(or_else(w.altitude_ft, 0)),
        ..w
    }
}

/// Whether the last leg has room for a stage `dist_nm` miles out: less than nine
/// tenths of it.
pub open spec fn has_stage(dist_nm: int, leg_nm: int) -> bool {
    10 * dist_nm * NANO < 9 * leg_nm
}

/// A stage `dist_nm` miles out on the leg from `a` to `b`, no higher than the
/// glide.
pub open spec fn stage_point(
    ident: Seq<char>,
    a: WaypointView,
    b: WaypointView,
    dist_nm: int,
    leg_nm: int,
    gs_kts: i64,
) -> WaypointView {
    let linear = scaled(or_else(a.altitude_ft, 0) as int, dist_nm * NANO, leg_nm);
    let glide = dist_nm * APPROACH_GLIDE_FT_PER_NM;
    profile_point(
        ident,
        a,
        b,
        leg_nm - dist_nm * NANO,
        leg_nm,
        if linear <= glide {
            linear
        } else {
            glide
        },
        gs_kts,
    )
}

/// The stage alone, or nothing where the leg has no room for it.
pub open spec fn stage(
    ident: Seq<char>,
    a: WaypointView,
    b: WaypointView,
    dist_nm: int,
    leg_nm: int,
    gs_kts: i64,
) -> Seq<WaypointView> {
    if has_stage(dist_nm, leg_nm) {
        seq![stage_point(ident, a, b, dist_nm, leg_nm, gs_kts)]
    } else {
        Seq::empty()
    }
}

/// The stages of the deceleration on the leg from `a` to `b`: fifteen, ten and
/// four miles out, never faster than at `a`.
pub open spec fn stages(a: WaypointView, b: WaypointView, vref_kts: i64, leg_nm: int) -> Seq<
    WaypointView,
> {
    let gs = or_else(a.gs_kts, MAX_LOW_ALT_SPEED_KTS);
    stage("FIN15"@, a, b, 15, leg_nm, least(gs, MAX_LOW_ALT_SPEED_KTS)) + stage(
        "FIN10"@,
        a,
        b,
        10,
        leg_nm,
        least(SECOND_STAGE_KTS, gs),
    ) + stage(
        "FIN04"@,
        a,
        b,
        4,
        leg_nm,
        least((vref_kts + THIRD_STAGE_MARGIN_KTS) as i64, gs),
    )
}

/// Waypoints with the speed profile of the arrival: slower by stages on the last
/// leg, down to VREF at the destination.
pub open spec fn arrived(ws: Seq<WaypointView>, vref_kts: Option<i64>, leg_nm: int) -> Seq<
    WaypointView,
> {
    match vref_kts {
        Some(vref) if ws.len() >= 2 => {
            let (a, b) = (ws[ws.len() - 2], ws[ws.len() - 1]);
            ws.drop_last() + stages(a, b, vref, leg_nm) + seq![landing_point(b, vref)]
        },
        _ => ws,
    }
}

/// Waypoints with the speed profiles of departure and arrival; the last leg is
/// the one after the departure's point is added.
pub open spec fn profiled(
    ws: Seq<WaypointView>,
    v2_kts: Option<i64>,
    vref_kts: Option<i64>,
    departure_nm: int,
    final_nm: int,
) -> Seq<WaypointView> {
    arrived(departed(ws, v2_kts, departure_nm), vref_kts, final_nm)
}

/// Whether all values of all waypoints are within the bounds of their units.
pub open spec fn all_in_bounds(ws: Seq<WaypointView>) -> bool {
    forall|i: int| 0 <= i < ws.len() ==> in_bounds(#[trigger] ws[i])
}

pub open spec fn is_speed(v: Option<i64>) -> bool {
    v matches Some(x) ==> is_reading(x as int)
}

fn value_or(v: Option<i64>, d: i64) -> (r: i64)
    ensures
        r == or_else(v, d),
{
    match v {
        Some(x) => x,
        None => d,
    }
}

fn min_of(a: i64, b: i64) -> (r: i64)
    ensures
        r == least(a, b),
{
    if a <= b {
        a
    } else {
        b
    }
}

/// A point added to the leg from `a` to `b`.
fn added_point(
    ident: &str,
    a: &Waypoint,
    b: &Waypoint,
    num: i64,
    den: i64,
    altitude_ft: i64,
    gs_kts: i64,
) -> (r: Waypoint)
    requires
        0 <= num <= den,
        0 < den,
        in_bounds(a@),
        in_bounds(b@),
        is_reading(altitude_ft as int),
        is_reading(gs_kts as int),
    ensures
        r@ == profile_point(
            ident@,
            a@,
            b@,
            num as int,
            den as int,
            altitude_ft as int,
            gs_kts,
        ),
        in_bounds(r@),
{
    let w = Waypoint {
        ident: string_of(chars_of(ident).as_slice()),
        lat: a.lat + scale(b.lat - a.lat, num as u64, den as u64),
        lon: a.lon + scale(b.lon - a.lon, num as u64, den as u64),
        altitude_ft: Some(altitude_ft),
        tas_kts: None,
        gs_kts: Some(gs_kts),
        wind_comp_kts: None,
        cum_time_min: None,
    };
    proof {
        assert(w@ =~= profile_point(
            ident@,
            a@,
            b@,
            num as int,
            den as int,
            altitude_ft as int,
            gs_kts,
        ));
    }
    w
}

/// Speed profile of the departure: lift off at V2 and accelerate towards the
/// low-altitude limit over the first miles, instead of having the climb speed of
/// the first waypoint on the runway. `leg_nm` is the length of the first leg.
pub fn apply_departure_profile(waypoints: &mut Vec<Waypoint>, v2_kts: Option<i64>, leg_nm: i64)
    requires
        all_in_bounds(waypoint_views(old(waypoints)@)),
        is_speed(v2_kts),
    ensures
        waypoint_views(final(waypoints)@) == departed(
            waypoint_views(old(waypoints)@),
            v2_kts,
            leg_nm as int,
        ),
        all_in_bounds(waypoint_views(final(waypoints)@)),
{
    let ghost ws = waypoint_views(waypoints@);
    let v2 = match v2_kts {
        Some(v) => v,
        None => {
            return ;
        },
    };
    if waypoints.len() < 2 {
        return ;
    }
    let dep = waypoints[0].clone();
    let next = waypoints[1].clone();
    proof {
        assert(dep@ == ws[0]);
        assert(next@ == ws[1]);
        assert(in_bounds(ws[0]) && in_bounds(ws[1]));
    }
    waypoints[0].gs_kts = Some(v2);
    proof {
        assert(waypoint_views(waypoints@) =~= ws.update(0, with_speed(ws[0], v2)));
    }
    if leg_nm <= DEPARTURE_MIN_LEG_NM {
        return ;
    }
    let w = added_point(
        "CLIMB",
        &dep,
        &next,
        DEPARTURE_ACCEL_DIST_NM,
        leg_nm,
        scale(value_or(next.altitude_ft, 0), DEPARTURE_ACCEL_DIST_NM as u64, leg_nm as u64),
        min_of(value_or(next.gs_kts, MAX_LOW_ALT_SPEED_KTS), MAX_LOW_ALT_SPEED_KTS),
    );
    let ghost before_insert = waypoints@;
    waypoints.insert(1, w);
    proof {
        assert(waypoint_views(waypoints@) =~= waypoint_views(before_insert).insert(1, w@));
        assert forall|i: int| 0 <= i < waypoints@.len() implies in_bounds(
            #[trigger] waypoint_views(waypoints@)[i],
        ) by {
            if i >= 2 {
                assert(waypoint_views(waypoints@)[i] == ws[i - 1]);
            }
        }
    }
}

/// Add the stage `dist_nm` miles out, if the leg has room for it.
fn push_stage(
    waypoints: &mut Vec<Waypoint>,
    ident: &str,
    a: &Waypoint,
    b: &Waypoint,
    dist_nm: i64,
    leg_nm: i64,
    gs_kts: i64,
)
    requires
        0 < dist_nm <= 15,
        in_bounds(a@),
        in_bounds(b@),
        is_reading(gs_kts as int),
        all_in_bounds(waypoint_views(old(waypoints)@)),
    ensures
        waypoint_views(final(waypoints)@) == waypoint_views(old(waypoints)@) + stage(
            ident@,
            a@,
            b@,
            dist_nm as int,
            leg_nm as int,
            gs_kts,
        ),
        all_in_bounds(waypoint_views(final(waypoints)@)),
{
    let ghost ws = waypoint_views(waypoints@);
    let out: i64 = dist_nm * NANO;
    if 10 * (out as i128) >= 9 * (leg_nm as i128) {
        proof {
            assert(ws + Seq::<WaypointView>::empty() =~= ws);
        }
        return ;
    }
    let linear: i64 = scale(value_or(a.altitude_ft, 0), out as u64, leg_nm as u64);
    let glide: i64 = dist_nm * APPROACH_GLIDE_FT_PER_NM;
    let w = added_point(ident, a, b, leg_nm - out, leg_nm, min_of(linear, glide), gs_kts);
    let ghost before_push = waypoints@;
    waypoints.push(w);
    proof {
        assert(waypoint_views(waypoints@) =~= ws + seq![w@]);
        assert forall|i: int| 0 <= i < waypoints@.len() implies in_bounds(
            #[trigger] waypoint_views(waypoints@)[i],
        ) by {
            if i < ws.len() {
                assert(waypoint_views(waypoints@)[i] == ws[i]);
            }
        }
    }
}

/// Speed profile of the arrival: decelerate on the last leg down to VREF at the
/// destination, no higher near the runway than a glide of about three degrees.
/// `leg_nm` is the length of the last leg.
pub fn apply_arrival_profile(waypoints: &mut Vec<Waypoint>, vref_kts: Option<i64>, leg_nm: i64)
    requires
        all_in_bounds(waypoint_views(old(waypoints)@)),
        vref_kts matches Some(v) ==> is_reading(v as int) && is_reading(
            v + THIRD_STAGE_MARGIN_KTS,
        ),
    ensures
        waypoint_views(final(waypoints)@) == arrived(
            waypoint_views(old(waypoints)@),
            vref_kts,
            leg_nm as int,
        ),
        all_in_bounds(waypoint_views(final(waypoints)@)),
{
    let ghost ws = waypoint_views(waypoints@);
    let vref = match vref_kts {
        Some(v) => v,
        None => {
            return ;
        },
    };
    let n: usize = waypoints.len();
    if n < 2 {
        return ;
    }
    let prev = waypoints[n - 2].clone();
    let mut dest = waypoints[n - 1].clone();
    let ghost (a, b) = (ws[n - 2], ws[n - 1]);
    proof {
        assert(prev@ == a && dest@ == b);
        assert(in_bounds(a) && in_bounds(b));
    }
    let _ = waypoints.pop();
    proof {
        assert(waypoint_views(waypoints@) =~= ws.drop_last());
        assert forall|i: int| 0 <= i < waypoints@.len() implies in_bounds(
            #[trigger] waypoint_views(waypoints@)[i],
        ) by {
            assert(waypoint_views(waypoints@)[i] == ws[i]);
        }
    }
    let gs: i64 = value_or(prev.gs_kts, MAX_LOW_ALT_SPEED_KTS);
    push_stage(waypoints, "FIN15", &prev, &dest, 15, leg_nm, min_of(gs, MAX_LOW_ALT_SPEED_KTS));
    push_stage(waypoints, "FIN10", &prev, &dest, 10, leg_nm, min_of(SECOND_STAGE_KTS, gs));
    push_stage(
        waypoints,
        "FIN04",
        &prev,
        &dest,
        4,
        leg_nm,
        min_of(vref + THIRD_STAGE_MARGIN_KTS, gs),
    );
    let ghost before_push = waypoints@;
    dest.gs_kts = Some(vref);
    dest.altitude_ft = Some(value_or(dest.altitude_ft, 0));
    proof {
        assert(dest@ =~= landing_point(b, vref));
    }
    waypoints.push(dest);
    proof {
        assert(waypoint_views(waypoints@) =~= waypoint_views(before_push) + seq![dest@]);
        assert(waypoint_views(waypoints@) =~= arrived(ws, vref_kts, leg_nm as int));
        assert forall|i: int| 0 <= i < waypoints@.len() implies in_bounds(
            #[trigger] waypoint_views(waypoints@)[i],
        ) by {
            if i < before_push.len() {
                assert(waypoint_views(waypoints@)[i] == waypoint_views(before_push)[i]);
            }
        }
    }
}

pub open spec fn ground_speeds(ws: Seq<WaypointView>) -> Seq<Option<i64>> {
    Seq::new(ws.len(), |i: int| ws[i].gs_kts)
}

/// The altitudes of some waypoints. The airports at the ends of a route carry no
/// flight level in the log, and count as on the surface.
pub open spec fn altitudes(ws: Seq<WaypointView>) -> Seq<Option<i64>> {
    Seq::new(
        ws.len(),
        |i: int|
            if ws[i].altitude_ft is None && (i == 0 || i == ws.len() - 1) {
                Some(0i64)
            } else {
                ws[i].altitude_ft
            },
    )
}

/// The ground speed at a waypoint, gaps filled.
pub open spec fn speed_at(ws: Seq<WaypointView>, i: int) -> i64 {
    or_else(filled(ground_speeds(ws), i), 0)
}

/// The altitude at a waypoint, gaps filled.
pub open spec fn altitude_at(ws: Seq<WaypointView>, i: int) -> i64 {
    or_else(filled(altitudes(ws), i), 0)
}

/// Microseconds for a leg, at the average of the speeds at its ends; none where
/// that is not positive.
pub open spec fn leg_time(distance_nm: int, gs_a: int, gs_b: int) -> int {
    if gs_a + gs_b > 0 {
        distance_nm * 7_200_000 / (gs_a + gs_b)
    } else {
        0
    }
}

/// Microseconds from departure to a waypoint.
pub open spec fn time_at(ws: Seq<WaypointView>, legs: Seq<Leg>, i: int) -> int
    decreases i,
{
    if i <= 0 {
        0
    } else {
        at_most(
            time_at(ws, legs, i - 1) + leg_time(
                legs[i - 1].distance_nm as int,
                speed_at(ws, i - 1) as int,
                speed_at(ws, i) as int,
            ),
            u64::MAX as int,
        )
    }
}

/// The bearing towards the next waypoint; the last one keeps that of the leg
/// that leads to it.
pub open spec fn track_at(legs: Seq<Leg>, i: int) -> i64 {
    if i < legs.len() {
        legs[i].bearing_deg
    } else {
        legs.last().bearing_deg
    }
}

/// The airspeed at a waypoint. The log prints it on cruise rows only; elsewhere
/// it is taken as the ground speed less the wind component, none without one.
pub open spec fn airspeed_at(ws: Seq<WaypointView>, i: int) -> int {
    match ws[i].tas_kts {
        Some(v) => v as int,
        None => speed_at(ws, i) - or_else(ws[i].wind_comp_kts, 0),
    }
}

pub open spec fn plan_point(ws: Seq<WaypointView>, legs: Seq<Leg>, i: int) -> PlanPointView {
    PlanPointView {
        ident: ws[i].ident,
        lat: ws[i].lat,
        lon: ws[i].lon,
        altitude_ft: altitude_at(ws, i),
        gs_kts: speed_at(ws, i),
        tas_kts: airspeed_at(ws, i) as i64,
        time_s: time_at(ws, legs, i) as u64,
        track_deg: track_at(legs, i),
    }
}

/// The points of the plan along some waypoints and the legs between them.
pub open spec fn plan_points(ws: Seq<WaypointView>, legs: Seq<Leg>) -> Seq<PlanPointView> {
    Seq::new(ws.len(), |i: int| plan_point(ws, legs, i))
}

/// Whether the values of a point are within the bounds of their units.
pub open spec fn point_in_bounds(p: PlanPointView) -> bool {
    &&& -90 * 60 * NANO <= p.lat <= 90 * 60 * NANO
    &&& -180 * 60 * NANO <= p.lon <= 180 * 60 * NANO
    &&& is_reading(p.altitude_ft as int)
    &&& is_reading(p.gs_kts as int)
    &&& -2 * READING_LIMIT <= p.tas_kts <= 2 * READING_LIMIT
    &&& 0 <= p.track_deg < FULL_TURN
}

/// Whether points make a plan: two at the least, with values in bounds, on a
/// timeline that starts at zero and never goes back.
pub open spec fn is_plan(points: Seq<PlanPointView>) -> bool {
    &&& points.len() >= 2
    &&& points[0].time_s == 0
    &&& forall|i: int| 0 <= i < points.len() ==> point_in_bounds(#[trigger] points[i])
    &&& forall|i: int, j: int|
        0 <= i <= j < points.len() ==> (#[trigger] points[i]).time_s <= (#[trigger] points[j]).time_s
}

pub open spec fn legs_wf(legs: Seq<Leg>) -> bool {
    forall|i: int| 0 <= i < legs.len() ==> (#[trigger] legs[i]).wf()
}

/// The summed length of the first `n` legs.
pub open spec fn distance_of(legs: Seq<Leg>, n: int) -> int
    decreases n,
{
    if n <= 0 {
        0
    } else {
        distance_of(legs, n - 1) + legs[n - 1].distance_nm
    }
}

proof fn lemma_leg_time(d: int, a: int, b: int)
    requires
        0 <= d,
    ensures
        leg_time(d, a, b) >= 0,
        a + b > 0 ==> leg_time(d, a, b) <= d * 7_200_000,
{
    if a + b > 0 {
        let n = d * 7_200_000;
        let m = a + b;
        assert(0 <= n / m <= n) by (nonlinear_arith)
            requires
                0 <= n,
                0 < m,
        ;
    }
}

/// Times of waypoints grow along a route.
pub proof fn lemma_time_grows(ws: Seq<WaypointView>, legs: Seq<Leg>, i: int, j: int)
    requires
        0 <= i <= j,
        j <= legs.len(),
        legs_wf(legs),
    ensures
        0 <= time_at(ws, legs, i) <= time_at(ws, legs, j) <= u64::MAX,
    decreases j,
{
    if i < j {
        lemma_time_grows(ws, legs, i, j - 1);
        assert(legs[j - 1].wf());
        lemma_leg_time(
            legs[j - 1].distance_nm as int,
            speed_at(ws, j - 1) as int,
            speed_at(ws, j) as int,
        );
    } else if j > 0 {
        lemma_time_grows(ws, legs, j - 1, j - 1);
        assert(legs[j - 1].wf());
        lemma_leg_time(
            legs[j - 1].distance_nm as int,
            speed_at(ws, j - 1) as int,
            speed_at(ws, j) as int,
        );
    }
}

/// Resolved values are within the bounds of their units.
pub proof fn lemma_resolved(ws: Seq<WaypointView>, i: int)
    requires
        all_in_bounds(ws),
        0 <= i < ws.len(),
    ensures
        is_reading(speed_at(ws, i) as int),
        is_reading(altitude_at(ws, i) as int),
        -2 * READING_LIMIT <= airspeed_at(ws, i) <= 2 * READING_LIMIT,
{
    let gs = ground_speeds(ws);
    let alt = altitudes(ws);
    filling_keeps_values(gs, i);
    filling_keeps_values(alt, i);
    assert(in_bounds(ws[i]));
    if filled(gs, i) is Some {
        let k = choose|k: int| 0 <= k < gs.len() && #[trigger] gs[k] == filled(gs, i);
        assert(in_bounds(ws[k]));
    }
    if filled(alt, i) is Some {
        let k = choose|k: int| 0 <= k < alt.len() && #[trigger] alt[k] == filled(alt, i);
        assert(in_bounds(ws[k]));
    }
}

/// The points along any waypoints and legs make a plan.
pub proof fn plan_points_are_plan(ws: Seq<WaypointView>, legs: Seq<Leg>)
    requires
        ws.len() >= 2,
        legs.len() + 1 == ws.len(),
        all_in_bounds(ws),
        legs_wf(legs),
    ensures
        is_plan(plan_points(ws, legs)),
{
    let ps = plan_points(ws, legs);
    assert forall|i: int| 0 <= i < ps.len() implies point_in_bounds(#[trigger] ps[i]) by {
        lemma_resolved(ws, i);
        assert(in_bounds(ws[i]));
        if i < legs.len() {
            assert(legs[i].wf());
        } else {
            assert(legs[legs.len() - 1].wf());
        }
    }
    assert forall|i: int, j: int| 0 <= i <= j < ps.len() implies (#[trigger] ps[i]).time_s <= (
    #[trigger] ps[j]).time_s by {
        lemma_time_grows(ws, legs, i, j);
    }
}

/// Microseconds for a leg.
fn time_of_leg(distance_nm: i64, gs_a: i64, gs_b: i64) -> (r: u128)
    requires
        distance_nm >= 0,
    ensures
        r == leg_time(distance_nm as int, gs_a as int, gs_b as int),
{
    let sum: i128 = gs_a as i128 + gs_b as i128;
    if sum > 0 {
        proof {
            lemma_leg_time(distance_nm as int, gs_a as int, gs_b as int);
        }
        (distance_nm as u128 * 7_200_000) / (sum as u128)
    } else {
        0
    }
}

impl View for FlightPlan {
    type V = Seq<PlanPointView>;

    closed spec fn view(&self) -> Seq<PlanPointView> {
        point_views(self.points@)
    }
}

impl FlightPlan {
    /// The legs between the points.
    pub closed spec fn legs(&self) -> Seq<Leg> {
        self.legs@
    }

    pub open spec fn wf(&self) -> bool {
        is_plan(self@) && self.legs().len() + 1 == self@.len() && legs_wf(self.legs())
    }

    /// Build a plan along some waypoints; `legs` are the great circles from each
    /// to the next.
    pub fn from_waypoints(waypoints: Vec<Waypoint>, legs: Vec<Leg>) -> (r: Result<Self, PlanError>)
        requires
            all_in_bounds(waypoint_views(waypoints@)),
            legs_wf(legs@),
            waypoints@.len() >= 2 ==> legs@.len() + 1 == waypoints@.len(),
        ensures
            ({
                let ws = waypoint_views(waypoints@);
                let silent = forall|i: int| 0 <= i < ws.len() ==> (#[trigger] ws[i]).gs_kts is None;
                match r {
                    Ok(plan) => ws.len() >= 2 && !silent && plan@ == plan_points(ws, legs@)
                        && plan.legs() == legs@ && plan.wf(),
                    Err(PlanError::TooFewWaypoints { count }) => count == ws.len() && count < 2,
                    Err(PlanError::NoGroundSpeeds) => ws.len() >= 2 && silent,
                }
            }),
    {
        let n: usize = waypoints.len();
        if n < 2 {
            return Err(PlanError::TooFewWaypoints { count: n });
        }
        let ghost ws = waypoint_views(waypoints@);
        let gs = speeds_of(&waypoints);
        let alt = altitudes_of(&waypoints);
        proof {
            filling_keeps_values(ground_speeds(ws), 0);
            assert(forall|k: int| 0 <= k < n ==> (#[trigger] ground_speeds(ws)[k]) == ws[k].gs_kts);
            assert(gs@[0] == filled(ground_speeds(ws), 0));
        }
        if gs[0].is_none() {
            proof {
                assert forall|i: int| 0 <= i < ws.len() implies (#[trigger] ws[i]).gs_kts is None by {
                    assert(ground_speeds(ws)[i] is None);
                }
            }
            return Err(PlanError::NoGroundSpeeds);
        }
        proof {
            plan_points_are_plan(ws, legs@);
            let k = choose|k: int|
                0 <= k < ws.len() && #[trigger] ground_speeds(ws)[k] == filled(ground_speeds(ws), 0);
            assert(ws[k].gs_kts is Some);
        }
        let mut points: Vec<PlanPoint> = Vec::new();
        let mut time_s: u64 = 0;
        let mut i: usize = 0;
        while i < n
            invariant
                n == waypoints@.len(),
                n >= 2,
                ws == waypoint_views(waypoints@),
                all_in_bounds(ws),
                legs_wf(legs@),
                legs@.len() + 1 == n,
                gs@ == Seq::new(n as nat, |k: int| filled(ground_speeds(ws), k)),
                alt@ == Seq::new(n as nat, |k: int| filled(altitudes(ws), k)),
                i <= n,
                points@.len() == i,
                i > 0 ==> time_s == time_at(ws, legs@, i - 1),
                i == 0 ==> time_s == 0,
                forall|k: int| 0 <= k < i ==> (#[trigger] points@[k])@ == plan_point(ws, legs@, k),
            decreases n - i,
        {
            let w: &Waypoint = &waypoints[i];
            let gs_kts: i64 = value_or(gs[i], 0);
            let altitude_ft: i64 = value_or(alt[i], 0);
            proof {
                lemma_resolved(ws, i as int);
                assert(in_bounds(ws[i as int]));
            }
            if i > 0 {
                let before: i64 = value_or(gs[i - 1], 0);
                proof {
                    assert(legs@[i - 1].wf());
                    lemma_time_grows(ws, legs@, i as int, i as int);
                }
                let step: u128 = time_of_leg(legs[i - 1].distance_nm, before, gs_kts);
                proof {
                    lemma_leg_time(
                        legs@[i - 1].distance_nm as int,
                        before as int,
                        gs_kts as int,
                    );
                }
                let total: u128 = time_s as u128 + step;
                time_s = if total > u64::MAX as u128 {
                    u64::MAX
                } else {
                    total as u64
                };
            }
            let track_deg: i64 = if i + 1 < n {
                legs[i].bearing_deg
            } else {
                legs[n - 2].bearing_deg
            };
            let p = PlanPoint {
                ident: w.ident.clone(),
                lat: w.lat,
                lon: w.lon,
                altitude_ft,
                gs_kts,
                tas_kts: match w.tas_kts {
                    Some(v) => v,
                    None => gs_kts - value_or(w.wind_comp_kts, 0),
                },
                time_s,
                track_deg,
            };
            proof {
                assert(p@ =~= plan_point(ws, legs@, i as int));
            }
            points.push(p);
            i += 1;
        }
        let plan = FlightPlan { points, legs };
        proof {
            assert(plan@ =~= plan_points(ws, legs@));
        }
        Ok(plan)
    }
}

impl FlightPlan {
    /// Build a plan from a briefing, with the speed profiles of departure and
    /// arrival where it gives V2 and VREF. Geometry is never altered: added
    /// points lie on the existing legs. `departure_nm` is the length of the first
    /// leg, `final_nm` that of the last leg once the departure's point is added,
    /// `legs` are the great circles between the points that result.
    pub fn from_briefing(
        briefing: &LidoBriefing,
        departure_nm: i64,
        final_nm: i64,
        legs: Vec<Leg>,
    ) -> (r: Result<Self, PlanError>)
        requires
            all_in_bounds(briefing@.waypoints),
            is_speed(briefing.v2_kts),
            briefing.vref_kts matches Some(v) ==> is_reading(v as int) && is_reading(
                v + THIRD_STAGE_MARGIN_KTS,
            ),
            legs_wf(legs@),
            briefing@.waypoints.len() >= 2 ==> legs@.len() + 1 == briefing_route(
                briefing@,
                departure_nm as int,
                final_nm as int,
            ).len(),
        ensures
            ({
                let ws = briefing_route(briefing@, departure_nm as int, final_nm as int);
                let silent = forall|i: int| 0 <= i < ws.len() ==> (#[trigger] ws[i]).gs_kts is None;
                match r {
                    Ok(plan) => ws.len() >= 2 && !silent && plan@ == plan_points(ws, legs@)
                        && plan.legs() == legs@ && plan.wf(),
                    Err(PlanError::TooFewWaypoints { count }) => count == ws.len() && count < 2,
                    Err(PlanError::NoGroundSpeeds) => ws.len() >= 2 && silent,
                }
            }),
    {
        proof {
            lemma_profiled_len(
                briefing@.waypoints,
                briefing.v2_kts,
                briefing.vref_kts,
                departure_nm as int,
                final_nm as int,
            );
        }
        let waypoints = profiled_waypoints(briefing, departure_nm, final_nm);
        FlightPlan::from_waypoints(waypoints, legs)
    }

    pub fn points(&self) -> (r: &[PlanPoint])
        ensures
            point_views(r@) == self@,
    {
        self.points.as_slice()
    }

    /// Microseconds from departure to the last point.
    pub fn total_duration_s(&self) -> (r: u64)
        requires
            self.wf(),
        ensures
            r == self@.last().time_s,
    {
        self.points[self.points.len() - 1].time_s
    }

    /// Length of the route, billionths of a nautical mile.
    pub fn total_distance_nm(&self) -> (r: u128)
        requires
            self.wf(),
        ensures
            r == distance_of(self.legs(), self.legs().len() as int),
    {
        let mut sum: u128 = 0;
        let mut i: usize = 0;
        while i < self.legs.len()
            invariant
                self.wf(),
                i <= self.legs@.len(),
                sum == distance_of(self.legs(), i as int),
                sum <= i * SPAN_LIMIT,
            decreases self.legs@.len() - i,
        {
            proof {
                assert(self.legs()[i as int].wf());
                assert((i + 1) * SPAN_LIMIT == i * SPAN_LIMIT + SPAN_LIMIT);
                assert(i <= usize::MAX);
            }
            sum = sum + self.legs[i].distance_nm as u128;
            i += 1;
        }
        sum
    }
}

/// The waypoints of a briefing with its speed profiles.
pub open spec fn briefing_route(
    b: LidoBriefingView,
    departure_nm: int,
    final_nm: int,
) -> Seq<WaypointView> {
    profiled(b.waypoints, b.v2_kts, b.vref_kts, departure_nm, final_nm)
}

/// The waypoints of a briefing with its speed profiles.
pub fn profiled_waypoints(briefing: &LidoBriefing, departure_nm: i64, final_nm: i64) -> (r: Vec<
    Waypoint,
>)
    requires
        all_in_bounds(briefing@.waypoints),
        is_speed(briefing.v2_kts),
        briefing.vref_kts matches Some(v) ==> is_reading(v as int) && is_reading(
            v + THIRD_STAGE_MARGIN_KTS,
        ),
    ensures
        waypoint_views(r@) == briefing_route(briefing@, departure_nm as int, final_nm as int),
        all_in_bounds(waypoint_views(r@)),
{
    let mut waypoints = copied(&briefing.waypoints);
    apply_departure_profile(&mut waypoints, briefing.v2_kts, departure_nm);
    apply_arrival_profile(&mut waypoints, briefing.vref_kts, final_nm);
    waypoints
}

fn copied(waypoints: &Vec<Waypoint>) -> (r: Vec<Waypoint>)
    ensures
        waypoint_views(r@) == waypoint_views(waypoints@),
{
    let mut out: Vec<Waypoint> = Vec::new();
    let mut i: usize = 0;
    while i < waypoints.len()
        invariant
            i <= waypoints@.len(),
            out@.len() == i,
            forall|k: int| 0 <= k < i ==> (#[trigger] out@[k])@ == waypoints@[k]@,
        decreases waypoints@.len() - i,
    {
        out.push(waypoints[i].clone());
        i += 1;
    }
    proof {
        assert(waypoint_views(out@) =~= waypoint_views(waypoints@));
    }
    out
}

proof fn lemma_profiled_len(
    ws: Seq<WaypointView>,
    v2_kts: Option<i64>,
    vref_kts: Option<i64>,
    departure_nm: int,
    final_nm: int,
)
    ensures
        profiled(ws, v2_kts, vref_kts, departure_nm, final_nm).len() >= ws.len(),
        ws.len() < 2 ==> profiled(ws, v2_kts, vref_kts, departure_nm, final_nm) == ws,
{
}

fn speeds_of(waypoints: &Vec<Waypoint>) -> (r: Vec<Option<i64>>)
    ensures
        ({
            let ws = waypoint_views(waypoints@);
            r@ == Seq::new(ws.len(), |i: int| filled(ground_speeds(ws), i))
        }),
{
    let ghost ws = waypoint_views(waypoints@);
    let mut out: Vec<Option<i64>> = Vec::new();
    let mut i: usize = 0;
    while i < waypoints.len()
        invariant
            ws == waypoint_views(waypoints@),
            i <= waypoints@.len(),
            out@.len() == i,
            forall|k: int| 0 <= k < i ==> out@[k] == ws[k].gs_kts,
        decreases waypoints@.len() - i,
    {
        out.push(waypoints[i].gs_kts);
        i += 1;
    }
    proof {
        assert(out@ =~= ground_speeds(ws));
    }
    fill_gaps(&mut out);
    out
}

fn altitudes_of(waypoints: &Vec<Waypoint>) -> (r: Vec<Option<i64>>)
    ensures
        ({
            let ws = waypoint_views(waypoints@);
            r@ == Seq::new(ws.len(), |i: int| filled(altitudes(ws), i))
        }),
{
    let ghost ws = waypoint_views(waypoints@);
    let mut out: Vec<Option<i64>> = Vec::new();
    let mut i: usize = 0;
    while i < waypoints.len()
        invariant
            ws == waypoint_views(waypoints@),
            i <= waypoints@.len(),
            out@.len() == i,
            forall|k: int| 0 <= k < i ==> out@[k] == altitudes(ws)[k],
        decreases waypoints@.len() - i,
    {
        let a: Option<i64> = waypoints[i].altitude_ft;
        if a.is_none() && (i == 0 || i == waypoints.len() - 1) {
            out.push(Some(0));
        } else {
            out.push(a);
        }
        i += 1;
    }
    proof {
        assert(out@ =~= altitudes(ws));
    }
    fill_gaps(&mut out);
    out
}

/// Whether a waypoint lies between `a` and `b`, strictly and the same part of the
/// way in latitude and in longitude.
pub open spec fn on_leg(p: WaypointView, a: WaypointView, b: WaypointView) -> bool {
    exists|num: int, den: int|
        0 < num < den && p.lat == #[trigger] along(a.lat as int, b.lat as int, num, den) && p.lon
            == along(a.lon as int, b.lon as int, num, den)
}

/// Whether a coordinate is the part `num` over `den` of the way from one waypoint
/// to another, but for less than two units of rounding.
pub open spec fn part_way(at: int, from: int, to: int, num: int, den: int) -> bool {
    -2 * den < (at - from) * den - (to - from) * num < 2 * den
}

/// Whether a position lies between `a` and `b`, strictly and the same part of the
/// way in latitude and in longitude, but for less than two billionths of a minute
/// of arc of rounding.
pub open spec fn beside_leg(lat: i64, lon: i64, a: WaypointView, b: WaypointView) -> bool {
    exists|num: int, den: int|
        0 < num < den && #[trigger] part_way(lat as int, a.lat as int, b.lat as int, num, den)
            && part_way(lon as int, a.lon as int, b.lon as int, num, den)
}

/// Whether two waypoints are the same place.
pub open spec fn same_place(p: WaypointView, q: WaypointView) -> bool {
    p.ident == q.ident && p.lat == q.lat && p.lon == q.lon
}

proof fn lemma_on_leg(p: WaypointView, a: WaypointView, b: WaypointView, num: int, den: int)
    requires
        in_bounds(a),
        in_bounds(b),
        0 < num < den,
        p.lat == along(a.lat as int, b.lat as int, num, den) as i64,
        p.lon == along(a.lon as int, b.lon as int, num, den) as i64,
    ensures
        on_leg(p, a, b),
{
    lemma_scaled(b.lat - a.lat, num, den);
    lemma_scaled(b.lon - a.lon, num, den);
    assert(p.lat == along(a.lat as int, b.lat as int, num, den));
}

/// The departure profile keeps the route: every waypoint stays where it is, all
/// but the first unchanged, and a point that is added lies on the first leg.
pub proof fn departure_keeps_route(ws: Seq<WaypointView>, v2_kts: Option<i64>, leg_nm: int)
    requires
        all_in_bounds(ws),
        ws.len() >= 2,
    ensures
        ({
            let out = departed(ws, v2_kts, leg_nm);
            let added = if v2_kts is Some && leg_nm > DEPARTURE_MIN_LEG_NM {
                1int
            } else {
                0int
            };
            &&& out.len() == ws.len() + added
            &&& same_place(out[0], ws[0])
            &&& forall|i: int| 1 <= i < ws.len() ==> out[i + added] == #[trigger] ws[i]
            &&& added == 1 ==> on_leg(out[1], ws[0], ws[1])
        }),
{
    assert(in_bounds(ws[0]) && in_bounds(ws[1]));
    if v2_kts is Some && leg_nm > DEPARTURE_MIN_LEG_NM {
        let out = departed(ws, v2_kts, leg_nm);
        lemma_on_leg(out[1], ws[0], ws[1], DEPARTURE_ACCEL_DIST_NM as int, leg_nm);
    }
}

/// The arrival profile keeps the route: every waypoint stays where it is, all but
/// the last unchanged, and the points that are added lie on the last leg, before
/// the destination.
pub proof fn arrival_keeps_route(ws: Seq<WaypointView>, vref_kts: Option<i64>, leg_nm: int)
    requires
        all_in_bounds(ws),
        ws.len() >= 2,
    ensures
        ({
            let out = arrived(ws, vref_kts, leg_nm);
            &&& ws.len() <= out.len() <= ws.len() + 3
            &&& forall|i: int| 0 <= i < ws.len() - 1 ==> out[i] == #[trigger] ws[i]
            &&& forall|i: int|
                ws.len() - 1 <= i < out.len() - 1 ==> on_leg(
                    #[trigger] out[i],
                    ws[ws.len() - 2],
                    ws.last(),
                )
            &&& same_place(out.last(), ws.last())
        }),
{
    let n = ws.len();
    let (a, b) = (ws[n - 2], ws[n - 1]);
    assert(in_bounds(a) && in_bounds(b));
    if let Some(vref) = vref_kts {
        let out = arrived(ws, vref_kts, leg_nm);
        let added = stages(a, b, vref, leg_nm);
        assert(out =~= ws.drop_last() + added + seq![landing_point(b, vref)]);
        assert forall|i: int| n - 1 <= i < out.len() - 1 implies on_leg(#[trigger] out[i], a, b) by {
            let p = added[i - (n - 1)];
            assert(out[i] == p);
            lemma_stage_on_leg(a, b, vref, leg_nm, i - (n - 1));
        }
    }
}

proof fn lemma_stage_on_leg(a: WaypointView, b: WaypointView, vref: i64, leg_nm: int, i: int)
    requires
        in_bounds(a),
        in_bounds(b),
        0 <= i < stages(a, b, vref, leg_nm).len(),
    ensures
        on_leg(stages(a, b, vref, leg_nm)[i], a, b),
{
    let p = stages(a, b, vref, leg_nm)[i];
    if has_stage(15, leg_nm) {
        lemma_on_leg(stages(a, b, vref, leg_nm)[0], a, b, leg_nm - 15 * NANO, leg_nm);
        lemma_on_leg(stages(a, b, vref, leg_nm)[1], a, b, leg_nm - 10 * NANO, leg_nm);
        lemma_on_leg(stages(a, b, vref, leg_nm)[2], a, b, leg_nm - 4 * NANO, leg_nm);
    } else if has_stage(10, leg_nm) {
        lemma_on_leg(stages(a, b, vref, leg_nm)[0], a, b, leg_nm - 10 * NANO, leg_nm);
        lemma_on_leg(stages(a, b, vref, leg_nm)[1], a, b, leg_nm - 4 * NANO, leg_nm);
    } else {
        lemma_on_leg(stages(a, b, vref, leg_nm)[0], a, b, leg_nm - 4 * NANO, leg_nm);
    }
}

proof fn lemma_departed_in_bounds(ws: Seq<WaypointView>, v2_kts: Option<i64>, leg_nm: int)
    requires
        all_in_bounds(ws),
        is_speed(v2_kts),
    ensures
        all_in_bounds(departed(ws, v2_kts, leg_nm)),
{
    let out = departed(ws, v2_kts, leg_nm);
    assert forall|i: int| 0 <= i < out.len() implies in_bounds(#[trigger] out[i]) by {
        if v2_kts is Some && ws.len() >= 2 {
            let (a, b) = (ws[0], ws[1]);
            assert(in_bounds(a) && in_bounds(b));
            if leg_nm > DEPARTURE_MIN_LEG_NM {
                let num = DEPARTURE_ACCEL_DIST_NM as int;
                lemma_scaled(b.lat - a.lat, num, leg_nm);
                lemma_scaled(b.lon - a.lon, num, leg_nm);
                lemma_scaled(or_else(b.altitude_ft, 0) as int, num, leg_nm);
                if i > 1 {
                    assert(out[i] == ws[i - 1]);
                }
            } else if i > 0 {
                assert(out[i] == ws[i]);
            }
        }
    }
}

/// What rounding takes off a part of the way is less than a unit.
proof fn lemma_scaled_rest(d: int, num: int, den: int)
    requires
        0 <= num <= den,
        0 < den,
    ensures
        -den < d * num - scaled(d, num, den) * den < den,
{
    let m = if d >= 0 {
        d
    } else {
        -d
    };
    let n = m * num;
    assert(n / den * den + n % den == n && 0 <= n % den < den) by (nonlinear_arith)
        requires
            0 < den,
    ;
    if d < 0 {
        let q = n / den;
        assert(d * num == -n) by (nonlinear_arith)
            requires
                n == m * num,
                m == -d,
        ;
        assert(-q * den == -(q * den)) by (nonlinear_arith);
    }
}

/// A part of the way from a part of the way is a part of the whole way.
proof fn lemma_part_of_part(from: int, to: int, fnum: int, fden: int, gnum: int, gden: int)
    requires
        0 < fnum < fden,
        0 < gnum < gden,
    ensures
        ({
            let (num, den) = (fnum * gden + (fden - fnum) * gnum, fden * gden);
            let at = along(along(from, to, fnum, fden), to, gnum, gden);
            0 < num < den && part_way(at, from, to, num, den)
        }),
{
    let (num, den) = (fnum * gden + (fden - fnum) * gnum, fden * gden);
    let d = to - from;
    let s = scaled(d, fnum, fden);
    let t = scaled(d - s, gnum, gden);
    assert(to - along(from, to, fnum, fden) == d - s);
    lemma_scaled_rest(d, fnum, fden);
    lemma_scaled_rest(d - s, gnum, gden);
    let e = d * fnum - s * fden;
    let g = (d - s) * gnum - t * gden;
    assert(0 < num < den) by (nonlinear_arith)
        requires
            0 < fnum < fden,
            0 < gnum < gden,
            num == fnum * gden + (fden - fnum) * gnum,
            den == fden * gden,
    ;
    assert(d * num - (s + t) * den == (gden - gnum) * e + fden * g) by {
        let (df, sf) = (d * fnum, s * fden);
        assert(d * num == df * gden + d * fden * gnum - df * gnum) by (nonlinear_arith)
            requires
                df == d * fnum,
                num == fnum * gden + (fden - fnum) * gnum,
        ;
        assert((s + t) * den == sf * gden + fden * (t * gden)) by (nonlinear_arith)
            requires
                sf == s * fden,
                den == fden * gden,
        ;
        assert((gden - gnum) * e == df * gden - sf * gden - df * gnum + sf * gnum)
            by (nonlinear_arith)
            requires
                e == df - sf,
        ;
        assert(fden * g == d * fden * gnum - sf * gnum - fden * (t * gden)) by (nonlinear_arith)
            requires
                sf == s * fden,
                g == (d - s) * gnum - t * gden,
        ;
    }
    let rest = (gden - gnum) * e + fden * g;
    assert(-2 * den < rest < 2 * den) by (nonlinear_arith)
        requires
            rest == (gden - gnum) * e + fden * g,
            den == fden * gden,
            -fden < e < fden,
            -gden < g < gden,
            0 < gnum < gden,
            0 < fden,
    ;
}

/// A point on a leg lies beside it, up to rounding.
proof fn lemma_beside(p: WaypointView, a: WaypointView, b: WaypointView)
    requires
        on_leg(p, a, b),
    ensures
        beside_leg(p.lat, p.lon, a, b),
{
    let (num, den) = choose|num: int, den: int|
        0 < num < den && p.lat == #[trigger] along(a.lat as int, b.lat as int, num, den) && p.lon
            == along(a.lon as int, b.lon as int, num, den);
    lemma_scaled_rest(b.lat - a.lat, num, den);
    lemma_scaled_rest(b.lon - a.lon, num, den);
    assert(part_way(p.lat as int, a.lat as int, b.lat as int, num, den));
}

/// A point on the leg that is left after a point on a leg lies beside the whole
/// leg, up to rounding.
proof fn lemma_beside_whole(p: WaypointView, q: WaypointView, a: WaypointView, b: WaypointView)
    requires
        on_leg(q, a, b),
        on_leg(p, q, b),
    ensures
        beside_leg(p.lat, p.lon, a, b),
{
    let (fnum, fden) = choose|num: int, den: int|
        0 < num < den && q.lat == #[trigger] along(a.lat as int, b.lat as int, num, den) && q.lon
            == along(a.lon as int, b.lon as int, num, den);
    let (gnum, gden) = choose|num: int, den: int|
        0 < num < den && p.lat == #[trigger] along(q.lat as int, b.lat as int, num, den) && p.lon
            == along(q.lon as int, b.lon as int, num, den);
    lemma_part_of_part(a.lat as int, b.lat as int, fnum, fden, gnum, gden);
    lemma_part_of_part(a.lon as int, b.lon as int, fnum, fden, gnum, gden);
    let (num, den) = (fnum * gden + (fden - fnum) * gnum, fden * gden);
    assert(part_way(p.lat as int, a.lat as int, b.lat as int, num, den));
}

/// How many points the departure adds to a briefing's route.
pub open spec fn departure_points(b: LidoBriefingView, departure_nm: int) -> int {
    if b.v2_kts is Some && departure_nm > DEPARTURE_MIN_LEG_NM {
        1
    } else {
        0
    }
}

/// The route of a briefing is never altered: with its speed profiles all of its
/// waypoints stay where they are, in order, those between the ends unchanged; the
/// points that are added lie on its first leg and on its last, strictly between
/// their ends. Where both profiles add to one leg, the points of the arrival lie
/// on what the departure leaves of it, and so on the whole but for rounding.
pub proof fn briefing_route_is_kept(b: LidoBriefingView, departure_nm: int, final_nm: int)
    requires
        all_in_bounds(b.waypoints),
        b.waypoints.len() >= 2,
        is_speed(b.v2_kts),
    ensures
        ({
            let ws = b.waypoints;
            let out = briefing_route(b, departure_nm, final_nm);
            let added = departure_points(b, departure_nm);
            let last = ws.len() - 1 + added;
            &&& same_place(out[0], ws[0])
            &&& forall|i: int| 1 <= i < ws.len() - 1 ==> out[i + added] == #[trigger] ws[i]
            &&& same_place(out.last(), ws.last())
            &&& added == 1 ==> on_leg(out[1], ws[0], ws[1])
            &&& last < out.len()
            &&& forall|i: int|
                last <= i < out.len() - 1 ==> {
                    &&& on_leg(#[trigger] out[i], out[last - 1], ws.last())
                    &&& ws.len() > 2 || added == 0 ==> on_leg(out[i], ws[ws.len() - 2], ws.last())
                    &&& beside_leg(out[i].lat, out[i].lon, ws[ws.len() - 2], ws.last())
                }
        }),
{
    let ws = b.waypoints;
    let mid = departed(ws, b.v2_kts, departure_nm);
    departure_keeps_route(ws, b.v2_kts, departure_nm);
    lemma_departed_in_bounds(ws, b.v2_kts, departure_nm);
    arrival_keeps_route(mid, b.vref_kts, final_nm);
    let out = arrived(mid, b.vref_kts, final_nm);
    let n = ws.len();
    let added = mid.len() - n;
    let last = n - 1 + added;
    assert(mid.last() == mid[last]);
    assert(ws.last() == ws[n - 1]);
    assert(out[mid.len() - 2] == mid[mid.len() - 2]);
    assert(out[0] == mid[0]);
    assert forall|i: int| 1 <= i < n - 1 implies out[i + added] == #[trigger] ws[i] by {
        assert(out[i + added] == mid[i + added]);
    }
    assert forall|i: int| last <= i < out.len() - 1 implies {
        &&& on_leg(#[trigger] out[i], out[last - 1], ws.last())
        &&& n > 2 || added == 0 ==> on_leg(out[i], ws[n - 2], ws.last())
        &&& beside_leg(out[i].lat, out[i].lon, ws[n - 2], ws.last())
    } by {
        assert(on_leg(out[i], mid[mid.len() - 2], mid.last()));
        if n > 2 || added == 0 {
            if n > 2 {
                assert(mid[n - 2 + added] == ws[n - 2]);
            }
            lemma_same_leg(out[i], out[last - 1], ws[n - 2], ws.last());
            lemma_beside(out[i], ws[n - 2], ws.last());
        } else {
            lemma_beside_whole(out[i], out[1], ws[0], ws[1]);
        }
    }
}

/// A leg is where its ends are.
proof fn lemma_same_leg(p: WaypointView, a: WaypointView, q: WaypointView, b: WaypointView)
    requires
        on_leg(p, a, b),
        a.lat == q.lat,
        a.lon == q.lon,
    ensures
        on_leg(p, q, b),
{
    let (num, den) = choose|num: int, den: int|
        0 < num < den && p.lat == #[trigger] along(a.lat as int, b.lat as int, num, den) && p.lon
            == along(a.lon as int, b.lon as int, num, den);
    assert(p.lat == along(q.lat as int, b.lat as int, num, den));
}

/// Whether a point of a plan is at a waypoint.
pub open spec fn at_waypoint(p: PlanPointView, w: WaypointView) -> bool {
    p.ident == w.ident && p.lat == w.lat && p.lon == w.lon
}

/// The plan of a briefing visits all of its waypoints, in order and where they
/// are, from the first to the last. Every other point lies strictly between the
/// ends of the briefing's first leg or of its last, but for rounding. Without V2
/// and VREF the plan is that of the waypoints alone.
pub proof fn briefing_plan_keeps_route(
    b: LidoBriefingView,
    departure_nm: int,
    final_nm: int,
    legs: Seq<Leg>,
)
    requires
        all_in_bounds(b.waypoints),
        b.waypoints.len() >= 2,
        is_speed(b.v2_kts),
    ensures
        ({
            let ws = b.waypoints;
            let points = plan_points(briefing_route(b, departure_nm, final_nm), legs);
            let added = departure_points(b, departure_nm);
            let last = ws.len() - 1 + added;
            &&& at_waypoint(points[0], ws[0])
            &&& forall|i: int|
                1 <= i < ws.len() - 1 ==> at_waypoint(points[i + added], #[trigger] ws[i])
            &&& at_waypoint(points.last(), ws.last())
            &&& last < points.len()
            &&& added == 1 ==> beside_leg(points[1].lat, points[1].lon, ws[0], ws[1])
            &&& forall|i: int|
                last <= i < points.len() - 1 ==> beside_leg(
                    (#[trigger] points[i]).lat,
                    points[i].lon,
                    ws[ws.len() - 2],
                    ws.last(),
                )
            &&& b.v2_kts is None && b.vref_kts is None ==> points == plan_points(ws, legs)
        }),
{
    let ws = b.waypoints;
    let route = briefing_route(b, departure_nm, final_nm);
    let points = plan_points(route, legs);
    let added = departure_points(b, departure_nm);
    briefing_route_is_kept(b, departure_nm, final_nm);
    if added == 1 {
        lemma_beside(route[1], ws[0], ws[1]);
    }
    assert forall|i: int| 1 <= i < ws.len() - 1 implies at_waypoint(
        points[i + added],
        #[trigger] ws[i],
    ) by {
        assert(route[i + added] == ws[i]);
    }
    assert forall|i: int| ws.len() - 1 + added <= i < points.len() - 1 implies beside_leg(
        (#[trigger] points[i]).lat,
        points[i].lon,
        ws[ws.len() - 2],
        ws.last(),
    ) by {
        assert(on_leg(route[i], route[ws.len() - 2 + added], ws.last()));
    }
}

/// Without V2 and VREF the waypoints of a briefing are left as they are.
pub proof fn no_profile_without_speeds(
    ws: Seq<WaypointView>,
    departure_nm: int,
    final_nm: int,
)
    ensures
        profiled(ws, None, None, departure_nm, final_nm) == ws,
{
}

/// A departure lifts off at V2, an arrival ends at VREF.
pub proof fn profile_meets_speeds(
    ws: Seq<WaypointView>,
    v2_kts: i64,
    vref_kts: i64,
    departure_nm: int,
    final_nm: int,
)
    requires
        ws.len() >= 2,
    ensures
        ({
            let out = profiled(ws, Some(v2_kts), Some(vref_kts), departure_nm, final_nm);
            out[0].gs_kts == Some(v2_kts) && out.last().gs_kts == Some(vref_kts)
        }),
{
    let mid = departed(ws, Some(v2_kts), departure_nm);
    assert(mid[0].gs_kts == Some(v2_kts));
    let out = arrived(mid, Some(vref_kts), final_nm);
    assert(out[0] == mid[0]);
}

/// The speeds on final never grow where VREF is at most what the last leg starts
/// with and leaves the third stage no faster than the second.
pub proof fn arrival_decelerates(ws: Seq<WaypointView>, vref_kts: i64, leg_nm: int)
    requires
        all_in_bounds(ws),
        ws.len() >= 2,
        vref_kts + THIRD_STAGE_MARGIN_KTS <= SECOND_STAGE_KTS,
        is_reading(vref_kts as int),
        vref_kts <= or_else(ws[ws.len() - 2].gs_kts, MAX_LOW_ALT_SPEED_KTS),
    ensures
        ({
            let out = arrived(ws, Some(vref_kts), leg_nm);
            let gs = or_else(ws[ws.len() - 2].gs_kts, MAX_LOW_ALT_SPEED_KTS);
            &&& forall|i: int|
                ws.len() - 1 <= i < out.len() ==> vref_kts <= or_else(
                    (#[trigger] out[i]).gs_kts,
                    0,
                ) <= gs
            &&& forall|i: int, j: int|
                ws.len() - 1 <= i < j < out.len() ==> or_else((#[trigger] out[i]).gs_kts, 0)
                    >= or_else((#[trigger] out[j]).gs_kts, 0)
        }),
{
    let n = ws.len();
    let (a, b) = (ws[n - 2], ws[n - 1]);
    assert(in_bounds(a) && in_bounds(b));
    let added = stages(a, b, vref_kts, leg_nm);
    let out = arrived(ws, Some(vref_kts), leg_nm);
    assert(out =~= ws.drop_last() + added + seq![landing_point(b, vref_kts)]);
}

/// A stage on final is neither above the glide nor above where the leg starts
/// from the surface up.
pub proof fn stage_below_glide(
    ident: Seq<char>,
    a: WaypointView,
    b: WaypointView,
    dist_nm: int,
    leg_nm: int,
    gs_kts: i64,
)
    requires
        in_bounds(a),
        0 < dist_nm <= 15,
        has_stage(dist_nm, leg_nm),
    ensures
        ({
            let alt = or_else(stage_point(ident, a, b, dist_nm, leg_nm, gs_kts).altitude_ft, 0);
            &&& alt <= dist_nm * APPROACH_GLIDE_FT_PER_NM
            &&& or_else(a.altitude_ft, 0) >= 0 ==> 0 <= alt <= or_else(a.altitude_ft, 0)
        }),
{
    lemma_scaled(or_else(a.altitude_ft, 0) as int, dist_nm * NANO, leg_nm);
}

/// A plan follows its waypoints: the same places in the same order.
pub proof fn plan_follows_waypoints(ws: Seq<WaypointView>, legs: Seq<Leg>, i: int)
    requires
        0 <= i < ws.len(),
    ensures
        plan_points(ws, legs).len() == ws.len(),
        plan_points(ws, legs)[i].ident == ws[i].ident,
        plan_points(ws, legs)[i].lat == ws[i].lat,
        plan_points(ws, legs)[i].lon == ws[i].lon,
        ws[i].gs_kts matches Some(v) ==> plan_points(ws, legs)[i].gs_kts == v,
        ws[i].altitude_ft matches Some(v) ==> plan_points(ws, legs)[i].altitude_ft == v,
        ws[i].tas_kts matches Some(v) ==> plan_points(ws, legs)[i].tas_kts == v,
{
    filling_keeps_values(ground_speeds(ws), i);
    filling_keeps_values(altitudes(ws), i);
}

/// A plan climbs from the surface and descends to it where the log gives no
/// altitude for the airports.
pub proof fn plan_starts_and_ends_on_surface(ws: Seq<WaypointView>, legs: Seq<Leg>)
    requires
        ws.len() >= 2,
    ensures
        ws[0].altitude_ft is None ==> plan_points(ws, legs)[0].altitude_ft == 0,
        ws.last().altitude_ft is None ==> plan_points(ws, legs).last().altitude_ft == 0,
{
    filling_keeps_values(altitudes(ws), 0);
    filling_keeps_values(altitudes(ws), ws.len() - 1);
}

/// Two waypoints share a time only where there is no way or no speed between
/// them, but for what a microsecond cannot tell: no leg of the timeline is
/// passed in no time.
pub proof fn leg_has_duration(ws: Seq<WaypointView>, legs: Seq<Leg>, i: int)
    requires
        0 < i < ws.len(),
        legs.len() + 1 == ws.len(),
        legs_wf(legs),
        ({
            let sum = speed_at(ws, i - 1) + speed_at(ws, i);
            0 < sum <= legs[i - 1].distance_nm * 7_200_000
        }),
        time_at(ws, legs, i) < u64::MAX,
    ensures
        time_at(ws, legs, i - 1) < time_at(ws, legs, i),
{
    leg_takes_its_time(ws, legs, i);
    let n = legs[i - 1].distance_nm * 7_200_000;
    let sum = speed_at(ws, i - 1) + speed_at(ws, i);
    assert(n / sum >= 1) by (nonlinear_arith)
        requires
            0 < sum <= n,
    ;
}

/// Between two waypoints with the aircraft moving, time passes in proportion to
/// the distance: a leg takes as long as its length over the average speed.
pub proof fn leg_takes_its_time(ws: Seq<WaypointView>, legs: Seq<Leg>, i: int)
    requires
        0 < i < ws.len(),
        legs.len() + 1 == ws.len(),
        legs_wf(legs),
        time_at(ws, legs, i) < u64::MAX,
    ensures
        time_at(ws, legs, i) - time_at(ws, legs, i - 1) == leg_time(
            legs[i - 1].distance_nm as int,
            speed_at(ws, i - 1) as int,
            speed_at(ws, i) as int,
        ),
{
}

} // verus!
