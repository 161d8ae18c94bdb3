//! The kinematic agent: an aircraft that integrates its own state towards the
//! targets of each leg, following its flight plan.
//!
//! Physics is based on ground speed: rate limiters cap how fast track, ground
//! speed and altitude change, and the position moves along the track at the
//! ground speed. The targets come from the active leg of the plan.
//!
//! Great circles come from the caller: before a step the one to the active
//! waypoint, after it the position reached and what is left to the waypoint.

use crate::agent::performance::{is_magnitude, VerticalLimits};
use crate::number::{is_reading, scaled, Reading, READING_LIMIT, SPAN_LIMIT};
use crate::shared::geo::{
    angle_diff_deg, turn_between, turn_leads_to, within_turn, Leg, FULL_TURN, HALF_TURN,
};
use crate::shared::plan::{is_plan, point_in_bounds, FlightPlan, PlanPoint, PlanPointView};
use vstd::prelude::*;

verus! {

/// Standard rate turn, millionths of a degree in a microsecond: three degrees a
/// second.
pub const TURN_RATE_DEG_S: i64 = 3;

/// Ground speed changes by seven tenths of a knot a second at most: seven
/// millionths of a knot in ten microseconds.
pub const GS_ACCEL_NUM: i64 = 7;

pub const GS_ACCEL_DEN: i64 = 10;

/// Sequence to the next leg within this distance of the active waypoint: 1 nm.
pub const WAYPOINT_CAPTURE_NM: i64 = 1_000_000_000;

/// A waypoint once approached within this is behind when it recedes: 3 nm.
pub const CLOSE_APPROACH_NM: i64 = 3_000_000_000;

/// How far it recedes before it counts as behind: 0.3 nm.
pub const RECEDING_NM: i64 = 300_000_000;

/// Below this ground speed no time to the waypoint is reckoned: 1 kt.
pub const STANDING_KTS: i64 = 1_000_000;

/// Microseconds in a minute.
pub const MINUTE: i64 = 60_000_000;

/// Microseconds in an hour, over the ratio of the units of distance and speed.
pub const HOUR_PART: i64 = 3_600_000;

/// A single simulated aircraft flying its plan.
///
/// Positions count billionths of a minute of arc; altitude, speed and track
/// count millionths of a foot, a knot and a degree.
#[derive(Debug)]
pub struct Aircraft {
    pub callsign: String,
    pub icao_address: String,
    pub lat: i64,
    pub lon: i64,
    pub altitude_ft: i64,
    pub gs_kts: i64,
    pub track_deg: i64,
    pub progress: Progress,
    pub ended: bool,
}

/// The plan of an aircraft, and how far it has come.
#[derive(Debug)]
pub struct Progress {
    plan: FlightPlan,
    /// Index of the active waypoint in the plan
    leg: usize,
    /// Closest approach to the active waypoint on this leg
    closest_nm: Option<i64>,
    /// Limits on climb and descent rates
    limits: VerticalLimits,
}

#[verifier::ext_equal]
pub struct AircraftView {
    pub callsign: Seq<char>,
    pub icao_address: Seq<char>,
    pub lat: int,
    pub lon: int,
    pub altitude_ft: int,
    pub gs_kts: int,
    pub track_deg: int,
    pub plan: Seq<PlanPointView>,
    pub leg: int,
    pub closest_nm: Option<int>,
    pub limits: VerticalLimits,
    pub ended: bool,
}

impl Progress {
    /// The points of the plan.
    pub closed spec fn route(&self) -> Seq<PlanPointView> {
        self.plan@
    }

    /// Index of the active waypoint.
    pub closed spec fn active(&self) -> int {
        self.leg as int
    }

    /// Closest approach to the active waypoint on this leg.
    pub closed spec fn approach(&self) -> Option<int> {
        match self.closest_nm {
            Some(d) => Some(d as int),
            None => None,
        }
    }

    pub closed spec fn rate_limits(&self) -> VerticalLimits {
        self.limits
    }
}

impl View for Aircraft {
    type V = AircraftView;

    open spec fn view(&self) -> AircraftView {
        AircraftView {
            callsign: self.callsign@,
            icao_address: self.icao_address@,
            lat: self.lat as int,
            lon: self.lon as int,
            altitude_ft: self.altitude_ft as int,
            gs_kts: self.gs_kts as int,
            track_deg: self.track_deg as int,
            plan: self.progress.route(),
            leg: self.progress.active(),
            closest_nm: self.progress.approach(),
            limits: self.progress.rate_limits(),
            ended: self.ended,
        }
    }
}

impl AircraftView {
    /// A plan with an active waypoint, and values in bounds.
    pub open spec fn wf(self) -> bool {
        &&& is_plan(self.plan)
        &&& 1 <= self.leg <= self.plan.len()
        &&& self.ended <==> self.leg == self.plan.len()
        &&& is_reading(self.altitude_ft)
        &&& is_reading(self.gs_kts)
        &&& 0 <= self.track_deg < FULL_TURN
        &&& self.closest_nm matches Some(d) ==> 0 <= d <= SPAN_LIMIT
    }

    /// The active waypoint.
    pub open spec fn target(self) -> PlanPointView {
        self.plan[self.leg]
    }

    /// The limit on the vertical rate towards the altitude of the active
    /// waypoint.
    pub open spec fn limit(self) -> Reading {
        if self.target().altitude_ft >= self.altitude_ft {
            self.limits.climb_at(self.altitude_ft as i64)
        } else {
            self.limits.descent_at(self.altitude_ft as i64)
        }
    }

    /// Whether the limit is a magnitude, if it is a number at all.
    pub open spec fn limit_holds(self) -> bool {
        is_magnitude(self.limit())
    }

    /// Whether a step of no time leaves the altitude alone: something limits the
    /// vertical rate, the limit for the type or the pace to the waypoint.
    pub open spec fn is_limited(self, to_fix: Leg) -> bool {
        self.limit() is Value || paced(
            self.target().altitude_ft - self.altitude_ft,
            sped(self.gs_kts, self.target().gs_kts as int, 0),
            to_fix.distance_nm as int,
            0,
        ) is Some
    }

    /// Whether an aircraft in flight can take a step of `dt`.
    pub open spec fn can_step(self, dt: int, to_fix: Leg) -> bool {
        0 <= dt && self.limit_holds() && (0 < dt || self.is_limited(to_fix))
    }
}

/// `v`, or the nearest of `-most` and `most` where it is past one of them.
pub open spec fn held(v: int, most: int) -> int {
    if v > most {
        most
    } else if v < -most {
        -most
    } else {
        v
    }
}

/// The track after turning towards a bearing at no more than the standard rate.
pub open spec fn turned(track_deg: int, bearing_deg: int, dt: int) -> int {
    (track_deg + held(turn_between(track_deg, bearing_deg), TURN_RATE_DEG_S * dt)) % (
    FULL_TURN as int)
}

/// The ground speed after changing towards a target.
pub open spec fn sped(gs_kts: int, target_kts: int, dt: int) -> int {
    gs_kts + held(target_kts - gs_kts, GS_ACCEL_NUM * dt / GS_ACCEL_DEN as int)
}

/// How far the altitude moves in `dt` at the rate that meets it at the waypoint;
/// nothing when the aircraft stands, and without bound (none) when it is there.
pub open spec fn paced(dalt_ft: int, gs_kts: int, distance_nm: int, dt: int) -> Option<int> {
    let size = if dalt_ft < 0 {
        -dalt_ft
    } else {
        dalt_ft
    };
    if gs_kts <= STANDING_KTS {
        Some(0)
    } else if 60_000 * distance_nm <= gs_kts {
        None
    } else {
        Some(size * gs_kts * dt / (distance_nm * HOUR_PART))
    }
}

/// How far the altitude moves in `dt` at a limit; without bound (none) where that
/// is infinite or no number.
pub open spec fn capped(limit_fpm: Reading, dt: int) -> Option<int> {
    match limit_fpm {
        Reading::Value(v) => Some(v * dt / (MINUTE as int)),
        _ => None,
    }
}

/// The most that the altitude moves in `dt`: the pace that meets it at the
/// waypoint, or the limit where that is less; none where neither bounds it.
pub open spec fn most_climb(
    dalt_ft: int,
    gs_kts: int,
    distance_nm: int,
    limit_fpm: Reading,
    dt: int,
) -> Option<int> {
    match (paced(dalt_ft, gs_kts, distance_nm, dt), capped(limit_fpm, dt)) {
        (Some(p), Some(c)) => Some(
            if p < c {
                p
            } else {
                c
            },
        ),
        (Some(p), None) => Some(p),
        (None, c) => c,
    }
}

/// The altitude after moving towards a target.
pub open spec fn climbed(
    altitude_ft: int,
    target_ft: int,
    gs_kts: int,
    distance_nm: int,
    limit_fpm: Reading,
    dt: int,
) -> int {
    let dalt = target_ft - altitude_ft;
    match most_climb(dalt, gs_kts, distance_nm, limit_fpm, dt) {
        Some(most) => altitude_ft + held(dalt, most),
        None => target_ft,
    }
}

/// How far an aircraft gets along its track in `dt`.
pub open spec fn flown(gs_kts: int, dt: int) -> int {
    scaled(gs_kts, dt, HOUR_PART as int)
}

/// Where a step leads to.
#[derive(Debug, Clone, Copy, PartialEq, Eq, Structural)]
pub struct Reached {
    pub lat: i64,
    pub lon: i64,
    /// What is left to the active waypoint, billionths of a nautical mile
    pub to_fix_nm: i64,
}

impl Reached {
    pub open spec fn wf(self) -> bool {
        0 <= self.to_fix_nm <= SPAN_LIMIT
    }
}

/// How a step moves the aircraft.
#[derive(Debug, Clone, Copy, PartialEq, Eq, Structural)]
pub struct Travel {
    /// Direction, millionths of a degree
    pub track_deg: i64,
    /// Distance, billionths of a nautical mile
    pub distance_nm: i128,
}

/// The closest approach so far.
pub open spec fn closest(before: Option<int>, d: int) -> int {
    match before {
        Some(c) if c < d => c,
        _ => d,
    }
}

/// Whether a leg is done: its waypoint is reached, or was close and recedes.
pub open spec fn leg_done(before: Option<int>, d: int) -> bool {
    ||| d < WAYPOINT_CAPTURE_NM
    ||| closest(before, d) < CLOSE_APPROACH_NM && d > closest(before, d) + RECEDING_NM
}

/// An aircraft after a step of `dt` microseconds: `to_fix` is the great circle to
/// the active waypoint before it, `reached` where it leads to.
pub open spec fn stepped(a: AircraftView, dt: int, to_fix: Leg, reached: Reached) -> AircraftView {
    if a.ended {
        AircraftView { gs_kts: 0, ..a }
    } else {
        let t = a.target();
        let gs = sped(a.gs_kts, t.gs_kts as int, dt);
        let moved = AircraftView {
            track_deg: turned(a.track_deg, to_fix.bearing_deg as int, dt),
            gs_kts: gs,
            altitude_ft: climbed(
                a.altitude_ft,
                t.altitude_ft as int,
                gs,
                to_fix.distance_nm as int,
                a.limit(),
                dt,
            ),
            lat: reached.lat as int,
            lon: reached.lon as int,
            ..a
        };
        let d = reached.to_fix_nm as int;
        if !leg_done(a.closest_nm, d) {
            AircraftView { closest_nm: Some(closest(a.closest_nm, d)), ..moved }
        } else if a.leg + 1 < a.plan.len() {
            AircraftView { leg: a.leg + 1, closest_nm: None, ..moved }
        } else {
            AircraftView { leg: a.leg + 1, closest_nm: None, ended: true, gs_kts: 0, ..moved }
        }
    }
}

proof fn lemma_held(v: int, most: int)
    requires
        most >= 0,
    ensures
        -most <= held(v, most) <= most,
        v >= 0 ==> 0 <= held(v, most) <= v,
        v <= 0 ==> v <= held(v, most) <= 0,
{
}

proof fn lemma_most_climb(
    dalt_ft: int,
    gs_kts: int,
    distance_nm: int,
    limit_fpm: Reading,
    dt: int,
)
    requires
        0 <= distance_nm,
        is_magnitude(limit_fpm),
        0 <= dt,
    ensures
        most_climb(dalt_ft, gs_kts, distance_nm, limit_fpm, dt) matches Some(most) ==> 0 <= most
            && (capped(limit_fpm, dt) matches Some(c) ==> most <= c),
        capped(limit_fpm, dt) matches Some(c) ==> 0 <= c,
        paced(dalt_ft, gs_kts, distance_nm, dt) matches Some(p) ==> 0 <= p,
{
    let size = if dalt_ft < 0 {
        -dalt_ft
    } else {
        dalt_ft
    };
    if let Reading::Value(v) = limit_fpm {
        assert(0 <= v * dt) by (nonlinear_arith)
            requires
                0 <= v,
                0 <= dt,
        ;
    }
    if gs_kts > STANDING_KTS && 60_000 * distance_nm > gs_kts {
        let n = size * gs_kts * dt;
        let m = distance_nm * HOUR_PART;
        assert(0 <= n) by (nonlinear_arith)
            requires
                n == size * gs_kts * dt,
                0 <= size,
                0 <= gs_kts,
                0 <= dt,
        ;
        assert(0 <= n / m) by (nonlinear_arith)
            requires
                0 <= n,
                0 < m,
        ;
    }
}

/// A step keeps an aircraft in order.
pub proof fn step_keeps_wf(a: AircraftView, dt: int, to_fix: Leg, reached: Reached)
    requires
        a.wf(),
        a.ended || (a.can_step(dt, to_fix) && to_fix.wf() && reached.wf()),
    ensures
        stepped(a, dt, to_fix, reached).wf(),
{
    if !a.ended {
        let t = a.target();
        assert(point_in_bounds(a.plan[a.leg]));
        lemma_held(t.gs_kts - a.gs_kts, GS_ACCEL_NUM * dt / GS_ACCEL_DEN as int);
        let gs = sped(a.gs_kts, t.gs_kts as int, dt);
        let dalt = t.altitude_ft - a.altitude_ft;
        lemma_most_climb(dalt, gs, to_fix.distance_nm as int, a.limit(), dt);
        if let Some(most) = most_climb(dalt, gs, to_fix.distance_nm as int, a.limit(), dt) {
            lemma_held(dalt, most);
        }
    }
}

impl Aircraft {
    /// Spawn at the first waypoint of a plan, pointed at the second, with the
    /// ground speed and altitude that the plan starts with.
    pub fn new(
        callsign: String,
        icao_address: String,
        plan: FlightPlan,
        limits: VerticalLimits,
    ) -> (r: Self)
        requires
            plan.wf(),
        ensures
            r@.wf(),
            ({
                let p = plan@[0];
                r@ == (AircraftView {
                    callsign: callsign@,
                    icao_address: icao_address@,
                    lat: p.lat as int,
                    lon: p.lon as int,
                    altitude_ft: p.altitude_ft as int,
                    gs_kts: p.gs_kts as int,
                    track_deg: p.track_deg as int,
                    plan: plan@,
                    leg: 1,
                    closest_nm: None,
                    limits,
                    ended: false,
                })
            }),
    {
        let (lat, lon, altitude_ft, gs_kts, track_deg) = {
            let points = plan.points();
            proof {
                assert(points@[0]@ == plan@[0]);
                assert(point_in_bounds(plan@[0]));
            }
            let p: &PlanPoint = &points[0];
            (p.lat, p.lon, p.altitude_ft, p.gs_kts, p.track_deg)
        };
        Aircraft {
            callsign,
            icao_address,
            lat,
            lon,
            altitude_ft,
            gs_kts,
            track_deg,
            progress: Progress { plan, leg: 1, closest_nm: None, limits },
            ended: false,
        }
    }

    /// Name of the waypoint flown towards, none once arrived.
    pub fn target_ident(&self) -> (r: Option<&str>)
        requires
            self@.wf(),
        ensures
            match r {
                Some(s) => !self@.ended && s@ == self@.target().ident,
                None => self@.ended,
            },
    {
        if self.ended {
            None
        } else {
            let points = self.progress.plan.points();
            proof {
                assert(points@[self.progress.leg as int]@ == self@.plan[self.progress.leg as int]);
            }
            Some(points[self.progress.leg].ident.as_str())
        }
    }

    /// Name of the last waypoint.
    pub fn arrival_ident(&self) -> (r: &str)
        requires
            self@.wf(),
        ensures
            r@ == self@.plan.last().ident,
    {
        let points = self.progress.plan.points();
        proof {
            assert(points@[points@.len() - 1]@ == self@.plan.last());
        }
        points[points.len() - 1].ident.as_str()
    }

    /// Position of the waypoint flown towards, none once arrived.
    pub fn target_position(&self) -> (r: Option<(i64, i64)>)
        requires
            self@.wf(),
        ensures
            match r {
                Some((lat, lon)) => !self@.ended && lat == self@.target().lat && lon
                    == self@.target().lon,
                None => self@.ended,
            },
    {
        if self.ended {
            None
        } else {
            let points = self.progress.plan.points();
            proof {
                assert(points@[self.progress.leg as int]@ == self@.plan[self.progress.leg as int]);
            }
            Some((points[self.progress.leg].lat, points[self.progress.leg].lon))
        }
    }

    /// The limit on the vertical rate towards the altitude of the active
    /// waypoint, none once arrived.
    pub fn vertical_limit_fpm(&self) -> (r: Option<Reading>)
        requires
            self@.wf(),
        ensures
            match r {
                Some(v) => !self@.ended && v == self@.limit(),
                None => self@.ended,
            },
    {
        if self.ended {
            None
        } else {
            let points = self.progress.plan.points();
            proof {
                assert(points@[self.progress.leg as int]@ == self@.plan[self.progress.leg as int]);
            }
            Some(
                if points[self.progress.leg].altitude_ft >= self.altitude_ft {
                    self.progress.limits.climb_limit_fpm(self.altitude_ft)
                } else {
                    self.progress.limits.descent_limit_fpm(self.altitude_ft)
                },
            )
        }
    }
}

fn hold(v: i64, most: i128) -> (r: i64)
    requires
        most >= 0,
        v > i64::MIN,
    ensures
        r == held(v as int, most as int),
{
    if v as i128 > most {
        most as i64
    } else if (v as i128) < -most {
        -(most as i64)
    } else {
        v
    }
}

/// Turn towards a bearing at no more than the standard rate.
fn turn(track_deg: i64, bearing_deg: i64, dt: i64) -> (r: i64)
    requires
        0 <= track_deg < FULL_TURN,
        0 <= dt,
    ensures
        r == turned(track_deg as int, bearing_deg as int, dt as int),
        0 <= r < FULL_TURN,
{
    let most: i128 = TURN_RATE_DEG_S as i128 * dt as i128;
    let by: i64 = hold(angle_diff_deg(track_deg, bearing_deg), most);
    within_turn(track_deg + by)
}

/// Change the ground speed towards a target.
fn accelerate(gs_kts: i64, target_kts: i64, dt: i64) -> (r: i64)
    requires
        is_reading(gs_kts as int),
        is_reading(target_kts as int),
        0 <= dt,
    ensures
        r == sped(gs_kts as int, target_kts as int, dt as int),
        is_reading(r as int),
{
    let most: i128 = GS_ACCEL_NUM as i128 * dt as i128 / GS_ACCEL_DEN as i128;
    proof {
        lemma_held(target_kts - gs_kts, most as int);
    }
    gs_kts + hold(target_kts - gs_kts, most)
}

/// The pace that meets an altitude at the waypoint moves it all the way in a step
/// that leads to the waypoint or past it.
proof fn lemma_pace(size: int, gs_kts: int, dt: int, per: int)
    requires
        0 <= size,
        0 < per,
    ensures
        gs_kts * dt >= per ==> size * gs_kts * dt / per >= size,
        size * gs_kts * dt == size * (gs_kts * dt),
{
    let way = gs_kts * dt;
    assert(size * gs_kts * dt == size * way) by (nonlinear_arith)
        requires
            way == gs_kts * dt,
    ;
    if way >= per {
        assert(size * way / per >= size) by (nonlinear_arith)
            requires
                0 <= size,
                0 < per <= way,
        ;
    }
}

/// How far the altitude moves in `dt` at the pace that meets it at the waypoint,
/// where that is not all of the way.
fn pace(size: u128, gs_kts: i64, distance_nm: i64, dt: i64) -> (r: Option<u128>)
    requires
        size <= 2 * READING_LIMIT,
        0 < gs_kts,
        0 < distance_nm <= SPAN_LIMIT,
        0 <= dt,
    ensures
        ({
            let paced = size * gs_kts * dt / (distance_nm * HOUR_PART);
            match r {
                Some(p) => p == paced,
                None => paced >= size,
            }
        }),
{
    proof {
        lemma_product(gs_kts as int, dt as int);
        lemma_product(distance_nm as int, HOUR_PART as int);
        lemma_pace(size as int, gs_kts as int, dt as int, distance_nm * HOUR_PART);
    }
    let way: u128 = gs_kts as u128 * dt as u128;
    let per: u128 = distance_nm as u128 * HOUR_PART as u128;
    if way >= per {
        return None;
    }
    proof {
        assert(per <= 360_000_000_000_000_000_000);
        assert(0 <= size * way <= 200_000_000_000_000_000 * 360_000_000_000_000_000_000)
            by (nonlinear_arith)
            requires
                0 <= size <= 200_000_000_000_000_000,
                0 <= way <= 360_000_000_000_000_000_000,
        ;
        assert(size * way == size * gs_kts * dt);
    }
    Some(size * way / per)
}

/// Move the altitude towards a target.
fn climb(
    altitude_ft: i64,
    target_ft: i64,
    gs_kts: i64,
    distance_nm: i64,
    limit_fpm: Reading,
    dt: i64,
) -> (r: i64)
    requires
        is_reading(altitude_ft as int),
        is_reading(target_ft as int),
        is_reading(gs_kts as int),
        0 <= distance_nm <= SPAN_LIMIT,
        is_magnitude(limit_fpm),
        0 <= dt,
    ensures
        r == climbed(
            altitude_ft as int,
            target_ft as int,
            gs_kts as int,
            distance_nm as int,
            limit_fpm,
            dt as int,
        ),
        is_reading(r as int),
{
    let dalt: i64 = target_ft - altitude_ft;
    let size: u128 = (if dalt < 0 {
        -dalt
    } else {
        dalt
    }) as u128;
    proof {
        lemma_most_climb(
            dalt as int,
            gs_kts as int,
            distance_nm as int,
            limit_fpm,
            dt as int,
        );
    }
    let mut most: u128 = match limit_fpm {
        Reading::Value(v) => {
            proof {
                lemma_product(v as int, dt as int);
            }
            v as u128 * dt as u128 / MINUTE as u128
        },
        _ => u128::MAX,
    };
    if gs_kts <= STANDING_KTS {
        most = 0;
    } else if 60_000 * distance_nm > gs_kts {
        match pace(size, gs_kts, distance_nm, dt) {
            Some(p) => if p < most {
                most = p;
            },
            None => {},
        }
    }
    let by: i64 = if size <= most {
        dalt
    } else if dalt < 0 {
        -(most as i64)
    } else {
        most as i64
    };
    altitude_ft + by
}

proof fn lemma_product(a: int, b: int)
    requires
        0 <= a <= i64::MAX,
        0 <= b <= i64::MAX,
    ensures
        0 <= a * b <= 0x3fff_ffff_ffff_ffff_0000_0000_0000_0001,
{
    assert(0 <= a * b <= 0x7fff_ffff_ffff_ffff * 0x7fff_ffff_ffff_ffff) by (nonlinear_arith)
        requires
            0 <= a <= 0x7fff_ffff_ffff_ffff,
            0 <= b <= 0x7fff_ffff_ffff_ffff,
    ;
}

/// The distance along the track in `dt`.
fn fly(gs_kts: i64, dt: i64) -> (r: i128)
    requires
        is_reading(gs_kts as int),
        0 <= dt,
    ensures
        r == flown(gs_kts as int, dt as int),
{
    let m: i128 = if gs_kts < 0 {
        -(gs_kts as i128)
    } else {
        gs_kts as i128
    };
    proof {
        lemma_product(m as int, dt as int);
    }
    let q: i128 = m * dt as i128 / HOUR_PART as i128;
    if gs_kts < 0 {
        -q
    } else {
        q
    }
}

impl Aircraft {
    /// How a step of `dt` microseconds moves the aircraft: along its new track, at
    /// its new ground speed. None once arrived.
    pub fn travel(&self, dt: i64, to_fix: Leg) -> (r: Option<Travel>)
        requires
            self@.wf(),
            self@.ended || (0 <= dt && to_fix.wf()),
        ensures
            match r {
                Some(t) => !self@.ended && t.track_deg == turned(
                    self@.track_deg,
                    to_fix.bearing_deg as int,
                    dt as int,
                ) && t.distance_nm == flown(
                    sped(self@.gs_kts, self@.target().gs_kts as int, dt as int),
                    dt as int,
                ),
                None => self@.ended,
            },
    {
        if self.ended {
            return None;
        }
        let points = self.progress.plan.points();
        proof {
            assert(points@[self.progress.leg as int]@ == self@.plan[self.progress.leg as int]);
            assert(point_in_bounds(self@.plan[self.progress.leg as int]));
        }
        let gs: i64 = accelerate(self.gs_kts, points[self.progress.leg].gs_kts, dt);
        Some(
            Travel {
                track_deg: turn(self.track_deg, to_fix.bearing_deg, dt),
                distance_nm: fly(gs, dt),
            },
        )
    }

    /// Advance the aircraft by `dt` microseconds: turn towards the active
    /// waypoint, apply the rate limiters, take up the position reached, and go on
    /// to the next leg once the waypoint is reached or behind.
    ///
    /// `to_fix` is the great circle to the active waypoint before the step,
    /// `reached` where [`Aircraft::travel`] leads to. Once arrived all three are
    /// ignored.
    pub fn step(&mut self, dt: i64, to_fix: Leg, reached: Reached)
        requires
            old(self)@.wf(),
            old(self)@.ended || (old(self)@.can_step(dt as int, to_fix) && to_fix.wf()
                && reached.wf()),
        ensures
            final(self)@ == stepped(old(self)@, dt as int, to_fix, reached),
            final(self)@.wf(),
    {
        let ghost a = self@;
        proof {
            step_keeps_wf(a, dt as int, to_fix, reached);
        }
        if self.ended {
            self.gs_kts = 0;
            proof {
                assert(self@ =~= stepped(a, dt as int, to_fix, reached));
            }
            return ;
        }
        let limit: Reading = match self.vertical_limit_fpm() {
            Some(v) => v,
            None => Reading::NotANumber,
        };
        let (n, target_gs, target_alt) = {
            let points = self.progress.plan.points();
            proof {
                assert(points@[self.progress.leg as int]@ == self@.plan[self.progress.leg as int]);
                assert(point_in_bounds(self@.plan[self.progress.leg as int]));
            }
            (points.len(), points[self.progress.leg].gs_kts, points[self.progress.leg].altitude_ft)
        };
        self.track_deg = turn(self.track_deg, to_fix.bearing_deg, dt);
        self.gs_kts = accelerate(self.gs_kts, target_gs, dt);
        self.altitude_ft = climb(
            self.altitude_ft,
            target_alt,
            self.gs_kts,
            to_fix.distance_nm,
            limit,
            dt,
        );
        self.lat = reached.lat;
        self.lon = reached.lon;
        let d: i64 = reached.to_fix_nm;
        let near: i64 = match self.progress.closest_nm {
            Some(c) => if c < d {
                c
            } else {
                d
            },
            None => d,
        };
        let captured: bool = d < WAYPOINT_CAPTURE_NM;
        let passed: bool = near < CLOSE_APPROACH_NM && d > near + RECEDING_NM;
        if captured || passed {
            self.progress.leg = self.progress.leg + 1;
            self.progress.closest_nm = None;
            if self.progress.leg >= n {
                self.ended = true;
                self.gs_kts = 0;
            }
        } else {
            self.progress.closest_nm = Some(near);
        }
        proof {
            assert(self@ =~= stepped(a, dt as int, to_fix, reached));
        }
    }
}

/// In a step the track turns by the standard rate at most, and straight onto the
/// bearing where that is within reach.
pub proof fn turn_is_limited(track_deg: int, bearing_deg: int, dt: int)
    requires
        0 <= track_deg < FULL_TURN,
        0 <= bearing_deg < FULL_TURN,
        0 <= dt,
    ensures
        0 <= turned(track_deg, bearing_deg, dt) < FULL_TURN,
        -TURN_RATE_DEG_S * dt <= turn_between(track_deg, turned(track_deg, bearing_deg, dt))
            <= TURN_RATE_DEG_S * dt,
        -TURN_RATE_DEG_S * dt <= turn_between(track_deg, bearing_deg) <= TURN_RATE_DEG_S * dt
            ==> turned(track_deg, bearing_deg, dt) == bearing_deg,
{
    let by = held(turn_between(track_deg, bearing_deg), TURN_RATE_DEG_S * dt);
    lemma_held(turn_between(track_deg, bearing_deg), TURN_RATE_DEG_S * dt);
    turn_leads_to(track_deg, bearing_deg);
    turn_leads_to(track_deg, turned(track_deg, bearing_deg, dt));
    lemma_turn_by(track_deg, by);
}

/// In a step of an aircraft the track turns towards the active waypoint, by the
/// standard rate at most.
pub proof fn step_turn_is_limited(a: AircraftView, dt: int, to_fix: Leg, reached: Reached)
    requires
        a.wf(),
        !a.ended,
        0 <= dt,
        to_fix.wf(),
    ensures
        ({
            let b = stepped(a, dt, to_fix, reached);
            let (turn, wanted) = (
                turn_between(a.track_deg, b.track_deg),
                turn_between(a.track_deg, to_fix.bearing_deg as int),
            );
            &&& -TURN_RATE_DEG_S * dt <= turn <= TURN_RATE_DEG_S * dt
            &&& wanted >= 0 ==> 0 <= turn <= wanted
            &&& wanted <= 0 ==> wanted <= turn <= 0
        }),
{
    let wanted = turn_between(a.track_deg, to_fix.bearing_deg as int);
    let by = held(wanted, TURN_RATE_DEG_S * dt);
    lemma_held(wanted, TURN_RATE_DEG_S * dt);
    turn_leads_to(a.track_deg, to_fix.bearing_deg as int);
    lemma_turn_by(a.track_deg, by);
}

/// Turning by less than half a turn is the smallest turn to where it leads.
proof fn lemma_turn_by(track_deg: int, by: int)
    requires
        0 <= track_deg < FULL_TURN,
        -HALF_TURN < by <= HALF_TURN,
    ensures
        turn_between(track_deg, (track_deg + by) % (FULL_TURN as int)) == by,
{
    let to = (track_deg + by) % (FULL_TURN as int);
    assert(to == track_deg + by || to == track_deg + by - FULL_TURN || to == track_deg + by
        + FULL_TURN);
}

/// In a step the ground speed changes by seven tenths of a knot a second at most,
/// towards the target and never past it; on arrival it drops to zero.
pub proof fn speed_is_limited(a: AircraftView, dt: int, to_fix: Leg, reached: Reached)
    requires
        a.wf(),
        0 <= dt,
        !a.ended,
    ensures
        ({
            let b = stepped(a, dt, to_fix, reached);
            let (target, most) = (a.target().gs_kts as int, GS_ACCEL_NUM * dt / GS_ACCEL_DEN as int);
            &&& b.ended ==> b.gs_kts == 0
            &&& !b.ended && a.gs_kts <= target ==> a.gs_kts <= b.gs_kts <= target
            &&& !b.ended && a.gs_kts >= target ==> target <= b.gs_kts <= a.gs_kts
            &&& !b.ended ==> -most <= b.gs_kts - a.gs_kts <= most
        }),
{
    lemma_held(a.target().gs_kts - a.gs_kts, GS_ACCEL_NUM * dt / GS_ACCEL_DEN as int);
}

/// In a step the altitude changes by the limit for the type at most, towards the
/// altitude of the active waypoint and never past it.
pub proof fn climb_is_limited(a: AircraftView, dt: int, to_fix: Leg, reached: Reached)
    requires
        a.wf(),
        0 <= dt,
        to_fix.wf(),
        !a.ended,
        a.limit_holds(),
    ensures
        ({
            let b = stepped(a, dt, to_fix, reached);
            let target = a.target().altitude_ft as int;
            &&& a.altitude_ft <= target ==> a.altitude_ft <= b.altitude_ft <= target
            &&& a.altitude_ft >= target ==> target <= b.altitude_ft <= a.altitude_ft
            &&& capped(a.limit(), dt) matches Some(most) ==> -most <= b.altitude_ft - a.altitude_ft
                <= most
        }),
{
    let t = a.target();
    assert(point_in_bounds(a.plan[a.leg]));
    lemma_held(t.gs_kts - a.gs_kts, GS_ACCEL_NUM * dt / GS_ACCEL_DEN as int);
    let gs = sped(a.gs_kts, t.gs_kts as int, dt);
    let dalt = t.altitude_ft - a.altitude_ft;
    lemma_most_climb(dalt, gs, to_fix.distance_nm as int, a.limit(), dt);
    if let Some(most) = most_climb(dalt, gs, to_fix.distance_nm as int, a.limit(), dt) {
        lemma_held(dalt, most);
    }
}

/// A climb that the limit leaves room for goes at the pace that meets the
/// altitude at the waypoint; one that it does not goes at the limit.
pub proof fn climb_paces_or_caps(
    altitude_ft: int,
    target_ft: int,
    gs_kts: int,
    distance_nm: int,
    limit_fpm: i64,
    dt: int,
)
    requires
        altitude_ft <= target_ft,
        0 <= distance_nm,
        0 <= limit_fpm,
        0 <= dt,
    ensures
        ({
            let limit = Reading::Value(limit_fpm);
            let climb = climbed(altitude_ft, target_ft, gs_kts, distance_nm, limit, dt)
                - altitude_ft;
            let capped = limit_fpm * dt / (MINUTE as int);
            match paced(target_ft - altitude_ft, gs_kts, distance_nm, dt) {
                Some(p) if p <= capped => climb == (if p < target_ft - altitude_ft {
                    p
                } else {
                    target_ft - altitude_ft
                }),
                _ => climb == (if capped < target_ft - altitude_ft {
                    capped
                } else {
                    target_ft - altitude_ft
                }),
            }
        }),
{
    let limit = Reading::Value(limit_fpm);
    lemma_most_climb(target_ft - altitude_ft, gs_kts, distance_nm, limit, dt);
}

/// A step leaves plan, identity and limits alone, moves on by one leg at most and
/// never back, and an aircraft that has arrived stays where it is, at rest.
pub proof fn step_progresses(a: AircraftView, dt: int, to_fix: Leg, reached: Reached)
    requires
        a.wf(),
    ensures
        ({
            let b = stepped(a, dt, to_fix, reached);
            &&& b.callsign == a.callsign && b.icao_address == a.icao_address
            &&& b.plan == a.plan && b.limits == a.limits
            &&& a.leg <= b.leg <= a.leg + 1
            &&& a.ended ==> b == (AircraftView { gs_kts: 0, ..a })
            &&& b.ended && !a.ended ==> a.leg == a.plan.len() - 1 && leg_done(
                a.closest_nm,
                reached.to_fix_nm as int,
            )
            &&& b.leg == a.leg + 1 <==> !a.ended && leg_done(
                a.closest_nm,
                reached.to_fix_nm as int,
            )
        }),
{
}

/// A step that ends at the active waypoint leaves one leg less to fly, and is an
/// arrival iff that was the last.
pub proof fn reaching_waypoint_sequences(a: AircraftView, dt: int, to_fix: Leg, reached: Reached)
    requires
        a.wf(),
        !a.ended,
        reached.to_fix_nm < WAYPOINT_CAPTURE_NM,
    ensures
        ({
            let b = stepped(a, dt, to_fix, reached);
            b.plan.len() - b.leg == a.plan.len() - a.leg - 1 && (b.ended <==> a.plan.len() - a.leg
                == 1)
        }),
{
}

} // verus!
