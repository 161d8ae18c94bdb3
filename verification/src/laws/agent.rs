//! What a step does to an aircraft.

use crate::agent::aircraft::{flown, sped, step_keeps_wf, stepped, turned, AircraftView, Reached};
use crate::laws::{greatest_part, lemma_quotient, on_the_way, size};
use crate::number::Reading;
use crate::shared::geo::{turn_between, Leg};
use crate::shared::plan::point_in_bounds;
use vstd::prelude::*;

verus! {

/// The ground speed goes towards that of the active waypoint, by seven tenths of a
/// knot a second and no more, and onto it where it is within reach.
pub open spec fn speeds_up(before: int, target: int, after: int, dt: int) -> bool {
    &&& on_the_way(after, before, target)
    &&& greatest_part(size(after - before), size(target - before), 7 * dt, 10)
}

/// In a step the ground speed goes towards that of the active waypoint by seven
/// tenths of a knot a second, and onto it where it is within reach; an aircraft
/// that arrives comes to rest.
pub proof fn step_speed(a: AircraftView, dt: int, to_fix: Leg, reached: Reached)
    requires
        a.wf(),
        !a.ended,
        0 <= dt,
    ensures
        ({
            let b = stepped(a, dt, to_fix, reached);
            if b.ended {
                b.gs_kts == 0
            } else {
                speeds_up(a.gs_kts, a.plan[a.leg].gs_kts as int, b.gs_kts, dt)
            }
        }),
{
}

/// In a step the altitude goes towards that of the active waypoint, up or down, by
/// as much as the limit for the type allows in the time and as the pace asks that
/// meets it at the waypoint: the altitude left, times the way flown at ground speed
/// `gs` over the way left. It goes onto it where that is within reach, and nowhere
/// while the aircraft stands.
///
/// `gs` is the ground speed of the step.
pub proof fn step_altitude(a: AircraftView, dt: int, to_fix: Leg, reached: Reached, gs: int)
    requires
        a.wf(),
        !a.ended,
        a.can_step(dt, to_fix),
        to_fix.wf(),
        speeds_up(a.gs_kts, a.plan[a.leg].gs_kts as int, gs, dt),
    ensures
        ({
            let b = stepped(a, dt, to_fix, reached);
            let target = a.plan[a.leg].altitude_ft as int;
            let (left, moved) = (size(target - a.altitude_ft), size(b.altitude_ft - a.altitude_ft));
            let limit = if target >= a.altitude_ft {
                a.limits.climb_at(a.altitude_ft as i64)
            } else {
                a.limits.descent_at(a.altitude_ft as i64)
            };
            // at more than a knot, and more than a millionth of a minute away
            let paced = 60_000 * to_fix.distance_nm > gs;
            let pace = left * gs * dt;
            let way = to_fix.distance_nm * 3_600_000;
            &&& on_the_way(b.altitude_ft, a.altitude_ft, target)
            &&& gs <= 1_000_000 ==> moved == 0
            &&& gs > 1_000_000 ==> {
                &&& moved <= left
                &&& limit matches Reading::Value(l) ==> moved * 60_000_000 <= l * dt
                &&& paced ==> moved * way <= pace
                // and no less than it could be
                &&& moved == left || (limit matches Reading::Value(l) && (moved + 1) * 60_000_000
                    > l * dt) || (paced && (moved + 1) * way > pace)
            }
        }),
{
    let t = a.plan[a.leg];
    assert(point_in_bounds(a.plan[a.leg]));
    step_keeps_wf(a, dt, to_fix, Reached { to_fix_nm: 0, ..reached });
    let b = stepped(a, dt, to_fix, reached);
    let left = size(t.altitude_ft - a.altitude_ft);
    let moved = size(b.altitude_ft - a.altitude_ft);
    assert(gs == sped(a.gs_kts, t.gs_kts as int, dt));
    if let Reading::Value(l) = a.limit() {
        lemma_quotient(l * dt, 60_000_000, moved);
        assert(0 <= l * dt) by (nonlinear_arith)
            requires
                0 <= l,
                0 <= dt,
        ;
    }
    if gs > 1_000_000 && 60_000 * to_fix.distance_nm > gs {
        let n = left * gs * dt;
        let way = to_fix.distance_nm * 3_600_000;
        assert(0 <= n) by (nonlinear_arith)
            requires
                n == left * gs * dt,
                0 <= left,
                0 <= gs,
                0 <= dt,
        ;
        lemma_quotient(n, way, moved);
    }
}

/// In a step the track turns the shorter way towards the active waypoint, `wanted`
/// of it, by three degrees a second and no more, and onto it where it is within
/// reach. A turn to the right is positive, and half a turn goes right.
pub proof fn step_track(a: AircraftView, dt: int, to_fix: Leg, reached: Reached, wanted: int)
    requires
        a.wf(),
        !a.ended,
        0 <= dt,
        to_fix.wf(),
        -180_000_000 < wanted <= 180_000_000,
        (a.track_deg + wanted - to_fix.bearing_deg) % 360_000_000 == 0,
    ensures
        ({
            let b = stepped(a, dt, to_fix, reached);
            &&& 0 <= b.track_deg < 360_000_000
            &&& -3 * dt <= wanted <= 3 * dt ==> b.track_deg == to_fix.bearing_deg
            &&& wanted > 3 * dt ==> (b.track_deg - a.track_deg - 3 * dt) % 360_000_000 == 0
            &&& wanted < -3 * dt ==> (b.track_deg - a.track_deg + 3 * dt) % 360_000_000 == 0
        }),
{
    assert(turn_between(a.track_deg, to_fix.bearing_deg as int) == wanted);
}

/// A step takes up the position it leads to, and leaves callsign, address, plan and
/// limits alone; once arrived it leaves all alone, at rest.
pub proof fn step_position(a: AircraftView, dt: int, to_fix: Leg, reached: Reached)
    requires
        a.wf(),
    ensures
        ({
            let b = stepped(a, dt, to_fix, reached);
            &&& b.callsign == a.callsign && b.icao_address == a.icao_address
            &&& b.plan == a.plan && b.limits == a.limits
            &&& !a.ended ==> b.lat == reached.lat && b.lon == reached.lon
            &&& a.ended ==> {
                &&& b.ended && b.gs_kts == 0
                &&& b.lat == a.lat && b.lon == a.lon && b.altitude_ft == a.altitude_ft
                &&& b.track_deg == a.track_deg && b.leg == a.leg
            }
        }),
{
}

/// An aircraft goes on to the next waypoint once it is within a mile of the active
/// one, or three tenths of a mile further from it than it ever was on this leg,
/// where that was within three miles; and only then. It has arrived once there is
/// no next one.
pub proof fn step_sequencing(a: AircraftView, dt: int, to_fix: Leg, reached: Reached)
    requires
        a.wf(),
        !a.ended,
    ensures
        ({
            let b = stepped(a, dt, to_fix, reached);
            let d = reached.to_fix_nm as int;
            // the closest it came before this step
            let ever = a.closest_nm matches Some(c) && c <= d;
            let behind = a.closest_nm matches Some(c) && c < 3_000_000_000 && d > c
                + 300_000_000;
            &&& d < 1_000_000_000 || behind ==> b.leg == a.leg + 1 && b.closest_nm is None
            &&& !(d < 1_000_000_000 || behind) ==> {
                &&& b.leg == a.leg
                &&& !b.ended
                &&& ever ==> b.closest_nm == a.closest_nm
                &&& !ever ==> b.closest_nm == Some(d)
            }
            &&& b.ended <==> b.leg == a.plan.len()
        }),
{
}

/// A step flies along the track it turns to, and as far as its ground speed takes
/// it in the time.
pub proof fn travel_is_that_of_the_step(
    a: AircraftView,
    dt: int,
    to_fix: Leg,
    reached: Reached,
    gs: int,
)
    requires
        a.wf(),
        !a.ended,
        0 <= dt,
        to_fix.wf(),
        speeds_up(a.gs_kts, a.plan[a.leg].gs_kts as int, gs, dt),
    ensures
        turned(a.track_deg, to_fix.bearing_deg as int, dt) == stepped(
            a,
            dt,
            to_fix,
            reached,
        ).track_deg,
        ({
            let far = flown(sped(a.gs_kts, a.target().gs_kts as int, dt), dt);
            &&& gs >= 0 ==> far * 3_600_000 <= gs * dt < (far + 1) * 3_600_000
            &&& gs < 0 ==> -far * 3_600_000 <= -gs * dt < (-far + 1) * 3_600_000
        }),
{
    lemma_quotient(gs * dt, 3_600_000, gs * dt / 3_600_000);
    lemma_quotient(-gs * dt, 3_600_000, -gs * dt / 3_600_000);
}

} // verus!
