//! What is told of a flight when its briefing is loaded.

use crate::shared::lido::LidoBriefing;
use crate::shared::plan::{distance_of, FlightPlan};
use crate::text::{chars_of, string_of};
use vstd::prelude::*;

verus! {

/// The summary of a loaded flight.
#[derive(Debug)]
pub struct FlightSummary {
    /// Departure airport and runway, or the first waypoint
    pub from: String,
    /// Arrival airport and runway, or the last waypoint
    pub to: String,
    pub waypoints: usize,
    /// Length of the route, billionths of a nautical mile
    pub distance_nm: u128,
    /// Duration, microseconds
    pub duration_s: u64,
    /// Minutes that the log gives for the flight
    pub log_ete_min: Option<u32>,
    pub aircraft_type: String,
    pub registration: String,
    /// V2 and VREF, where the briefing gives both
    pub speeds: Option<(i64, i64)>,
}

pub open spec fn text_or(s: Option<Seq<char>>, d: Seq<char>) -> Seq<char> {
    match s {
        Some(t) => t,
        None => d,
    }
}

fn string_or(s: &Option<String>, d: &str) -> (r: String)
    ensures
        r@ == (match *s {
            Some(t) => t@,
            None => d@,
        }),
{
    match s {
        Some(t) => t.clone(),
        None => string_of(chars_of(d).as_slice()),
    }
}

/// Sum up a flight.
pub fn flight_summary(briefing: &LidoBriefing, plan: &FlightPlan) -> (r: FlightSummary)
    requires
        plan.wf(),
    ensures
        ({
            let b = briefing@;
            &&& r.from@ == text_or(b.dep_runway, plan@[0].ident)
            &&& r.to@ == text_or(b.arr_runway, plan@.last().ident)
            &&& r.waypoints == plan@.len()
            &&& r.distance_nm == distance_of(plan.legs(), plan.legs().len() as int)
            &&& r.duration_s == plan@.last().time_s
            &&& r.log_ete_min == (if b.waypoints.len() > 0 {
                b.waypoints.last().cum_time_min
            } else {
                None
            })
            &&& r.aircraft_type@ == text_or(b.aircraft_type, "type n/a"@)
            &&& r.registration@ == text_or(b.registration, "reg n/a"@)
            &&& r.speeds == (match (b.v2_kts, b.vref_kts) {
                (Some(v2), Some(vref)) => Some((v2, vref)),
                _ => None,
            })
        }),
{
    let points = plan.points();
    proof {
        assert(points@[0]@ == plan@[0]);
        assert(points@[points@.len() - 1]@ == plan@.last());
    }
    let n: usize = briefing.waypoints.len();
    FlightSummary {
        from: string_or(&briefing.dep_runway, points[0].ident.as_str()),
        to: string_or(&briefing.arr_runway, points[points.len() - 1].ident.as_str()),
        waypoints: points.len(),
        distance_nm: plan.total_distance_nm(),
        duration_s: plan.total_duration_s(),
        log_ete_min: if n > 0 {
            briefing.waypoints[n - 1].cum_time_min
        } else {
            None
        },
        aircraft_type: string_or(&briefing.aircraft_type, "type n/a"),
        registration: string_or(&briefing.registration, "reg n/a"),
        speeds: match (briefing.v2_kts, briefing.vref_kts) {
            (Some(v2), Some(vref)) => Some((v2, vref)),
            _ => None,
        },
    }
}

} // verus!
