//! The path of a flight as a function of time: a flight plan with its sampler.

use crate::number::is_reading;
use crate::replay::sampler::{sample, state_at};
use crate::shared::geo::Leg;
use crate::shared::lido::{waypoint_views, Waypoint};
use crate::shared::plan::{
    all_in_bounds, briefing_route, distance_of, is_speed, legs_wf, plan_points, point_views,
    FlightPlan, PlanError, PlanPointView, THIRD_STAGE_MARGIN_KTS,
};
use vstd::prelude::*;

pub use crate::replay::sampler::SimulatedState;
pub use crate::shared::lido::LidoBriefing as LidoBulletin;
pub use crate::shared::plan::PlanPoint as PathPoint;

verus! {

/// A flight plan that can be sampled.
#[derive(Debug)]
pub struct FlightPath {
    pub plan: FlightPlan,
}

impl View for FlightPath {
    type V = Seq<PlanPointView>;

    open spec fn view(&self) -> Seq<PlanPointView> {
        self.plan@
    }
}

impl FlightPath {
    pub open spec fn wf(&self) -> bool {
        self.plan.wf()
    }

    /// Build a path from a bulletin, with the speed profiles of departure and
    /// arrival where it gives V2 and VREF. Lengths and legs are those of
    /// [`FlightPlan::from_briefing`].
    pub fn from_bulletin(
        bulletin: &LidoBulletin,
        departure_nm: i64,
        final_nm: i64,
        legs: Vec<Leg>,
    ) -> (r: Result<Self, PlanError>)
        requires
            all_in_bounds(bulletin@.waypoints),
            is_speed(bulletin.v2_kts),
            bulletin.vref_kts matches Some(v) ==> is_reading(v as int) && is_reading(
                v + THIRD_STAGE_MARGIN_KTS,
            ),
            legs_wf(legs@),
            bulletin@.waypoints.len() >= 2 ==> legs@.len() + 1 == briefing_route(
                bulletin@,
                departure_nm as int,
                final_nm as int,
            ).len(),
        ensures
            ({
                let ws = briefing_route(bulletin@, departure_nm as int, final_nm as int);
                let silent = forall|i: int| 0 <= i < ws.len() ==> (#[trigger] ws[i]).gs_kts is None;
                match r {
                    Ok(path) => ws.len() >= 2 && !silent && path@ == plan_points(ws, legs@)
                        && path.plan.legs() == legs@ && path.wf(),
                    Err(PlanError::TooFewWaypoints { count }) => count == ws.len() && count < 2,
                    Err(PlanError::NoGroundSpeeds) => ws.len() >= 2 && silent,
                }
            }),
    {
        match FlightPlan::from_briefing(bulletin, departure_nm, final_nm, legs) {
            Ok(plan) => Ok(FlightPath { plan }),
            Err(e) => Err(e),
        }
    }

    /// Build a path along some waypoints; `legs` are the great circles from each
    /// to the next.
    pub fn from_waypoints(waypoints: Vec<Waypoint>, legs: Vec<Leg>) -> (r: Result<Self, PlanError>)
        requires
            all_in_bounds(waypoint_views(waypoints@)),
            legs_wf(legs@),
            waypoints@.len() >= 2 ==> legs@.len() + 1 == waypoints@.len(),
        ensures
            ({
                let ws = waypoint_views(waypoints@);
                let silent = forall|i: int| 0 <= i < ws.len() ==> (#[trigger] ws[i]).gs_kts is None;
                match r {
                    Ok(path) => ws.len() >= 2 && !silent && path@ == plan_points(ws, legs@)
                        && path.plan.legs() == legs@ && path.wf(),
                    Err(PlanError::TooFewWaypoints { count }) => count == ws.len() && count < 2,
                    Err(PlanError::NoGroundSpeeds) => ws.len() >= 2 && silent,
                }
            }),
    {
        match FlightPlan::from_waypoints(waypoints, legs) {
            Ok(plan) => Ok(FlightPath { plan }),
            Err(e) => Err(e),
        }
    }

    pub fn points(&self) -> (r: &[PathPoint])
        ensures
            point_views(r@) == self@,
    {
        self.plan.points()
    }

    /// Microseconds from departure to the last point.
    pub fn total_duration_s(&self) -> (r: u64)
        requires
            self.wf(),
        ensures
            r == self@.last().time_s,
    {
        self.plan.total_duration_s()
    }

    /// Length of the route, billionths of a nautical mile.
    pub fn total_distance_nm(&self) -> (r: u128)
        requires
            self.wf(),
        ensures
            r == distance_of(self.plan.legs(), self.plan.legs().len() as int),
    {
        self.plan.total_distance_nm()
    }

    /// Interpolated state `elapsed_s` microseconds after departure; past the
    /// destination the final position, with zero speed.
    pub fn sample(&self, elapsed_s: i64) -> (r: SimulatedState)
        requires
            self.wf(),
        ensures
            r@ == state_at(self@, elapsed_s as int),
    {
        sample(&self.plan, elapsed_s)
    }
}

} // verus!
