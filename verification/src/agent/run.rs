//! What agent mode does when it loads a briefing and on every tick.

use crate::agent::aircraft::{stepped, Aircraft, AircraftView, Reached};
use crate::agent::performance::PerformanceModel;
use crate::number::is_reading;
use crate::shared::cat062::{
    flight_record, record, remap_separates, remapping, replaced, sim_address_number, FlightRecord,
    RecordView, TrackNumbersExhausted, TRACK_NUMBERS,
};
use crate::shared::config::{AsterixConfig, SimulationConfig};
use crate::shared::geo::Leg;
use crate::shared::identity::{
    address_of, callsign_of, flight_identity, is_given, moves, remap_moves, separate_addresses,
    Remap,
};
use crate::shared::lido::LidoBriefing;
use crate::shared::notice::{announce, notice_of, Notice};
use crate::shared::plan::{
    all_in_bounds, briefing_route, is_speed, legs_wf, plan_points, FlightPlan, PlanError,
    THIRD_STAGE_MARGIN_KTS,
};
use crate::text::{string_views, text_of};
use vstd::prelude::*;

verus! {

/// Length of an integration step, in microseconds: one second. Positions are
/// published less often, but turns and climbs stay smooth.
pub const SUBSTEP_S: i64 = 1_000_000;

/// Integration steps between two ticks `poll_interval_secs` apart: one a second,
/// one at the least, as many as the type holds at the most.
pub fn substeps(poll_interval_secs: u64) -> (r: u32)
    ensures
        r >= 1,
        1 <= poll_interval_secs <= u32::MAX ==> r == poll_interval_secs,
        poll_interval_secs == 0 ==> r == 1,
        poll_interval_secs > u32::MAX ==> r == u32::MAX,
        1 <= poll_interval_secs <= u32::MAX ==> r * SUBSTEP_S == poll_interval_secs * 1_000_000,
{
    if poll_interval_secs == 0 {
        1
    } else if poll_interval_secs > u32::MAX as u64 {
        u32::MAX
    } else {
        poll_interval_secs as u32
    }
}

/// The type of an aircraft, nothing where the briefing does not give it.
pub open spec fn type_of(aircraft_type: Option<Seq<char>>) -> Seq<char> {
    match aircraft_type {
        Some(t) => t,
        None => ""@,
    }
}

/// Load a briefing as the aircraft at `index`; `single` says whether it is the
/// only one. The lengths and legs are those of [`FlightPlan::from_briefing`].
pub fn load_aircraft<P: PerformanceModel>(
    config: &SimulationConfig,
    briefing: &LidoBriefing,
    geometry: (i64, i64, Vec<Leg>),
    index: usize,
    single: bool,
    perf: &P,
) -> (r: Result<Aircraft, PlanError>)
    requires
        all_in_bounds(briefing@.waypoints),
        is_speed(briefing.v2_kts),
        briefing.vref_kts matches Some(v) ==> is_reading(v as int) && is_reading(
            v + THIRD_STAGE_MARGIN_KTS,
        ),
        ({
            let (departure_nm, final_nm, legs) = geometry;
            legs_wf(legs@) && (briefing@.waypoints.len() >= 2 ==> legs@.len() + 1
                == briefing_route(briefing@, departure_nm as int, final_nm as int).len())
        }),
        is_given(text_of(config.callsign), briefing@.callsign, single) || index < usize::MAX,
        is_given(text_of(config.icao_address), briefing@.icao_address, single)
            || sim_address_number(index as nat) <= u32::MAX,
    ensures
        ({
            let (departure_nm, final_nm, legs) = geometry;
            let ws = briefing_route(briefing@, departure_nm as int, final_nm as int);
            let silent = forall|i: int| 0 <= i < ws.len() ==> (#[trigger] ws[i]).gs_kts is None;
            match r {
                Ok(a) => {
                    let p = plan_points(ws, legs@)[0];
                    &&& ws.len() >= 2 && !silent
                    &&& a@.wf()
                    &&& a@ == (AircraftView {
                        callsign: callsign_of(*config, briefing@, index as nat, single),
                        icao_address: address_of(*config, briefing@, index as nat, single),
                        lat: p.lat as int,
                        lon: p.lon as int,
                        altitude_ft: p.altitude_ft as int,
                        gs_kts: p.gs_kts as int,
                        track_deg: p.track_deg as int,
                        plan: plan_points(ws, legs@),
                        leg: 1,
                        closest_nm: None,
                        limits: perf.limits_for(type_of(briefing@.aircraft_type)),
                        ended: false,
                    })
                },
                Err(PlanError::TooFewWaypoints { count }) => count == ws.len() && count < 2,
                Err(PlanError::NoGroundSpeeds) => ws.len() >= 2 && silent,
            }
        }),
{
    let (departure_nm, final_nm, legs) = geometry;
    let plan = match FlightPlan::from_briefing(briefing, departure_nm, final_nm, legs) {
        Ok(p) => p,
        Err(e) => {
            return Err(e);
        },
    };
    let limits = match &briefing.aircraft_type {
        Some(t) => perf.vertical_limits(t.as_str()),
        None => perf.vertical_limits(""),
    };
    let identity = flight_identity(config, briefing, index, single);
    Ok(Aircraft::new(identity.callsign, identity.icao_address, plan, limits))
}

pub open spec fn fleet_views(v: Seq<Aircraft>) -> Seq<AircraftView> {
    Seq::new(v.len(), |i: int| v[i]@)
}

/// The addresses of some aircraft.
pub open spec fn fleet_addresses(fleet: Seq<AircraftView>) -> Seq<Seq<char>> {
    Seq::new(fleet.len(), |i: int| fleet[i].icao_address)
}

/// An aircraft with another address.
pub open spec fn with_address(a: AircraftView, icao_address: Seq<char>) -> AircraftView {
    AircraftView { icao_address, ..a }
}

/// Aircraft with other addresses.
pub open spec fn with_addresses(fleet: Seq<AircraftView>, addresses: Seq<Seq<char>>) -> Seq<
    AircraftView,
> {
    Seq::new(fleet.len(), |i: int| with_address(fleet[i], addresses[i]))
}

/// Give every aircraft its own track number. Returns the addresses that were
/// replaced; where there is an aircraft for which no number is left, none is.
pub fn remap_fleet(fleet: &mut Vec<Aircraft>) -> (r: Result<Vec<Remap>, TrackNumbersExhausted>)
    ensures
        ({
            let before = fleet_views(old(fleet)@);
            let after = fleet_views(final(fleet)@);
            let addresses = fleet_addresses(before);
            match (r, remapping(addresses)) {
                (Ok(v), Ok(remaps)) => after == with_addresses(before, replaced(addresses, remaps))
                    && remap_moves(v@) == moves(addresses, remaps),
                (Err(e), Err(i)) => after == before && 0 <= i < before.len() && e.icao_address@
                    == addresses[i],
                _ => false,
            }
        }),
        r is Ok <==> old(fleet)@.len() <= TRACK_NUMBERS,
{
    let ghost before = fleet_views(fleet@);
    let ghost given = fleet_addresses(before);
    let mut addresses: Vec<String> = Vec::new();
    let mut i: usize = 0;
    while i < fleet.len()
        invariant
            i <= fleet@.len(),
            fleet@ == old(fleet)@,
            before == fleet_views(fleet@),
            addresses@.len() == i,
            forall|k: int| 0 <= k < i ==> (#[trigger] addresses@[k])@ == before[k].icao_address,
        decreases fleet@.len() - i,
    {
        addresses.push(fleet[i].icao_address.clone());
        i += 1;
    }
    proof {
        assert(string_views(addresses@) =~= given);
    }
    let remaps = match separate_addresses(&mut addresses) {
        Ok(v) => v,
        Err(e) => {
            return Err(e);
        },
    };
    let ghost taken = string_views(addresses@);
    let mut k: usize = 0;
    while k < fleet.len()
        invariant
            k <= fleet@.len(),
            fleet@.len() == before.len(),
            addresses@.len() == before.len(),
            taken == string_views(addresses@),
            forall|j: int|
                0 <= j < k ==> (#[trigger] fleet@[j])@ == with_address(before[j], taken[j]),
            forall|j: int| k <= j < before.len() ==> (#[trigger] fleet@[j])@ == before[j],
        decreases fleet@.len() - k,
    {
        let address = addresses[k].clone();
        fleet[k].icao_address = address;
        proof {
            assert(fleet@[k as int]@ =~= with_address(before[k as int], taken[k as int]));
        }
        k += 1;
    }
    proof {
        assert(fleet_views(fleet@) =~= with_addresses(before, taken));
    }
    Ok(remaps)
}

/// What is published of an aircraft.
pub open spec fn aircraft_record(
    a: AircraftView,
    asterix: AsterixConfig,
    time_of_day: u64,
) -> RecordView {
    record(
        asterix,
        a.callsign,
        a.icao_address,
        a.lat as i64,
        a.lon as i64,
        a.altitude_ft as i64,
        a.gs_kts as i64,
        a.track_deg as i64,
        time_of_day,
    )
}

/// One aircraft on one tick.
#[derive(Debug)]
pub struct AgentTick {
    pub record: FlightRecord,
    pub notice: Notice,
}

/// Publish the current state of all aircraft: one record for each, in order.
/// `announced` says whose arrival has been told, `times` are the times of day of
/// the records.
pub fn tick(
    fleet: &Vec<Aircraft>,
    announced: &mut Vec<bool>,
    asterix: AsterixConfig,
    times: &Vec<u64>,
) -> (r: Vec<AgentTick>)
    requires
        times@.len() == fleet@.len(),
        old(announced)@.len() == fleet@.len(),
    ensures
        r@.len() == fleet@.len(),
        forall|i: int|
            0 <= i < r@.len() ==> (#[trigger] r@[i]).record@ == aircraft_record(
                fleet@[i]@,
                asterix,
                times@[i],
            ) && r@[i].notice == notice_of(fleet@[i]@.ended, old(announced)@[i]),
        final(announced)@.len() == old(announced)@.len(),
        forall|i: int|
            0 <= i < fleet@.len() ==> #[trigger] final(announced)@[i] == (old(announced)@[i]
                || fleet@[i].ended),
{
    let mut out: Vec<AgentTick> = Vec::new();
    let mut i: usize = 0;
    while i < fleet.len()
        invariant
            i <= fleet@.len(),
            times@.len() == fleet@.len(),
            announced@.len() == fleet@.len(),
            old(announced)@.len() == fleet@.len(),
            out@.len() == i,
            forall|k: int| i <= k < fleet@.len() ==> announced@[k] == old(announced)@[k],
            forall|k: int|
                0 <= k < i ==> #[trigger] announced@[k] == (old(announced)@[k] || fleet@[k].ended),
            forall|k: int|
                0 <= k < i ==> (#[trigger] out@[k]).record@ == aircraft_record(
                    fleet@[k]@,
                    asterix,
                    times@[k],
                ) && out@[k].notice == notice_of(fleet@[k]@.ended, old(announced)@[k]),
        decreases fleet@.len() - i,
    {
        let a: &Aircraft = &fleet[i];
        let record = flight_record(
            asterix,
            a.callsign.as_str(),
            a.icao_address.as_str(),
            a.lat,
            a.lon,
            a.altitude_ft,
            a.gs_kts,
            a.track_deg,
            times[i],
        );
        let notice = announce(a.ended, &mut announced[i]);
        out.push(AgentTick { record, notice });
        i += 1;
    }
    out
}

/// Advance all aircraft by one integration step. `to_fix` and `reached` are those
/// of [`Aircraft::step`], one for each aircraft.
pub fn step_fleet(fleet: &mut Vec<Aircraft>, to_fix: &Vec<Leg>, reached: &Vec<Reached>)
    requires
        to_fix@.len() == old(fleet)@.len(),
        reached@.len() == old(fleet)@.len(),
        forall|i: int|
            0 <= i < old(fleet)@.len() ==> {
                let a = (#[trigger] old(fleet)@[i])@;
                a.wf() && (a.ended || (to_fix@[i].wf() && reached@[i].wf() && a.limit_holds()))
            },
    ensures
        final(fleet)@.len() == old(fleet)@.len(),
        forall|i: int|
            0 <= i < final(fleet)@.len() ==> (#[trigger] final(fleet)@[i])@ == stepped(
                old(fleet)@[i]@,
                SUBSTEP_S as int,
                to_fix@[i],
                reached@[i],
            ) && final(fleet)@[i]@.wf(),
{
    let mut i: usize = 0;
    while i < fleet.len()
        invariant
            i <= fleet@.len(),
            fleet@.len() == old(fleet)@.len(),
            to_fix@.len() == fleet@.len(),
            reached@.len() == fleet@.len(),
            forall|k: int|
                0 <= k < old(fleet)@.len() ==> {
                    let a = (#[trigger] old(fleet)@[k])@;
                    a.wf() && (a.ended || (to_fix@[k].wf() && reached@[k].wf() && a.limit_holds()))
                },
            forall|k: int| i <= k < fleet@.len() ==> #[trigger] fleet@[k] == old(fleet)@[k],
            forall|k: int|
                0 <= k < i ==> (#[trigger] fleet@[k])@ == stepped(
                    old(fleet)@[k]@,
                    SUBSTEP_S as int,
                    to_fix@[k],
                    reached@[k],
                ) && fleet@[k]@.wf(),
        decreases fleet@.len() - i,
    {
        assert(fleet@[i as int] == old(fleet)@[i as int]);
        fleet[i].step(SUBSTEP_S, to_fix[i], reached[i]);
        i += 1;
    }
}

/// After [`remap_fleet`] no two aircraft publish the same track number.
pub proof fn remapped_fleet_differs(
    fleet: Seq<AircraftView>,
    asterix: AsterixConfig,
    time_of_day: u64,
    i: int,
    j: int,
)
    requires
        remapping(fleet_addresses(fleet)) is Ok,
        0 <= i < j < fleet.len(),
    ensures
        ({
            let addresses = replaced(
                fleet_addresses(fleet),
                remapping(fleet_addresses(fleet))->Ok_0,
            );
            let out = with_addresses(fleet, addresses);
            aircraft_record(out[i], asterix, time_of_day).track_number != aircraft_record(
                out[j],
                asterix,
                time_of_day,
            ).track_number
        }),
{
    remap_separates(fleet_addresses(fleet));
}

} // verus!
