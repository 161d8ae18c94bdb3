//! What a replay does when it loads a briefing and on every tick.

use crate::replay::sampler::{sample, state_at, SimulatedState};
use crate::number::is_reading;
use crate::shared::cat062::{
    flight_record, record, remap_separates, remapping, replaced, sim_address_number, FlightRecord,
    RecordView, TrackNumbersExhausted, TRACK_NUMBERS,
};
use crate::shared::config::{AsterixConfig, SimulationConfig};
use crate::shared::geo::Leg;
use crate::shared::identity::{
    address_of, callsign_of, flight_identity, is_given, moves, remap_moves, separate_addresses, Remap,
};
use crate::shared::lido::LidoBriefing;
use crate::shared::notice::{announce, notice_of, Notice};
use crate::shared::plan::{
    all_in_bounds, briefing_route, is_plan, is_speed, legs_wf, plan_points, FlightPlan, PlanError,
    PlanPointView, THIRD_STAGE_MARGIN_KTS,
};
use crate::text::{string_views, text_of};
use vstd::prelude::*;

verus! {

/// One replayed flight: a plan and the identity that it is published under.
#[derive(Debug)]
pub struct SimFlight {
    pub plan: FlightPlan,
    pub callsign: String,
    pub icao_address: String,
    /// Name of the destination, for the arrival announcement
    pub arrival: String,
    pub holding_announced: bool,
}

#[verifier::ext_equal]
pub struct SimFlightView {
    pub plan: Seq<PlanPointView>,
    pub callsign: Seq<char>,
    pub icao_address: Seq<char>,
    pub arrival: Seq<char>,
    pub holding_announced: bool,
}

impl View for SimFlight {
    type V = SimFlightView;

    open spec fn view(&self) -> SimFlightView {
        SimFlightView {
            plan: self.plan@,
            callsign: self.callsign@,
            icao_address: self.icao_address@,
            arrival: self.arrival@,
            holding_announced: self.holding_announced,
        }
    }
}

pub open spec fn flight_views(v: Seq<SimFlight>) -> Seq<SimFlightView> {
    Seq::new(v.len(), |i: int| v[i]@)
}

/// The addresses of some flights.
pub open spec fn flight_addresses(fs: Seq<SimFlightView>) -> Seq<Seq<char>> {
    Seq::new(fs.len(), |i: int| fs[i].icao_address)
}

/// Load a briefing as the flight at `index`; `single` says whether it is the only
/// one. The lengths and legs are those of [`FlightPlan::from_briefing`].
pub fn load_sim_flight(
    config: &SimulationConfig,
    briefing: &LidoBriefing,
    geometry: (i64, i64, Vec<Leg>),
    index: usize,
    single: bool,
) -> (r: Result<SimFlight, PlanError>)
    requires
        all_in_bounds(briefing@.waypoints),
        is_speed(briefing.v2_kts),
        briefing.vref_kts matches Some(v) ==> is_reading(v as int) && is_reading(
            v + THIRD_STAGE_MARGIN_KTS,
        ),
        ({
            let (departure_nm, final_nm, legs) = geometry;
            legs_wf(legs@) && (briefing@.waypoints.len() >= 2 ==> legs@.len() + 1
                == briefing_route(briefing@, departure_nm as int, final_nm as int).len())
        }),
        is_given(text_of(config.callsign), briefing@.callsign, single) || index < usize::MAX,
        is_given(text_of(config.icao_address), briefing@.icao_address, single)
            || sim_address_number(index as nat) <= u32::MAX,
    ensures
        ({
            let (departure_nm, final_nm, legs) = geometry;
            let ws = briefing_route(briefing@, departure_nm as int, final_nm as int);
            let silent = forall|i: int| 0 <= i < ws.len() ==> (#[trigger] ws[i]).gs_kts is None;
            match r {
                Ok(f) => {
                    &&& ws.len() >= 2 && !silent
                    &&& f.plan.wf() && f.plan.legs() == legs@
                    &&& f@ == (SimFlightView {
                        plan: plan_points(ws, legs@),
                        callsign: callsign_of(*config, briefing@, index as nat, single),
                        icao_address: address_of(*config, briefing@, index as nat, single),
                        arrival: ws.last().ident,
                        holding_announced: false,
                    })
                },
                Err(PlanError::TooFewWaypoints { count }) => count == ws.len() && count < 2,
                Err(PlanError::NoGroundSpeeds) => ws.len() >= 2 && silent,
            }
        }),
{
    let (departure_nm, final_nm, legs) = geometry;
    let plan = match FlightPlan::from_briefing(briefing, departure_nm, final_nm, legs) {
        Ok(p) => p,
        Err(e) => {
            return Err(e);
        },
    };
    let identity = flight_identity(config, briefing, index, single);
    let arrival = {
        let points = plan.points();
        proof {
            assert(points@[points@.len() - 1]@ == plan@.last());
        }
        points[points.len() - 1].ident.clone()
    };
    let flight = SimFlight {
        plan,
        callsign: identity.callsign,
        icao_address: identity.icao_address,
        arrival,
        holding_announced: false,
    };
    Ok(flight)
}

/// A flight with another address.
pub open spec fn with_address(f: SimFlightView, icao_address: Seq<char>) -> SimFlightView {
    SimFlightView { icao_address, ..f }
}

/// Flights with other addresses.
pub open spec fn with_addresses(fs: Seq<SimFlightView>, addresses: Seq<Seq<char>>) -> Seq<
    SimFlightView,
> {
    Seq::new(fs.len(), |i: int| with_address(fs[i], addresses[i]))
}

/// Give every flight its own track number. Returns the addresses that were
/// replaced; where there is a flight for which no number is left, none is.
pub fn remap_flights(flights: &mut Vec<SimFlight>) -> (r: Result<
    Vec<Remap>,
    TrackNumbersExhausted,
>)
    ensures
        ({
            let before = flight_views(old(flights)@);
            let after = flight_views(final(flights)@);
            let addresses = flight_addresses(before);
            match (r, remapping(addresses)) {
                (Ok(v), Ok(remaps)) => after == with_addresses(before, replaced(addresses, remaps))
                    && remap_moves(v@) == moves(addresses, remaps),
                (Err(e), Err(i)) => after == before && 0 <= i < before.len() && e.icao_address@
                    == addresses[i],
                _ => false,
            }
        }),
        r is Ok <==> old(flights)@.len() <= TRACK_NUMBERS,
        forall|i: int|
            0 <= i < old(flights)@.len() ==> (#[trigger] final(flights)@[i]).plan == old(
                flights,
            )@[i].plan,
{
    let ghost before = flight_views(flights@);
    let ghost given = flight_addresses(before);
    let mut addresses: Vec<String> = Vec::new();
    let mut i: usize = 0;
    while i < flights.len()
        invariant
            i <= flights@.len(),
            flights@ == old(flights)@,
            before == flight_views(flights@),
            addresses@.len() == i,
            forall|k: int| 0 <= k < i ==> (#[trigger] addresses@[k])@ == before[k].icao_address,
        decreases flights@.len() - i,
    {
        addresses.push(flights[i].icao_address.clone());
        i += 1;
    }
    proof {
        assert(string_views(addresses@) =~= given);
    }
    let remaps = match separate_addresses(&mut addresses) {
        Ok(v) => v,
        Err(e) => {
            return Err(e);
        },
    };
    let ghost taken = string_views(addresses@);
    let mut k: usize = 0;
    while k < flights.len()
        invariant
            k <= flights@.len(),
            flights@.len() == before.len(),
            flights@.len() == old(flights)@.len(),
            addresses@.len() == before.len(),
            taken == string_views(addresses@),
            before == flight_views(old(flights)@),
            forall|j: int|
                0 <= j < k ==> (#[trigger] flights@[j])@ == with_address(before[j], taken[j]),
            forall|j: int| k <= j < before.len() ==> (#[trigger] flights@[j])@ == before[j],
            forall|j: int|
                0 <= j < before.len() ==> (#[trigger] flights@[j]).plan == old(flights)@[j].plan,
        decreases flights@.len() - k,
    {
        let address = addresses[k].clone();
        flights[k].icao_address = address;
        proof {
            assert(flights@[k as int]@ =~= with_address(before[k as int], taken[k as int]));
        }
        k += 1;
    }
    proof {
        assert(flight_views(flights@) =~= with_addresses(before, taken));
    }
    Ok(remaps)
}

/// One flight on one tick.
#[derive(Debug)]
pub struct Tick {
    pub state: SimulatedState,
    pub record: FlightRecord,
    pub notice: Notice,
}

/// What is published of a flight at a moment.
pub open spec fn flight_record_at(
    f: SimFlightView,
    asterix: AsterixConfig,
    elapsed_s: int,
    time_of_day: u64,
) -> RecordView {
    let s = state_at(f.plan, elapsed_s);
    record(
        asterix,
        f.callsign,
        f.icao_address,
        s.lat as i64,
        s.lon as i64,
        s.altitude_ft as i64,
        s.gs_kts as i64,
        s.track_deg as i64,
        time_of_day,
    )
}

/// What there is to tell of a flight at a moment.
pub open spec fn notice_at(f: SimFlightView, elapsed_s: int) -> Notice {
    notice_of(state_at(f.plan, elapsed_s).ended, f.holding_announced)
}

/// A flight after a tick.
pub open spec fn ticked(f: SimFlightView, elapsed_s: int) -> SimFlightView {
    SimFlightView {
        holding_announced: f.holding_announced || state_at(f.plan, elapsed_s).ended,
        ..f
    }
}

/// Sample one flight `elapsed_s` microseconds after departure.
pub fn tick_flight(
    flight: &mut SimFlight,
    asterix: AsterixConfig,
    elapsed_s: i64,
    time_of_day: u64,
) -> (r: Tick)
    requires
        old(flight).plan.wf(),
    ensures
        r.state@ == state_at(old(flight)@.plan, elapsed_s as int),
        r.record@ == flight_record_at(old(flight)@, asterix, elapsed_s as int, time_of_day),
        r.notice == notice_at(old(flight)@, elapsed_s as int),
        final(flight)@ == ticked(old(flight)@, elapsed_s as int),
        final(flight).plan == old(flight).plan,
{
    let state = sample(&flight.plan, elapsed_s);
    let record = flight_record(
        asterix,
        flight.callsign.as_str(),
        flight.icao_address.as_str(),
        state.lat,
        state.lon,
        state.altitude_ft,
        state.gs_kts,
        state.track_deg,
        time_of_day,
    );
    let notice = announce(state.ended, &mut flight.holding_announced);
    Tick { state, record, notice }
}

/// Sample all flights `elapsed_s` microseconds after departure: one record for
/// each, in order. `times` are the times of day of the records.
pub fn tick(
    flights: &mut Vec<SimFlight>,
    asterix: AsterixConfig,
    elapsed_s: i64,
    times: &Vec<u64>,
) -> (r: Vec<Tick>)
    requires
        times@.len() == old(flights)@.len(),
        forall|i: int| 0 <= i < old(flights)@.len() ==> (#[trigger] old(flights)@[i]).plan.wf(),
    ensures
        r@.len() == old(flights)@.len(),
        forall|i: int|
            0 <= i < r@.len() ==> {
                let f = old(flights)@[i]@;
                &&& (#[trigger] r@[i]).state@ == state_at(f.plan, elapsed_s as int)
                &&& r@[i].record@ == flight_record_at(f, asterix, elapsed_s as int, times@[i])
                &&& r@[i].notice == notice_at(f, elapsed_s as int)
            },
        final(flights)@.len() == old(flights)@.len(),
        forall|i: int|
            0 <= i < old(flights)@.len() ==> (#[trigger] final(flights)@[i])@ == ticked(
                old(flights)@[i]@,
                elapsed_s as int,
            ) && final(flights)@[i].plan.wf(),
{
    let mut out: Vec<Tick> = Vec::new();
    let mut i: usize = 0;
    while i < flights.len()
        invariant
            i <= flights@.len(),
            flights@.len() == old(flights)@.len(),
            times@.len() == flights@.len(),
            out@.len() == i,
            forall|k: int| 0 <= k < flights@.len() ==> (#[trigger] flights@[k]).plan.wf(),
            forall|k: int| i <= k < flights@.len() ==> #[trigger] flights@[k] == old(flights)@[k],
            forall|k: int|
                0 <= k < i ==> (#[trigger] flights@[k])@ == ticked(
                    old(flights)@[k]@,
                    elapsed_s as int,
                ),
            forall|k: int|
                0 <= k < i ==> {
                    let f = old(flights)@[k]@;
                    &&& (#[trigger] out@[k]).state@ == state_at(f.plan, elapsed_s as int)
                    &&& out@[k].record@ == flight_record_at(f, asterix, elapsed_s as int, times@[k])
                    &&& out@[k].notice == notice_at(f, elapsed_s as int)
                },
        decreases flights@.len() - i,
    {
        let t = tick_flight(&mut flights[i], asterix, elapsed_s, times[i]);
        out.push(t);
        i += 1;
    }
    out
}

/// Replay is a pure function of time: a tick leaves plan and identity of a flight
/// alone, so the record at a moment is the same whatever ticks came before.
pub proof fn replay_is_deterministic(
    f: SimFlightView,
    asterix: AsterixConfig,
    earlier_s: int,
    elapsed_s: int,
    time_of_day: u64,
)
    ensures
        flight_record_at(ticked(f, earlier_s), asterix, elapsed_s, time_of_day) == flight_record_at(
            f,
            asterix,
            elapsed_s,
            time_of_day,
        ),
{
}

/// An arrival is announced on the first tick at or after it, and on no other.
pub proof fn arrival_is_announced_once(f: SimFlightView, earlier_s: int, later_s: int)
    requires
        is_plan(f.plan),
        earlier_s <= later_s,
        notice_at(f, earlier_s) == Notice::Arrived,
    ensures
        notice_at(ticked(f, earlier_s), later_s) == Notice::Holding,
{
}

/// After [`remap_flights`] no two flights publish the same track number.
pub proof fn remapped_flights_differ(
    fs: Seq<SimFlightView>,
    asterix: AsterixConfig,
    elapsed_s: int,
    time_of_day: u64,
    i: int,
    j: int,
)
    requires
        remapping(flight_addresses(fs)) is Ok,
        0 <= i < j < fs.len(),
    ensures
        ({
            let addresses = replaced(
                flight_addresses(fs),
                remapping(flight_addresses(fs))->Ok_0,
            );
            let out = with_addresses(fs, addresses);
            flight_record_at(out[i], asterix, elapsed_s, time_of_day).track_number
                != flight_record_at(out[j], asterix, elapsed_s, time_of_day).track_number
        }),
{
    remap_separates(flight_addresses(fs));
}

} // verus!
