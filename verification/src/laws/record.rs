//! What is published of a flight, and under which name and number.

use crate::agent::aircraft::AircraftView;
use crate::agent::run::aircraft_record;
use crate::laws::{size, whole_part};
use crate::replay::run::{flight_record_at, SimFlightView};
use crate::replay::sampler::{sample_in_bounds, state_at};
use crate::shared::cat062::{address_number, record, track_number, whole_feet, RecordView};
use crate::shared::config::AsterixConfig;
use crate::shared::plan::is_plan;
use vstd::prelude::*;

verus! {

/// Whether an altitude in feet is one in millionths to the nearest foot, halves
/// away from zero, as far as thirty-two bits hold it.
pub open spec fn nearest_foot(ft: int, altitude_ft: int) -> bool {
    let off = size(ft * 1_000_000 - altitude_ft);
    ||| off < 500_000
    ||| off == 500_000 && size(ft * 1_000_000) > size(altitude_ft)
    ||| ft == 0x7fff_ffff && altitude_ft > ft * 1_000_000
    ||| ft == -0x8000_0000 && altitude_ft < ft * 1_000_000
}

/// Altitudes are published to the nearest foot.
pub proof fn altitude_is_nearest_foot(altitude_ft: int)
    ensures
        nearest_foot(whole_feet(altitude_ft), altitude_ft),
        -0x8000_0000 <= whole_feet(altitude_ft) <= 0x7fff_ffff,
{
}

/// What a record says of a flight, item by item: the data source, the time, the
/// position, the altitude to the nearest foot, the speed in metres per second (a
/// knot is 0.514444 of them), the track, and the identity.
pub open spec fn says(
    r: RecordView,
    asterix: AsterixConfig,
    callsign: Seq<char>,
    icao_address: Seq<char>,
    lat: int,
    lon: int,
    altitude_ft: int,
    gs_kts: int,
    track_deg: int,
    time_of_day: u64,
) -> bool {
    &&& r.sac == asterix.sac && r.sic == asterix.sic
    &&& r.time_of_day == time_of_day
    &&& r.latitude == lat
    &&& r.longitude == lon
    &&& r.altitude_ft matches Some(ft) && nearest_foot(ft as int, altitude_ft)
    &&& r.velocity matches Some(v) && v.track_deg == track_deg && whole_part(
        v.speed_mps as int,
        gs_kts * 514_444,
        1_000_000,
    )
    &&& r.callsign == Some(callsign)
    &&& r.track_number == track_number(icao_address)
    &&& r.icao_address == address_number(icao_address)
    &&& r.track_status == 0
}

/// A record says of a flight what it is made from, each thing in its own item.
pub proof fn record_says_what_it_is_given(
    asterix: AsterixConfig,
    callsign: Seq<char>,
    icao_address: Seq<char>,
    lat: i64,
    lon: i64,
    altitude_ft: i64,
    gs_kts: i64,
    track_deg: i64,
    time_of_day: u64,
)
    ensures
        says(
            record(
                asterix,
                callsign,
                icao_address,
                lat,
                lon,
                altitude_ft,
                gs_kts,
                track_deg,
                time_of_day,
            ),
            asterix,
            callsign,
            icao_address,
            lat as int,
            lon as int,
            altitude_ft as int,
            gs_kts as int,
            track_deg as int,
            time_of_day,
        ),
{
    altitude_is_nearest_foot(altitude_ft as int);
}

/// A record of a replay says where the flight is at the moment.
pub proof fn replay_record_is_of_the_state(
    f: SimFlightView,
    asterix: AsterixConfig,
    elapsed_s: int,
    time_of_day: u64,
)
    requires
        is_plan(f.plan),
    ensures
        ({
            let s = state_at(f.plan, elapsed_s);
            says(
                flight_record_at(f, asterix, elapsed_s, time_of_day),
                asterix,
                f.callsign,
                f.icao_address,
                s.lat,
                s.lon,
                s.altitude_ft,
                s.gs_kts,
                s.track_deg,
                time_of_day,
            )
        }),
{
    let s = state_at(f.plan, elapsed_s);
    sample_in_bounds(f.plan, elapsed_s);
    record_says_what_it_is_given(
        asterix,
        f.callsign,
        f.icao_address,
        s.lat as i64,
        s.lon as i64,
        s.altitude_ft as i64,
        s.gs_kts as i64,
        s.track_deg as i64,
        time_of_day,
    );
}

/// A record of an agent says where the aircraft is.
pub proof fn agent_record_is_of_the_aircraft(
    a: AircraftView,
    asterix: AsterixConfig,
    time_of_day: u64,
)
    requires
        a.wf(),
        i64::MIN <= a.lat <= i64::MAX,
        i64::MIN <= a.lon <= i64::MAX,
    ensures
        says(
            aircraft_record(a, asterix, time_of_day),
            asterix,
            a.callsign,
            a.icao_address,
            a.lat,
            a.lon,
            a.altitude_ft,
            a.gs_kts,
            a.track_deg,
            time_of_day,
        ),
{
    record_says_what_it_is_given(
        asterix,
        a.callsign,
        a.icao_address,
        a.lat as i64,
        a.lon as i64,
        a.altitude_ft as i64,
        a.gs_kts as i64,
        a.track_deg as i64,
        time_of_day,
    );
}

} // verus!
