//! Live mode: the record of a state that was fetched.

use crate::opensky::{feet_of_metres, StateVector};
use crate::shared::cat062::{
    address_number, track_number, FlightRecord, RecordView, Velocity,
};
use crate::shared::config::AsterixConfig;
use crate::text::trim;
use libasterix::asterix::cat062::{icao_to_track_number, parse_icao_address};
use vstd::prelude::*;

verus! {

/// Billionths of a minute of arc in a millionth of a degree.
pub const ARC_PER_MICRODEGREE: i64 = 60_000;

/// The record of a state: none where its position is not known, and without the
/// items that the state does not give.
pub open spec fn state_record(
    s: StateVector,
    asterix: AsterixConfig,
    time_of_day: u64,
) -> Option<RecordView> {
    match (s.latitude, s.longitude) {
        (Some(lat), Some(lon)) => Some(
            RecordView {
                sac: asterix.sac,
                sic: asterix.sic,
                track_number: track_number(s.icao24@),
                time_of_day,
                latitude: (lat * ARC_PER_MICRODEGREE) as i64,
                longitude: (lon * ARC_PER_MICRODEGREE) as i64,
                altitude_ft: match s.baro_altitude {
                    Some(m) => Some(feet_of_metres(m) as i32),
                    None => None,
                },
                velocity: match (s.velocity, s.true_track) {
                    (Some(speed_mps), Some(track_deg)) => Some(Velocity { speed_mps, track_deg }),
                    _ => None,
                },
                icao_address: address_number(s.icao24@),
                callsign: match s.callsign {
                    Some(c) => Some(trim(c@)),
                    None => None,
                },
                track_status: 0,
            },
        ),
        _ => None,
    }
}

/// The record of a state.
pub fn live_record(state: &StateVector, asterix: AsterixConfig, time_of_day: u64) -> (r: Option<
    FlightRecord,
>)
    requires
        state.wf(),
    ensures
        match r {
            Some(f) => state_record(*state, asterix, time_of_day) == Some(f@),
            None => state_record(*state, asterix, time_of_day) is None,
        },
{
    let (lat, lon) = match (state.latitude(), state.longitude()) {
        (Some(lat), Some(lon)) => (lat, lon),
        _ => {
            return None;
        },
    };
    let record = FlightRecord {
        sac: asterix.sac,
        sic: asterix.sic,
        track_number: icao_to_track_number(state.icao24()),
        time_of_day,
        latitude: lat * ARC_PER_MICRODEGREE,
        longitude: lon * ARC_PER_MICRODEGREE,
        altitude_ft: state.altitude_feet(),
        velocity: match (state.velocity_ms(), state.true_track()) {
            (Some(speed_mps), Some(track_deg)) => Some(Velocity { speed_mps, track_deg }),
            _ => None,
        },
        icao_address: parse_icao_address(state.icao24()),
        callsign: state.callsign(),
        track_status: 0,
    };
    Some(record)
}

} // verus!
