//! Parser for the LIDO layout of SimBrief operational flight plans.
//!
//! The FLIGHT LOG section is mandatory; every other section (ICAO flight plan,
//! routing, runway analysis, wind information) is optional, so a flight-log-only
//! extract still parses: missing sections yield `None` or nothing.
//!
//! Waypoints come from the fixed-width flight log, three lines for each,
//! described by the header repeated in the log:
//!
//! ```text
//! AWY                           FL   IMT   MN    WIND  OAT  EFOB  PBRN
//! POSITION    LAT      EET ETO MORA  ITT  TAS    COMP  TDV
//! IDENT       LONG    TTLT ATO DIS  RDIS   GS     SHR  TRP  AFOB  ABRN
//! ```
//!
//! Blocks are located by the LAT and LONG columns, so header repeats, FREQ
//! lines and the other sections of a briefing do not disturb the scan. All
//! values of a waypoint but its coordinates are optional.

pub mod column;
pub mod flight_log;
pub mod flight_plan;
pub mod search;
pub mod speeds;
pub mod winds;

pub use column::{parse_lat, parse_lon};
pub use flight_log::parse_flight_log;

use crate::number::Reading;
use crate::text::{chars_of, contains, lines, lines_of, text_of, trim};
use flight_log::{flight_log, in_bounds, scan_flight_log, waypoints_from};
use flight_plan::{
    parse_fpl_aircraft_type, parse_fpl_callsign, parse_fpl_token, parse_routing, plan_aircraft_type,
    plan_callsign, plan_token, routing,
};
use search::{lemma_line_containing, lemma_line_reading};
use speeds::{is_reference_speed, landing_speed, parse_v2, parse_vref, takeoff_speed};
use vstd::prelude::*;
use winds::{parse_wind_information, wind_information};

verus! {

/// A waypoint of the flight log.
///
/// Coordinates count billionths of a minute of arc, north and east positive;
/// altitude and speeds count millionths of a foot and of a knot.
#[derive(Debug)]
pub struct Waypoint {
    pub ident: String,
    pub lat: i64,
    pub lon: i64,
    /// Planned altitude, from the FL column
    pub altitude_ft: Option<i64>,
    /// True airspeed
    pub tas_kts: Option<i64>,
    /// Ground speed
    pub gs_kts: Option<i64>,
    /// Wind component (tailwind positive, headwind negative)
    pub wind_comp_kts: Option<i64>,
    /// Minutes from departure (TTLT column)
    pub cum_time_min: Option<u32>,
}

#[verifier::ext_equal]
pub struct WaypointView {
    pub ident: Seq<char>,
    pub lat: i64,
    pub lon: i64,
    pub altitude_ft: Option<i64>,
    pub tas_kts: Option<i64>,
    pub gs_kts: Option<i64>,
    pub wind_comp_kts: Option<i64>,
    pub cum_time_min: Option<u32>,
}

impl View for Waypoint {
    type V = WaypointView;

    open spec fn view(&self) -> WaypointView {
        WaypointView {
            ident: self.ident@,
            lat: self.lat,
            lon: self.lon,
            altitude_ft: self.altitude_ft,
            tas_kts: self.tas_kts,
            gs_kts: self.gs_kts,
            wind_comp_kts: self.wind_comp_kts,
            cum_time_min: self.cum_time_min,
        }
    }
}

impl Clone for Waypoint {
    fn clone(&self) -> (r: Self)
        ensures
            r@ == self@,
    {
        Waypoint {
            ident: self.ident.clone(),
            lat: self.lat,
            lon: self.lon,
            altitude_ft: self.altitude_ft,
            tas_kts: self.tas_kts,
            gs_kts: self.gs_kts,
            wind_comp_kts: self.wind_comp_kts,
            cum_time_min: self.cum_time_min,
        }
    }
}

/// The views of a list of waypoints.
pub open spec fn waypoint_views(v: Seq<Waypoint>) -> Seq<WaypointView> {
    Seq::new(v.len(), |i: int| v[i]@)
}

/// One flight level of a wind profile: direction in millionths of a degree,
/// speed in millionths of a knot, temperature in millionths of a degree Celsius.
/// Each may be infinite or not a number, as it is printed.
#[derive(Debug, Clone, Copy)]
pub struct WindLevel {
    pub fl: u32,
    pub dir_deg: Reading,
    pub speed_kts: Reading,
    pub oat_c: Reading,
}

/// Winds aloft at one route point (CLIMB, T O C, ..., DESCENT).
#[derive(Debug, Clone)]
pub struct WindProfile {
    pub name: String,
    pub levels: Vec<WindLevel>,
}

#[verifier::ext_equal]
pub struct WindProfileView {
    pub name: Seq<char>,
    pub levels: Seq<WindLevel>,
}

impl View for WindProfile {
    type V = WindProfileView;

    open spec fn view(&self) -> WindProfileView {
        WindProfileView { name: self.name@, levels: self.levels@ }
    }
}

/// The views of a list of wind profiles.
pub open spec fn profile_views(v: Seq<WindProfile>) -> Seq<WindProfileView> {
    Seq::new(v.len(), |i: int| v[i]@)
}

/// Everything extracted from a briefing.
#[derive(Debug)]
pub struct LidoBriefing {
    /// Flight log waypoints (the only mandatory section)
    pub waypoints: Vec<Waypoint>,
    /// ATC callsign: ICAO flight plan item 7
    pub callsign: Option<String>,
    /// Aircraft registration (flight plan item 18, REG/)
    pub registration: Option<String>,
    /// Aircraft type (flight plan item 9, e.g. "A320")
    pub aircraft_type: Option<String>,
    /// 24-bit Mode-S address in hexadecimal (flight plan item 18, CODE/)
    pub icao_address: Option<String>,
    /// Departure airport and runway from the ROUTING line, e.g. "LSGG/22"
    pub dep_runway: Option<String>,
    /// Arrival airport and runway, e.g. "LFPG/27R"
    pub arr_runway: Option<String>,
    /// Takeoff safety speed for the planned runway, millionths of a knot
    pub v2_kts: Option<i64>,
    /// Landing reference speed at the planned landing weight, millionths of a knot
    pub vref_kts: Option<i64>,
    /// Winds and temperature aloft by flight level at points along the route
    pub wind_profiles: Vec<WindProfile>,
}

#[verifier::ext_equal]
pub struct LidoBriefingView {
    pub waypoints: Seq<WaypointView>,
    pub callsign: Option<Seq<char>>,
    pub registration: Option<Seq<char>>,
    pub aircraft_type: Option<Seq<char>>,
    pub icao_address: Option<Seq<char>>,
    pub dep_runway: Option<Seq<char>>,
    pub arr_runway: Option<Seq<char>>,
    pub v2_kts: Option<i64>,
    pub vref_kts: Option<i64>,
    pub wind_profiles: Seq<WindProfileView>,
}

impl View for LidoBriefing {
    type V = LidoBriefingView;

    open spec fn view(&self) -> LidoBriefingView {
        LidoBriefingView {
            waypoints: waypoint_views(self.waypoints@),
            callsign: text_of(self.callsign),
            registration: text_of(self.registration),
            aircraft_type: text_of(self.aircraft_type),
            icao_address: text_of(self.icao_address),
            dep_runway: text_of(self.dep_runway),
            arr_runway: text_of(self.arr_runway),
            v2_kts: self.v2_kts,
            vref_kts: self.vref_kts,
            wind_profiles: profile_views(self.wind_profiles@),
        }
    }
}

/// Why a briefing does not parse.
#[derive(Debug, Clone, Copy, PartialEq, Eq, Structural)]
pub enum LidoError {
    /// The flight log holds fewer than two waypoints
    TooFewWaypoints { count: usize },
}

/// Everything that the lines of a briefing hold.
pub open spec fn briefing_of(ls: Seq<Seq<char>>) -> LidoBriefingView {
    let (dep_runway, arr_runway) = routing(ls);
    LidoBriefingView {
        waypoints: waypoints_from(ls, 0),
        callsign: plan_callsign(ls),
        registration: plan_token(ls, "REG/"@),
        aircraft_type: plan_aircraft_type(ls),
        icao_address: plan_token(ls, "CODE/"@),
        dep_runway,
        arr_runway,
        v2_kts: takeoff_speed(ls),
        vref_kts: match landing_speed(ls) {
            Some(v) => Some(v as i64),
            None => None,
        },
        wind_profiles: wind_information(ls),
    }
}

impl LidoBriefing {
    /// Whether the values are within the bounds of their units.
    pub open spec fn wf(&self) -> bool {
        &&& self.waypoints@.len() >= 2
        &&& forall|i: int| 0 <= i < self.waypoints@.len() ==> in_bounds(#[trigger] self.waypoints@[i]@)
        &&& self.v2_kts matches Some(v) ==> is_reference_speed(v)
        &&& self.vref_kts matches Some(v) ==> is_reference_speed(v)
    }
}

/// Parse a full briefing, or an extract of one with the flight log only.
pub fn parse_briefing(text: &str) -> (r: Result<LidoBriefing, LidoError>)
    ensures
        match r {
            Ok(b) => flight_log(text@).len() >= 2 && b@ == briefing_of(lines(text@)) && b.wf(),
            Err(LidoError::TooFewWaypoints { count }) => flight_log(text@).len() == count && count
                < 2,
        },
{
    let chars = chars_of(text);
    let ls = lines_of(chars.as_slice());
    let waypoints = scan_flight_log(&ls);
    if waypoints.len() < 2 {
        return Err(LidoError::TooFewWaypoints { count: waypoints.len() });
    }
    let (dep_runway, arr_runway) = parse_routing(&ls);
    let briefing = LidoBriefing {
        waypoints,
        callsign: parse_fpl_callsign(&ls),
        registration: parse_fpl_token(&ls, "REG/"),
        aircraft_type: parse_fpl_aircraft_type(&ls),
        icao_address: parse_fpl_token(&ls, "CODE/"),
        dep_runway,
        arr_runway,
        v2_kts: parse_v2(&ls),
        vref_kts: parse_vref(&ls),
        wind_profiles: parse_wind_information(&ls),
    };
    proof {
        assert(briefing@ =~= briefing_of(lines(text@)));
    }
    Ok(briefing)
}

/// The other sections of a briefing do not touch its waypoints: they are those
/// of the flight log.
pub proof fn briefing_waypoints_are_flight_log(text: Seq<char>)
    ensures
        briefing_of(lines(text)).waypoints == flight_log(text),
{
}

/// A flight log alone parses, and the missing sections yield nothing.
pub proof fn extract_degrades(text: Seq<char>)
    requires
        forall|i: int|
            0 <= i < lines(text).len() ==> {
                &&& !contains(#[trigger] lines(text)[i], "(FPL-"@)
                &&& trim(lines(text)[i]) != "ROUTING:"@
                &&& !contains(lines(text)[i], "/// TAKEOFF DATA ///"@)
                &&& !contains(lines(text)[i], "/// LANDING DATA ///"@)
                &&& trim(lines(text)[i]) != "WIND INFORMATION"@
            },
    ensures
        ({
            let b = briefing_of(lines(text));
            &&& b.waypoints == flight_log(text)
            &&& b.callsign is None
            &&& b.registration is None
            &&& b.aircraft_type is None
            &&& b.icao_address is None
            &&& b.dep_runway is None
            &&& b.arr_runway is None
            &&& b.v2_kts is None
            &&& b.vref_kts is None
            &&& b.wind_profiles.len() == 0
        }),
{
    let ls = lines(text);
    lemma_line_containing(ls, "(FPL-"@, 0);
    lemma_line_containing(ls, "/// TAKEOFF DATA ///"@, 0);
    lemma_line_containing(ls, "/// LANDING DATA ///"@, 0);
    lemma_line_reading(ls, "ROUTING:"@, 0);
    lemma_line_reading(ls, "WIND INFORMATION"@, 0);
}

} // verus!
