use sentrix::agent::aircraft::{Aircraft, Reached};
use sentrix::agent::performance::VerticalLimits;
use sentrix::number::Reading;
use sentrix::replay::sampler::sample;
use sentrix::shared::geo::Leg;
use sentrix::shared::lido::column::parse_coord;
use sentrix::shared::lido::{
    parse_briefing, parse_flight_log, parse_lat, parse_lon, LidoBriefing, Waypoint,
};
use sentrix::shared::plan::{
    apply_departure_profile, profiled_waypoints, FlightPlan, PlanError,
};
use sentrix::simulation::{FlightPath, LidoBulletin};

/// A briefing from Geneva to Paris, all sections.
const BRIEFING: &str = "\
[ OFP ]
--------------------------------------------------------------------
ALU123  12JUN26   LSGG/GVA LFPG/CDG   A320  N320SB   RELEASE 0815
OFP 1   GENEVA - PARIS CH DE GAULLE

ROUTING:

LSGG/22 DIPIR1A DIPIR UN869 DJL UT27 NANOP TINIL9W LFPG/27R

--------------------------------------------------------------------
FLIGHT LOG

AWY                           FL   IMT   MN    WIND  OAT  EFOB  PBRN
POSITION    LAT      EET ETO MORA  ITT  TAS    COMP  TDV
IDENT       LONG    TTLT ATO DIS  RDIS   GS     SHR  TRP  AFOB  ABRN
--------------------------------------------------------------------
                                   222                     5.2   0.2
GENEVA      N4614.3      ...  74   331         P004  P05
LSGG       E00606.6 0000 ...       235  276          436  ....  ....

DIPIR1A                      050   328  .76 320/038  -40   4.9   0.1
PASSEIRY    N4609.8 0002 ...  74   331         P004  P05
PAS        E00600.0 0002 ...   6   229  276          436  ....  ....

DIPIR1A                      113   328  .76 320/038  -40   4.9   0.2
DIPIR       N4618.2 0002 ...  74   331         M012  P05
DIPIR      E00548.0 0004 ...  12   217  318          436  ....  ....

                 FREQ 127.300 GENEVA

UN869                        176   328  .76 320/038  -40   4.8   0.3
KELUK       N4632.6 0002 ...  74   331         M038  P05
KELUK      E00537.5 0007 ...  16   201  365          436  ....  ....

UN869                        240   328  .76 320/038  -40   4.8   0.4
ROLAMPONT   N4652.0 0002 ...  74   331         M034  P05
ROLAM      E00522.0 0010 ...  22   179  396          436  ....  ....

UN869                        288   328  .76 320/038  -40   4.8   0.5
DIJON       N4716.3 0002 ...  74   331         M026  P05
DJL        E00505.8 0014 ...  27   152  428          436  ....  ....

                                   222                     5.2   0.2
-LFFF       N4720.0 0002 ...  74   331               P05
           E00501.0 0014 ...       144               436  ....  ....

UT27                         300   328  .76 320/038  -40   4.7   0.7
T O C       N4722.6 0002 ...  74   331  465    M024  P05
           E00457.5 0015 ...   8   144  441          436  ....  ....

UT27                         300   328  .76 320/038  -40   4.7   0.8
TINIL       N4744.0 0002 ...  74   331  463    M024  P05
TINIL      E00426.0 0019 ...  30   113  439          436  ....  ....

PAGE 7
AWY                           FL   IMT   MN    WIND  OAT  EFOB  PBRN
POSITION    LAT      EET ETO MORA  ITT  TAS    COMP  TDV
IDENT       LONG    TTLT ATO DIS  RDIS   GS     SHR  TRP  AFOB  ABRN
--------------------------------------------------------------------

UT27                         300   328  .76 320/038  -40   4.6   0.9
FF302       N4800.5 0002 ...  74   331  462    M025  P05
FF302      E00405.0 0022 ...  22    92  437          436  ....  ....

UT27                         300   328  .76 320/038  -40   4.6   0.0
NANOP       N4815.0 0002 ...  74   331  462    M026  P05
NANOP      E00348.0 0025 ...  18    73  436          436  ....  ....

TINIL9W                      300   328  .76 320/038  -40   4.6   0.1
T O D       N4820.5 0002 ...  74   331  461    M025  P05
           E00340.5 0026 ...   7    66  436          436  ....  ....

TINIL9W                      204   328  .76 320/038  -40   4.5   0.2
VELER       N4831.5 0002 ...  74   331         M019  P05
VELER      E00325.0 0028 ...  15    51  384          436  ....  ....

TINIL9W                      140   328  .76 320/038  -40   4.5   0.3
KOLIV       N4839.5 0002 ...  74   331         M012  P05
KOLIV      E00315.5 0031 ...  10    41  322          436  ....  ....

TINIL9W                      100   328  .76 320/038  -40   4.5   0.4
PG512       N4847.0 0002 ...  74   331         M006  P05
PG512      E00310.0 0033 ...   8    32  262          436  ....  ....

TINIL9W                      070   328  .76 320/038  -40   4.4   0.5
PG516       N4851.5 0002 ...  74   331         P002  P05
PG516      E00309.5 0035 ...   5    28  236          436  ....  ....

TINIL9W                      060   328  .76 320/038  -40   4.4   0.6
PG520       N4855.5 0002 ...  74   331         P004  P05
PG520      E00308.0 0037 ...   4    24  224          436  ....  ....

                                   222                     5.2   0.2
CHARLES DE GN4900.6 0002 ...  74   331         P002  P05
LFPG       E00232.9 0045 ...  24     0               436  ....  ....


--------------------------------------------------------------------
[ ATC FLIGHT PLAN ]

(FPL-ALU-IS
-A320/M-SDE3FGHIRWY/LB1
-LSGG0820
-N0465F300 DIPIR1A DIPIR UN869 DJL UT27 NANOP TINIL9W
-LFPG0045 LFPO
-PBN/A1B1C1D1 DOF/260612 REG/N320SB EET/LFFF0014
 CODE/1349 OPR/ALU RMK/SIM)

--------------------------------------------------------------------
WIND INFORMATION

CLIMB            T O C            TINIL            FF302
350 314/037 -51  340 315/041 -50  340 316/043 -50  340 317/045 -50
310 315/036 -43  320 316/040 -45  320 317/042 -45  320 318/044 -45
200 318/030 -18  300 317/039 -40  300 318/041 -40  300 319/043 -40
150 320/024 -08  280 318/037 -36  280 319/039 -36  280 320/041 -36
100 322/018 +02  260 319/035 -31  260 320/037 -31  260 321/039 -31

NANOP            T O D            DESCENT
340 318/046 -50  340 318/046 -50  350 310/047 -52
320 319/045 -45  320 319/045 -45  310 309/045 -43
300 320/044 -40  300 320/044 -40  200 308/042 -17
280 321/042 -36  280 321/042 -36  150 307/040 -06
260 322/040 -31  260 322/040 -31  100 306/037 +04

[ RUNWAY ANALYSIS ]
--------------------------------------------------------------------
/// TAKEOFF DATA ///

APT  PRWY  OAT  WIND     QNH   PTOW  FLP  V1  VR  V2
LSGG 22    18.0 230M05   1019  6600  1    14  14  15

---------------- WET RWY - PTOW - CALM WIND ------------------------
RWY  LENGTH  TOGW  FLP  V1  VR  V2  LIMIT
04   3900    7700  1    141 146 151 OBS
22   3900    7700  1    142 147 152 OBS
---------------- DRY RWY - PTOW - CALM WIND ------------------------
RWY  LENGTH  TOGW  FLP  V1  VR  V2  LIMIT
04   3900    7700  1    145 149 153 OBS
22   3900    7700  1    146 150 154 OBS
--------------------------------------------------------------------

/// LANDING DATA ///

APT  PRWY  OAT   WIND    QNH   MLDW  FLAP  PLDW  LIM
LFPG  27R  18.0  259M13  1025  6600  FULL  6319  AFM

LANDING DISTANCE
 LDW   VREF  DRY   WET
 6200  132   1210  1390
/6300  133   1225  1410
 6400  134   1240  1430
 6500  135   1255  1450
--------------------------------------------------------------------
";

/// A flight-log-only extract (no flight plan, runway analysis or wind sections)
const EXTRACT: &str = "\
AWY                           FL   IMT   MN    WIND  OAT  EFOB  PBRN
POSITION    LAT      EET ETO MORA  ITT  TAS    COMP  TDV
IDENT       LONG    TTLT ATO DIS  RDIS   GS     SHR  TRP  AFOB  ABRN
--------------------------------------------------------------------
                                   222                     5.2   0.2
GENEVA      N4614.3      ...  74   225         P004
LSGG       E00606.6 0000 ...       238  276               ....  ....

DIPIR1A                      050   328  .41 005/005   10   4.9   0.5
PASSEIRY    N4609.8 0002 ...  78   331         P004  P05
PAS        E00600.0 0002 ...   6   232  276          436  ....  ....
";

const EARTH_RADIUS_NM: f64 = 3440.065;

fn haversine_nm(lat1: f64, lon1: f64, lat2: f64, lon2: f64) -> f64 {
    let (phi1, phi2) = (lat1.to_radians(), lat2.to_radians());
    let dphi = (lat2 - lat1).to_radians();
    let dlambda = (lon2 - lon1).to_radians();
    let a = (dphi / 2.0).sin().powi(2) + phi1.cos() * phi2.cos() * (dlambda / 2.0).sin().powi(2);
    2.0 * EARTH_RADIUS_NM * a.sqrt().asin()
}

fn initial_bearing_deg(lat1: f64, lon1: f64, lat2: f64, lon2: f64) -> f64 {
    let (phi1, phi2) = (lat1.to_radians(), lat2.to_radians());
    let dlambda = (lon2 - lon1).to_radians();
    let y = dlambda.sin() * phi2.cos();
    let x = phi1.cos() * phi2.sin() - phi1.sin() * phi2.cos() * dlambda.cos();
    (y.atan2(x).to_degrees() + 360.0) % 360.0
}

fn destination_point(lat: f64, lon: f64, bearing_deg: f64, dist_nm: f64) -> (f64, f64) {
    let delta = dist_nm / EARTH_RADIUS_NM;
    let theta = bearing_deg.to_radians();
    let phi1 = lat.to_radians();
    let lambda1 = lon.to_radians();
    let phi2 = (phi1.sin() * delta.cos() + phi1.cos() * delta.sin() * theta.cos()).asin();
    let lambda2 = lambda1
        + (theta.sin() * delta.sin() * phi1.cos()).atan2(delta.cos() - phi1.sin() * phi2.sin());
    (phi2.to_degrees(), lambda2.to_degrees())
}

/// Degrees of a position.
fn deg(v: i64) -> f64 {
    v as f64 / 60e9
}

/// Position of some degrees.
fn arc(v: f64) -> i64 {
    (v * 60e9).round() as i64
}

/// Units of a quantity in millionths.
fn unit(v: i64) -> f64 {
    v as f64 / 1e6
}

/// Millionths of a quantity.
fn micro(v: f64) -> i64 {
    (v * 1e6).round() as i64
}

/// Seconds of a time in microseconds.
fn secs(v: u64) -> f64 {
    v as f64 / 1e6
}

fn leg(lat1: i64, lon1: i64, lat2: i64, lon2: i64) -> Leg {
    let (a, b, c, d) = (deg(lat1), deg(lon1), deg(lat2), deg(lon2));
    Leg {
        distance_nm: (haversine_nm(a, b, c, d) * 1e9).round() as i64,
        bearing_deg: micro(initial_bearing_deg(a, b, c, d)) % 360_000_000,
    }
}

fn between(a: &Waypoint, b: &Waypoint) -> Leg {
    leg(a.lat, a.lon, b.lat, b.lon)
}

fn legs(waypoints: &[Waypoint]) -> Vec<Leg> {
    waypoints.windows(2).map(|w| between(&w[0], &w[1])).collect()
}

/// The length of the first leg, that of the last, and the legs of a briefing.
fn geometry(b: &LidoBriefing) -> (i64, i64, Vec<Leg>) {
    let departure_nm = between(&b.waypoints[0], &b.waypoints[1]).distance_nm;
    let mut departed = b.waypoints.clone();
    apply_departure_profile(&mut departed, b.v2_kts, departure_nm);
    let n = departed.len();
    let final_nm = between(&departed[n - 2], &departed[n - 1]).distance_nm;
    let route = profiled_waypoints(b, departure_nm, final_nm);
    (departure_nm, final_nm, legs(&route))
}

fn plan_of_waypoints(waypoints: Vec<Waypoint>) -> Result<FlightPlan, PlanError> {
    let legs = legs(&waypoints);
    FlightPlan::from_waypoints(waypoints, legs)
}

fn plan_of_briefing(b: &LidoBriefing) -> Result<FlightPlan, PlanError> {
    let (departure_nm, final_nm, legs) = geometry(b);
    FlightPlan::from_briefing(b, departure_nm, final_nm, legs)
}

fn path_of_waypoints(waypoints: Vec<Waypoint>) -> Result<FlightPath, PlanError> {
    let legs = legs(&waypoints);
    FlightPath::from_waypoints(waypoints, legs)
}

fn path_of_bulletin(b: &LidoBulletin) -> Result<FlightPath, PlanError> {
    let (departure_nm, final_nm, legs) = geometry(b);
    FlightPath::from_bulletin(b, departure_nm, final_nm, legs)
}

/// One step of an aircraft.
fn fly(ac: &mut Aircraft, dt_s: f64) {
    let dt = micro(dt_s);
    let here = Reached { lat: ac.lat, lon: ac.lon, to_fix_nm: 0 };
    match ac.target_position() {
        Some((lat, lon)) => {
            let to_fix = leg(ac.lat, ac.lon, lat, lon);
            let travel = ac.travel(dt, to_fix).unwrap();
            let (lat2, lon2) = destination_point(
                deg(ac.lat),
                deg(ac.lon),
                unit(travel.track_deg),
                travel.distance_nm as f64 / 1e9,
            );
            let (lat2, lon2) = (arc(lat2), arc(lon2));
            let to_fix_nm = leg(lat2, lon2, lat, lon).distance_nm;
            ac.step(dt, to_fix, Reached { lat: lat2, lon: lon2, to_fix_nm });
        }
        None => ac.step(dt, Leg { distance_nm: 0, bearing_deg: 0 }, here),
    }
}

fn wp(
    ident: &str,
    lat: f64,
    lon: f64,
    alt: Option<f64>,
    tas: Option<f64>,
    gs: Option<f64>,
) -> Waypoint {
    Waypoint {
        ident: ident.to_string(),
        lat: arc(lat),
        lon: arc(lon),
        altitude_ft: alt.map(micro),
        tas_kts: tas.map(micro),
        gs_kts: gs.map(micro),
        wind_comp_kts: None,
        cum_time_min: None,
    }
}

// The flight log and the other sections of a briefing.

#[test]
fn test_parse_coordinates() {
    let lat = |s: &str| parse_lat(&s.chars().collect::<Vec<char>>()).map(deg);
    let lon = |s: &str| parse_lon(&s.chars().collect::<Vec<char>>()).map(deg);
    assert!((lat("N4614.3").unwrap() - 46.238333).abs() < 1e-6);
    assert!((lat("S4614.3").unwrap() + 46.238333).abs() < 1e-6);
    assert!((lon("E00606.6").unwrap() - 6.11).abs() < 1e-6);
    assert!((lon("W00232.9").unwrap() + 2.548333).abs() < 1e-6);
    assert_eq!(lat("LAT"), None);
    assert_eq!(lat("N4675.0"), None); // minutes >= 60
    assert_eq!(lon("E00606"), None); // too short
}

#[test]
fn test_parse_full_log() {
    // The waypoint scan must not be confused by the other briefing sections
    let wps = parse_flight_log(BRIEFING).unwrap();
    assert_eq!(wps.len(), 17);
    assert_eq!(wps.first().unwrap().ident, "LSGG");
    assert_eq!(wps.last().unwrap().ident, "LFPG");
}

#[test]
fn test_parse_waypoint_fields() {
    let wps = parse_flight_log(BRIEFING).unwrap();

    // PASSEIRY: full climb waypoint (no TAS printed during climb)
    let pas = &wps[1];
    assert_eq!(pas.ident, "PAS");
    assert!((deg(pas.lat) - 46.163333).abs() < 1e-6);
    assert!((deg(pas.lon) - 6.0).abs() < 1e-6);
    assert_eq!(pas.altitude_ft, Some(micro(5000.0)));
    assert_eq!(pas.gs_kts, Some(micro(276.0)));
    assert_eq!(pas.tas_kts, None);
    assert_eq!(pas.wind_comp_kts, Some(micro(4.0)));
    assert_eq!(pas.cum_time_min, Some(2));

    // Top of climb: ident falls back to the position name
    let toc = wps.iter().find(|w| w.ident == "T O C").unwrap();
    assert_eq!(toc.altitude_ft, Some(micro(30000.0)));
    assert_eq!(toc.tas_kts, Some(micro(465.0)));
    assert_eq!(toc.gs_kts, Some(micro(441.0)));

    // KELUK: headwind component
    let keluk = wps.iter().find(|w| w.ident == "KELUK").unwrap();
    assert_eq!(keluk.wind_comp_kts, Some(micro(-38.0)));

    // FIR boundary rows are skipped - their printed coordinates are
    // unreliable and can fold the path back on itself
    assert!(wps.iter().all(|w| !w.ident.starts_with('-')));

    // Destination: cumulative time is total flight time
    assert_eq!(wps.last().unwrap().cum_time_min, Some(45));
}

#[test]
fn test_parse_full_briefing() {
    let b = parse_briefing(BRIEFING).unwrap();

    assert_eq!(b.waypoints.len(), 17);
    assert_eq!(b.callsign.as_deref(), Some("ALU"));
    assert_eq!(b.registration.as_deref(), Some("N320SB"));
    assert_eq!(b.aircraft_type.as_deref(), Some("A320"));
    assert_eq!(b.icao_address.as_deref(), Some("1349"));
    assert_eq!(b.dep_runway.as_deref(), Some("LSGG/22"));
    assert_eq!(b.arr_runway.as_deref(), Some("LFPG/27R"));

    // V2 from the DRY RWY - PTOW - CALM WIND table, runway 22
    assert_eq!(b.v2_kts, Some(micro(154.0)));

    // VREF interpolated at PLDW 6319 between (6300, 133) and (6400, 134)
    let vref = unit(b.vref_kts.unwrap());
    assert!((vref - 133.19).abs() < 0.01, "vref = {vref}");
}

#[test]
fn test_parse_wind_information() {
    let b = parse_briefing(BRIEFING).unwrap();

    let names: Vec<&str> = b.wind_profiles.iter().map(|p| p.name.as_str()).collect();
    assert_eq!(
        names,
        ["CLIMB", "T O C", "TINIL", "FF302", "NANOP", "T O D", "DESCENT"]
    );

    let climb = &b.wind_profiles[0];
    assert_eq!(climb.levels.len(), 5);
    let top = &climb.levels[0];
    assert_eq!(top.fl, 350);
    assert_eq!(top.dir_deg, Reading::Value(micro(314.0)));
    assert_eq!(top.speed_kts, Reading::Value(micro(37.0)));
    assert_eq!(top.oat_c, Reading::Value(micro(-51.0)));

    let descent = &b.wind_profiles[6];
    assert_eq!(descent.levels.len(), 5);
    assert_eq!(descent.levels[4].oat_c, Reading::Value(micro(4.0))); // "100 306/037 +04"
}

#[test]
fn test_extract_only_degrades_gracefully() {
    let b = parse_briefing(EXTRACT).unwrap();
    assert_eq!(b.waypoints.len(), 2);
    assert_eq!(b.callsign, None);
    assert_eq!(b.registration, None);
    assert_eq!(b.aircraft_type, None);
    assert_eq!(b.icao_address, None);
    assert_eq!(b.dep_runway, None);
    assert_eq!(b.arr_runway, None);
    assert_eq!(b.v2_kts, None);
    assert_eq!(b.vref_kts, None);
    assert!(b.wind_profiles.is_empty());
}

// Flight plans.

#[test]
fn plan_test_fills_missing_values() {
    // Middle waypoint (e.g. a FIR boundary) has no altitude/speeds
    let plan = plan_of_waypoints(vec![
        wp("A", 46.0, 6.0, Some(10000.0), Some(420.0), Some(400.0)),
        wp("FIR", 46.5, 6.0, None, None, None),
        wp("B", 47.0, 6.0, Some(10000.0), Some(420.0), Some(400.0)),
    ])
    .unwrap();

    let fir = &plan.points()[1];
    assert_eq!(fir.gs_kts, micro(400.0));
    assert_eq!(fir.altitude_ft, micro(10000.0));
    assert_eq!(fir.tas_kts, micro(400.0)); // missing TAS falls back to GS
}

#[test]
fn plan_test_tas_estimated_from_wind_component() {
    let mut a = wp("A", 46.0, 6.0, Some(17600.0), None, Some(365.0));
    a.wind_comp_kts = Some(micro(-38.0)); // 38 kt headwind -> TAS = GS + 38
    let plan = plan_of_waypoints(vec![
        a,
        wp("B", 47.0, 6.0, Some(17600.0), None, Some(365.0)),
    ])
    .unwrap();
    assert_eq!(plan.points()[0].tas_kts, micro(403.0));
}

#[test]
fn test_real_brief_geometry() {
    let wps = parse_flight_log(BRIEFING).unwrap();
    let plan = plan_of_waypoints(wps).unwrap();

    // Log says 238 nm and 45 min block-to-block; distance/GS timing
    // should land in the same ballpark.
    assert!((plan.total_distance_nm() as f64 / 1e9 - 238.0).abs() < 10.0);
    let mins = secs(plan.total_duration_s()) / 60.0;
    assert!((30.0..60.0).contains(&mins), "unexpected duration: {mins} min");
}

// Replay.

#[test]
fn sampler_test_straight_leg_interpolation() {
    // 60 nm due north at a constant 360 kt -> 600 s
    let plan = plan_of_waypoints(vec![
        wp("A", 46.0, 6.0, Some(10000.0), Some(400.0), Some(360.0)),
        wp("B", 47.0, 6.0, Some(20000.0), Some(400.0), Some(360.0)),
    ])
    .unwrap();

    assert!((secs(plan.total_duration_s()) - 600.0).abs() < 5.0);

    let mid = sample(&plan, (plan.total_duration_s() / 2) as i64);
    assert!((deg(mid.lat) - 46.5).abs() < 0.01);
    assert!((deg(mid.lon) - 6.0).abs() < 1e-9);
    assert!((unit(mid.altitude_ft) - 15000.0).abs() < 100.0);
    assert!((unit(mid.gs_kts) - 360.0).abs() < 1e-9);
    assert!(unit(mid.track_deg) < 1.0 || unit(mid.track_deg) > 359.0); // due north
    assert_eq!(mid.next_ident.as_deref(), Some("B"));
    assert!(!mid.ended);
}

#[test]
fn sampler_test_holds_last_position_after_arrival() {
    let plan = plan_of_waypoints(vec![
        wp("A", 46.0, 6.0, Some(5000.0), None, Some(300.0)),
        wp("B", 46.5, 6.0, Some(0.0), None, Some(300.0)),
    ])
    .unwrap();

    let end = sample(&plan, plan.total_duration_s() as i64 + micro(100.0));
    assert!(end.ended);
    assert_eq!(end.gs_kts, 0);
    assert!((deg(end.lat) - 46.5).abs() < 1e-9);
    assert_eq!(end.next_ident, None);
}

#[test]
fn sampler_test_real_flight_log() {
    let wps = parse_flight_log(BRIEFING).unwrap();
    let plan = plan_of_waypoints(wps).unwrap();

    // Starts at LSGG, ends at LFPG
    let start = sample(&plan, 0);
    assert!((deg(start.lat) - 46.2383).abs() < 0.01);
    assert!((deg(start.lon) - 6.11).abs() < 0.01);

    let end = sample(&plan, plan.total_duration_s() as i64);
    assert!(end.ended);
    assert!((deg(end.lat) - 49.01).abs() < 0.01);
    assert!((deg(end.lon) - 2.5483).abs() < 0.01);

    // Mid-flight the aircraft is at cruise FL300 heading roughly north-west
    let mid = sample(&plan, (plan.total_duration_s() / 2) as i64);
    assert!((unit(mid.altitude_ft) - 30000.0).abs() < 1.0);
    assert!((270.0..360.0).contains(&unit(mid.track_deg)));
}

#[test]
fn test_briefing_speed_profile() {
    let b = parse_briefing(BRIEFING).unwrap();
    let plan = plan_of_briefing(&b).unwrap();

    // Departure: lifts off at V2, not at the first waypoint's climb GS
    let start = sample(&plan, 0);
    let gs = unit(start.gs_kts);
    assert!((gs - 154.0).abs() < 1.0, "gs = {}", gs);

    // Short final: below 200 kt and on the glide, decelerating to VREF
    let end_t = plan.total_duration_s();
    let short_final = sample(&plan, end_t as i64 - micro(30.0));
    let (gs, alt) = (unit(short_final.gs_kts), unit(short_final.altitude_ft));
    assert!(gs < 200.0, "gs = {}", gs);
    assert!(alt < 2000.0, "alt = {}", alt);

    // With the profile, total duration approaches the plan's 45 min ETE
    let mins = secs(end_t) / 60.0;
    assert!((40.0..50.0).contains(&mins), "duration: {mins} min");

    // Without V2/VREF the plan is unchanged (and faster)
    let plain = plan_of_waypoints(b.waypoints.clone()).unwrap();
    assert!(plain.total_duration_s() < end_t);
}

// Flight paths.

#[test]
fn simulation_test_straight_leg_interpolation() {
    // 60 nm due north at a constant 360 kt -> 600 s
    let path = path_of_waypoints(vec![
        wp("A", 46.0, 6.0, Some(10000.0), Some(400.0), Some(360.0)),
        wp("B", 47.0, 6.0, Some(20000.0), Some(400.0), Some(360.0)),
    ])
    .unwrap();

    assert!((secs(path.total_duration_s()) - 600.0).abs() < 5.0);

    let mid = path.sample((path.total_duration_s() / 2) as i64);
    assert!((deg(mid.lat) - 46.5).abs() < 0.01);
    assert!((deg(mid.lon) - 6.0).abs() < 1e-9);
    assert!((unit(mid.altitude_ft) - 15000.0).abs() < 100.0);
    assert!((unit(mid.gs_kts) - 360.0).abs() < 1e-9);
    assert!(unit(mid.track_deg) < 1.0 || unit(mid.track_deg) > 359.0); // due north
    assert_eq!(mid.next_ident.as_deref(), Some("B"));
    assert!(!mid.ended);
}

#[test]
fn simulation_test_holds_last_position_after_arrival() {
    let path = path_of_waypoints(vec![
        wp("A", 46.0, 6.0, Some(5000.0), None, Some(300.0)),
        wp("B", 46.5, 6.0, Some(0.0), None, Some(300.0)),
    ])
    .unwrap();

    let end = path.sample(path.total_duration_s() as i64 + micro(100.0));
    assert!(end.ended);
    assert_eq!(end.gs_kts, 0);
    assert!((deg(end.lat) - 46.5).abs() < 1e-9);
    assert_eq!(end.next_ident, None);
}

#[test]
fn simulation_test_fills_missing_values() {
    // Middle waypoint (e.g. a FIR boundary) has no altitude/speeds
    let path = path_of_waypoints(vec![
        wp("A", 46.0, 6.0, Some(10000.0), Some(420.0), Some(400.0)),
        wp("FIR", 46.5, 6.0, None, None, None),
        wp("B", 47.0, 6.0, Some(10000.0), Some(420.0), Some(400.0)),
    ])
    .unwrap();

    let fir = &path.points()[1];
    assert_eq!(fir.gs_kts, micro(400.0));
    assert_eq!(fir.altitude_ft, micro(10000.0));
    assert_eq!(fir.tas_kts, micro(400.0)); // missing TAS falls back to GS
}

#[test]
fn simulation_test_real_flight_log() {
    let wps = parse_flight_log(BRIEFING).unwrap();
    let path = path_of_waypoints(wps).unwrap();

    // Log says 238 nm and 45 min block-to-block; distance/GS timing
    // should land in the same ballpark.
    assert!((path.total_distance_nm() as f64 / 1e9 - 238.0).abs() < 10.0);
    let mins = secs(path.total_duration_s()) / 60.0;
    assert!((30.0..60.0).contains(&mins), "unexpected duration: {mins} min");

    // Starts at LSGG, ends at LFPG
    let start = path.sample(0);
    assert!((deg(start.lat) - 46.2383).abs() < 0.01);
    assert!((deg(start.lon) - 6.11).abs() < 0.01);

    let end = path.sample(path.total_duration_s() as i64);
    assert!(end.ended);
    assert!((deg(end.lat) - 49.01).abs() < 0.01);
    assert!((deg(end.lon) - 2.5483).abs() < 0.01);

    // Mid-flight the aircraft is at cruise FL300 heading roughly north-west
    let mid = path.sample((path.total_duration_s() / 2) as i64);
    assert!((unit(mid.altitude_ft) - 30000.0).abs() < 1.0);
    assert!((270.0..360.0).contains(&unit(mid.track_deg)));
}

#[test]
fn simulation_test_tas_estimated_from_wind_component() {
    let mut a = wp("A", 46.0, 6.0, Some(17600.0), None, Some(365.0));
    a.wind_comp_kts = Some(micro(-38.0)); // 38 kt headwind -> TAS = GS + 38
    let path = path_of_waypoints(vec![
        a,
        wp("B", 47.0, 6.0, Some(17600.0), None, Some(365.0)),
    ])
    .unwrap();
    assert_eq!(path.points()[0].tas_kts, micro(403.0));
}

#[test]
fn test_bulletin_speed_profile() {
    let b = parse_briefing(BRIEFING).unwrap();
    let path = path_of_bulletin(&b).unwrap();

    // Departure: lifts off at V2, not at the first waypoint's climb GS
    let start = path.sample(0);
    let gs = unit(start.gs_kts);
    assert!((gs - 154.0).abs() < 1.0, "gs = {}", gs);

    // Short final: below 200 kt and on the glide, decelerating to VREF
    let end_t = path.total_duration_s();
    let short_final = path.sample(end_t as i64 - micro(30.0));
    let (gs, alt) = (unit(short_final.gs_kts), unit(short_final.altitude_ft));
    assert!(gs < 200.0, "gs = {}", gs);
    assert!(alt < 2000.0, "alt = {}", alt);

    // With the profile, total duration approaches the plan's 45 min ETE
    let mins = secs(end_t) / 60.0;
    assert!((40.0..50.0).contains(&mins), "duration: {mins} min");

    // Without V2/VREF the path is unchanged (and faster)
    let plain = path_of_waypoints(b.waypoints.clone()).unwrap();
    assert!(plain.total_duration_s() < end_t);
}

// Agents.

fn fix(ident: &str, lat: f64, lon: f64, alt: f64, gs: f64) -> Waypoint {
    wp(ident, lat, lon, Some(alt), None, Some(gs))
}

#[test]
fn test_flies_straight_leg_and_arrives() {
    // ~60 nm due north at 360 kt; integrate to arrival.
    let plan = plan_of_waypoints(vec![
        fix("A", 46.0, 6.0, 10000.0, 360.0),
        fix("B", 47.0, 6.0, 10000.0, 360.0),
    ])
    .unwrap();
    let mut ac = Aircraft::new(
        "T1".to_string(),
        "4b1234".to_string(),
        plan,
        VerticalLimits::flat(micro(2000.0)),
    );

    // Heading roughly north at spawn.
    assert!(unit(ac.track_deg) < 1.0 || unit(ac.track_deg) > 359.0);

    for _ in 0..1200 {
        // 1 s steps, well past the ~600 s leg
        fly(&mut ac, 1.0);
        if ac.ended {
            break;
        }
    }
    assert!(ac.ended);
    assert!((deg(ac.lat) - 47.0).abs() < 0.05, "lat = {}", deg(ac.lat));
    assert!((deg(ac.lon) - 6.0).abs() < 0.05, "lon = {}", deg(ac.lon));
}

#[test]
fn test_real_brief_flies_to_destination() {
    // Fly the whole LSGG->LFPG route (21 waypoints, turns, climb, descent)
    // and confirm LNAV sequences every leg and arrives near LFPG without
    // getting stuck.
    let b = parse_briefing(BRIEFING).unwrap();
    let plan = plan_of_briefing(&b).unwrap();
    assert_eq!(plan.points().len(), 21);
    let mut ac = Aircraft::new(
        "ALU".to_string(),
        "1349".to_string(),
        plan,
        VerticalLimits::flat(micro(2000.0)),
    );

    for _ in 0..5400 {
        // 1 s steps, up to 90 min — well past the ~45 min flight
        fly(&mut ac, 1.0);
        if ac.ended {
            break;
        }
    }
    assert!(ac.ended, "agent never arrived (LNAV stuck?)");
    assert!((deg(ac.lat) - 49.01).abs() < 0.1, "lat = {}", deg(ac.lat));
    assert!((deg(ac.lon) - 2.5483).abs() < 0.1, "lon = {}", deg(ac.lon));
}

#[test]
fn test_climb_capped_by_limit() {
    // Big climb over a short leg: required rate >> the 2000 fpm limit, so
    // the agent climbs at the cap and falls short.
    let plan = plan_of_waypoints(vec![
        fix("A", 46.0, 6.0, 0.0, 250.0),
        fix("B", 46.17, 6.0, 30000.0, 250.0), // ~10 nm, +30000 ft
    ])
    .unwrap();
    let mut ac = Aircraft::new(
        "T1".to_string(),
        "4b1234".to_string(),
        plan,
        VerticalLimits::flat(micro(2000.0)),
    );

    let before = ac.altitude_ft;
    fly(&mut ac, 60.0); // one minute
    let climb = unit(ac.altitude_ft - before);
    assert!(climb <= 2000.0 + 1.0, "climbed {climb} ft in 60 s");
    assert!(climb > 1900.0, "should pin to the cap, got {climb}");
}

#[test]
fn test_climb_paces_to_meet_target() {
    // Gentle climb over a long leg: required rate is below the limit, so the
    // agent paces (does not slam to the cap).
    let plan = plan_of_waypoints(vec![
        fix("A", 46.0, 6.0, 10000.0, 300.0),
        fix("B", 47.0, 6.0, 12000.0, 300.0), // 60 nm, +2000 ft
    ])
    .unwrap();
    let mut ac = Aircraft::new(
        "T1".to_string(),
        "4b1234".to_string(),
        plan,
        VerticalLimits::flat(micro(3000.0)),
    );

    // 60 nm at 300 kt = 12 min; 2000 ft / 12 min = ~167 fpm, well under cap.
    let before = ac.altitude_ft;
    fly(&mut ac, 60.0);
    let climb = unit(ac.altitude_ft - before);
    assert!(climb > 100.0 && climb < 300.0, "should pace ~167 ft, got {climb}");
}

#[test]
fn hemispheres_only_give_the_sign() {
    let chars = |s: &str| s.chars().collect::<Vec<char>>();
    for d in ["4614.3", "0000.0", "9000.0", "4659.9", "46.123", "4600.", "4660.0", "46..12", "461"] {
        let north = parse_lat(&chars(&format!("N{d}")));
        assert_eq!(parse_lat(&chars(&format!("S{d}"))), north.map(|v| -v), "{d}");
        let east = parse_lon(&chars(&format!("E0{d}")));
        assert_eq!(parse_lon(&chars(&format!("W0{d}"))), east.map(|v| -v), "{d}");
    }
    // 46 degrees and 14.3 minutes
    assert_eq!(parse_lat(&chars("N4614.3")), Some((46 * 60 * 10 + 143) * 100_000_000));
    assert_eq!(parse_lat(&chars("N4660.0")), None);
    assert_eq!(parse_lat(&chars("N461")), None);
    // any number of characters for the degrees, and no bound on them
    assert_eq!(parse_coord(&chars("S4614.3"), 'N', 'S', 2), Some(-2774_300_000_000));
    assert_eq!(parse_coord(&chars("N99930.0"), 'N', 'S', 3), Some(59_970_000_000_000));
    assert_eq!(parse_coord(&chars("X99930.0"), 'N', 'S', 3), None);
    assert_eq!(parse_coord(&chars("N99930.0"), 'N', 'S', usize::MAX), None);
}
