use sentrix::agent::aircraft::{Aircraft, Reached};
use sentrix::agent::performance::{DefaultPerformance, VerticalLimits};
use sentrix::agent::run::{load_aircraft, remap_fleet, step_fleet, substeps};
use sentrix::number::Reading;
use sentrix::replay::run::{load_sim_flight, remap_flights, tick};
use sentrix::replay::sampler::sample;
use sentrix::shared::config::{AsterixConfig, SimulationConfig};
use sentrix::shared::geo::Leg;
use sentrix::shared::identity::{flight_identity, overrides_ignored};
use sentrix::shared::lido::{LidoBriefing, Waypoint};
use sentrix::shared::notice::Notice;
use sentrix::shared::plan::{
    apply_arrival_profile, apply_departure_profile, fill_gaps, profiled_waypoints, FlightPlan,
    PlanError,
};
use sentrix::shared::summary::flight_summary;

const KT: i64 = 1_000_000;
const FT: i64 = 1_000_000;
const NM: i64 = 1_000_000_000;
const MIN: i64 = 1_000_000_000;

const ASTERIX: AsterixConfig = AsterixConfig { sac: 1, sic: 2 };

/// A waypoint at some minutes of arc.
fn fix(ident: &str, lat: i64, lon: i64, alt: Option<i64>, gs: Option<i64>) -> Waypoint {
    Waypoint {
        ident: ident.to_string(),
        lat: lat * MIN,
        lon: lon * MIN,
        altitude_ft: alt.map(|a| a * FT),
        tas_kts: None,
        gs_kts: gs.map(|g| g * KT),
        wind_comp_kts: None,
        cum_time_min: None,
    }
}

fn leg(nm: i64, bearing: i64) -> Leg {
    Leg { distance_nm: nm * NM, bearing_deg: bearing * 1_000_000 }
}

fn briefing(waypoints: Vec<Waypoint>) -> LidoBriefing {
    LidoBriefing {
        waypoints,
        callsign: None,
        registration: None,
        aircraft_type: None,
        icao_address: None,
        dep_runway: None,
        arr_runway: None,
        v2_kts: None,
        vref_kts: None,
        wind_profiles: vec![],
    }
}

/// Sixty miles north at 360 kt.
fn north() -> LidoBriefing {
    briefing(vec![
        fix("A", 2760, 360, Some(10000), Some(360)),
        fix("B", 2820, 360, Some(20000), Some(360)),
    ])
}

fn north_plan() -> FlightPlan {
    FlightPlan::from_waypoints(north().waypoints, vec![leg(60, 0)]).unwrap()
}

fn no_overrides() -> SimulationConfig {
    SimulationConfig::default()
}

fn overrides() -> SimulationConfig {
    SimulationConfig {
        callsign: Some("OVER".to_string()),
        icao_address: Some("abc".to_string()),
    }
}

#[test]
fn plans_need_waypoints_and_speeds() {
    let plan = |w: Vec<Waypoint>| FlightPlan::from_waypoints(w, vec![leg(60, 0)]).unwrap_err();
    assert_eq!(
        FlightPlan::from_waypoints(vec![], vec![]).unwrap_err(),
        PlanError::TooFewWaypoints { count: 0 }
    );
    assert_eq!(
        plan(vec![fix("A", 0, 0, None, Some(1))]),
        PlanError::TooFewWaypoints { count: 1 }
    );
    assert_eq!(
        plan(vec![fix("A", 0, 0, None, None), fix("B", 60, 0, None, None)]),
        PlanError::NoGroundSpeeds
    );
}

#[test]
fn legs_take_their_length_over_the_average_speed() {
    let w = vec![
        fix("A", 0, 0, None, Some(100)),
        fix("B", 30, 0, Some(500), None),
        fix("C", 60, 0, None, Some(200)),
    ];
    let plan = FlightPlan::from_waypoints(w, vec![leg(30, 10), leg(45, 20)]).unwrap();
    let p = plan.points();
    // 30 nm at 100 kt, then 45 nm at an average of 150 kt
    assert_eq!(p[1].time_s, 1_080_000_000);
    assert_eq!(p[2].time_s, 2_160_000_000);
    assert_eq!(plan.total_duration_s(), 2_160_000_000);
    assert_eq!(plan.total_distance_nm(), 75 * NM as u128);
    assert_eq!(p.iter().map(|p| p.track_deg / 1_000_000).collect::<Vec<_>>(), [10, 20, 20]);
    // the airports are on the surface
    assert_eq!(p.iter().map(|p| p.altitude_ft / FT).collect::<Vec<_>>(), [0, 500, 0]);
    assert_eq!(p.iter().map(|p| p.gs_kts / KT).collect::<Vec<_>>(), [100, 100, 200]);
}

#[test]
fn no_time_passes_without_speed() {
    let w = vec![fix("A", 0, 0, None, Some(0)), fix("B", 60, 0, None, Some(-5))];
    let plan = FlightPlan::from_waypoints(w, vec![leg(60, 0)]).unwrap();
    assert_eq!(plan.total_duration_s(), 0);
    assert!(sample(&plan, 0).ended);
}

#[test]
fn gaps_are_filled_from_before_then_from_behind() {
    let mut v = vec![None, None, Some(3), None, Some(5), None];
    fill_gaps(&mut v);
    assert_eq!(v, vec![Some(3), Some(3), Some(3), Some(3), Some(5), Some(5)]);
    let mut none = vec![None, None];
    fill_gaps(&mut none);
    assert_eq!(none, vec![None, None]);
}

#[test]
fn departures_accelerate_on_long_legs() {
    let route = || vec![fix("A", 0, 0, None, None), fix("B", 60, 30, Some(5000), Some(276))];
    let mut w = route();
    apply_departure_profile(&mut w, Some(154 * KT), 20 * NM);
    assert_eq!(w.len(), 3);
    assert_eq!((w[0].ident.as_str(), w[0].gs_kts), ("A", Some(154 * KT)));
    // a tenth of the way
    assert_eq!((w[1].ident.as_str(), w[1].lat, w[1].lon), ("CLIMB", 6 * MIN, 3 * MIN));
    assert_eq!((w[1].altitude_ft, w[1].gs_kts), (Some(500 * FT), Some(250 * KT)));
    assert_eq!((w[2].ident.as_str(), w[2].gs_kts), ("B", Some(276 * KT)));

    let mut w = route();
    apply_departure_profile(&mut w, Some(154 * KT), 3 * NM);
    assert_eq!(w.len(), 2);
    assert_eq!(w[0].gs_kts, Some(154 * KT));

    let mut w = route();
    apply_departure_profile(&mut w, None, 20 * NM);
    assert_eq!((w.len(), w[0].gs_kts), (2, None));
}

#[test]
fn arrivals_decelerate_by_stages() {
    let route = || vec![fix("A", 0, 0, Some(20000), Some(300)), fix("B", 100, 200, None, Some(280))];
    let mut w = route();
    apply_arrival_profile(&mut w, Some(133 * KT), 20 * NM);
    let names: Vec<&str> = w.iter().map(|w| w.ident.as_str()).collect();
    assert_eq!(names, ["A", "FIN15", "FIN10", "FIN04", "B"]);
    let gs: Vec<i64> = w.iter().map(|w| w.gs_kts.unwrap() / KT).collect();
    assert_eq!(gs, [300, 250, 200, 148, 133]);
    // the glide is lower than the straight line
    let alt: Vec<i64> = w.iter().map(|w| w.altitude_ft.unwrap() / FT).collect();
    assert_eq!(alt, [20000, 4770, 3180, 1272, 0]);
    assert_eq!((w[1].lat, w[1].lon), (25 * MIN, 50 * MIN));
    assert_eq!((w[3].lat, w[3].lon), (80 * MIN, 160 * MIN));

    // a stage needs less than nine tenths of the leg
    let mut w = route();
    apply_arrival_profile(&mut w, Some(133 * KT), 15 * NM);
    assert_eq!(w.len(), 4);
    let mut w = route();
    apply_arrival_profile(&mut w, Some(133 * KT), 4 * NM);
    assert_eq!(w.len(), 2);
    assert_eq!((w[1].gs_kts, w[1].altitude_ft), (Some(133 * KT), Some(0)));

    let mut w = route();
    apply_arrival_profile(&mut w, None, 20 * NM);
    assert_eq!((w.len(), w[1].gs_kts, w[1].altitude_ft), (2, Some(280 * KT), None));
}

#[test]
fn stages_are_no_faster_or_higher_than_the_leg_starts() {
    let mut w = vec![fix("A", 0, 0, Some(1500), Some(140)), fix("B", 100, 0, Some(300), None)];
    apply_arrival_profile(&mut w, Some(133 * KT), 30 * NM);
    let gs: Vec<i64> = w.iter().map(|w| w.gs_kts.unwrap() / KT).collect();
    assert_eq!(gs, [140, 140, 140, 140, 133]);
    let alt: Vec<i64> = w.iter().map(|w| w.altitude_ft.unwrap() / FT).collect();
    assert_eq!(alt, [1500, 750, 500, 200, 300]);
}

#[test]
fn a_briefing_without_speeds_keeps_its_waypoints() {
    let b = north();
    let w = profiled_waypoints(&b, 60 * NM, 60 * NM);
    assert_eq!(w.len(), 2);
    assert_eq!((w[0].gs_kts, w[1].gs_kts), (Some(360 * KT), Some(360 * KT)));
}

#[test]
fn two_waypoints_take_both_profiles() {
    let mut b = north();
    b.v2_kts = Some(154 * KT);
    b.vref_kts = Some(133 * KT);
    let w = profiled_waypoints(&b, 60 * NM, 58 * NM);
    let names: Vec<&str> = w.iter().map(|w| w.ident.as_str()).collect();
    assert_eq!(names, ["A", "CLIMB", "FIN15", "FIN10", "FIN04", "B"]);
    assert_eq!(w[0].gs_kts, Some(154 * KT));
    assert_eq!(w[5].gs_kts, Some(133 * KT));
    // all on the one leg, two and 45, 50 and 56 of its sixty miles along
    let lats: Vec<i64> = w.iter().map(|w| w.lat).collect();
    assert_eq!(lats, [2760, 2762, 2805, 2810, 2816, 2820].map(|m| m * MIN));
}

#[test]
fn samples_follow_the_timeline() {
    let plan = north_plan();
    let s = sample(&plan, 150_000_000);
    assert_eq!((s.lat, s.lon, s.altitude_ft), (2775 * MIN, 360 * MIN, 12500 * FT));
    assert_eq!((s.gs_kts, s.tas_kts, s.track_deg), (360 * KT, 360 * KT, 0));
    assert_eq!(s.next_ident.as_deref(), Some("B"));
    let before = sample(&plan, -5);
    let start = sample(&plan, 0);
    assert_eq!((before.lat, before.altitude_ft), (start.lat, start.altitude_ft));
    assert_eq!((start.lat, start.altitude_ft), (2760 * MIN, 10000 * FT));
    assert!(!sample(&plan, 599_999_999).ended);
    let end = sample(&plan, 600_000_000);
    assert_eq!((end.lat, end.gs_kts, end.tas_kts, end.ended), (2820 * MIN, 0, 0, true));
    let late = sample(&plan, i64::MAX);
    assert_eq!((late.lat, late.next_ident), (2820 * MIN, None));
}

#[test]
fn waypoints_with_one_time_are_passed_at_once() {
    let w = vec![
        fix("A", 0, 0, Some(0), Some(100)),
        fix("B", 10, 0, Some(0), Some(100)),
        fix("C", 10, 0, Some(0), Some(100)),
        fix("D", 20, 0, Some(0), Some(100)),
    ];
    let plan = FlightPlan::from_waypoints(w, vec![leg(10, 0), leg(0, 90), leg(10, 180)]).unwrap();
    let s = sample(&plan, plan.points()[1].time_s as i64);
    assert_eq!((s.lat, s.track_deg), (10 * MIN, 180_000_000));
    assert_eq!(s.next_ident.as_deref(), Some("D"));
}

#[test]
fn identities_are_override_briefing_fallback() {
    let mut b = north();
    let id = |c: &SimulationConfig, b: &LidoBriefing, single: bool| {
        let i = flight_identity(c, b, 1, single);
        (i.callsign, i.icao_address)
    };
    let pair = |a: &str, b: &str| (a.to_string(), b.to_string());
    assert_eq!(id(&no_overrides(), &b, true), pair("SIM002", "4b1235"));
    assert_eq!(id(&overrides(), &b, false), pair("SIM002", "4b1235"));
    assert_eq!(id(&overrides(), &b, true), pair("OVER", "abc"));
    b.callsign = Some("ALU".to_string());
    b.icao_address = Some("1349".to_string());
    assert_eq!(id(&no_overrides(), &b, true), pair("ALU", "1349"));
    assert_eq!(id(&overrides(), &b, false), pair("ALU", "1349"));
    assert_eq!(id(&overrides(), &b, true), pair("OVER", "abc"));
    assert!(!overrides_ignored(&overrides(), 1));
    assert!(overrides_ignored(&overrides(), 2));
    assert!(!overrides_ignored(&no_overrides(), 2));
}

#[test]
fn summaries_fall_back_to_waypoint_names() {
    let mut b = north();
    b.waypoints[1].cum_time_min = Some(45);
    let s = flight_summary(&b, &north_plan());
    assert_eq!((s.from.as_str(), s.to.as_str(), s.waypoints), ("A", "B", 2));
    assert_eq!((s.distance_nm, s.duration_s), (60 * NM as u128, 600_000_000));
    assert_eq!((s.log_ete_min, s.speeds), (Some(45), None));
    assert_eq!((s.aircraft_type.as_str(), s.registration.as_str()), ("type n/a", "reg n/a"));
    b.dep_runway = Some("LSGG/22".to_string());
    b.v2_kts = Some(1);
    b.vref_kts = Some(2);
    b.aircraft_type = Some("A320".to_string());
    let s = flight_summary(&b, &north_plan());
    assert_eq!((s.from.as_str(), s.to.as_str(), s.speeds), ("LSGG/22", "B", Some((1, 2))));
    assert_eq!(s.aircraft_type, "A320");
}

#[test]
fn replayed_flights_get_their_own_track_numbers() {
    let mut b = north();
    b.icao_address = Some("1349".to_string());
    let load = |i: usize| {
        load_sim_flight(&no_overrides(), &b, (60 * NM, 60 * NM, vec![leg(60, 0)]), i, false).unwrap()
    };
    let mut flights = vec![load(0), load(1), load(2)];
    let remaps = remap_flights(&mut flights).unwrap();
    let moved: Vec<(usize, &str, &str)> =
        remaps.iter().map(|r| (r.index, r.from.as_str(), r.to.as_str())).collect();
    assert_eq!(moved, [(1, "1349", "4b1234"), (2, "1349", "4b1235")]);
    let addresses: Vec<&str> = flights.iter().map(|f| f.icao_address.as_str()).collect();
    assert_eq!(addresses, ["1349", "4b1234", "4b1235"]);
    let ticks = tick(&mut flights, ASTERIX, 0, &vec![7, 8, 9]);
    let numbers: Vec<u16> = ticks.iter().map(|t| t.record.track_number).collect();
    assert_eq!(numbers, [0x349, 0x234, 0x235]);
    let times: Vec<u64> = ticks.iter().map(|t| t.record.time_of_day).collect();
    assert_eq!(times, [7, 8, 9]);
}

#[test]
fn arrivals_are_announced_once() {
    let geometry = (60 * NM, 60 * NM, vec![leg(60, 0)]);
    let flight = load_sim_flight(&no_overrides(), &north(), geometry, 0, true).unwrap();
    assert_eq!(flight.arrival, "B");
    assert_eq!(flight.plan.total_distance_nm(), 60 * NM as u128);
    let mut flights = vec![flight];
    let mut notice = |t: i64| tick(&mut flights, ASTERIX, t, &vec![0]).remove(0);
    let first = notice(300_000_000);
    assert_eq!(first.notice, Notice::EnRoute);
    assert_eq!(notice(600_000_000).notice, Notice::Arrived);
    assert_eq!(notice(601_000_000).notice, Notice::Holding);
    // what was published before does not depend on it
    let again = notice(300_000_000);
    assert_eq!(again.record.latitude, first.record.latitude);
    assert_eq!(again.record.latitude, 2790 * MIN);
    assert_eq!(again.record.altitude_ft, Some(15000));
}

#[test]
fn loading_reports_what_is_wrong_with_a_plan() {
    let b = briefing(vec![fix("A", 0, 0, None, None), fix("B", 60, 0, None, None)]);
    let e = load_sim_flight(&no_overrides(), &b, (60 * NM, 60 * NM, vec![leg(60, 0)]), 0, true);
    assert_eq!(e.unwrap_err(), PlanError::NoGroundSpeeds);
    let perf = DefaultPerformance::new(0);
    let one = briefing(vec![fix("A", 0, 0, None, Some(5))]);
    let e = load_aircraft(&no_overrides(), &one, (0, 0, vec![]), 0, true, &perf);
    assert_eq!(e.unwrap_err(), PlanError::TooFewWaypoints { count: 1 });
}

fn aircraft(plan: FlightPlan, fpm: i64) -> Aircraft {
    Aircraft::new("T1".to_string(), "4b1234".to_string(), plan, VerticalLimits::flat(fpm * FT))
}

fn there(nm: i64) -> Reached {
    Reached { lat: 1, lon: 2, to_fix_nm: nm * NM }
}

#[test]
fn steps_are_limited_in_turn_speed_and_climb() {
    let w = vec![fix("A", 0, 0, Some(0), Some(100)), fix("B", 60, 0, Some(30000), Some(250))];
    let plan = FlightPlan::from_waypoints(w, vec![leg(60, 350)]).unwrap();
    let mut ac = aircraft(plan, 2000);
    assert_eq!(ac.vertical_limit_fpm(), Some(Reading::Value(2000 * FT)));
    // two seconds: six degrees, 1.4 kt, 66 and two thirds of a foot
    let travel = ac.travel(2_000_000, leg(6, 20)).unwrap();
    ac.step(2_000_000, leg(6, 20), there(59));
    assert_eq!(ac.track_deg, 356_000_000);
    assert_eq!(ac.gs_kts, 101_400_000);
    assert_eq!(ac.altitude_ft, 66_666_666);
    assert_eq!((ac.lat, ac.lon), (1, 2));
    assert_eq!(travel.track_deg, 356_000_000);
    // 101.4 kt for two seconds
    assert_eq!(travel.distance_nm, 56_333_333);
    // onto the bearing and the speed where they are within reach
    ac.step(300_000_000, leg(60, 20), there(58));
    assert_eq!((ac.track_deg, ac.gs_kts), (20_000_000, 250 * KT));
}

#[test]
fn climbs_are_paced_to_the_waypoint() {
    let w = vec![fix("A", 0, 0, Some(10000), Some(300)), fix("B", 60, 0, Some(12000), Some(300))];
    let plan = FlightPlan::from_waypoints(w, vec![leg(60, 0)]).unwrap();
    let mut ac = aircraft(plan, 3000);
    // 60 nm at 300 kt take 12 minutes
    ac.step(60_000_000, leg(60, 0), there(55));
    assert_eq!(ac.altitude_ft, 10_166_666_666);
    // at the waypoint only the limit counts
    ac.step(1_000_000, leg(0, 0), there(54));
    assert_eq!(ac.altitude_ft, 10_216_666_666);
}

#[test]
fn a_standing_aircraft_does_not_climb() {
    let w = vec![fix("A", 0, 0, Some(0), Some(1)), fix("B", 60, 0, Some(1000), Some(1))];
    let plan = FlightPlan::from_waypoints(w, vec![leg(60, 0)]).unwrap();
    let mut ac = aircraft(plan, 2000);
    ac.step(60_000_000, leg(60, 0), there(60));
    assert_eq!(ac.altitude_ft, 0);
}

#[test]
fn waypoints_are_sequenced_when_reached_or_behind() {
    let w = || {
        vec![
            fix("A", 0, 0, Some(0), Some(100)),
            fix("B", 60, 0, Some(0), Some(100)),
            fix("C", 120, 0, Some(0), Some(100)),
        ]
    };
    let plan = || FlightPlan::from_waypoints(w(), vec![leg(60, 0), leg(60, 0)]).unwrap();
    let at = |d: i64| Reached { lat: 0, lon: 0, to_fix_nm: d };
    let second = 1_000_000;

    let mut ac = aircraft(plan(), 2000);
    assert_eq!(ac.target_ident(), Some("B"));
    assert_eq!(ac.arrival_ident(), "C");
    assert_eq!(ac.target_position(), Some((60 * MIN, 0)));
    ac.step(second, leg(2, 0), at(NM));
    assert_eq!(ac.target_ident(), Some("B"));
    ac.step(second, leg(2, 0), at(NM - 1));
    assert_eq!(ac.target_ident(), Some("C"));

    // close by, then three tenths of a mile further off and more
    let mut ac = aircraft(plan(), 2000);
    ac.step(second, leg(3, 0), at(3 * NM - 1));
    ac.step(second, leg(3, 0), at(3 * NM - 1 + 300_000_000));
    assert_eq!(ac.target_ident(), Some("B"));
    ac.step(second, leg(3, 0), at(3 * NM + 300_000_000));
    assert_eq!(ac.target_ident(), Some("C"));

    // never close
    let mut ac = aircraft(plan(), 2000);
    ac.step(second, leg(3, 0), at(3 * NM));
    ac.step(second, leg(3, 0), at(9 * NM));
    assert_eq!(ac.target_ident(), Some("B"));
}

#[test]
fn an_arrived_aircraft_stays_at_rest() {
    let mut ac = aircraft(north_plan(), 2000);
    ac.step(1_000_000, leg(60, 0), there(0));
    assert!(ac.ended);
    assert_eq!(ac.gs_kts, 0);
    assert_eq!((ac.target_ident(), ac.target_position()), (None, None));
    assert_eq!((ac.travel(1, leg(1, 0)), ac.vertical_limit_fpm()), (None, None));
    let (alt, track) = (ac.altitude_ft, ac.track_deg);
    ac.step(9_000_000, leg(5, 90), Reached { lat: 77, lon: 78, to_fix_nm: 5 });
    assert_eq!((ac.lat, ac.lon, ac.altitude_ft, ac.track_deg), (1, 2, alt, track));
    assert_eq!(ac.arrival_ident(), "B");
    // whatever is handed in
    ac.step(-5, leg(-1, 999), there(-1));
    ac.step(i64::MAX, leg(-1, 999), there(-1));
    assert_eq!((ac.lat, ac.lon, ac.gs_kts, ac.ended), (1, 2, 0, true));
}

#[test]
fn steps_may_be_long() {
    let w = vec![fix("A", 0, 0, Some(0), Some(100)), fix("B", 60, 0, Some(30000), Some(250))];
    let plan = FlightPlan::from_waypoints(w, vec![leg(60, 350)]).unwrap();
    let mut ac = aircraft(plan, 2000);
    // 250 kt for 2^63 - 1 microseconds
    let travel = ac.travel(i64::MAX, leg(60, 20)).unwrap();
    assert_eq!(travel.distance_nm, 250_000_000 * i64::MAX as i128 / 3_600_000);
    ac.step(i64::MAX, leg(60, 20), there(59));
    assert_eq!((ac.track_deg, ac.gs_kts, ac.altitude_ft), (20_000_000, 250 * KT, 30000 * FT));
}

#[test]
fn states_and_points_can_be_copied() {
    let plan = north_plan();
    let (s, p) = (sample(&plan, 0).clone(), plan.points()[1].clone());
    assert_eq!((s.lat, s.next_ident.as_deref()), (2760 * MIN, Some("B")));
    assert_eq!((p.ident.as_str(), p.lat), ("B", 2820 * MIN));
}

#[test]
fn fleets_are_loaded_remapped_and_published() {
    let mut b = north();
    b.icao_address = Some("1349".to_string());
    b.callsign = Some("ALU".to_string());
    let perf = DefaultPerformance::new(1500 * FT);
    let load = |i: usize| {
        load_aircraft(
            &no_overrides(),
            &b,
            (60 * NM, 60 * NM, vec![leg(60, 0)]),
            i,
            false,
            &perf,
        )
        .unwrap()
    };
    let mut fleet = vec![load(0), load(1)];
    assert_eq!(fleet[0].vertical_limit_fpm(), Some(Reading::Value(1500 * FT)));
    let remaps = remap_fleet(&mut fleet).unwrap();
    assert_eq!(remaps.len(), 1);
    assert_eq!((remaps[0].index, remaps[0].to.as_str()), (1, "4b1234"));
    assert_eq!(fleet[1].icao_address, "4b1234");

    let mut announced = vec![false, false];
    let ticks = sentrix::agent::run::tick(&fleet, &mut announced, ASTERIX, &vec![5, 6]);
    assert_eq!(ticks[0].record.track_number, 0x349);
    assert_eq!(ticks[1].record.track_number, 0x234);
    assert_eq!((ticks[1].record.time_of_day, ticks[1].record.altitude_ft), (6, Some(10000)));
    assert_eq!(ticks[0].record.callsign.as_deref(), Some("ALU"));
    assert_eq!((ticks[0].notice, announced[0]), (Notice::EnRoute, false));

    fleet[0].step(1_000_000, leg(60, 0), there(0));
    let ticks = sentrix::agent::run::tick(&fleet, &mut announced, ASTERIX, &vec![5, 6]);
    assert_eq!(ticks[0].notice, Notice::Arrived);
    assert_eq!(ticks[0].record.velocity.unwrap().speed_mps, 0);
    assert_eq!(announced, [true, false]);
    let ticks = sentrix::agent::run::tick(&fleet, &mut announced, ASTERIX, &vec![5, 6]);
    assert_eq!((ticks[0].notice, ticks[1].notice), (Notice::Holding, Notice::EnRoute));
}

#[test]
fn integration_takes_one_step_a_second() {
    assert_eq!(substeps(0), 1);
    assert_eq!(substeps(10), 10);
    assert_eq!(substeps(u64::MAX), u32::MAX);
}

#[test]
fn a_fleet_takes_its_step_together() {
    let mut fleet = vec![aircraft(north_plan(), 2000), aircraft(north_plan(), 2000)];
    step_fleet(&mut fleet, &vec![leg(60, 0), leg(60, 0)], &vec![there(0), there(50)]);
    assert_eq!((fleet[0].ended, fleet[1].ended), (true, false));
    let mut alone = aircraft(north_plan(), 2000);
    alone.step(1_000_000, leg(60, 0), there(50));
    assert_eq!((fleet[1].gs_kts, fleet[1].altitude_ft), (alone.gs_kts, alone.altitude_ft));
}

#[test]
fn nothing_limits_a_climb_without_a_number() {
    for rate in [Reading::NotANumber, Reading::Infinite { negative: false }] {
        let w = vec![fix("A", 0, 0, Some(0), Some(360)), fix("B", 60, 0, Some(30000), Some(360))];
        let plan = FlightPlan::from_waypoints(w, vec![leg(60, 0)]).unwrap();
        let mut limits = VerticalLimits::flat(0);
        limits.climb_high = rate;
        let mut ac = Aircraft::new("T1".to_string(), "4b1234".to_string(), plan, limits);
        assert_eq!(ac.vertical_limit_fpm(), Some(rate));
        // sixty miles take ten minutes: a sixth of a minute climbs a sixtieth
        ac.step(10_000_000, leg(60, 0), there(59));
        assert_eq!(ac.altitude_ft, 500 * FT);
        // at the waypoint there is no pace either
        ac.step(1, leg(0, 0), there(59));
        assert_eq!(ac.altitude_ft, 30000 * FT);
    }
}
