use libasterix::asterix::cat062::icao_to_track_number;
use sentrix::shared::cat062::{
    default_sim_callsign, default_sim_icao_address, flight_record, remap_track_collisions,
    round_feet, seconds_since_midnight_utc, Velocity,
};
use sentrix::shared::config::AsterixConfig;

#[test]
fn test_default_sim_identity_is_sequential() {
    assert_eq!(default_sim_callsign(0), "SIM001");
    assert_eq!(default_sim_callsign(1), "SIM002");
    assert_eq!(default_sim_icao_address(0), "4b1234");
    assert_eq!(default_sim_icao_address(1), "4b1235");
}

#[test]
fn test_remap_track_collisions_no_collision() {
    assert!(remap_track_collisions(&[]).unwrap().is_empty());
    assert!(remap_track_collisions(&["4b1234", "4b1235"]).unwrap().is_empty());
}

#[test]
fn test_remap_track_collisions_rewrites_later_flight() {
    // Identical addresses (same SimBrief airframe) and distinct addresses
    // sharing the low 12 bits both collide; the later flight is remapped
    for dup in ["4b1234", "4c1234"] {
        let remaps = remap_track_collisions(&["4b1234", dup]).unwrap();
        assert_eq!(remaps.len(), 1);
        let (i, replacement) = &remaps[0];
        assert_eq!(*i, 1);
        assert_ne!(
            icao_to_track_number(replacement),
            icao_to_track_number("4b1234")
        );
    }
}

#[test]
fn test_remap_avoids_already_used_fallbacks() {
    // The first two flights already occupy the first two fallback
    // addresses; the colliding third flight must skip past both
    let remaps = remap_track_collisions(&["4b1234", "4b1235", "4b1234"]).unwrap();
    assert_eq!(remaps.len(), 1);
    let (i, replacement) = &remaps[0];
    assert_eq!(*i, 2);
    let tracks: Vec<u16> = ["4b1234", "4b1235", replacement]
        .iter()
        .map(|a| icao_to_track_number(a))
        .collect();
    assert_eq!(tracks[2], icao_to_track_number("4b1236"));
    assert_ne!(tracks[2], tracks[0]);
    assert_ne!(tracks[2], tracks[1]);
}

#[test]
fn fallback_callsigns_grow_past_three_digits() {
    assert_eq!(default_sim_callsign(998), "SIM999");
    assert_eq!(default_sim_callsign(999), "SIM1000");
    assert_eq!(default_sim_icao_address(0xdcb), "4b1fff");
    assert_eq!(default_sim_icao_address(0xdcc), "4b2000");
}

#[test]
fn every_track_number_can_be_in_use() {
    // 4096 flights with one address: all but the first move, none share
    let same = vec!["1349"; 4096];
    let remaps = remap_track_collisions(&same).unwrap();
    assert_eq!(remaps.len(), 4095);
    let mut tracks: Vec<u16> = remaps.iter().map(|(_, a)| icao_to_track_number(a)).collect();
    tracks.push(icao_to_track_number("1349"));
    tracks.sort();
    tracks.dedup();
    assert_eq!(tracks.len(), 4096);
}

#[test]
fn one_flight_too_many_is_refused() {
    let mut many = vec!["1349"; 4096];
    many.push("c0ffee");
    let err = remap_track_collisions(&many).unwrap_err();
    assert_eq!(err.icao_address, "c0ffee");
}

#[test]
fn an_unreadable_address_has_number_zero() {
    let remaps = remap_track_collisions(&["none", "000000"]).unwrap();
    assert_eq!(remaps, vec![(1, "4b1234".to_string())]);
}

#[test]
fn records_carry_identity_and_state() {
    let r = flight_record(
        AsterixConfig { sac: 1, sic: 2 },
        "ALU",
        "4b17e5",
        2_774_300_000_000,
        366_600_000_000,
        4_999_500_000,
        100_000_000,
        225_000_000,
        30_000_000_000,
    );
    assert_eq!((r.sac, r.sic), (1, 2));
    assert_eq!(r.track_number, 0x7e5);
    assert_eq!(r.time_of_day, 30_000_000_000);
    assert_eq!(r.altitude_ft, Some(5000));
    // 100 kt at 0.514444 m/s each
    assert_eq!(r.velocity, Some(Velocity { speed_mps: 51_444_400, track_deg: 225_000_000 }));
    assert_eq!(r.icao_address, Some(0x4b17e5));
    assert_eq!(r.callsign.as_deref(), Some("ALU"));
    assert_eq!(r.track_status, 0);
}

#[test]
fn a_record_without_a_readable_address_has_none() {
    let r = flight_record(AsterixConfig { sac: 0, sic: 0 }, "X", "n/a", 0, 0, 0, 0, 0, 0);
    assert_eq!(r.track_number, 0);
    assert_eq!(r.icao_address, None);
}

#[test]
fn feet_are_rounded_half_away_from_zero() {
    assert_eq!(round_feet(499_999), 0);
    assert_eq!(round_feet(500_000), 1);
    assert_eq!(round_feet(-500_000), -1);
    assert_eq!(round_feet(-499_999), 0);
    assert_eq!(round_feet(i64::MAX), i32::MAX);
    assert_eq!(round_feet(i64::MIN), i32::MIN);
}

#[test]
fn time_of_day_counts_leap_nanoseconds() {
    assert_eq!(seconds_since_midnight_utc(86_399, 1_500_000_000), 86_400_500_000_000);
}

#[test]
fn replaced_addresses_are_fallbacks_and_stay() {
    let addresses = ["1349", "4b1234", "1349", "4c1235", "1349"];
    let remaps = remap_track_collisions(&addresses).unwrap();
    let fallbacks: Vec<String> = (0..4096).map(default_sim_icao_address).collect();
    let mut out: Vec<&str> = addresses.to_vec();
    for (i, a) in &remaps {
        assert!(fallbacks.contains(a));
        out[*i] = a.as_str();
    }
    assert_eq!(out, ["1349", "4b1234", "4b1235", "4b1236", "4b1237"]);
    assert!(remap_track_collisions(&out).unwrap().is_empty());
}
