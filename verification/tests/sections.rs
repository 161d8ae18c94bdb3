use sentrix::number::Reading;
use sentrix::shared::lido::speeds::{interpolate_table, TableRow};
use sentrix::shared::lido::{parse_briefing, parse_flight_log, LidoBriefing, LidoError};

const LOG: &str = "\
--------------------------------------------------------------------
                                   222                     5.2   0.2
GENEVA      N4614.3      ...  74   225         P004
LSGG       E00606.6 0000 ...       238  276               ....  ....

DIPIR1A                      050   328  .41 005/005   10   4.9   0.5
PASSEIRY    N4609.8 0002 ...  78   331         P004  P05
PAS        E00600.0 0130 ...   6   232  276          436  ....  ....
";

fn parsed(sections: &str) -> LidoBriefing {
    parse_briefing(&format!("{LOG}\n{sections}")).unwrap()
}

#[test]
fn a_log_without_two_waypoints_is_refused() {
    assert_eq!(
        parse_flight_log("").unwrap_err(),
        LidoError::TooFewWaypoints { count: 0 }
    );
    let one: String = LOG.lines().take(4).map(|l| format!("{l}\n")).collect();
    assert_eq!(
        parse_flight_log(&one).unwrap_err(),
        LidoError::TooFewWaypoints { count: 1 }
    );
    assert_eq!(
        parse_briefing(&one).unwrap_err(),
        LidoError::TooFewWaypoints { count: 1 }
    );
}

#[test]
fn waypoints_have_exact_values() {
    let w = parse_flight_log(LOG).unwrap();
    // 46 degrees 14.3 minutes, 6 degrees 6.6 minutes
    assert_eq!((w[0].lat, w[0].lon), (2_774_300_000_000, 366_600_000_000));
    assert_eq!(w[0].altitude_ft, None);
    assert_eq!(w[1].altitude_ft, Some(5_000_000_000));
    assert_eq!(w[1].cum_time_min, Some(90));
}

#[test]
fn carriage_returns_do_not_matter() {
    let w = parse_flight_log(&LOG.replace('\n', "\r\n")).unwrap();
    assert_eq!(w.len(), 2);
    assert_eq!(w[1].ident, "PAS");
}

#[test]
fn boundary_rows_are_left_out() {
    let fir = "\
-LFMM       N4610.0 0001 ...  78   331
           E00603.0 0001 ...       232
";
    let w = parse_flight_log(&format!("{fir}\n{LOG}")).unwrap();
    assert_eq!(w.len(), 2);
    assert_eq!(w[0].ident, "LSGG");
}

#[test]
fn nameless_waypoints_are_kept() {
    let text = LOG.replace("GENEVA", "      ").replace("LSGG", "    ");
    let w = parse_flight_log(&text).unwrap();
    assert_eq!(w[0].ident, "?");
}

#[test]
fn a_waypoint_block_on_the_first_line_has_no_altitude() {
    let text: String = LOG.lines().skip(2).map(|l| format!("{l}\n")).collect();
    let w = parse_flight_log(&text).unwrap();
    assert_eq!(w.len(), 2);
    assert_eq!(w[0].altitude_ft, None);
}

#[test]
fn other_sections_leave_the_waypoints_alone() {
    let b = parsed("(FPL-ALU-IS\n-A320/M\nWIND INFORMATION\nCLIMB\n350 314/037 -51\n");
    let w = parse_flight_log(LOG).unwrap();
    assert_eq!(b.waypoints.len(), w.len());
    for (x, y) in b.waypoints.iter().zip(&w) {
        assert_eq!((&x.ident, x.lat, x.lon, x.gs_kts), (&y.ident, y.lat, y.lon, y.gs_kts));
    }
}

#[test]
fn callsigns_are_short_and_plain() {
    let callsign = |s: &str| parsed(s).callsign;
    assert_eq!(callsign("(FPL- ALU12A -IS").as_deref(), Some("ALU12A"));
    assert_eq!(callsign("x (FPL-A").as_deref(), Some("A"));
    assert_eq!(callsign("(FPL-ABCDEFGH-IS"), None);
    assert_eq!(callsign("(FPL--IS"), None);
    assert_eq!(callsign("(FPL-A.B-IS"), None);
}

#[test]
fn aircraft_types_stand_on_the_second_line() {
    let typ = |s: &str| parsed(s).aircraft_type;
    assert_eq!(typ("(FPL-ALU-IS\n  -B738/M-S/C").as_deref(), Some("B738"));
    assert_eq!(typ("(FPL-ALU-IS\n-A/M"), None);
    assert_eq!(typ("(FPL-ALU-IS\n-A320N/M"), None);
    assert_eq!(typ("(FPL-ALU-IS\nA320/M"), None);
    assert_eq!(typ("(FPL-ALU-IS"), None);
}

#[test]
fn plan_items_end_with_the_plan() {
    let b = parsed("REG/NOTYET\n(FPL-ALU-IS\nREG/ REG/) REG/N320SB)) x\nCODE/1349\n");
    assert_eq!(b.registration.as_deref(), Some("N320SB"));
    // the closing bracket on the line of the registration ends the plan
    assert_eq!(b.icao_address, None);
}

#[test]
fn routing_needs_a_departure_runway() {
    let ends = |s: &str| {
        let b = parsed(s);
        (b.dep_runway, b.arr_runway)
    };
    let some = |s: &str| Some(s.to_string());
    assert_eq!(ends("ROUTING:\nLSGG/22 DCT LFPG/27R"), (some("LSGG/22"), some("LFPG/27R")));
    assert_eq!(ends(" ROUTING: \n\nx\nLSGG/22 DCT LFPG"), (some("LSGG/22"), None));
    assert_eq!(ends("ROUTING:\nLSGG DCT LFPG/27R"), (None, None));
    assert_eq!(ends("ROUTING: LSGG/22\nLSGG/22"), (None, None));
    // nine lines below is too far
    assert_eq!(ends("ROUTING:\n\n\n\n\n\n\n\n\nLSGG/22"), (None, None));
    assert_eq!(ends("ROUTING:\n\n\n\n\n\n\n\nLSGG/22"), (some("LSGG/22"), some("LSGG/22")));
    assert_eq!(ends("ROUTING:\nLSGG/2204"), (None, None));
    assert_eq!(ends("ROUTING:\nLsGG/22"), (None, None));
}

fn takeoff(row: &str, table: &str) -> String {
    format!("/// TAKEOFF DATA ///\n  APT PRWY\n{row}\n--- DRY RWY - PTOW - CALM WIND ---\n{table}\n")
}

#[test]
fn v2_is_that_of_the_planned_runway() {
    let v2 = |row: &str, table: &str| parsed(&takeoff(row, table)).v2_kts;
    let table = "04 1 153 OBS\n22 1 154.5 OBS\n";
    assert_eq!(v2("LSGG 22 x", table), Some(154_500_000));
    assert_eq!(v2("LSGG 05 x", table), None);
    assert_eq!(v2("LSGG", table), None);
    assert_eq!(v2("Lsgg 22", table), None);
    // past the end of the table, too slow, too fast, unreadable
    assert_eq!(v2("LSGG 22", "----\n22 1 154 OBS"), None);
    assert_eq!(v2("LSGG 22", "22 1 79.9 OBS"), None);
    assert_eq!(v2("LSGG 22", "22 1 80 OBS"), Some(80_000_000));
    assert_eq!(v2("LSGG 22", "22 1 250 OBS"), None);
    assert_eq!(v2("LSGG 22", "22 1 V2 OBS\n22 1 154 OBS"), None);
    // a row of two words is none
    assert_eq!(v2("LSGG 22", "22 OBS\n22 1 154 OBS"), Some(154_000_000));
}

fn landing(weight: &str, table: &str) -> String {
    format!("/// LANDING DATA ///\nAPT PRWY\nLFPG 27R {weight} AFM\nLANDING DISTANCE\n{table}\n")
}

#[test]
fn vref_is_interpolated_and_held_at_the_ends() {
    let vref = |weight: &str, table: &str| parsed(&landing(weight, table)).vref_kts;
    let table = "6200 132\n/6300 133\n6400 134\n";
    assert_eq!(vref("6319", table), Some(133_190_000));
    assert_eq!(vref("6300", table), Some(133_000_000));
    assert_eq!(vref("5000", table), Some(132_000_000));
    assert_eq!(vref("9000", table), Some(134_000_000));
    assert_eq!(vref("x", table), None);
    assert_eq!(vref("6319", ""), None);
    // rows that are too light, too fast or short are passed over
    assert_eq!(vref("6319", "999 100\n6300 300\n6300\n6400 134"), Some(134_000_000));
}

#[test]
fn tables_are_interpolated() {
    let row = |x: i64, y: i64| TableRow { x, y };
    assert_eq!(interpolate_table(&vec![], 5), None);
    let rows = vec![row(10, 100), row(20, 50), row(15, 80), row(30, 0)];
    assert_eq!(interpolate_table(&rows, 10), Some(100));
    assert_eq!(interpolate_table(&rows, 13), Some(85));
    assert_eq!(interpolate_table(&rows, 25), Some(27));
    assert_eq!(interpolate_table(&rows, 99), Some(0));
}

#[test]
fn wind_tables_are_read_by_columns() {
    let b = parsed(
        "WIND INFORMATION

CLIMB            T O C
--- --- ---
350 314/037 -51  340 315/041 -50
310 315-036 -43  320 316/040 -45
x
300 1/2 +3
[ NEXT ]
200 318/030 -18
",
    );
    let names: Vec<&str> = b.wind_profiles.iter().map(|p| p.name.as_str()).collect();
    assert_eq!(names, ["CLIMB", "T O C", "x"]);
    // the second row of the first column does not read as a level
    assert_eq!(b.wind_profiles[0].levels.len(), 1);
    assert_eq!(b.wind_profiles[1].levels.len(), 2);
    assert_eq!(b.wind_profiles[1].levels[1].fl, 320);
    let last = &b.wind_profiles[2].levels[0];
    assert_eq!((last.fl, last.dir_deg), (300, Reading::Value(1_000_000)));
    assert_eq!(last.speed_kts, Reading::Value(2_000_000));
    assert_eq!(last.oat_c, Reading::Value(3_000_000));
}

#[test]
fn winds_may_be_infinite_or_not_a_number() {
    let b = parsed("WIND INFORMATION\n\nCLIMB\n350 nan/inf -INF\n");
    let level = &b.wind_profiles[0].levels[0];
    assert_eq!((level.fl, level.dir_deg), (350, Reading::NotANumber));
    assert_eq!(level.speed_kts, Reading::Infinite { negative: false });
    assert_eq!(level.oat_c, Reading::Infinite { negative: true });
}

#[test]
fn page_breaks_change_no_waypoint() {
    let header = "\
PAGE 2
POSITION    LAT      EET ETO MORA  ITT  TAS    COMP  TDV
IDENT       LONG    TTLT ATO DIS  RDIS   GS     SHR  TRP  AFOB  ABRN
                 FREQ 127.300
";
    let lines: Vec<&str> = LOG.lines().collect();
    let (a, b) = lines.split_at(4);
    let broken = format!("{}\n{header}{}\n", a.join("\n"), b.join("\n"));
    let (plain, paged) = (parse_flight_log(LOG).unwrap(), parse_flight_log(&broken).unwrap());
    assert_eq!(paged.len(), plain.len());
    for (x, y) in paged.iter().zip(&plain) {
        assert_eq!((&x.ident, x.lat, x.lon), (&y.ident, y.lat, y.lon));
        assert_eq!((x.altitude_ft, x.gs_kts), (y.altitude_ft, y.gs_kts));
    }
}

#[test]
fn columns_count_bytes() {
    // an accent takes two bytes, so one blank less keeps the columns
    let text = LOG.replace("GENEVA ", "GENÈVE");
    let w = parse_flight_log(&text).unwrap();
    assert_eq!(w.len(), 2);
    assert_eq!(w[0].ident, "LSGG");
    let text = LOG.replace("GENEVA", "GENÈVE");
    assert_eq!(
        parse_flight_log(&text).unwrap_err(),
        LidoError::TooFewWaypoints { count: 1 }
    );
}
