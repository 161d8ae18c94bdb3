use sentrix::agent::performance::{
    mps_to_fpm, parse_vertical_limits, wrap_key, wrap_opt, DefaultPerformance, NoWrapData,
    PerformanceModel, VerticalLimits, WrapFile, WrapPerformance,
};
use sentrix::number::Reading;

// A synthetic fixture in the WRAP column layout (made-up numbers, not OpenAP
// data). Only the variables that the loader reads are present.
const FIXTURE: &str = "\
variable              flight phase    name               opt    min    max    model  parameters
cl_vs_avg_pre_cas     climb           Pre CAS rate       10.0   8.0    12.0   norm   10.0|1.0
cl_vs_avg_cas_const   climb           CAS rate           8.0    6.0    10.0   norm   8.0|1.0
cl_vs_avg_mach_const  climb           Mach rate          5.0    3.0    7.0    norm   5.0|1.0
cl_h_cas_const        climb           CAS alt            3.0    2.0    4.0    norm   3.0|0.5
cl_h_mach_const       climb           Mach alt           9.0    8.0    10.0   norm   9.0|0.5
de_vs_avg_mach_const  descent         Mach desc rate    -6.0   -8.0   -4.0    norm  -6.0|1.0
de_vs_avg_cas_const   descent         CAS desc rate     -10.0  -12.0  -8.0    norm  -10.0|1.0
de_vs_avg_after_cas   descent         After CAS rate    -6.0   -8.0   -4.0    norm  -6.0|1.0
de_h_mach_const       descent         Mach desc alt      9.0    8.0    10.0   norm   9.0|0.5
de_h_cas_const        descent         CAS desc alt       6.0    5.0    7.0    norm   6.0|0.5
";

fn micro(v: f64) -> i64 {
    (v * 1e6).round() as i64
}

fn unit(v: i64) -> f64 {
    v as f64 / 1e6
}

fn value(r: Reading) -> i64 {
    match r {
        Reading::Value(v) => v,
        other => panic!("{:?}", other),
    }
}

#[test]
fn test_wrap_opt_reads_from_the_right() {
    // multi-word name must not confuse the column read
    assert_eq!(wrap_opt(FIXTURE, "cl_vs_avg_cas_const"), Some(Reading::Value(micro(8.0))));
    assert_eq!(wrap_opt(FIXTURE, "de_vs_avg_cas_const"), Some(Reading::Value(micro(-10.0))));
    assert_eq!(wrap_opt(FIXTURE, "nonexistent"), None);
}

#[test]
fn test_parse_and_band_selection() {
    let limits = parse_vertical_limits(FIXTURE).unwrap();
    let climb = |ft: f64| unit(value(limits.climb_limit_fpm(micro(ft))));
    let descent = |ft: f64| unit(value(limits.descent_limit_fpm(micro(ft))));
    let fpm = |mps: f64| unit(mps_to_fpm(micro(mps)));

    // climb bands: 10/8/5 m/s -> fpm, split at 3 km (9842 ft) and 9 km (29528 ft)
    assert!((climb(5_000.0) - fpm(10.0)).abs() < 1.0);
    assert!((climb(15_000.0) - fpm(8.0)).abs() < 1.0);
    assert!((climb(35_000.0) - fpm(5.0)).abs() < 1.0);

    // descent bands: split at 9 km (29528 ft) and 6 km (19685 ft)
    assert!((descent(35_000.0) - fpm(6.0)).abs() < 1.0);
    assert!((descent(25_000.0) - fpm(10.0)).abs() < 1.0);
    assert!((descent(10_000.0) - fpm(6.0)).abs() < 1.0);
}

#[test]
fn test_default_is_flat() {
    let perf = DefaultPerformance::new(micro(2000.0));
    let limits = perf.vertical_limits("A320");
    assert_eq!(value(limits.climb_limit_fpm(micro(1_000.0))), micro(2000.0));
    assert_eq!(value(limits.climb_limit_fpm(micro(38_000.0))), micro(2000.0));
    assert_eq!(value(limits.descent_limit_fpm(micro(38_000.0))), micro(2000.0));
}

#[test]
fn rates_and_altitudes_are_converted() {
    // 8.43 m/s over 0.00508 m/s in a foot per minute
    assert_eq!(mps_to_fpm(8_430_000), 1_659_448_818);
    assert_eq!(mps_to_fpm(-8_430_000), -1_659_448_818);
    let limits = parse_vertical_limits(FIXTURE).unwrap();
    assert_eq!(value(limits.climb_cas_alt_ft), 9_842_519_685);
    assert_eq!(value(limits.climb_limit_fpm(9_842_519_684)), mps_to_fpm(10_000_000));
    assert_eq!(value(limits.climb_limit_fpm(9_842_519_685)), mps_to_fpm(8_000_000));
}

#[test]
fn a_missing_variable_leaves_no_limits() {
    for line in FIXTURE.lines().skip(1) {
        let short = FIXTURE.replace(line, "");
        assert_eq!(parse_vertical_limits(&short), None);
    }
}

#[test]
fn an_unreadable_row_is_passed_over() {
    let content = "v a b x 1 2 m p\nv 7.5 1 2 m p\n";
    assert_eq!(wrap_opt(content, "v"), Some(Reading::Value(micro(7.5))));
}

fn file(name: &str, content: &str) -> WrapFile {
    WrapFile { name: name.to_string(), content: content.to_string() }
}

#[test]
fn wrap_files_are_told_by_their_names() {
    let key = |s: &str| wrap_key(s).map(|v| v.into_iter().collect::<String>());
    assert_eq!(key("A320.txt"), Some("a320".to_string()));
    assert_eq!(key("b738.v2.txt"), Some("b738.v2".to_string()));
    assert_eq!(key(".txt"), None);
    assert_eq!(key("_synonym.txt"), None);
    assert_eq!(key("a320.csv"), None);
    assert_eq!(key("txt"), None);
}

#[test]
fn types_are_looked_up_with_synonyms() {
    let files = vec![file("A320.txt", FIXTURE), file("readme.md", FIXTURE), file("b738.txt", "")];
    let table = "orig,new\nA20N, A320 ,x\nB739,B738\nnocomma\n";
    let wrap = WrapPerformance::load(&files, Some(table), micro(2000.0)).unwrap();
    let own = parse_vertical_limits(FIXTURE).unwrap();
    let flat = VerticalLimits::flat(micro(2000.0));
    assert_eq!(wrap.vertical_limits("a320"), own);
    assert_eq!(wrap.vertical_limits("A320"), own);
    assert_eq!(wrap.vertical_limits("a20n"), own);
    // a synonym of a type without data, and an unknown type
    assert_eq!(wrap.vertical_limits("B739"), flat);
    assert_eq!(wrap.vertical_limits("C172"), flat);
    assert_eq!(wrap.vertical_limits("readme"), flat);
}

#[test]
fn the_last_file_of_a_type_counts() {
    let other = FIXTURE.replace("10.0   8.0", "11.0   8.0");
    let files = vec![file("a320.txt", FIXTURE), file("A320.txt", &other)];
    let wrap = WrapPerformance::load(&files, None, 0).unwrap();
    assert_eq!(value(wrap.vertical_limits("A320").climb_low), mps_to_fpm(11_000_000));
}

#[test]
fn a_directory_without_data_is_refused() {
    let files = vec![file("a320.txt", "nothing"), file("_x.txt", FIXTURE)];
    assert_eq!(WrapPerformance::load(&files, None, 0).err(), Some(NoWrapData));
}

#[test]
fn data_may_be_infinite_or_not_a_number() {
    let content = "v a b nan 1 2 m p\nv 7.5 1 2 m p\nw a -INF 1 2 m p\n";
    assert_eq!(wrap_opt(content, "v"), Some(Reading::NotANumber));
    assert_eq!(wrap_opt(content, "w"), Some(Reading::Infinite { negative: true }));

    // no altitude is below or above what is not a number
    let odd = FIXTURE.replace("CAS alt            3.0", "CAS alt            nan");
    let odd = odd.replace("Mach alt           9.0", "Mach alt           inf");
    let odd = odd.replace("Mach desc alt      9.0", "Mach desc alt      NaN");
    let odd = odd.replace("Mach desc rate    -6.0", "Mach desc rate    -inf");
    let limits = parse_vertical_limits(&odd).unwrap();
    assert_eq!(value(limits.climb_limit_fpm(0)), mps_to_fpm(8_000_000));
    assert_eq!(value(limits.climb_limit_fpm(i64::MAX)), mps_to_fpm(8_000_000));
    assert_eq!(value(limits.descent_limit_fpm(i64::MAX)), mps_to_fpm(10_000_000));
    assert_eq!(value(limits.descent_limit_fpm(0)), mps_to_fpm(6_000_000));
    assert_eq!(limits.descent_high, Reading::Infinite { negative: false });
}
