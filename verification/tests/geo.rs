use sentrix::shared::geo::angle_diff_deg;

fn diff(from: f64, to: f64) -> f64 {
    angle_diff_deg((from * 1e6) as i64, (to * 1e6) as i64) as f64 / 1e6
}

#[test]
fn test_angle_diff_sign_and_wrap() {
    assert!((diff(10.0, 40.0) - 30.0).abs() < 1e-9); // right
    assert!((diff(40.0, 10.0) + 30.0).abs() < 1e-9); // left
    assert!((diff(350.0, 10.0) - 20.0).abs() < 1e-9); // wrap right
    assert!((diff(10.0, 350.0) + 20.0).abs() < 1e-9); // wrap left
}

#[test]
fn half_a_turn_is_to_the_right() {
    assert_eq!(angle_diff_deg(0, 180_000_000), 180_000_000);
    assert_eq!(angle_diff_deg(180_000_000, 0), 180_000_000);
    assert_eq!(angle_diff_deg(0, 180_000_001), -179_999_999);
    assert_eq!(angle_diff_deg(-90_000_000, 630_000_000), 0);
}
