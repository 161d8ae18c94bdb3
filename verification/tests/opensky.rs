use sentrix::fetch::{
    on_answer, on_body, on_failure, on_text, on_token, start_fetch, FetchAction,
};
use sentrix::live::live_record;
use sentrix::opensky::{
    check_rate_limit, check_success, states_url, BoundingBox, Credentials, Json, OpenSkyError,
    OpenSkyResponse, ShortState, StateVector, TokenManager,
};
use sentrix::shared::cat062::Velocity;
use sentrix::shared::config::AsterixConfig;

fn some(s: &str) -> Option<String> {
    Some(s.to_string())
}

fn credentials(id: &str) -> Credentials {
    Credentials::new(id.to_string(), "secret".to_string())
}

#[test]
fn credentials_come_from_the_file_first() {
    let (c, source) = Credentials::load(Some(credentials("f")), Some(credentials("e"))).unwrap();
    assert_eq!((c.client_id.as_str(), source), ("f", "conf/credentials.json"));
    let (c, source) = Credentials::load(None, Some(credentials("e"))).unwrap();
    assert_eq!((c.client_id.as_str(), source), ("e", "environment variables"));
    assert!(Credentials::load(None, None).is_none());
}

#[test]
fn credentials_need_both_variables() {
    let c = Credentials::from_env(some("i"), some("s")).unwrap();
    assert_eq!((c.client_id.as_str(), c.client_secret.as_str()), ("i", "s"));
    assert!(Credentials::from_env(some("i"), None).is_none());
    assert!(Credentials::from_env(None, some("s")).is_none());
}

#[test]
fn tokens_are_refreshed_a_minute_early() {
    let mut m = TokenManager::new(credentials("id"));
    assert_eq!(m.get_token(0), None);
    m.store("token".to_string(), 300, 5_000_000_000);
    assert_eq!(m.get_token(5_000_000_000), some("token"));
    assert_eq!(m.get_token(244_999_999_999), some("token"));
    assert_eq!(m.get_token(245_000_000_000), None);
    m.store("other".to_string(), u64::MAX, u64::MAX);
    assert_eq!(m.get_token(u64::MAX), some("other"));
    assert_eq!(
        m.token_form(),
        vec![("grant_type", "client_credentials"), ("client_id", "id"), ("client_secret", "secret")]
    );
}

#[test]
fn boxes_are_asked_for_in_degrees() {
    assert_eq!(
        states_url(&BoundingBox::uk_switzerland()),
        "https://opensky-network.org/api/states/all?lamin=45.8&lomin=-2&lamax=53&lomax=10.5"
    );
    assert_eq!(BoundingBox::london(), BoundingBox::new(50_000_000, 53_000_000, -2_000_000, 2_000_000));
    assert_eq!(
        BoundingBox::switzerland(),
        BoundingBox::new(45_800_000, 47_800_000, 5_900_000, 10_500_000)
    );
}

fn header(s: &str) -> Option<Vec<u8>> {
    Some(s.as_bytes().to_vec())
}

#[test]
fn too_many_requests_are_told_with_their_delay() {
    assert!(check_rate_limit(200, &header("5"), &None).is_ok());
    let delay = |a: Option<Vec<u8>>, b: Option<Vec<u8>>| {
        let e = check_rate_limit(429, &a, &b).unwrap_err();
        assert!(e.is_rate_limited());
        e.retry_after_secs()
    };
    assert_eq!(delay(header("30"), header("60")), Some(30));
    assert_eq!(delay(None, header("60")), Some(60));
    // a first header that does not read hides the second
    assert_eq!(delay(header("soon"), header("60")), None);
    assert_eq!(delay(header("\u{661}"), None), None);
    assert_eq!(delay(None, None), None);
}

#[test]
fn other_statuses_are_refused_with_the_body() {
    let check = |status: u16| check_success(status, "Gone".to_string(), "body".to_string());
    assert_eq!(check(200).unwrap(), "body");
    assert_eq!(check(299).unwrap(), "body");
    assert!(check(199).is_err());
    let e = check(410).unwrap_err();
    assert!(!e.is_rate_limited());
    assert_eq!(e.retry_after_secs(), None);
    assert_eq!(e.message(), "OpenSky HTTP 410 Gone: body");
}

#[test]
fn errors_have_texts() {
    assert_eq!(OpenSkyError::Request("down".to_string()).message(), "OpenSky request error: down");
    assert_eq!(
        OpenSkyError::Serde("eof".to_string()).message(),
        "OpenSky deserialization error: eof"
    );
    assert_eq!(
        OpenSkyError::RateLimited { retry_after: Some(12) }.message(),
        "OpenSky rate limited (retry after 12s)"
    );
    assert_eq!(OpenSkyError::RateLimited { retry_after: None }.message(), "OpenSky rate limited");
}

fn num(s: &str) -> Json {
    Json::Number(s.to_string())
}

fn text(s: &str) -> Json {
    Json::Text(s.to_string())
}

fn state_array() -> Vec<Json> {
    vec![
        text("4b17e5"),
        text(" SWR123  "),
        text("Switzerland"),
        num("1718180000"),
        num("1718180001"),
        num("8.5417"),
        num("47.45"),
        num("1005.84"),
        Json::Bool(true),
        num("72.5"),
        num("359.9"),
        num("-3.2"),
        Json::Other,
        num("1010"),
        text("1000"),
        Json::Bool(false),
        num("2"),
    ]
}

#[test]
fn states_are_read_from_arrays() {
    let s = StateVector::from_array(&state_array()).unwrap();
    assert_eq!(s.icao24(), "4b17e5");
    assert_eq!(s.callsign(), some("SWR123"));
    assert_eq!(s.time_position(), Some(1_718_180_000));
    assert_eq!(s.longitude(), Some(8_541_700));
    assert_eq!(s.latitude(), Some(47_450_000));
    // 1005.84 m are 3300.0001 ft
    assert_eq!(s.altitude_feet(), Some(3300));
    assert!(s.on_ground);
    assert_eq!(s.velocity_ms(), Some(72_500_000));
    assert_eq!(s.true_track(), Some(359_900_000));
    assert_eq!(s.heading(), Some(359));
    assert_eq!(s.squawk, some("1000"));
    assert_eq!((s.position_source, s.category), (2, None));
}

#[test]
fn elements_of_another_type_are_missing() {
    let mut a: Vec<Json> = (0..17).map(|_| Json::Other).collect();
    a.push(num("-3"));
    let s = StateVector::from_array(&a).unwrap();
    assert_eq!(s.icao24(), "");
    assert_eq!(s.callsign(), None);
    assert_eq!(s.altitude_feet(), None);
    assert!(!s.on_ground);
    assert_eq!((s.position_source, s.category), (0, Some(-3)));
    // a number with a point is no integer
    let mut b = state_array();
    b[3] = num("5.0");
    b[7] = num("-0.5");
    let s = StateVector::from_array(&b).unwrap();
    assert_eq!(s.time_position(), None);
    assert_eq!(s.altitude_feet(), Some(-1));
}

#[test]
fn large_quantities_saturate_in_whole_units() {
    let at = |metres: &str, degrees: &str| {
        let mut a = state_array();
        a[7] = num(metres);
        a[10] = num(degrees);
        let s = StateVector::from_array(&a).unwrap();
        (s.altitude_feet(), s.heading())
    };
    assert_eq!(at("20000000", "20000000"), (Some(65_616_800), Some(20_000_000)));
    assert_eq!(at("1e12", "-1e12"), (Some(i32::MAX), Some(i32::MIN)));
    assert_eq!(at("-1e300", "1e300"), (Some(i32::MIN), Some(i32::MAX)));
}

#[test]
fn credentials_can_be_copied() {
    let c = credentials("id").clone();
    assert_eq!((c.client_id.as_str(), c.client_secret.as_str()), ("id", "secret"));
}

#[test]
fn short_arrays_are_refused() {
    let mut a = state_array();
    a.pop();
    assert_eq!(StateVector::from_array(&a).unwrap_err(), ShortState { len: 16 });
    let e = OpenSkyResponse::from_arrays(7, Some(vec![state_array(), a, vec![]])).unwrap_err();
    assert_eq!(e, ShortState { len: 16 });
}

#[test]
fn answers_may_have_no_states() {
    let r = OpenSkyResponse::from_arrays(7, None).unwrap();
    assert_eq!(r.time, 7);
    assert!(r.into_states().is_empty());
    let r = OpenSkyResponse::from_arrays(7, Some(vec![state_array()])).unwrap();
    assert_eq!(r.into_states().len(), 1);
}

#[test]
fn live_records_need_a_position() {
    let asterix = AsterixConfig { sac: 3, sic: 4 };
    let s = StateVector::from_array(&state_array()).unwrap();
    let r = live_record(&s, asterix, 9).unwrap();
    assert_eq!((r.sac, r.sic, r.track_number, r.time_of_day), (3, 4, 0x7e5, 9));
    assert_eq!((r.latitude, r.longitude), (2_847_000_000_000, 512_502_000_000));
    assert_eq!(r.altitude_ft, Some(3300));
    assert_eq!(r.velocity, Some(Velocity { speed_mps: 72_500_000, track_deg: 359_900_000 }));
    assert_eq!((r.icao_address, r.callsign), (Some(0x4b17e5), some("SWR123")));
    let mut a = state_array();
    a[6] = Json::Other;
    let s = StateVector::from_array(&a).unwrap();
    assert!(live_record(&s, asterix, 9).is_none());
}

#[test]
fn fetches_ask_for_a_token_first() {
    let bbox = BoundingBox::london();
    let url = states_url(&bbox);
    let asks = |a: FetchAction| match a {
        FetchAction::AskStates { url, token } => (url, token),
        other => panic!("{:?}", other),
    };
    assert_eq!(asks(start_fetch(&bbox, None, 0)), (url.clone(), None));

    let mut m = TokenManager::new(credentials("id"));
    assert!(matches!(start_fetch(&bbox, Some(&m), 0), FetchAction::AskToken));
    let a = on_token(&bbox, &mut m, "token".to_string(), 100, 7);
    assert_eq!(asks(a), (url.clone(), some("token")));
    assert_eq!(asks(start_fetch(&bbox, Some(&m), 40_000_000_006)), (url, some("token")));
    assert!(matches!(start_fetch(&bbox, Some(&m), 40_000_000_007), FetchAction::AskToken));
}

fn result_of(a: FetchAction) -> Result<Vec<StateVector>, OpenSkyError> {
    match a {
        FetchAction::Finish { result } => result,
        other => panic!("{:?}", other),
    }
}

#[test]
fn fetches_end_with_states_or_an_error() {
    assert!(matches!(on_answer(500, &header("3"), &None), FetchAction::ReadBody));
    let e = result_of(on_answer(429, &None, &header("3"))).unwrap_err();
    assert_eq!(e.retry_after_secs(), Some(3));

    let e = result_of(on_body(500, "Broken".to_string(), "b".to_string())).unwrap_err();
    assert_eq!(e.message(), "OpenSky HTTP 500 Broken: b");
    match on_body(200, "OK".to_string(), "b".to_string()) {
        FetchAction::ReadStates { text } => assert_eq!(text, "b"),
        other => panic!("{:?}", other),
    }

    let e = result_of(on_failure("down".to_string())).unwrap_err();
    assert_eq!(e.message(), "OpenSky request error: down");
    let e = result_of(on_text(Err("eof".to_string()))).unwrap_err();
    assert_eq!(e.message(), "OpenSky deserialization error: eof");
    let short = vec![state_array(), vec![text("4b17e5")]];
    assert_eq!(
        result_of(on_text(Ok((7, Some(short))))).unwrap_err().message(),
        "OpenSky deserialization error: expected at least 17 elements, got 1"
    );
    assert!(result_of(on_text(Ok((7, None)))).unwrap().is_empty());
    let states = result_of(on_text(Ok((7, Some(vec![state_array()]))))).unwrap();
    assert_eq!((states.len(), states[0].icao24()), (1, "4b17e5"));
}
