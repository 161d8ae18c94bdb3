//! Client side of the OpenSky Network API: what is asked, and what is made of the
//! answers. Sending and receiving, and JSON, are up to the caller.
//!
//! Authentication uses the OAuth2 client credentials flow. Rate limits depend on
//! the account.

use crate::number::{
    clamp_to_i32, clamped, decimal_text, fixed_point, narrowed, parse_fixed, parse_unsigned,
    render, render_decimal, rendered, scaled, unsigned,
};
use crate::text::{chars_of, string_of, text_of, trim, trimmed};
use vstd::prelude::*;
use vstd::slice::slice_subrange;

pub use crate::shared::config::BoundingBox;

verus! {

/// Time before its expiry at which a token is no longer used, in nanoseconds:
/// one minute.
pub const REFRESH_MARGIN: u128 = 60_000_000_000;

/// OpenSky Network OAuth2 credentials
#[derive(Debug, Clone)]
pub struct Credentials {
    pub client_id: String,
    pub client_secret: String,
}

impl Credentials {
    pub fn new(client_id: String, client_secret: String) -> (r: Self)
        ensures
            r.client_id == client_id,
            r.client_secret == client_secret,
    {
        Credentials { client_id, client_secret }
    }

    /// The credentials in two environment variables, if both are set.
    pub fn from_env(client_id: Option<String>, client_secret: Option<String>) -> (r: Option<Self>)
        ensures
            match (client_id, client_secret) {
                (Some(id), Some(secret)) => r == Some(
                    Credentials { client_id: id, client_secret: secret },
                ),
                _ => r is None,
            },
    {
        match (client_id, client_secret) {
            (Some(client_id), Some(client_secret)) => Some(
                Credentials { client_id, client_secret },
            ),
            _ => None,
        }
    }

    /// The credentials to use and where they come from: those of the file where
    /// it holds any, else those of the environment.
    pub fn load(file: Option<Credentials>, environment: Option<Credentials>) -> (r: Option<
        (Credentials, &'static str),
    >)
        ensures
            match (file, environment) {
                (Some(c), _) => r matches Some((k, source)) && k == c && source@
                    == "conf/credentials.json"@,
                (None, Some(c)) => r matches Some((k, source)) && k == c && source@
                    == "environment variables"@,
                (None, None) => r is None,
            },
    {
        if let Some(c) = file {
            return Some((c, "conf/credentials.json"));
        }
        if let Some(c) = environment {
            return Some((c, "environment variables"));
        }
        None
    }
}

/// An access token and when it expires, in nanoseconds of the caller's clock.
#[derive(Debug)]
pub struct CachedToken {
    pub access_token: String,
    pub expires_at: u128,
}

/// OAuth2 tokens, fetched and refreshed as they expire.
#[derive(Debug)]
pub struct TokenManager {
    pub credentials: Credentials,
    pub cached_token: Option<CachedToken>,
}

/// Whether a token is still used at a moment.
pub open spec fn is_fresh(expires_at: int, now: int) -> bool {
    expires_at > now + REFRESH_MARGIN
}

impl TokenManager {
    pub fn new(credentials: Credentials) -> (r: Self)
        ensures
            r.credentials == credentials,
            r.cached_token is None,
    {
        TokenManager { credentials, cached_token: None }
    }

    /// The cached token, unless it expires within the minute; none where a new
    /// one is to be fetched.
    pub fn get_token(&self, now: u64) -> (r: Option<String>)
        ensures
            match (r, self.cached_token) {
                (Some(s), Some(t)) => is_fresh(t.expires_at as int, now as int) && s@
                    == t.access_token@,
                (None, Some(t)) => !is_fresh(t.expires_at as int, now as int),
                (None, None) => true,
                (Some(_), None) => false,
            },
    {
        match &self.cached_token {
            Some(t) => if t.expires_at > now as u128 + REFRESH_MARGIN {
                Some(t.access_token.clone())
            } else {
                None
            },
            None => None,
        }
    }

    /// Keep a token that was fetched, and that expires in `expires_in` seconds.
    pub fn store(&mut self, access_token: String, expires_in: u64, now: u64)
        ensures
            final(self).credentials == old(self).credentials,
            final(self).cached_token == Some(
                (CachedToken {
                    access_token,
                    expires_at: (now + expires_in * 1_000_000_000) as u128,
                }),
            ),
    {
        let expires_at: u128 = now as u128 + expires_in as u128 * 1_000_000_000;
        self.cached_token = Some(CachedToken { access_token, expires_at });
    }

    /// The fields of the form that a token is asked for with.
    pub fn token_form(&self) -> (r: Vec<(&str, &str)>)
        ensures
            r@.len() == 3,
            ({
                let (name, v) = r@[0];
                name@ == "grant_type"@ && v@ == "client_credentials"@
            }),
            ({
                let (name, v) = r@[1];
                name@ == "client_id"@ && v@ == self.credentials.client_id@
            }),
            ({
                let (name, v) = r@[2];
                name@ == "client_secret"@ && v@ == self.credentials.client_secret@
            }),
    {
        let mut form: Vec<(&str, &str)> = Vec::new();
        form.push(("grant_type", "client_credentials"));
        form.push(("client_id", self.credentials.client_id.as_str()));
        form.push(("client_secret", self.credentials.client_secret.as_str()));
        form
    }
}

/// A token that was stored is used for its lifetime less one minute, and no
/// longer.
pub proof fn token_is_used_until_refresh(stored: u64, expires_in: u64, now: u64)
    ensures
        is_fresh((stored + expires_in * 1_000_000_000) as u128 as int, now as int) <==> now - stored
            < expires_in * 1_000_000_000 - REFRESH_MARGIN,
{
}

impl BoundingBox {
    pub fn new(min_lat: i64, max_lat: i64, min_lon: i64, max_lon: i64) -> (r: Self)
        ensures
            r == (BoundingBox { min_lat, max_lat, min_lon, max_lon }),
    {
        BoundingBox { min_lat, max_lat, min_lon, max_lon }
    }

    /// London and the UK area
    pub fn london() -> (r: Self)
        ensures
            r == london_box(),
    {
        Self::new(50_000_000, 53_000_000, -2_000_000, 2_000_000)
    }

    /// Switzerland
    pub fn switzerland() -> (r: Self)
        ensures
            r == switzerland_box(),
    {
        Self::new(45_800_000, 47_800_000, 5_900_000, 10_500_000)
    }

    /// UK and Switzerland (Western and Central Europe)
    pub fn uk_switzerland() -> (r: Self)
        ensures
            r == uk_switzerland_box(),
    {
        Self::new(45_800_000, 53_000_000, -2_000_000, 10_500_000)
    }
}

pub open spec fn london_box() -> BoundingBox {
    BoundingBox {
        min_lat: 50_000_000,
        max_lat: 53_000_000,
        min_lon: (-2_000_000) as i64,
        max_lon: 2_000_000,
    }
}

pub open spec fn switzerland_box() -> BoundingBox {
    BoundingBox {
        min_lat: 45_800_000,
        max_lat: 47_800_000,
        min_lon: 5_900_000,
        max_lon: 10_500_000,
    }
}

pub open spec fn uk_switzerland_box() -> BoundingBox {
    BoundingBox {
        min_lat: 45_800_000,
        max_lat: 53_000_000,
        min_lon: (-2_000_000) as i64,
        max_lon: 10_500_000,
    }
}

pub open spec fn in_box(b: BoundingBox, lat: int, lon: int) -> bool {
    b.min_lat <= lat <= b.max_lat && b.min_lon <= lon <= b.max_lon
}

/// The box of the UK and Switzerland holds both of theirs.
pub proof fn uk_switzerland_holds_both(lat: int, lon: int)
    ensures
        in_box(london_box(), lat, lon) || in_box(switzerland_box(), lat, lon) ==> in_box(
            uk_switzerland_box(),
            lat,
            lon,
        ),
{
}

/// The address that the states within a box are asked from.
pub open spec fn states_query(b: BoundingBox) -> Seq<char> {
    "https://opensky-network.org/api/states/all"@ + "?lamin="@ + decimal_text(b.min_lat as int)
        + "&lomin="@ + decimal_text(b.min_lon as int) + "&lamax="@ + decimal_text(b.max_lat as int)
        + "&lomax="@ + decimal_text(b.max_lon as int)
}

/// The address that the states within a box are asked from.
pub fn states_url(bbox: &BoundingBox) -> (r: String)
    ensures
        r@ == states_query(*bbox),
{
    let mut out = chars_of("https://opensky-network.org/api/states/all");
    append(&mut out, "?lamin=");
    append_decimal(&mut out, bbox.min_lat);
    append(&mut out, "&lomin=");
    append_decimal(&mut out, bbox.min_lon);
    append(&mut out, "&lamax=");
    append_decimal(&mut out, bbox.max_lat);
    append(&mut out, "&lomax=");
    append_decimal(&mut out, bbox.max_lon);
    string_of(out.as_slice())
}

fn append(out: &mut Vec<char>, s: &str)
    ensures
        final(out)@ == old(out)@ + s@,
{
    let mut tail = chars_of(s);
    out.append(&mut tail);
}

fn append_decimal(out: &mut Vec<char>, v: i64)
    ensures
        final(out)@ == old(out)@ + decimal_text(v as int),
{
    let mut tail = render_decimal(v);
    out.append(&mut tail);
}

fn append_number(out: &mut Vec<char>, n: u64)
    ensures
        final(out)@ == old(out)@ + rendered(n as nat, 10),
{
    let mut tail = render(n, 10);
    out.append(&mut tail);
}

/// Why no states were had.
#[derive(Debug)]
pub enum OpenSkyError {
    /// The request failed
    Request(String),
    /// The answer does not read as states
    Serde(String),
    /// Too many requests; retry after some seconds, where that is said
    RateLimited { retry_after: Option<u64> },
    /// Another status than success
    HttpStatus { status: u16, reason: String, body: String },
}

/// The text of an error.
pub open spec fn error_text(e: OpenSkyError) -> Seq<char> {
    match e {
        OpenSkyError::Request(m) => "OpenSky request error: "@ + m@,
        OpenSkyError::Serde(m) => "OpenSky deserialization error: "@ + m@,
        OpenSkyError::RateLimited { retry_after: Some(secs) } => "OpenSky rate limited (retry after "@
            + rendered(secs as nat, 10) + "s)"@,
        OpenSkyError::RateLimited { retry_after: None } => "OpenSky rate limited"@,
        OpenSkyError::HttpStatus { status, reason, body } => "OpenSky HTTP "@ + rendered(
            status as nat,
            10,
        ) + " "@ + reason@ + ": "@ + body@,
    }
}

impl OpenSkyError {
    pub fn is_rate_limited(&self) -> (r: bool)
        ensures
            r == (*self is RateLimited),
    {
        matches!(self, OpenSkyError::RateLimited { .. })
    }

    /// Seconds to wait, where the error says so.
    pub fn retry_after_secs(&self) -> (r: Option<u64>)
        ensures
            r == (match *self {
                OpenSkyError::RateLimited { retry_after } => retry_after,
                _ => None,
            }),
    {
        match self {
            OpenSkyError::RateLimited { retry_after } => *retry_after,
            _ => None,
        }
    }

    /// The text of the error.
    pub fn message(&self) -> (r: String)
        ensures
            r@ == error_text(*self),
    {
        let mut out: Vec<char> = Vec::new();
        match self {
            OpenSkyError::Request(m) => {
                append(&mut out, "OpenSky request error: ");
                append(&mut out, m.as_str());
            },
            OpenSkyError::Serde(m) => {
                append(&mut out, "OpenSky deserialization error: ");
                append(&mut out, m.as_str());
            },
            OpenSkyError::RateLimited { retry_after } => match retry_after {
                Some(secs) => {
                    append(&mut out, "OpenSky rate limited (retry after ");
                    append_number(&mut out, *secs);
                    append(&mut out, "s)");
                },
                None => {
                    append(&mut out, "OpenSky rate limited");
                },
            },
            OpenSkyError::HttpStatus { status, reason, body } => {
                append(&mut out, "OpenSky HTTP ");
                append_number(&mut out, *status as u64);
                append(&mut out, " ");
                append(&mut out, reason.as_str());
                append(&mut out, ": ");
                append(&mut out, body.as_str());
            },
        }
        proof {
            assert(out@ =~= error_text(*self));
        }
        string_of(out.as_slice())
    }
}

/// Status of an answer to too many requests.
pub const TOO_MANY_REQUESTS: u16 = 429;

pub open spec fn is_success(status: u16) -> bool {
    200 <= status <= 299
}

/// The characters of an ASCII header.
pub open spec fn header_text(bytes: Seq<u8>) -> Seq<char> {
    bytes.map_values(|b: u8| b as char)
}

/// Seconds in the first of two headers that is there, where it holds a number.
pub open spec fn retry_seconds(primary: Option<Seq<u8>>, secondary: Option<Seq<u8>>) -> Option<
    nat,
> {
    match (primary, secondary) {
        (Some(h), _) => unsigned(header_text(h), 10, u64::MAX as nat),
        (None, Some(h)) => unsigned(header_text(h), 10, u64::MAX as nat),
        (None, None) => None,
    }
}

pub open spec fn bytes_of(h: Option<Vec<u8>>) -> Option<Seq<u8>> {
    match h {
        Some(v) => Some(v@),
        None => None,
    }
}

fn parse_header(bytes: &Vec<u8>) -> (r: Option<u64>)
    ensures
        match r {
            Some(n) => unsigned(header_text(bytes@), 10, u64::MAX as nat) == Some(n as nat),
            None => unsigned(header_text(bytes@), 10, u64::MAX as nat) is None,
        },
{
    let mut chars: Vec<char> = Vec::new();
    let mut i: usize = 0;
    while i < bytes.len()
        invariant
            i <= bytes@.len(),
            chars@.len() == i,
            forall|k: int| 0 <= k < i ==> chars@[k] == bytes@[k] as char,
        decreases bytes@.len() - i,
    {
        chars.push(bytes[i] as char);
        i += 1;
    }
    proof {
        assert(chars@ =~= header_text(bytes@));
    }
    parse_unsigned(chars.as_slice(), u64::MAX)
}

/// Refuse an answer to too many requests. `primary` is the header
/// "x-rate-limit-retry-after-seconds", `secondary` the header "retry-after".
pub fn check_rate_limit(
    status: u16,
    primary: &Option<Vec<u8>>,
    secondary: &Option<Vec<u8>>,
) -> (r: Result<(), OpenSkyError>)
    ensures
        match r {
            Ok(_) => status != TOO_MANY_REQUESTS,
            Err(OpenSkyError::RateLimited { retry_after }) => status == TOO_MANY_REQUESTS && (
            match retry_after {
                Some(n) => retry_seconds(bytes_of(*primary), bytes_of(*secondary)) == Some(
                    n as nat,
                ),
                None => retry_seconds(bytes_of(*primary), bytes_of(*secondary)) is None,
            }),
            Err(_) => false,
        },
{
    if status != TOO_MANY_REQUESTS {
        return Ok(());
    }
    let retry_after = match (primary, secondary) {
        (Some(h), _) => parse_header(h),
        (None, Some(h)) => parse_header(h),
        (None, None) => None,
    };
    Err(OpenSkyError::RateLimited { retry_after })
}

/// Refuse an answer with another status than success.
pub fn check_success(status: u16, reason: String, body: String) -> (r: Result<
    String,
    OpenSkyError,
>)
    ensures
        match r {
            Ok(b) => is_success(status) && b == body,
            Err(e) => !is_success(status) && e == (OpenSkyError::HttpStatus {
                status,
                reason,
                body,
            }),
        },
{
    if 200 <= status && status <= 299 {
        Ok(body)
    } else {
        Err(OpenSkyError::HttpStatus { status, reason, body })
    }
}

/// An element of the array that a state comes as.
#[derive(Debug)]
pub enum Json {
    Bool(bool),
    /// A number, in its decimal notation
    Number(String),
    Text(String),
    /// Anything else
    Other,
}

/// A signed integer in text: digits, with a minus sign before them or without.
pub open spec fn integer(s: Seq<char>) -> Option<i64> {
    if s.len() > 0 && s[0] == '-' {
        match unsigned(s.drop_first(), 10, 0x8000_0000_0000_0000) {
            Some(n) if s[1] != '+' => Some((-(n as int)) as i64),
            _ => None,
        }
    } else {
        match unsigned(s, 10, i64::MAX as nat) {
            Some(n) => Some(n as i64),
            None => None,
        }
    }
}

fn parse_integer(s: &[char]) -> (r: Option<i64>)
    ensures
        r == integer(s@),
{
    if s.len() > 0 && s[0] == '-' {
        let rest: &[char] = slice_subrange(s, 1, s.len());
        proof {
            assert(rest@ =~= s@.drop_first());
        }
        match parse_unsigned(rest, 0x8000_0000_0000_0000) {
            Some(n) => if s[1] != '+' {
                Some((-(n as i128)) as i64)
            } else {
                None
            },
            None => None,
        }
    } else {
        match parse_unsigned(s, i64::MAX as u64) {
            Some(n) => Some(n as i64),
            None => None,
        }
    }
}

impl Json {
    pub open spec fn as_text(self) -> Option<Seq<char>> {
        match self {
            Json::Text(s) => Some(s@),
            _ => None,
        }
    }

    /// A number in millionths, held at `limit` where it is larger.
    pub open spec fn as_quantity(self, limit: i64) -> Option<i64> {
        match self {
            Json::Number(s) => narrowed(fixed_point(s@, 6, limit as int)),
            _ => None,
        }
    }

    pub open spec fn as_integer(self) -> Option<i64> {
        match self {
            Json::Number(s) => integer(s@),
            _ => None,
        }
    }

    pub open spec fn as_flag(self) -> bool {
        self matches Json::Bool(b) && b
    }

    fn text(&self) -> (r: Option<String>)
        ensures
            match r {
                Some(s) => self.as_text() == Some(s@),
                None => self.as_text() is None,
            },
    {
        match self {
            Json::Text(s) => Some(s.clone()),
            _ => None,
        }
    }

    fn quantity(&self, limit: i64) -> (r: Option<i64>)
        requires
            limit >= 0,
        ensures
            r == self.as_quantity(limit),
            r matches Some(v) ==> -limit <= v <= limit,
    {
        match self {
            Json::Number(s) => parse_fixed(chars_of(s.as_str()).as_slice(), 6, limit),
            _ => None,
        }
    }

    fn whole(&self) -> (r: Option<i64>)
        ensures
            r == self.as_integer(),
    {
        match self {
            Json::Number(s) => parse_integer(chars_of(s.as_str()).as_slice()),
            _ => None,
        }
    }

    fn flag(&self) -> (r: bool)
        ensures
            r == self.as_flag(),
    {
        match self {
            Json::Bool(b) => *b,
            _ => false,
        }
    }
}

/// Aircraft state vector.
///
/// It comes as an array of seventeen elements or eighteen (the category may be
/// missing). Quantities count millionths of their unit.
#[derive(Debug)]
pub struct StateVector {
    pub icao24: String,
    pub callsign: Option<String>,
    pub time_position: Option<i64>,
    /// Degrees
    pub longitude: Option<i64>,
    /// Degrees
    pub latitude: Option<i64>,
    /// Metres
    pub baro_altitude: Option<i64>,
    pub on_ground: bool,
    /// Metres per second
    pub velocity: Option<i64>,
    /// Degrees
    pub true_track: Option<i64>,
    pub squawk: Option<String>,
    pub position_source: i64,
    pub category: Option<i64>,
}

#[verifier::ext_equal]
pub struct StateVectorView {
    pub icao24: Seq<char>,
    pub callsign: Option<Seq<char>>,
    pub time_position: Option<i64>,
    pub longitude: Option<i64>,
    pub latitude: Option<i64>,
    pub baro_altitude: Option<i64>,
    pub on_ground: bool,
    pub velocity: Option<i64>,
    pub true_track: Option<i64>,
    pub squawk: Option<Seq<char>>,
    pub position_source: i64,
    pub category: Option<i64>,
}

impl View for StateVector {
    type V = StateVectorView;

    open spec fn view(&self) -> StateVectorView {
        StateVectorView {
            icao24: self.icao24@,
            callsign: text_of(self.callsign),
            time_position: self.time_position,
            longitude: self.longitude,
            latitude: self.latitude,
            baro_altitude: self.baro_altitude,
            on_ground: self.on_ground,
            velocity: self.velocity,
            true_track: self.true_track,
            squawk: text_of(self.squawk),
            position_source: self.position_source,
            category: self.category,
        }
    }
}

/// Fewest elements of a state.
pub const STATE_ELEMENTS: usize = 17;

/// An array is too short for a state.
#[derive(Debug, Clone, Copy, PartialEq, Eq, Structural)]
pub struct ShortState {
    pub len: usize,
}

/// Bound on a latitude or a longitude, in millionths: a hundred million degrees.
pub const DEGREE_LIMIT: i64 = 100_000_000_000_000;

/// The state that an array holds. Elements of another type count as missing.
pub open spec fn state_of(a: Seq<Json>) -> StateVectorView {
    StateVectorView {
        icao24: match a[0].as_text() {
            Some(s) => s,
            None => Seq::empty(),
        },
        callsign: a[1].as_text(),
        time_position: a[3].as_integer(),
        longitude: a[5].as_quantity(DEGREE_LIMIT),
        latitude: a[6].as_quantity(DEGREE_LIMIT),
        baro_altitude: a[7].as_quantity(i64::MAX),
        on_ground: a[8].as_flag(),
        velocity: a[9].as_quantity(i64::MAX),
        true_track: a[10].as_quantity(i64::MAX),
        squawk: a[14].as_text(),
        position_source: match a[16].as_integer() {
            Some(n) => n,
            None => 0,
        },
        category: if a.len() > 17 {
            a[17].as_integer()
        } else {
            None
        },
    }
}

/// Metres to feet, whole ones, less the part after the point, held at the ends of
/// the type.
pub open spec fn feet_of_metres(m: i64) -> int {
    clamped(scaled(m as int, 328_084, 100_000_000_000))
}

/// Whole degrees, less the part after the point, held at the ends of the type.
pub open spec fn whole_degrees(deg: i64) -> int {
    clamped(scaled(deg as int, 1, 1_000_000))
}

impl StateVector {
    /// Whether the position is within its bound.
    pub open spec fn wf(&self) -> bool {
        &&& self.longitude matches Some(v) ==> -DEGREE_LIMIT <= v <= DEGREE_LIMIT
        &&& self.latitude matches Some(v) ==> -DEGREE_LIMIT <= v <= DEGREE_LIMIT
    }

    /// Read a state from its array.
    pub fn from_array(a: &Vec<Json>) -> (r: Result<Self, ShortState>)
        ensures
            match r {
                Ok(s) => {
                    &&& a@.len() >= STATE_ELEMENTS && s@ == state_of(a@) && s.wf()
                    &&& s.longitude == state_of(a@).longitude
                    &&& s.latitude == state_of(a@).latitude
                    &&& s.baro_altitude == state_of(a@).baro_altitude
                    &&& s.velocity == state_of(a@).velocity
                    &&& s.true_track == state_of(a@).true_track
                },
                Err(e) => a@.len() < STATE_ELEMENTS && e.len == a@.len(),
            },
    {
        if a.len() < STATE_ELEMENTS {
            return Err(ShortState { len: a.len() });
        }
        let s = StateVector {
            icao24: match a[0].text() {
                Some(s) => s,
                None => String::new(),
            },
            callsign: a[1].text(),
            time_position: a[3].whole(),
            longitude: a[5].quantity(DEGREE_LIMIT),
            latitude: a[6].quantity(DEGREE_LIMIT),
            baro_altitude: a[7].quantity(i64::MAX),
            on_ground: a[8].flag(),
            velocity: a[9].quantity(i64::MAX),
            true_track: a[10].quantity(i64::MAX),
            squawk: a[14].text(),
            position_source: match a[16].whole() {
                Some(n) => n,
                None => 0,
            },
            category: if a.len() > 17 {
                a[17].whole()
            } else {
                None
            },
        };
        proof {
            assert(s@ =~= state_of(a@));
        }
        Ok(s)
    }

    pub fn icao24(&self) -> (r: &str)
        ensures
            r@ == self.icao24@,
    {
        self.icao24.as_str()
    }

    pub fn time_position(&self) -> (r: Option<i64>)
        ensures
            r == self.time_position,
    {
        self.time_position
    }

    /// The callsign, without the blanks around it.
    pub fn callsign(&self) -> (r: Option<String>)
        ensures
            match (r, self.callsign) {
                (Some(s), Some(c)) => s@ == trim(c@),
                (None, None) => true,
                _ => false,
            },
    {
        match &self.callsign {
            Some(c) => Some(string_of(trimmed(chars_of(c.as_str()).as_slice()))),
            None => None,
        }
    }

    pub fn longitude(&self) -> (r: Option<i64>)
        ensures
            r == self.longitude,
    {
        self.longitude
    }

    pub fn latitude(&self) -> (r: Option<i64>)
        ensures
            r == self.latitude,
    {
        self.latitude
    }

    /// Altitude in whole feet
    pub fn altitude_feet(&self) -> (r: Option<i32>)
        ensures
            match (r, self.baro_altitude) {
                (Some(ft), Some(m)) => ft == feet_of_metres(m),
                (None, None) => true,
                _ => false,
            },
    {
        match self.baro_altitude {
            Some(m) => {
                let size: i128 = if m < 0 {
                    -(m as i128)
                } else {
                    m as i128
                };
                let ft: i128 = size * 328_084 / 100_000_000_000;
                Some(
                    clamp_to_i32(
                        if m < 0 {
                            -ft
                        } else {
                            ft
                        },
                    ),
                )
            },
            None => None,
        }
    }

    /// Velocity, millionths of a metre per second
    pub fn velocity_ms(&self) -> (r: Option<i64>)
        ensures
            r == self.velocity,
    {
        self.velocity
    }

    /// True track, millionths of a degree
    pub fn true_track(&self) -> (r: Option<i64>)
        ensures
            r == self.true_track,
    {
        self.true_track
    }

    /// Heading in whole degrees
    pub fn heading(&self) -> (r: Option<i32>)
        ensures
            match (r, self.true_track) {
                (Some(h), Some(t)) => h == whole_degrees(t),
                (None, None) => true,
                _ => false,
            },
    {
        match self.true_track {
            Some(t) => {
                let size: i128 = if t < 0 {
                    -(t as i128)
                } else {
                    t as i128
                };
                let deg: i128 = size / 1_000_000;
                Some(
                    clamp_to_i32(
                        if t < 0 {
                            -deg
                        } else {
                            deg
                        },
                    ),
                )
            },
            None => None,
        }
    }
}

/// Answer of the API: its time and the states, if there are any.
#[derive(Debug)]
pub struct OpenSkyResponse {
    pub time: i64,
    pub states: Option<Vec<StateVector>>,
}

/// Index of the first array from `i` on that is too short for a state.
pub open spec fn first_short(arrays: Seq<Vec<Json>>, i: int) -> Option<int>
    decreases arrays.len() - i,
{
    if i < 0 || i >= arrays.len() {
        None
    } else if arrays[i]@.len() < STATE_ELEMENTS {
        Some(i)
    } else {
        first_short(arrays, i + 1)
    }
}

impl OpenSkyResponse {
    /// Read an answer whose states come as arrays; one array that is too short
    /// spoils it.
    pub fn from_arrays(time: i64, arrays: Option<Vec<Vec<Json>>>) -> (r: Result<Self, ShortState>)
        ensures
            match (r, arrays) {
                (Ok(a), None) => a.time == time && a.states is None,
                (Ok(a), Some(v)) => {
                    &&& a.time == time
                    &&& first_short(v@, 0) is None
                    &&& a.states matches Some(states) && states@.len() == v@.len()
                        && forall|i: int|
                        0 <= i < states@.len() ==> (#[trigger] states@[i])@ == state_of(v@[i]@)
                            && states@[i].wf()
                },
                (Err(e), Some(v)) => first_short(v@, 0) matches Some(i) && e.len == v@[i]@.len(),
                (Err(_), None) => false,
            },
    {
        let list = match arrays {
            Some(v) => v,
            None => {
                return Ok(OpenSkyResponse { time, states: None });
            },
        };
        let mut states: Vec<StateVector> = Vec::new();
        let mut i: usize = 0;
        while i < list.len()
            invariant
                i <= list@.len(),
                arrays matches Some(v) && v == list,
                states@.len() == i,
                first_short(list@, 0) == first_short(list@, i as int),
                forall|k: int|
                    0 <= k < i ==> (#[trigger] states@[k])@ == state_of(list@[k]@)
                        && states@[k].wf(),
            decreases list@.len() - i,
        {
            match StateVector::from_array(&list[i]) {
                Ok(s) => {
                    states.push(s);
                },
                Err(e) => {
                    return Err(e);
                },
            }
            i += 1;
        }
        Ok(OpenSkyResponse { time, states: Some(states) })
    }

    /// The states of an answer, none where it has no list of them.
    pub fn into_states(self) -> (r: Vec<StateVector>)
        ensures
            match self.states {
                Some(v) => r == v,
                None => r@.len() == 0,
            },
    {
        match self.states {
            Some(v) => v,
            None => Vec::new(),
        }
    }
}

} // verus!
