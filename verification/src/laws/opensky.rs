//! What is read of the OpenSky Network, and what is asked of it.

use crate::laws::number::{
    all_digits, decimal, digits_are_their_number, sign_gives_opposite, spells,
};
use crate::laws::number::unsigned_is_decimal;
use crate::laws::text::{is_trimmed, trimming_takes_white_ends};
use crate::laws::whole_part;
use crate::live::state_record;
use crate::opensky::{feet_of_metres, integer, is_fresh, state_of, whole_degrees, Json, StateVector};
use crate::shared::config::AsterixConfig;
use vstd::arithmetic::power::pow;
use vstd::prelude::*;

verus! {

/// Whether `v` is the number that `whole` and `fraction` spell around a point, in
/// millionths, with those past the last left out, where `limit` does not hold it.
pub open spec fn in_millionths(
    v: Option<i64>,
    negative: bool,
    whole: Seq<char>,
    fraction: Seq<char>,
    limit: int,
) -> bool {
    let m = decimal(whole + fraction) * 1_000_000;
    let unit = pow(10, fraction.len());
    v matches Some(n) && ({
        let size = if negative {
            -n
        } else {
            n as int
        };
        0 <= size <= limit && size * unit <= m && (size == limit || m < (size + 1) * unit)
    })
}

/// Whether an element is a number with a sign, the digits of `whole` and perhaps a
/// point and those of `fraction`.
pub open spec fn is_number(
    e: Json,
    negative: bool,
    whole: Seq<char>,
    fraction: Seq<char>,
) -> bool {
    e matches Json::Number(s) && exists|t: Seq<char>|
        #[trigger] spells(t, whole, fraction) && s@ == (if negative {
            seq!['-'] + t
        } else {
            t
        })
}

proof fn lemma_element(
    e: Json,
    negative: bool,
    whole: Seq<char>,
    fraction: Seq<char>,
    limit: i64,
)
    requires
        is_number(e, negative, whole, fraction),
        0 <= limit,
    ensures
        in_millionths(e.as_quantity(limit), negative, whole, fraction, limit as int),
{
    if let Json::Number(s) = e {
        let t = choose|t: Seq<char>|
            #[trigger] spells(t, whole, fraction) && s@ == (if negative {
                seq!['-'] + t
            } else {
                t
            });
        digits_are_their_number(t, whole, fraction, 6, limit as int);
        assert(pow(10, 6) == 1_000_000) by {
            reveal_with_fuel(pow, 7);
        }
        if whole.len() > 0 {
            assert(t[0] == whole[0]);
            assert('0' <= whole[0] && whole[0] <= '9');
        }
        sign_gives_opposite(t, 6, limit as int);
    }
}

/// The numbers of a state are those of its array, each with its sign and from its
/// own place: longitude, latitude, altitude, speed and track in the sixth,
/// seventh, eighth, tenth and eleventh. The longitude and the latitude are held at
/// a hundred million degrees, the others at the end of their type.
pub proof fn state_reads_its_numbers(
    a: Seq<Json>,
    negative: bool,
    whole: Seq<char>,
    fraction: Seq<char>,
)
    requires
        a.len() >= 17,
    ensures
        ({
            let s = state_of(a);
            let degrees = 100_000_000_000_000int;
            let most = i64::MAX as int;
            &&& is_number(a[5], negative, whole, fraction) ==> in_millionths(
                s.longitude,
                negative,
                whole,
                fraction,
                degrees,
            )
            &&& is_number(a[6], negative, whole, fraction) ==> in_millionths(
                s.latitude,
                negative,
                whole,
                fraction,
                degrees,
            )
            &&& is_number(a[7], negative, whole, fraction) ==> in_millionths(
                s.baro_altitude,
                negative,
                whole,
                fraction,
                most,
            )
            &&& is_number(a[9], negative, whole, fraction) ==> in_millionths(
                s.velocity,
                negative,
                whole,
                fraction,
                most,
            )
            &&& is_number(a[10], negative, whole, fraction) ==> in_millionths(
                s.true_track,
                negative,
                whole,
                fraction,
                most,
            )
        }),
{
    if is_number(a[5], negative, whole, fraction) {
        lemma_element(a[5], negative, whole, fraction, 100_000_000_000_000);
    }
    if is_number(a[6], negative, whole, fraction) {
        lemma_element(a[6], negative, whole, fraction, 100_000_000_000_000);
    }
    if is_number(a[7], negative, whole, fraction) {
        lemma_element(a[7], negative, whole, fraction, i64::MAX);
    }
    if is_number(a[9], negative, whole, fraction) {
        lemma_element(a[9], negative, whole, fraction, i64::MAX);
    }
    if is_number(a[10], negative, whole, fraction) {
        lemma_element(a[10], negative, whole, fraction, i64::MAX);
    }
}

/// The texts, flags and integers of a state are those of its array, each from its
/// own place; what is of another type is missing.
pub proof fn state_reads_its_elements(a: Seq<Json>)
    requires
        a.len() >= 17,
    ensures
        ({
            let s = state_of(a);
            &&& a[0] matches Json::Text(t) ==> s.icao24 == t@
            &&& !(a[0] is Text) ==> s.icao24.len() == 0
            &&& a[1] matches Json::Text(t) ==> s.callsign == Some(t@)
            &&& !(a[1] is Text) ==> s.callsign is None
            &&& a[14] matches Json::Text(t) ==> s.squawk == Some(t@)
            &&& !(a[14] is Text) ==> s.squawk is None
            &&& s.on_ground <==> (a[8] matches Json::Bool(b) && b)
            &&& !(a[3] is Number) ==> s.time_position is None
            &&& !(a[5] is Number) ==> s.longitude is None
            &&& !(a[6] is Number) ==> s.latitude is None
            &&& !(a[7] is Number) ==> s.baro_altitude is None
            &&& !(a[9] is Number) ==> s.velocity is None
            &&& !(a[10] is Number) ==> s.true_track is None
            &&& !(a[16] is Number) ==> s.position_source == 0
            &&& a.len() == 17 || !(a[17] is Number) ==> s.category is None
        }),
{
}

/// Whether an element is an integer with the digits of `whole`, below the end of
/// its type.
pub open spec fn is_integer(e: Json, negative: bool, whole: Seq<char>) -> bool {
    &&& e matches Json::Number(s) && s@ == (if negative {
        seq!['-'] + whole
    } else {
        whole
    })
    &&& whole.len() > 0 && all_digits(whole) && decimal(whole) <= i64::MAX
}

pub open spec fn with_sign(negative: bool, n: int) -> int {
    if negative {
        -n
    } else {
        n
    }
}

/// The integers of a state are those of its array, each with its sign.
pub proof fn state_reads_its_integers(a: Seq<Json>, negative: bool, whole: Seq<char>)
    requires
        a.len() >= 17,
    ensures
        ({
            let s = state_of(a);
            let n = with_sign(negative, decimal(whole));
            &&& is_integer(a[3], negative, whole) ==> s.time_position == Some(n as i64)
            &&& is_integer(a[16], negative, whole) ==> s.position_source == n
            &&& a.len() > 17 && is_integer(a[17], negative, whole) ==> s.category == Some(n as i64)
            &&& is_integer(a[3], negative, whole) ==> i64::MIN < n <= i64::MAX
        }),
{
    if whole.len() > 0 && all_digits(whole) && decimal(whole) <= i64::MAX {
        let t = if negative {
            seq!['-'] + whole
        } else {
            whole
        };
        assert('0' <= whole[0] && whole[0] <= '9');
        assert((seq!['-'] + whole).drop_first() =~= whole);
        assert(t[0] == if negative {
            '-'
        } else {
            whole[0]
        });
        unsigned_is_decimal(whole, i64::MAX as nat);
        unsigned_is_decimal(whole, 0x8000_0000_0000_0000);
        crate::laws::number::lemma_decimal(whole);
        assert(integer(t) == Some(with_sign(negative, decimal(whole)) as i64));
    }
}

/// Feet are metres times 3.28084, less the part after the point, and whole degrees
/// are degrees less the part after the point, each as far as thirty-two bits hold
/// them.
pub proof fn feet_and_degrees_are_whole(v: i64)
    ensures
        ({
            let (ft, deg) = (feet_of_metres(v), whole_degrees(v));
            &&& -0x8000_0000 <= ft <= 0x7fff_ffff && -0x8000_0000 <= deg <= 0x7fff_ffff
            &&& whole_part(ft, v * 328_084, 100_000_000_000) || (ft == 0x7fff_ffff && v * 328_084
                >= ft * 100_000_000_000) || (ft == -0x8000_0000 && v * 328_084 <= ft
                * 100_000_000_000)
            &&& whole_part(deg, v as int, 1_000_000) || (deg == 0x7fff_ffff && v >= deg * 1_000_000)
                || (deg == -0x8000_0000 && v <= deg * 1_000_000)
        }),
{
}

/// A record of a state has its position: none without one, else sixty thousand
/// billionths of a minute of arc for each millionth of a degree, latitude and
/// longitude each in its own item. Altitude, speed and track, callsign without the
/// blanks around it, and address are those of the state, and missing where it lacks
/// them.
pub proof fn live_record_is_of_the_state(s: StateVector, asterix: AsterixConfig, time_of_day: u64)
    requires
        s.wf(),
    ensures
        match state_record(s, asterix, time_of_day) {
            None => s.latitude is None || s.longitude is None,
            Some(r) => {
                &&& s.latitude matches Some(lat) && r.latitude == lat * 60_000
                &&& s.longitude matches Some(lon) && r.longitude == lon * 60_000
                &&& r.sac == asterix.sac && r.sic == asterix.sic
                &&& r.time_of_day == time_of_day
                &&& s.baro_altitude is None <==> r.altitude_ft is None
                &&& s.baro_altitude matches Some(m) ==> (r.altitude_ft matches Some(ft) && (whole_part(
                    ft as int,
                    m * 328_084,
                    100_000_000_000,
                ) || (ft == 0x7fff_ffff && m * 328_084 >= ft * 100_000_000_000) || (ft
                    == -0x8000_0000 && m * 328_084 <= ft * 100_000_000_000)))
                &&& match (s.velocity, s.true_track) {
                    (Some(speed), Some(track)) => r.velocity matches Some(v) && v.speed_mps
                        == speed && v.track_deg == track,
                    _ => r.velocity is None,
                }
                &&& s.callsign is None <==> r.callsign is None
                &&& s.callsign matches Some(c) ==> (r.callsign matches Some(t) && is_trimmed(t, c@))
                &&& r.track_status == 0
                &&& r.track_number == crate::shared::cat062::track_number(s.icao24@)
                &&& r.icao_address == crate::shared::cat062::address_number(s.icao24@)
            },
        },
{
    if let Some(m) = s.baro_altitude {
        feet_and_degrees_are_whole(m);
    }
    if let Some(c) = s.callsign {
        trimming_takes_white_ends(c@);
    }
}

/// A token is used until a minute before it expires, and no longer.
pub proof fn token_is_fresh_until_a_minute_before(expires_at: int, now: int)
    ensures
        is_fresh(expires_at, now) <==> expires_at - now > 60_000_000_000,
{
}

} // verus!
