//! What is read of a briefing.

use crate::laws::number::{
    all_digits, decimal, digits_are_their_number, spells, unsigned_is_decimal,
};
use crate::laws::text::{columns_count_characters, stands_in};
use crate::number::{fixed_point, narrowed, reading};
use crate::shared::lido::column::{coordinate, latitude, longitude, minutes_of, wind_component};
use crate::shared::lido::flight_log::{block_at, block_waypoint, waypoints_from};
use crate::shared::lido::flight_plan::{plan_aircraft_type, plan_callsign, plan_token, routing};
use crate::shared::lido::speeds::{landing_speed, takeoff_speed};
use crate::shared::lido::winds::wind_information;
use crate::shared::lido::briefing_of;
use crate::text::is_ascii_text;
use vstd::arithmetic::power::{lemma_pow_positive, pow};
use vstd::prelude::*;

verus! {

/// A latitude is a letter, two digits of degrees and four characters of minutes:
/// in billionths of a minute, sixty times the degrees and the minutes, negative in
/// the south; none from sixty minutes or past ninety degrees.
pub proof fn latitude_is_degrees_and_minutes(
    north: bool,
    deg: Seq<char>,
    min: Seq<char>,
    whole: Seq<char>,
    fraction: Seq<char>,
    m: int,
)
    requires
        deg.len() == 2,
        all_digits(deg),
        min.len() == 4,
        spells(min, whole, fraction),
        m * pow(10, fraction.len()) == decimal(whole + fraction) * 1_000_000_000,
    ensures
        ({
            let v = latitude(
                seq![
                    if north {
                        'N'
                    } else {
                        'S'
                    },
                ] + deg + min,
            );
            let n = decimal(deg) * 60_000_000_000 + m;
            if m < 60_000_000_000 && n <= 5_400_000_000_000 {
                v matches Some(x) && x == (if north {
                    n
                } else {
                    -n
                })
            } else {
                v is None
            }
        }),
{
    lemma_coordinate(north, 'N', 'S', deg, min, whole, fraction, m);
}

/// A longitude is a letter, three digits of degrees and four characters of minutes:
/// in billionths of a minute, sixty times the degrees and the minutes, negative in
/// the west; none from sixty minutes or past 180 degrees.
pub proof fn longitude_is_degrees_and_minutes(
    east: bool,
    deg: Seq<char>,
    min: Seq<char>,
    whole: Seq<char>,
    fraction: Seq<char>,
    m: int,
)
    requires
        deg.len() == 3,
        all_digits(deg),
        min.len() == 4,
        spells(min, whole, fraction),
        m * pow(10, fraction.len()) == decimal(whole + fraction) * 1_000_000_000,
    ensures
        ({
            let v = longitude(
                seq![
                    if east {
                        'E'
                    } else {
                        'W'
                    },
                ] + deg + min,
            );
            let n = decimal(deg) * 60_000_000_000 + m;
            if m < 60_000_000_000 && n <= 10_800_000_000_000 {
                v matches Some(x) && x == (if east {
                    n
                } else {
                    -n
                })
            } else {
                v is None
            }
        }),
{
    lemma_coordinate(east, 'E', 'W', deg, min, whole, fraction, m);
}

proof fn lemma_decimal_small(s: Seq<char>)
    requires
        all_digits(s),
    ensures
        0 <= decimal(s),
        s.len() == 0 ==> decimal(s) == 0,
        s.len() <= 1 ==> decimal(s) < 10,
        s.len() <= 2 ==> decimal(s) < 100,
        s.len() <= 3 ==> decimal(s) < 1_000,
        s.len() <= 4 ==> decimal(s) < 10_000,
    decreases s.len(),
{
    if s.len() > 0 {
        assert('0' <= s[s.len() - 1] && s[s.len() - 1] <= '9');
        lemma_decimal_small(s.drop_last());
    }
}

proof fn lemma_nano(s: Seq<char>, whole: Seq<char>, fraction: Seq<char>, m: int)
    requires
        spells(s, whole, fraction),
        s.len() <= 4,
        m * pow(10, fraction.len()) == decimal(whole + fraction) * 1_000_000_000,
    ensures
        fixed_point(s, 9, i64::MAX as int) == Some(m),
        0 <= m <= 10_000_000_000_000,
{
    digits_are_their_number(s, whole, fraction, 9, i64::MAX as int);
    assert(pow(10, 9) == 1_000_000_000) by {
        reveal_with_fuel(pow, 10);
    }
    let unit = pow(10, fraction.len());
    lemma_pow_positive(10, fraction.len());
    let digits = whole + fraction;
    assert forall|i: int| 0 <= i < digits.len() implies '0' <= #[trigger] digits[i] && digits[i]
        <= '9' by {
        if i < whole.len() {
            assert(digits[i] == whole[i]);
        } else {
            assert(digits[i] == fraction[i - whole.len()]);
        }
    }
    lemma_decimal_small(digits);
    let v = fixed_point(s, 9, i64::MAX as int)->0;
    let top = decimal(digits) * 1_000_000_000;
    assert(0 <= m <= top) by (nonlinear_arith)
        requires
            m * unit == top,
            0 < unit,
            0 <= top,
    ;
    assert(v <= m) by (nonlinear_arith)
        requires
            v * unit <= m * unit,
            0 < unit,
    ;
    assert(v != i64::MAX);
    assert(m <= v) by (nonlinear_arith)
        requires
            m * unit < (v + 1) * unit,
            0 < unit,
    ;
}

proof fn lemma_coordinate(
    first: bool,
    pos: char,
    neg: char,
    deg: Seq<char>,
    min: Seq<char>,
    whole: Seq<char>,
    fraction: Seq<char>,
    m: int,
)
    requires
        pos != neg,
        (pos as u32) < 0x80,
        (neg as u32) < 0x80,
        1 <= deg.len() <= 3,
        all_digits(deg),
        min.len() == 4,
        spells(min, whole, fraction),
        m * pow(10, fraction.len()) == decimal(whole + fraction) * 1_000_000_000,
    ensures
        ({
            let s = seq![
                if first {
                    pos
                } else {
                    neg
                },
            ] + deg + min;
            let n = decimal(deg) * 60_000_000_000 + m;
            &&& coordinate(s, pos, neg, deg.len() as int) == (if m < 60_000_000_000 {
                Some(
                    if first {
                        n
                    } else {
                        -n
                    },
                )
            } else {
                None
            })
            &&& 0 <= n <= 100_000_000_000_000
        }),
{
    let s = seq![
        if first {
            pos
        } else {
            neg
        },
    ] + deg + min;
    let rest = s.drop_first();
    assert(rest =~= deg + min);
    assert(rest.take(deg.len() as int) =~= deg);
    assert(rest.skip(deg.len() as int) =~= min);
    assert forall|i: int| 0 <= i < s.len() implies (#[trigger] s[i] as u32) < 0x80 by {
        if 0 < i <= deg.len() {
            assert(s[i] == deg[i - 1]);
        } else if i > deg.len() {
            let j = i - 1 - deg.len();
            assert(s[i] == min[j]);
            if j < whole.len() {
                assert(min[j] == whole[j]);
            } else if j > whole.len() {
                assert(min[j] == fraction[j - whole.len() - 1]);
            }
        }
    }
    lemma_nano(min, whole, fraction, m);
    let none = Seq::<char>::empty();
    assert(deg + none =~= deg);
    assert(pow(10, 0) == 1) by {
        reveal(pow);
    }
    lemma_nano(deg, deg, none, decimal(deg) * 1_000_000_000);
    lemma_decimal_small(deg);
}

/// A wind component is a letter and a number of knots: behind for P, ahead, and so
/// negative, for M; none with another letter.
pub proof fn wind_component_has_its_sign(t: Seq<char>)
    ensures
        wind_component(seq!['P'] + t) == reading(t),
        match (wind_component(seq!['M'] + t), reading(t)) {
            (Some(w), Some(v)) => w == -v,
            (None, None) => true,
            _ => false,
        },
        t.len() > 0 && t[0] != 'P' && t[0] != 'M' ==> wind_component(t) is None,
        wind_component(Seq::<char>::empty()) is None,
{
    assert((seq!['P'] + t).drop_first() =~= t);
    assert((seq!['M'] + t).drop_first() =~= t);
}

/// An elapsed time is hours and minutes, the last two digits being minutes.
pub proof fn elapsed_time_is_hours_and_minutes(hours: Seq<char>, minutes: Seq<char>)
    requires
        hours.len() == 2,
        minutes.len() == 2,
        all_digits(hours),
        all_digits(minutes),
    ensures
        minutes_of(hours + minutes) matches Some(n) && n == decimal(hours) * 60 + decimal(minutes),
{
    let s = hours + minutes;
    assert forall|i: int| 0 <= i < s.len() implies '0' <= #[trigger] s[i] && s[i] <= '9' by {
        if i < 2 {
            assert(s[i] == hours[i]);
        } else {
            assert(s[i] == minutes[i - 2]);
        }
    }
    lemma_decimal_small(s);
    lemma_decimal_small(hours);
    lemma_decimal_small(minutes);
    unsigned_is_decimal(s, u32::MAX as nat);
    reveal_with_fuel(decimal, 5);
    assert(s.drop_last() =~= hours.push(minutes[0]));
    assert(s.drop_last().drop_last() =~= hours);
    assert(minutes.drop_last() =~= seq![minutes[0]]);
    assert(minutes.drop_last().drop_last() =~= Seq::<char>::empty());
    assert(decimal(s) == decimal(hours) * 100 + decimal(minutes));
}

/// A flight level counts hundreds of feet: in millionths of a foot, as many times a
/// hundred million.
pub proof fn flight_level_is_hundreds(s: Seq<char>)
    requires
        0 < s.len() <= 4,
        all_digits(s),
    ensures
        fixed_point(s, 8, 100_000_000_000_000_000) == Some(decimal(s) * 100_000_000),
{
    let none = Seq::<char>::empty();
    assert(s + none =~= s);
    digits_are_their_number(s, s, none, 8, 100_000_000_000_000_000);
    assert(pow(10, 0) == 1 && pow(10, 8) == 100_000_000) by {
        reveal_with_fuel(pow, 9);
    }
    lemma_decimal_small(s);
}

/// The waypoint of a block of ASCII lines has its values from their columns, each
/// from its own: on the line above the flight level, on its first line name,
/// latitude, airspeed and wind component, on its second name, longitude, elapsed
/// time and ground speed. What does not stand there is missing.
pub proof fn waypoint_reads_its_columns(ls: Seq<Seq<char>>, i: int, t: Seq<char>)
    requires
        0 < i,
        i + 1 < ls.len(),
        is_ascii_text(ls[i - 1]),
        is_ascii_text(ls[i]),
        is_ascii_text(ls[i + 1]),
        block_at(ls, i),
    ensures
        ({
            let w = block_waypoint(ls, i);
            let (above, first, second) = (ls[i - 1], ls[i], ls[i + 1]);
            let absent = |line: Seq<char>, start: int, end: int| forall|u: Seq<char>|
                !#[trigger] stands_in(u, line, start, end);
            &&& stands_in(t, first, 12, 19) ==> latitude(t) == Some(w.lat)
            &&& stands_in(t, second, 11, 19) ==> longitude(t) == Some(w.lon)
            &&& stands_in(t, second, 0, 11) ==> w.ident == t
            &&& absent(second, 0, 11) && stands_in(t, first, 0, 12) ==> w.ident == t
            &&& absent(second, 0, 11) && absent(first, 0, 12) ==> w.ident == seq!['?']
            &&& stands_in(t, above, 29, 33) ==> w.altitude_ft == narrowed(
                fixed_point(t, 8, 100_000_000_000_000_000),
            )
            &&& absent(above, 29, 33) ==> w.altitude_ft is None
            &&& stands_in(t, first, 38, 43) ==> w.tas_kts == reading(t)
            &&& absent(first, 38, 43) ==> w.tas_kts is None
            &&& stands_in(t, second, 38, 43) ==> w.gs_kts == reading(t)
            &&& absent(second, 38, 43) ==> w.gs_kts is None
            &&& stands_in(t, first, 47, 52) ==> w.wind_comp_kts == wind_component(t)
            &&& absent(first, 47, 52) ==> w.wind_comp_kts is None
            &&& stands_in(t, second, 20, 24) ==> w.cum_time_min == minutes_of(t)
            &&& absent(second, 20, 24) ==> w.cum_time_min is None
        }),
{
    let (above, first, second) = (ls[i - 1], ls[i], ls[i + 1]);
    columns_count_characters(first, 12, 19);
    columns_count_characters(second, 11, 19);
    columns_count_characters(second, 0, 11);
    columns_count_characters(first, 0, 12);
    columns_count_characters(above, 29, 33);
    columns_count_characters(first, 38, 43);
    columns_count_characters(second, 38, 43);
    columns_count_characters(first, 47, 52);
    columns_count_characters(second, 20, 24);
    reveal_strlit("?");
    assert("?"@ =~= seq!['?']);
}

/// A block is where a latitude stands on one line of ASCII characters and a
/// longitude on the next, in their columns.
pub proof fn blocks_have_coordinates(ls: Seq<Seq<char>>, i: int)
    requires
        0 <= i,
        i + 1 < ls.len(),
        is_ascii_text(ls[i]),
        is_ascii_text(ls[i + 1]),
    ensures
        block_at(ls, i) <==> (exists|t: Seq<char>|
            #[trigger] stands_in(t, ls[i], 12, 19) && latitude(t) is Some) && (exists|t: Seq<char>|
            #[trigger] stands_in(t, ls[i + 1], 11, 19) && longitude(t) is Some),
{
    columns_count_characters(ls[i], 12, 19);
    columns_count_characters(ls[i + 1], 11, 19);
}

/// The waypoints of a log are those of its blocks in order, each taking two lines;
/// those whose name starts with a dash are left out, and other lines say nothing.
pub proof fn log_is_read_block_by_block(ls: Seq<Seq<char>>, i: int)
    requires
        0 <= i < ls.len(),
    ensures
        ({
            let w = block_waypoint(ls, i);
            let boundary = w.ident.len() > 0 && w.ident[0] == '-';
            &&& !block_at(ls, i) ==> waypoints_from(ls, i) == waypoints_from(ls, i + 1)
            &&& block_at(ls, i) && boundary ==> waypoints_from(ls, i) == waypoints_from(ls, i + 2)
            &&& block_at(ls, i) && !boundary ==> waypoints_from(ls, i) == seq![w] + waypoints_from(
                ls,
                i + 2,
            )
            &&& waypoints_from(ls, ls.len() as int).len() == 0
            &&& waypoints_from(ls, ls.len() as int + 1).len() == 0
        }),
{
}

/// Each thing of a briefing is read from its own section.
pub proof fn briefing_has_its_sections(ls: Seq<Seq<char>>)
    ensures
        ({
            let b = briefing_of(ls);
            &&& b.waypoints == waypoints_from(ls, 0)
            &&& b.callsign == plan_callsign(ls)
            &&& b.aircraft_type == plan_aircraft_type(ls)
            &&& b.registration == plan_token(ls, seq!['R', 'E', 'G', '/'])
            &&& b.icao_address == plan_token(ls, seq!['C', 'O', 'D', 'E', '/'])
            &&& b.dep_runway == routing(ls).0
            &&& b.arr_runway == routing(ls).1
            &&& b.v2_kts == takeoff_speed(ls)
            &&& landing_speed(ls) is None <==> b.vref_kts is None
            &&& landing_speed(ls) matches Some(v) ==> b.vref_kts == Some(v as i64)
            &&& b.wind_profiles == wind_information(ls)
        }),
{
    reveal_strlit("REG/");
    reveal_strlit("CODE/");
    assert("REG/"@ =~= seq!['R', 'E', 'G', '/']);
    assert("CODE/"@ =~= seq!['C', 'O', 'D', 'E', '/']);
}

/// A block at the start of a text has no line above it, and so no altitude.
pub proof fn first_block_has_no_altitude(ls: Seq<Seq<char>>)
    ensures
        block_waypoint(ls, 0).altitude_ft is None,
{
}

} // verus!
