//! Fixed-width columns and the values in them.

use crate::number::{
    fixed_point, is_reading, lemma_short_decimal, magnitude, parse_fixed, parse_reading,
    parse_unsigned, reading, unsigned, NANO,
};
use crate::text::{
    byte_len, byte_range, byte_slice, is_ascii_text, is_digit, lemma_ascii_boundary, trim, trimmed,
};
use vstd::arithmetic::power::{lemma_pow_positive, pow};
use vstd::prelude::*;
use vstd::slice::slice_subrange;

verus! {

/// A fixed-width column of a line, without the blanks around it; none where the
/// line is too short or the column is blank.
pub open spec fn column(line: Seq<char>, start: int, end: int) -> Option<Seq<char>> {
    let stop = if end < byte_len(line) { end } else { byte_len(line) as int };
    if start >= stop {
        None
    } else {
        match byte_slice(line, start, stop) {
            Some(t) if trim(t).len() > 0 => Some(trim(t)),
            _ => None,
        }
    }
}

/// A fixed-width column of a line, without the blanks around it.
pub fn field(line: &[char], start: usize, end: usize) -> (r: Option<&[char]>)
    ensures
        match r {
            Some(t) => column(line@, start as int, end as int) == Some(t@),
            None => column(line@, start as int, end as int) is None,
        },
{
    match byte_range(line, start, end) {
        Some(t) => {
            let s: &[char] = trimmed(t);
            if s.len() > 0 {
                Some(s)
            } else {
                None
            }
        },
        None => None,
    }
}

/// In a line of ASCII characters columns count characters: a column is what
/// stands from one character to another, or to the end of the line.
pub proof fn ascii_column_counts_characters(line: Seq<char>, start: int, end: int)
    requires
        is_ascii_text(line),
        0 <= start < end,
    ensures
        ({
            let stop = if end < line.len() {
                end
            } else {
                line.len() as int
            };
            let inside = trim(line.subrange(start, stop));
            column(line, start, end) == (if start < stop && inside.len() > 0 {
                Some(inside)
            } else {
                None
            })
        }),
{
    assert(line.take(line.len() as int) =~= line);
    lemma_ascii_boundary(line, line.len() as int);
    if start < line.len() {
        lemma_ascii_boundary(line, start);
    }
    if end < line.len() {
        lemma_ascii_boundary(line, end);
    }
}

/// A coordinate: the letter of the hemisphere, `deg_digits` characters of
/// degrees, four of minutes below sixty. In billionths of a minute.
pub open spec fn coordinate(s: Seq<char>, pos: char, neg: char, deg_digits: int) -> Option<int> {
    let rest = s.drop_first();
    if !is_ascii_text(s) || s.len() == 0 || (s[0] != pos && s[0] != neg) || rest.len()
        != deg_digits + 4 {
        None
    } else {
        match (
            fixed_point(rest.take(deg_digits), 9, i64::MAX as int),
            fixed_point(rest.skip(deg_digits), 9, i64::MAX as int),
        ) {
            (Some(deg), Some(min)) if min < 60 * NANO => Some(
                if s[0] == pos {
                    deg * 60 + min
                } else {
                    -(deg * 60 + min)
                },
            ),
            _ => None,
        }
    }
}

/// A latitude like "N4614.3" or a longitude like "E00606.6", at most `limit`
/// degrees from zero.
pub open spec fn bounded_coordinate(
    s: Seq<char>,
    pos: char,
    neg: char,
    deg_digits: int,
    limit: int,
) -> Option<i64> {
    match coordinate(s, pos, neg, deg_digits) {
        Some(v) if -limit * 60 * NANO <= v <= limit * 60 * NANO => Some(v as i64),
        _ => None,
    }
}

pub open spec fn latitude(s: Seq<char>) -> Option<i64> {
    bounded_coordinate(s, 'N', 'S', 2, 90)
}

pub open spec fn longitude(s: Seq<char>) -> Option<i64> {
    bounded_coordinate(s, 'E', 'W', 3, 180)
}

/// A value on the other side of zero.
pub open spec fn opposite(v: Option<int>) -> Option<int> {
    match v {
        Some(n) => Some(-n),
        None => None,
    }
}

/// The letter of the hemisphere only gives the sign: with one letter a text stands
/// for the opposite of what it stands for with the other, or for nothing with
/// both.
pub proof fn hemisphere_gives_sign(rest: Seq<char>, pos: char, neg: char, deg_digits: int)
    requires
        pos != neg,
        (pos as u32) < 0x80,
        (neg as u32) < 0x80,
    ensures
        coordinate(seq![neg] + rest, pos, neg, deg_digits) == opposite(
            coordinate(seq![pos] + rest, pos, neg, deg_digits),
        ),
{
    let (p, n) = (seq![pos] + rest, seq![neg] + rest);
    assert(p.drop_first() =~= rest);
    assert(n.drop_first() =~= rest);
    assert forall|i: int| 0 <= i < p.len() implies ((p[i] as u32) < 0x80 <==> (n[i] as u32)
        < 0x80) by {
        if i > 0 {
            assert(p[i] == n[i]);
        }
    }
    if is_ascii_text(p) {
        assert forall|i: int| 0 <= i < n.len() implies (#[trigger] n[i] as u32) < 0x80 by {
            assert((p[i] as u32) < 0x80);
        }
    }
    if is_ascii_text(n) {
        assert forall|i: int| 0 <= i < p.len() implies (#[trigger] p[i] as u32) < 0x80 by {
            assert((n[i] as u32) < 0x80);
        }
    }
}

/// A southern latitude is the opposite of the northern one, a western longitude
/// that of the eastern one.
pub proof fn sides_are_opposite(rest: Seq<char>)
    ensures
        match (latitude(seq!['N'] + rest), latitude(seq!['S'] + rest)) {
            (Some(n), Some(s)) => s == -n,
            (None, None) => true,
            _ => false,
        },
        match (longitude(seq!['E'] + rest), longitude(seq!['W'] + rest)) {
            (Some(e), Some(w)) => w == -e,
            (None, None) => true,
            _ => false,
        },
{
    hemisphere_gives_sign(rest, 'N', 'S', 2);
    hemisphere_gives_sign(rest, 'E', 'W', 3);
}

/// A coordinate of digits and points is its degrees plus its minutes over sixty,
/// exactly: in billionths of a minute, sixty times the former plus the latter. It
/// has `deg_digits` characters of degrees and four of minutes, below sixty.
///
/// A mantissa `m` and an exponent `e` stand for `m` times ten to the `e`.
pub proof fn coordinate_is_degrees_and_minutes(
    rest: Seq<char>,
    pos: char,
    neg: char,
    deg_digits: int,
)
    requires
        1 <= deg_digits <= 9,
        (pos as u32) < 0x80,
        forall|i: int| 0 <= i < rest.len() ==> is_digit(#[trigger] rest[i]) || rest[i] == '.',
    ensures
        ({
            let c = coordinate(seq![pos] + rest, pos, neg, deg_digits);
            if rest.len() != deg_digits + 4 {
                c is None
            } else {
                match (magnitude(rest.take(deg_digits)), magnitude(rest.skip(deg_digits))) {
                    (Some((dm, de)), Some((mm, me))) => {
                        let deg = dm * pow(10, (de + 9) as nat);
                        let min = mm * pow(10, (me + 9) as nat);
                        &&& -9 <= de <= 0 && -9 <= me <= 0
                        &&& c == (if min < 60 * NANO {
                            Some(deg * 60 + min)
                        } else {
                            None
                        })
                        &&& 0 <= deg && 0 <= min
                    },
                    _ => c is None,
                }
            }
        }),
{
    let s = seq![pos] + rest;
    assert(s.drop_first() =~= rest);
    assert forall|i: int| 0 <= i < s.len() implies (#[trigger] s[i] as u32) < 0x80 by {
        if i > 0 {
            assert(s[i] == rest[i - 1]);
        }
    }
    if rest.len() == deg_digits + 4 {
        let (d, m) = (rest.take(deg_digits), rest.skip(deg_digits));
        assert forall|i: int| 0 <= i < m.len() implies is_digit(#[trigger] m[i]) || m[i] == '.' by {
            assert(m[i] == rest[i + deg_digits]);
        }
        lemma_short_decimal(d);
        lemma_short_decimal(m);
        if let (Some((dm, de)), Some((mm, me))) = (magnitude(d), magnitude(m)) {
            let (p, q) = (pow(10, (de + 9) as nat), pow(10, (me + 9) as nat));
            lemma_pow_positive(10, (de + 9) as nat);
            lemma_pow_positive(10, (me + 9) as nat);
            assert(0 <= dm * p && 0 <= mm * q) by (nonlinear_arith)
                requires
                    0 <= dm,
                    0 <= mm,
                    0 < p,
                    0 < q,
            ;
        }
    }
}

fn ascii_text(s: &[char]) -> (r: bool)
    ensures
        r == is_ascii_text(s@),
{
    let mut i: usize = 0;
    while i < s.len()
        invariant
            i <= s@.len(),
            forall|j: int| 0 <= j < i ==> (#[trigger] s@[j] as u32) < 0x80,
        decreases s@.len() - i,
    {
        if s[i] as u32 >= 0x80 {
            return false;
        }
        i += 1;
    }
    true
}

/// Parse a coordinate: the letter of the hemisphere, `deg_digits` characters of
/// degrees, four of minutes.
pub fn parse_coord(s: &[char], pos: char, neg: char, deg_digits: usize) -> (r: Option<i128>)
    ensures
        match r {
            Some(v) => coordinate(s@, pos, neg, deg_digits as int) == Some(v as int),
            None => coordinate(s@, pos, neg, deg_digits as int) is None,
        },
{
    if !ascii_text(s) || s.len() == 0 {
        return None;
    }
    if s[0] != pos && s[0] != neg {
        return None;
    }
    if s.len() < 5 || s.len() - 5 != deg_digits {
        return None;
    }
    let degrees: &[char] = slice_subrange(s, 1, deg_digits + 1);
    let minutes: &[char] = slice_subrange(s, deg_digits + 1, s.len());
    proof {
        assert(degrees@ =~= s@.drop_first().take(deg_digits as int));
        assert(minutes@ =~= s@.drop_first().skip(deg_digits as int));
    }
    match (parse_fixed(degrees, 9, i64::MAX), parse_fixed(minutes, 9, i64::MAX)) {
        (Some(deg), Some(min)) => {
            if min >= 60 * NANO {
                return None;
            }
            let size: i128 = deg as i128 * 60 + min as i128;
            Some(
                if s[0] == pos {
                    size
                } else {
                    -size
                },
            )
        },
        _ => None,
    }
}

/// A coordinate that is at most `limit` degrees from zero.
fn within(v: Option<i128>, limit: i64) -> (r: Option<i64>)
    requires
        0 <= limit <= 180,
    ensures
        r == (match v {
            Some(n) if -limit * 60 * NANO <= n <= limit * 60 * NANO => Some(n as i64),
            _ => None,
        }),
{
    let most: i128 = limit as i128 * 60 * NANO as i128;
    match v {
        Some(n) => if -most <= n && n <= most {
            Some(n as i64)
        } else {
            None
        },
        None => None,
    }
}

/// Parse a latitude like "N4614.3" (degrees and decimal minutes).
pub fn parse_lat(s: &[char]) -> (r: Option<i64>)
    ensures
        r == latitude(s@),
        r matches Some(v) ==> -90 * 60 * NANO <= v <= 90 * 60 * NANO,
{
    within(parse_coord(s, 'N', 'S', 2), 90)
}

/// Parse a longitude like "E00606.6" (degrees and decimal minutes).
pub fn parse_lon(s: &[char]) -> (r: Option<i64>)
    ensures
        r == longitude(s@),
        r matches Some(v) ==> -180 * 60 * NANO <= v <= 180 * 60 * NANO,
{
    within(parse_coord(s, 'E', 'W', 3), 180)
}

/// A wind component: "P004" is a tailwind of 4 kt, "M038" a headwind of 38 kt.
pub open spec fn wind_component(s: Seq<char>) -> Option<i64> {
    if s.len() > 0 && (s[0] == 'P' || s[0] == 'M') {
        match reading(s.drop_first()) {
            Some(v) => Some(
                if s[0] == 'P' {
                    v
                } else {
                    -v as i64
                },
            ),
            None => None,
        }
    } else {
        None
    }
}

/// Parse a wind component like "P004" or "M038".
pub fn parse_wind_comp(s: &[char]) -> (r: Option<i64>)
    ensures
        r == wind_component(s@),
        r matches Some(v) ==> is_reading(v as int),
{
    if s.len() == 0 || (s[0] != 'P' && s[0] != 'M') {
        return None;
    }
    let rest: &[char] = slice_subrange(s, 1, s.len());
    proof {
        assert(rest@ =~= s@.drop_first());
    }
    match parse_reading(rest) {
        Some(v) => Some(
            if s[0] == 'P' {
                v
            } else {
                -v
            },
        ),
        None => None,
    }
}

/// An elapsed time in hours and minutes, in minutes.
pub open spec fn minutes_of(s: Seq<char>) -> Option<u32> {
    match unsigned(s, 10, u32::MAX as nat) {
        Some(v) => Some(((v / 100) * 60 + v % 100) as u32),
        None => None,
    }
}

/// Parse an HHMM elapsed time ("0045" is 45 minutes).
pub fn parse_hhmm(s: &[char]) -> (r: Option<u32>)
    ensures
        r == minutes_of(s@),
{
    match parse_unsigned(s, u32::MAX as u64) {
        Some(v) => {
            let m: u64 = (v / 100) * 60 + v % 100;
            Some(m as u32)
        },
        None => None,
    }
}

} // verus!
