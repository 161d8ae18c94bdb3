//! What is read of the sections of a briefing around its flight log.

use crate::laws::text::{is_trimmed, lemma_trimmed_unique, texts_are_parted_at_the_first};
use crate::laws::in_proportion;
use crate::number::{reading, scaled};
use crate::shared::lido::flight_plan::{
    is_airport_and_runway, is_alphanumeric_text, is_upper_text, plan_aircraft_type, plan_callsign,
    plan_token, routing, routing_from, value_from, value_in, without_end_parens,
};
use crate::shared::lido::search::{
    lemma_line_containing, lemma_line_reading, line_containing, line_reading,
};
use crate::shared::lido::speeds::{
    airport_row, header_from, interpolated, interpolated_from, landing_row, landing_rows,
    landing_speed, planned, reference_speed, runway_speed, takeoff_speed, without_slashes,
    TableRow,
};
use crate::text::{
    before, contains, first_at, index_of, is_alphanumeric, is_upper, is_white, lemma_first_at,
    lemma_index_of, occurs_at, starts_with, trim, trim_start, words,
};
use vstd::prelude::*;

verus! {

/// Whether a character is a letter or a digit of ASCII.
pub open spec fn is_letter_or_digit(c: char) -> bool {
    ('0' <= c && c <= '9') || ('A' <= c && c <= 'Z') || ('a' <= c && c <= 'z')
}

pub open spec fn letters_and_digits(s: Seq<char>) -> bool {
    forall|i: int| 0 <= i < s.len() ==> is_letter_or_digit(#[trigger] s[i])
}

pub open spec fn capitals(s: Seq<char>) -> bool {
    forall|i: int| 0 <= i < s.len() ==> 'A' <= #[trigger] s[i] && s[i] <= 'Z'
}

/// Whether a line is the first that holds a text.
pub open spec fn first_with(ls: Seq<Seq<char>>, p: Seq<char>, k: int) -> bool {
    &&& 0 <= k < ls.len()
    &&& contains(ls[k], p)
    &&& forall|j: int| 0 <= j < k ==> !contains(#[trigger] ls[j], p)
}

/// Whether a line is the first that reads as a text, blanks aside.
pub open spec fn first_reading(ls: Seq<Seq<char>>, p: Seq<char>, k: int) -> bool {
    &&& 0 <= k < ls.len()
    &&& is_trimmed(p, ls[k])
    &&& forall|j: int| 0 <= j < k ==> !is_trimmed(p, #[trigger] ls[j])
}

proof fn lemma_first_with(ls: Seq<Seq<char>>, p: Seq<char>, k: int)
    requires
        first_with(ls, p, k),
    ensures
        line_containing(ls, p, 0) == Some(k),
{
    lemma_line_containing(ls, p, 0);
}

/// The first line that reads as a text is found.
pub proof fn lemma_first_reading(ls: Seq<Seq<char>>, p: Seq<char>, k: int)
    requires
        first_reading(ls, p, k),
    ensures
        line_reading(ls, p, 0) == Some(k),
{
    lemma_line_reading(ls, p, 0);
    lemma_trimmed_unique(p, ls[k]);
    if let Some(m) = line_reading(ls, p, 0) {
        if m < k {
            crate::laws::text::trimming_takes_white_ends(ls[m]);
            assert(is_trimmed(p, ls[m]));
        }
    }
}

proof fn lemma_plain(s: Seq<char>)
    requires
        letters_and_digits(s),
    ensures
        is_alphanumeric_text(s),
        trim(s) == s,
{
    assert forall|i: int| 0 <= i < s.len() implies !is_white(#[trigger] s[i]) by {
        assert(is_letter_or_digit(s[i]));
    }
    assert forall|i: int| 0 <= i < s.len() implies is_alphanumeric(#[trigger] s[i]) by {
        assert(is_letter_or_digit(s[i]));
    }
    assert(s.subrange(0, s.len() as int) =~= s);
    assert(is_trimmed(s, s));
    lemma_trimmed_unique(s, s);
}

/// The callsign is what stands between "(FPL-" and the next dash on the first line
/// with that mark: one to seven letters and digits, else there is none.
pub proof fn callsign_follows_the_mark(
    ls: Seq<Seq<char>>,
    k: int,
    pre: Seq<char>,
    c: Seq<char>,
    rest: Seq<char>,
)
    requires
        first_with(ls, "(FPL-"@, k),
        ls[k] == pre + "(FPL-"@ + c + rest,
        forall|j: int| 0 <= j < pre.len() ==> !occurs_at(ls[k], "(FPL-"@, j),
        letters_and_digits(c),
        rest.len() == 0 || rest[0] == '-',
    ensures
        plan_callsign(ls) == (if 1 <= c.len() <= 7 {
            Some(c)
        } else {
            None
        }),
{
    let mark = "(FPL-"@;
    lemma_first_with(ls, mark, k);
    let line = ls[k];
    let i = pre.len() as int;
    assert(line.subrange(i, i + mark.len()) =~= mark);
    assert(first_at(line, mark, i));
    lemma_first_at(line, mark, i);
    let tail = line.skip(i + mark.len());
    assert(tail =~= c + rest);
    assert forall|j: int| 0 <= j < c.len() implies #[trigger] c[j] != '-' by {
        assert(is_letter_or_digit(c[j]));
    }
    if rest.len() > 0 {
        texts_are_parted_at_the_first(c, '-', rest.drop_first());
        assert(tail =~= c + seq!['-'] + rest.drop_first());
    } else {
        texts_are_parted_at_the_first(c, '-', rest);
        assert(tail =~= c);
    }
    lemma_plain(c);
}

/// The aircraft type is what stands between a dash and the next slash on the line
/// after the mark: two to four letters and digits, else there is none; none either
/// without the dash.
pub proof fn type_follows_the_dash(
    ls: Seq<Seq<char>>,
    k: int,
    line: Seq<char>,
    t: Seq<char>,
    rest: Seq<char>,
)
    requires
        first_with(ls, "(FPL-"@, k),
        k + 1 < ls.len(),
        is_trimmed(line, ls[k + 1]),
        letters_and_digits(t),
        rest.len() == 0 || rest[0] == '/',
    ensures
        line == seq!['-'] + t + rest ==> plan_aircraft_type(ls) == (if 2 <= t.len() <= 4 {
            Some(t)
        } else {
            None
        }),
        line.len() == 0 || line[0] != '-' ==> plan_aircraft_type(ls) is None,
{
    lemma_first_with(ls, "(FPL-"@, k);
    lemma_trimmed_unique(line, ls[k + 1]);
    if line == seq!['-'] + t + rest {
        let tail = line.drop_first();
        assert(tail =~= t + rest);
        assert forall|j: int| 0 <= j < t.len() implies #[trigger] t[j] != '/' by {
            assert(is_letter_or_digit(t[j]));
        }
        if rest.len() > 0 {
            texts_are_parted_at_the_first(t, '/', rest.drop_first());
            assert(tail =~= t + seq!['/'] + rest.drop_first());
        } else {
            texts_are_parted_at_the_first(t, '/', rest);
            assert(tail =~= t);
        }
        lemma_plain(t);
    }
}

proof fn lemma_value_in(ws: Seq<Seq<char>>, prefix: Seq<char>, i: int, q: int, v: Seq<char>)
    requires
        0 <= i <= q < ws.len(),
        ws[q] == prefix + v || ws[q] == prefix + v + seq![')'],
        v.len() > 0,
        v.last() != ')',
        forall|p: int| i <= p < q ==> !starts_with(#[trigger] ws[p], prefix),
    ensures
        value_in(ws, prefix, i) == Some(v),
    decreases q - i,
{
    if i < q {
        assert(!starts_with(ws[i], prefix));
        lemma_value_in(ws, prefix, i + 1, q, v);
    } else {
        let w = ws[q];
        assert(w.take(prefix.len() as int) =~= prefix);
        reveal_with_fuel(without_end_parens, 3);
        if w == prefix + v {
            assert(w.skip(prefix.len() as int) =~= v);
        } else {
            assert(w.skip(prefix.len() as int) =~= v.push(')'));
            assert(v.push(')').drop_last() =~= v);
        }
    }
}

proof fn lemma_no_value_in(ws: Seq<Seq<char>>, prefix: Seq<char>, i: int)
    requires
        0 <= i,
        forall|p: int| i <= p < ws.len() ==> !starts_with(#[trigger] ws[p], prefix),
    ensures
        value_in(ws, prefix, i) is None,
    decreases ws.len() - i,
{
    if i < ws.len() {
        assert(!starts_with(ws[i], prefix));
        lemma_no_value_in(ws, prefix, i + 1);
    }
}

proof fn lemma_value_from(
    ls: Seq<Seq<char>>,
    prefix: Seq<char>,
    i: int,
    m: int,
    q: int,
    v: Seq<char>,
)
    requires
        0 <= i <= m < ls.len(),
        0 <= q < words(ls[m]).len(),
        words(ls[m])[q] == prefix + v || words(ls[m])[q] == prefix + v + seq![')'],
        v.len() > 0,
        v.last() != ')',
        forall|p: int| 0 <= p < q ==> !starts_with(#[trigger] words(ls[m])[p], prefix),
        forall|j: int, p: int|
            i <= j < m && 0 <= p < words(ls[j]).len() ==> !starts_with(
                #[trigger] words(ls[j])[p],
                prefix,
            ),
        forall|j: int, p: int|
            i <= j < m && 0 <= p < ls[j].len() ==> #[trigger] ls[j][p] != ')',
    ensures
        value_from(ls, prefix, i) == Some(v),
    decreases m - i,
{
    if i < m {
        lemma_no_value_in(words(ls[i]), prefix, 0);
        lemma_index_of(ls[i], ')');
        let n = index_of(ls[i], ')');
        if n < ls[i].len() {
            assert(ls[i][n] == ')');
        }
        lemma_value_from(ls, prefix, i + 1, m, q, v);
    } else {
        lemma_value_in(words(ls[m]), prefix, 0, q, v);
    }
}

/// An item of the flight plan is what follows its key in the first word that starts
/// with it, from the first line with "(FPL-" on and no further than the bracket
/// that closes the plan; that bracket is not part of it.
pub proof fn item_follows_its_key(
    ls: Seq<Seq<char>>,
    key: Seq<char>,
    k: int,
    m: int,
    q: int,
    v: Seq<char>,
)
    requires
        first_with(ls, "(FPL-"@, k),
        k <= m < ls.len(),
        0 <= q < words(ls[m]).len(),
        words(ls[m])[q] == key + v || words(ls[m])[q] == key + v + seq![')'],
        v.len() > 0,
        v.last() != ')',
        forall|p: int| 0 <= p < q ==> !starts_with(#[trigger] words(ls[m])[p], key),
        forall|j: int, p: int|
            k <= j < m && 0 <= p < words(ls[j]).len() ==> !starts_with(
                #[trigger] words(ls[j])[p],
                key,
            ),
        forall|j: int, p: int|
            k <= j < m && 0 <= p < ls[j].len() ==> #[trigger] ls[j][p] != ')',
    ensures
        plan_token(ls, key) == Some(v),
{
    lemma_first_with(ls, "(FPL-"@, k);
    lemma_value_from(ls, key, k, m, q, v);
}

/// An item that stands in no word up to the bracket that closes the plan is
/// missing, whatever follows.
pub proof fn item_ends_with_the_plan(ls: Seq<Seq<char>>, key: Seq<char>, k: int, m: int, n: int)
    requires
        first_with(ls, "(FPL-"@, k),
        k <= m < ls.len(),
        0 <= n < ls[m].len(),
        ls[m][n] == ')',
        forall|j: int, p: int|
            k <= j <= m && 0 <= p < words(ls[j]).len() ==> !starts_with(
                #[trigger] words(ls[j])[p],
                key,
            ),
    ensures
        plan_token(ls, key) is None,
{
    lemma_first_with(ls, "(FPL-"@, k);
    lemma_closed(ls, key, k, m, n);
}

proof fn lemma_closed(ls: Seq<Seq<char>>, key: Seq<char>, i: int, m: int, n: int)
    requires
        0 <= i <= m < ls.len(),
        0 <= n < ls[m].len(),
        ls[m][n] == ')',
        forall|j: int, p: int|
            i <= j <= m && 0 <= p < words(ls[j]).len() ==> !starts_with(
                #[trigger] words(ls[j])[p],
                key,
            ),
    ensures
        value_from(ls, key, i) is None,
    decreases m - i,
{
    lemma_no_value_in(words(ls[i]), key, 0);
    if i < m {
        lemma_closed(ls, key, i + 1, m, n);
    } else {
        lemma_index_of(ls[m], ')');
        if index_of(ls[m], ')') == ls[m].len() {
            assert(ls[m][n] != ')');
        }
    }
}

/// Whether a word is an airport and a runway: four capitals, a slash, and one to
/// three letters and digits.
pub open spec fn is_airport(w: Seq<char>) -> bool {
    exists|a: Seq<char>, r: Seq<char>|
        w == #[trigger] (a + seq!['/'] + r) && a.len() == 4 && capitals(a) && 1 <= r.len() <= 3
            && letters_and_digits(r)
}

/// Airports are told by their four capitals and the runway after a slash.
pub proof fn airports_are_told(w: Seq<char>)
    ensures
        is_airport_and_runway(w) <==> is_airport(w),
{
    if is_airport(w) {
        let (a, r) = choose|a: Seq<char>, r: Seq<char>|
            w == #[trigger] (a + seq!['/'] + r) && a.len() == 4 && capitals(a) && 1 <= r.len() <= 3
                && letters_and_digits(r);
        assert forall|i: int| 0 <= i < a.len() implies #[trigger] a[i] != '/' by {
            assert('A' <= a[i] && a[i] <= 'Z');
        }
        texts_are_parted_at_the_first(a, '/', r);
        lemma_plain(r);
        assert forall|i: int| 0 <= i < a.len() implies is_upper(#[trigger] a[i]) by {
            assert('A' <= a[i] && a[i] <= 'Z');
        }
    }
    if is_airport_and_runway(w) {
        lemma_index_of(w, '/');
        let n = index_of(w, '/');
        let (a, r) = (w.take(n), w.skip(n + 1));
        assert(w =~= a + seq!['/'] + r);
        assert forall|i: int| 0 <= i < a.len() implies 'A' <= #[trigger] a[i] && a[i] <= 'Z' by {
            assert(is_upper(before(w, '/')[i]));
        }
        assert forall|i: int| 0 <= i < r.len() implies is_letter_or_digit(#[trigger] r[i]) by {
            assert(is_alphanumeric(crate::text::after(w, '/')[i]));
        }
    }
}

proof fn lemma_routing_from(ls: Seq<Seq<char>>, i: int, m: int, end: int)
    requires
        0 <= i <= m < end,
        m < ls.len(),
        words(ls[m]).len() > 0,
        is_airport(words(ls[m])[0]),
        forall|j: int|
            i <= j < m ==> words(#[trigger] ls[j]).len() == 0 || !is_airport(words(ls[j])[0]),
    ensures
        ({
            let ws = words(ls[m]);
            routing_from(ls, i, end) == (
                Some(ws[0]),
                if is_airport(ws[ws.len() - 1]) {
                    Some(ws[ws.len() - 1])
                } else {
                    None
                },
            )
        }),
    decreases m - i,
{
    if i < m {
        assert(words(ls[i]).len() == 0 || !is_airport(words(ls[i])[0]));
        if words(ls[i]).len() > 0 {
            airports_are_told(words(ls[i])[0]);
        }
        lemma_routing_from(ls, i + 1, m, end);
    } else {
        airports_are_told(words(ls[m])[0]);
        airports_are_told(words(ls[m])[words(ls[m]).len() - 1]);
    }
}

/// Departure and arrival are the first and the last word of the first of the eight
/// lines after "ROUTING:" that starts with an airport and a runway; a last word
/// that is none is no arrival.
pub proof fn routing_names_both_ends(ls: Seq<Seq<char>>, k: int, m: int)
    requires
        first_reading(ls, "ROUTING:"@, k),
        k < m <= k + 8,
        m < ls.len(),
        words(ls[m]).len() > 0,
        is_airport(words(ls[m])[0]),
        forall|j: int|
            k < j < m ==> words(#[trigger] ls[j]).len() == 0 || !is_airport(words(ls[j])[0]),
    ensures
        ({
            let (ws, (departure, arrival)) = (words(ls[m]), routing(ls));
            &&& departure == Some(ws[0])
            &&& is_airport(ws[ws.len() - 1]) ==> arrival == Some(ws[ws.len() - 1])
            &&& !is_airport(ws[ws.len() - 1]) ==> arrival is None
        }),
{
    lemma_first_reading(ls, "ROUTING:"@, k);
    lemma_routing_from(ls, k + 1, m, k + 9);
}

/// Whether line `m` is the planned row of the report that starts at line `k`: the
/// first of the four lines after the first that starts with "APT", at `h`, that
/// starts with a word of four capitals.
pub open spec fn is_planned_row(ls: Seq<Seq<char>>, k: int, h: int, m: int) -> bool {
    &&& 0 <= k <= h < m <= h + 4 && m < ls.len()
    &&& starts_with(trim_start(ls[h]), "APT"@)
    &&& forall|j: int| k <= j < h ==> !starts_with(trim_start(#[trigger] ls[j]), "APT"@)
    &&& words(ls[m]).len() > 0 && words(ls[m])[0].len() == 4 && capitals(words(ls[m])[0])
    &&& forall|j: int|
        h < j < m ==> words(#[trigger] ls[j]).len() == 0 || words(ls[j])[0].len() != 4 || !capitals(
            words(ls[j])[0],
        )
}

proof fn lemma_capitals(s: Seq<char>)
    ensures
        capitals(s) <==> is_upper_text(s),
{
    if capitals(s) {
        assert forall|i: int| 0 <= i < s.len() implies is_upper(#[trigger] s[i]) by {
            assert('A' <= s[i] && s[i] <= 'Z');
        }
    }
    if is_upper_text(s) {
        assert forall|i: int| 0 <= i < s.len() implies 'A' <= #[trigger] s[i] && s[i] <= 'Z' by {
            assert(is_upper(s[i]));
        }
    }
}

proof fn lemma_header(ls: Seq<Seq<char>>, i: int, h: int)
    requires
        0 <= i <= h < ls.len(),
        starts_with(trim_start(ls[h]), "APT"@),
        forall|j: int| i <= j < h ==> !starts_with(trim_start(#[trigger] ls[j]), "APT"@),
    ensures
        header_from(ls, i) == Some(h),
    decreases h - i,
{
    if i < h {
        assert(!starts_with(trim_start(ls[i]), "APT"@));
        lemma_header(ls, i + 1, h);
    }
}

proof fn lemma_row(ls: Seq<Seq<char>>, i: int, m: int, end: int)
    requires
        0 <= i <= m < end,
        m < ls.len(),
        words(ls[m]).len() > 0 && words(ls[m])[0].len() == 4 && capitals(words(ls[m])[0]),
        forall|j: int|
            i <= j < m ==> words(#[trigger] ls[j]).len() == 0 || words(ls[j])[0].len() != 4
                || !capitals(words(ls[j])[0]),
    ensures
        airport_row(ls, i, end) == Some(words(ls[m])),
    decreases m - i,
{
    lemma_capitals(words(ls[i])[0]);
    if i < m {
        assert(words(ls[i]).len() == 0 || words(ls[i])[0].len() != 4 || !capitals(words(ls[i])[0]));
        lemma_row(ls, i + 1, m, end);
    }
}

proof fn lemma_planned(ls: Seq<Seq<char>>, k: int, h: int, m: int)
    requires
        is_planned_row(ls, k, h, m),
    ensures
        planned(ls, k) == Some(words(ls[m])),
{
    lemma_header(ls, k, h);
    lemma_row(ls, h + 1, m, h + 5);
}

/// A speed is taken for V2 or VREF from 80 knots to below 250.
pub proof fn reference_speeds_are_bounded(s: Seq<char>)
    ensures
        match reading(s) {
            Some(v) => reference_speed(s) == (if 80_000_000 <= v < 250_000_000 {
                Some(v)
            } else {
                None
            }),
            None => reference_speed(s) is None,
        },
{
}

proof fn lemma_runway(ls: Seq<Seq<char>>, runway: Seq<char>, i: int, r: int)
    requires
        0 <= i <= r < ls.len(),
        words(ls[r]).len() >= 3,
        words(ls[r])[0] == runway,
        forall|j: int| i <= j <= r ==> !starts_with(#[trigger] ls[j], "----"@),
        forall|j: int|
            i <= j < r ==> words(#[trigger] ls[j]).len() < 3 || words(ls[j])[0] != runway,
    ensures
        runway_speed(ls, runway, i) == reference_speed(words(ls[r])[words(ls[r]).len() - 2]),
    decreases r - i,
{
    assert(!starts_with(ls[i], "----"@));
    if i < r {
        assert(words(ls[i]).len() < 3 || words(ls[i])[0] != runway);
        lemma_runway(ls, runway, i + 1, r);
    }
}

/// V2 is the last number but one of the row of the planned runway in the table for
/// a dry runway in calm wind; the planned runway is the second word of the planned
/// row of the take-off data.
pub proof fn v2_is_that_of_the_planned_runway(
    ls: Seq<Seq<char>>,
    k: int,
    h: int,
    m: int,
    t: int,
    r: int,
)
    requires
        first_with(ls, "/// TAKEOFF DATA ///"@, k),
        is_planned_row(ls, k, h, m),
        words(ls[m]).len() > 1,
        first_with(ls, "DRY RWY - PTOW - CALM WIND"@, t),
        t < r < ls.len(),
        words(ls[r]).len() >= 3,
        words(ls[r])[0] == words(ls[m])[1],
        forall|j: int| t < j <= r ==> !starts_with(#[trigger] ls[j], "----"@),
        forall|j: int|
            t < j < r ==> words(#[trigger] ls[j]).len() < 3 || words(ls[j])[0] != words(ls[m])[1],
    ensures
        takeoff_speed(ls) == reference_speed(words(ls[r])[words(ls[r]).len() - 2]),
{
    lemma_first_with(ls, "/// TAKEOFF DATA ///"@, k);
    lemma_first_with(ls, "DRY RWY - PTOW - CALM WIND"@, t);
    lemma_planned(ls, k, h, m);
    lemma_runway(ls, words(ls[m])[1], t + 1, r);
}

/// Between two rows of a table in ascending order a value is in proportion to its
/// argument; before the first and past the last it is theirs.
pub proof fn interpolation_is_in_proportion(rows: Seq<TableRow>, x: int, i: int)
    requires
        forall|j: int, k: int| 0 <= j < k < rows.len() ==> (#[trigger] rows[j]).x < (
        #[trigger] rows[k]).x,
        rows.len() > 0,
    ensures
        x <= rows[0].x ==> interpolated(rows, x) == Some(rows[0].y as int),
        x >= rows[rows.len() - 1].x ==> interpolated(rows, x) == Some(
            rows[rows.len() - 1].y as int,
        ),
        0 <= i < rows.len() - 1 && rows[i].x < x < rows[i + 1].x ==> (interpolated(rows, x) matches Some(
            y,
        ) && in_proportion(
            y,
            rows[i].y as int,
            rows[i + 1].y as int,
            x - rows[i].x,
            rows[i + 1].x - rows[i].x,
        )),
{
    if 0 <= i < rows.len() - 1 && rows[i].x < x < rows[i + 1].x {
        if i > 0 {
            assert(rows[0].x < rows[i].x);
        }
        if i + 1 < rows.len() - 1 {
            assert(rows[i + 1].x < rows[rows.len() - 1].x);
        }
        lemma_between(rows, x, 0, i);
        crate::laws::plan::lemma_part(
            rows[i + 1].y - rows[i].y,
            x - rows[i].x,
            rows[i + 1].x - rows[i].x,
        );
    }
}

proof fn lemma_between(rows: Seq<TableRow>, x: int, j: int, i: int)
    requires
        forall|j: int, k: int| 0 <= j < k < rows.len() ==> (#[trigger] rows[j]).x < (
        #[trigger] rows[k]).x,
        0 <= j <= i < rows.len() - 1,
        rows[i].x < x < rows[i + 1].x,
    ensures
        interpolated_from(rows, x, j) == Some(
            rows[i].y + scaled(
                rows[i + 1].y - rows[i].y,
                x - rows[i].x,
                rows[i + 1].x - rows[i].x,
            ),
        ),
    decreases i - j,
{
    if j < i {
        assert(rows[j + 1].x <= rows[i].x);
        lemma_between(rows, x, j + 1, i);
    }
}

/// A row of the landing table is a line whose first two words are a weight of 1000
/// or more and a reference speed, slashes before them aside.
pub proof fn landing_rows_are_weights_and_speeds(line: Seq<char>, slashes: nat)
    requires
        line.len() == 0 || line[0] != '/',
    ensures
        ({
            let marked = Seq::new(slashes, |i: int| '/') + line;
            let ws = words(line);
            match landing_row(marked) {
                Some(row) => ws.len() >= 2 && reading(ws[0]) == Some(row.x) && row.x
                    >= 1_000_000_000 && reference_speed(ws[1]) == Some(row.y),
                None => ws.len() < 2 || reference_speed(ws[1]) is None || !(reading(
                    ws[0],
                ) matches Some(x) && x >= 1_000_000_000),
            }
        }),
    decreases slashes,
{
    lemma_slashes(line, slashes);
}

proof fn lemma_slashes(line: Seq<char>, slashes: nat)
    requires
        line.len() == 0 || line[0] != '/',
    ensures
        without_slashes(Seq::new(slashes, |i: int| '/') + line) == line,
    decreases slashes,
{
    let marked = Seq::new(slashes, |i: int| '/') + line;
    if slashes > 0 {
        assert(marked[0] == '/');
        assert(marked.drop_first() =~= Seq::new((slashes - 1) as nat, |i: int| '/') + line);
        lemma_slashes(line, (slashes - 1) as nat);
    } else {
        assert(marked =~= line);
    }
}

/// The rows of a table are those of its lines, in order; lines that are none are
/// passed over.
pub proof fn landing_table_is_its_lines(ls: Seq<Seq<char>>, i: int, end: int)
    requires
        0 <= i < end,
        i < ls.len(),
    ensures
        landing_row(ls[i]) is None ==> landing_rows(ls, i, end) == landing_rows(ls, i + 1, end),
        landing_row(ls[i]) matches Some(row) ==> landing_rows(ls, i, end) == seq![row]
            + landing_rows(ls, i + 1, end),
        landing_rows(ls, end, end).len() == 0,
        landing_rows(ls, ls.len() as int, end).len() == 0,
{
}

/// VREF is the speed at the planned landing weight in the twenty lines of the
/// landing table; the weight is the last number but one of the planned row of the
/// landing data.
pub proof fn vref_is_at_the_planned_weight(ls: Seq<Seq<char>>, k: int, h: int, m: int, t: int)
    requires
        first_with(ls, "/// LANDING DATA ///"@, k),
        is_planned_row(ls, k, h, m),
        words(ls[m]).len() >= 2,
        first_with(ls, "LANDING DISTANCE"@, t),
    ensures
        match reading(words(ls[m])[words(ls[m]).len() - 2]) {
            Some(x) => landing_speed(ls) == interpolated(
                landing_rows(ls, t + 1, t + 21),
                x as int,
            ),
            None => landing_speed(ls) is None,
        },
{
    lemma_first_with(ls, "/// LANDING DATA ///"@, k);
    lemma_first_with(ls, "LANDING DISTANCE"@, t);
    lemma_planned(ls, k, h, m);
}

proof fn lemma_none_with(ls: Seq<Seq<char>>, p: Seq<char>)
    requires
        forall|j: int| 0 <= j < ls.len() ==> !contains(#[trigger] ls[j], p),
    ensures
        line_containing(ls, p, 0) is None,
{
    lemma_line_containing(ls, p, 0);
}

/// Without the mark of a flight plan there is no callsign, no aircraft type and no
/// item.
pub proof fn nothing_without_a_flight_plan(ls: Seq<Seq<char>>, key: Seq<char>)
    requires
        forall|j: int| 0 <= j < ls.len() ==> !contains(#[trigger] ls[j], "(FPL-"@),
    ensures
        plan_callsign(ls) is None,
        plan_aircraft_type(ls) is None,
        plan_token(ls, key) is None,
{
    lemma_none_with(ls, "(FPL-"@);
}

/// Neither end of the route is known without "ROUTING:", nor where none of the
/// eight lines after it starts with an airport and a runway.
pub proof fn routing_is_within_eight_lines(ls: Seq<Seq<char>>, k: int)
    ensures
        (forall|j: int| 0 <= j < ls.len() ==> !is_trimmed("ROUTING:"@, #[trigger] ls[j]))
            ==> routing(ls) == (None::<Seq<char>>, None::<Seq<char>>),
        first_reading(ls, "ROUTING:"@, k) && (forall|j: int|
            k < j <= k + 8 && j < ls.len() ==> words(#[trigger] ls[j]).len() == 0 || !is_airport(
                words(ls[j])[0],
            )) ==> routing(ls) == (None::<Seq<char>>, None::<Seq<char>>),
{
    if forall|j: int| 0 <= j < ls.len() ==> !is_trimmed("ROUTING:"@, #[trigger] ls[j]) {
        lemma_line_reading(ls, "ROUTING:"@, 0);
        if let Some(m) = line_reading(ls, "ROUTING:"@, 0) {
            crate::laws::text::trimming_takes_white_ends(ls[m]);
        }
    } else if first_reading(ls, "ROUTING:"@, k) && (forall|j: int|
        k < j <= k + 8 && j < ls.len() ==> words(#[trigger] ls[j]).len() == 0 || !is_airport(
            words(ls[j])[0],
        )) {
        lemma_first_reading(ls, "ROUTING:"@, k);
        lemma_no_routing(ls, k + 1, k + 9);
    }
}

proof fn lemma_no_routing(ls: Seq<Seq<char>>, i: int, end: int)
    requires
        0 <= i,
        forall|j: int|
            i <= j < end && j < ls.len() ==> words(#[trigger] ls[j]).len() == 0 || !is_airport(
                words(ls[j])[0],
            ),
    ensures
        routing_from(ls, i, end) == (None::<Seq<char>>, None::<Seq<char>>),
    decreases end - i,
{
    if i < end && i < ls.len() {
        assert(words(ls[i]).len() == 0 || !is_airport(words(ls[i])[0]));
        if words(ls[i]).len() > 0 {
            airports_are_told(words(ls[i])[0]);
        }
        lemma_no_routing(ls, i + 1, end);
    }
}

/// Whether the report that starts at line `k` has no planned row: no line from it
/// on starts with "APT", or none of the four after the first that does, at `h`,
/// starts with a word of four capitals.
pub open spec fn has_no_planned_row(ls: Seq<Seq<char>>, k: int, h: int) -> bool {
    ||| forall|j: int| k <= j < ls.len() ==> !starts_with(trim_start(#[trigger] ls[j]), "APT"@)
    ||| {
        &&& 0 <= k <= h < ls.len()
        &&& starts_with(trim_start(ls[h]), "APT"@)
        &&& forall|j: int| k <= j < h ==> !starts_with(trim_start(#[trigger] ls[j]), "APT"@)
        &&& forall|j: int|
            h < j <= h + 4 && j < ls.len() ==> words(#[trigger] ls[j]).len() == 0 || words(
                ls[j],
            )[0].len() != 4 || !capitals(words(ls[j])[0])
    }
}

proof fn lemma_no_header(ls: Seq<Seq<char>>, i: int)
    requires
        0 <= i,
        forall|j: int| i <= j < ls.len() ==> !starts_with(trim_start(#[trigger] ls[j]), "APT"@),
    ensures
        header_from(ls, i) is None,
    decreases ls.len() - i,
{
    if i < ls.len() {
        assert(!starts_with(trim_start(ls[i]), "APT"@));
        lemma_no_header(ls, i + 1);
    }
}

proof fn lemma_no_row(ls: Seq<Seq<char>>, i: int, end: int)
    requires
        0 <= i,
        forall|j: int|
            i <= j < end && j < ls.len() ==> words(#[trigger] ls[j]).len() == 0 || words(
                ls[j],
            )[0].len() != 4 || !capitals(words(ls[j])[0]),
    ensures
        airport_row(ls, i, end) is None,
    decreases end - i,
{
    if i < end && i < ls.len() {
        assert(words(ls[i]).len() == 0 || words(ls[i])[0].len() != 4 || !capitals(words(ls[i])[0]));
        lemma_capitals(words(ls[i])[0]);
        lemma_no_row(ls, i + 1, end);
    }
}

proof fn lemma_no_planned(ls: Seq<Seq<char>>, k: int, h: int)
    requires
        0 <= k,
        has_no_planned_row(ls, k, h),
    ensures
        planned(ls, k) is None,
{
    if forall|j: int| k <= j < ls.len() ==> !starts_with(trim_start(#[trigger] ls[j]), "APT"@) {
        lemma_no_header(ls, k);
    } else {
        lemma_header(ls, k, h);
        lemma_no_row(ls, h + 1, h + 5);
    }
}

/// There is no V2 without the take-off data, its planned row or the table for a dry
/// runway, and no VREF without the landing data, its planned row or the landing
/// table.
pub proof fn no_speeds_without_their_data(ls: Seq<Seq<char>>, k: int, h: int)
    ensures
        (forall|j: int| 0 <= j < ls.len() ==> !contains(#[trigger] ls[j], "/// TAKEOFF DATA ///"@))
            ==> takeoff_speed(ls) is None,
        (forall|j: int|
            0 <= j < ls.len() ==> !contains(#[trigger] ls[j], "DRY RWY - PTOW - CALM WIND"@))
            ==> takeoff_speed(ls) is None,
        first_with(ls, "/// TAKEOFF DATA ///"@, k) && has_no_planned_row(ls, k, h)
            ==> takeoff_speed(ls) is None,
        (forall|j: int| 0 <= j < ls.len() ==> !contains(#[trigger] ls[j], "/// LANDING DATA ///"@))
            ==> landing_speed(ls) is None,
        (forall|j: int| 0 <= j < ls.len() ==> !contains(#[trigger] ls[j], "LANDING DISTANCE"@))
            ==> landing_speed(ls) is None,
        first_with(ls, "/// LANDING DATA ///"@, k) && has_no_planned_row(ls, k, h)
            ==> landing_speed(ls) is None,
{
    lemma_line_containing(ls, "/// TAKEOFF DATA ///"@, 0);
    lemma_line_containing(ls, "DRY RWY - PTOW - CALM WIND"@, 0);
    lemma_line_containing(ls, "/// LANDING DATA ///"@, 0);
    lemma_line_containing(ls, "LANDING DISTANCE"@, 0);
    if has_no_planned_row(ls, k, h) && 0 <= k {
        lemma_no_planned(ls, k, h);
    }
    if first_with(ls, "/// TAKEOFF DATA ///"@, k) {
        lemma_first_with(ls, "/// TAKEOFF DATA ///"@, k);
    }
    if first_with(ls, "/// LANDING DATA ///"@, k) {
        lemma_first_with(ls, "/// LANDING DATA ///"@, k);
    }
}

/// There is no V2 where the planned runway has no row of three words or more in the
/// table before the dashes that end it, at `end`.
pub proof fn v2_is_within_its_table(ls: Seq<Seq<char>>, k: int, h: int, m: int, t: int, end: int)
    requires
        first_with(ls, "/// TAKEOFF DATA ///"@, k),
        is_planned_row(ls, k, h, m),
        words(ls[m]).len() > 1,
        first_with(ls, "DRY RWY - PTOW - CALM WIND"@, t),
        t < end <= ls.len(),
        end < ls.len() ==> starts_with(ls[end], "----"@),
        forall|j: int|
            t < j < end ==> words(#[trigger] ls[j]).len() < 3 || words(ls[j])[0] != words(ls[m])[1],
    ensures
        takeoff_speed(ls) is None,
{
    lemma_first_with(ls, "/// TAKEOFF DATA ///"@, k);
    lemma_first_with(ls, "DRY RWY - PTOW - CALM WIND"@, t);
    lemma_planned(ls, k, h, m);
    lemma_no_runway(ls, words(ls[m])[1], t + 1, end);
}

proof fn lemma_no_runway(ls: Seq<Seq<char>>, runway: Seq<char>, i: int, end: int)
    requires
        0 <= i <= end <= ls.len(),
        end < ls.len() ==> starts_with(ls[end], "----"@),
        forall|j: int|
            i <= j < end ==> words(#[trigger] ls[j]).len() < 3 || words(ls[j])[0] != runway,
    ensures
        runway_speed(ls, runway, i) is None,
    decreases end - i,
{
    if i < end {
        assert(words(ls[i]).len() < 3 || words(ls[i])[0] != runway);
        lemma_no_runway(ls, runway, i + 1, end);
    }
}

} // verus!
