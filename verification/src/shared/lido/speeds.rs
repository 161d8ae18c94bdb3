//! The runway analysis: V2 of the planned take-off, VREF of the planned landing.

use super::flight_plan::is_upper_text;
use super::search::{find_containing, line_containing};
use crate::number::{is_reading, lemma_scaled, parse_reading, reading, scale, scaled, READING_LIMIT};
use crate::text::{
    all_upper, begins, chars_of, same_chars, starts_with, texts, trim_start, trimmed_start, words,
    words_of,
};
use vstd::prelude::*;
use vstd::slice::slice_subrange;

verus! {

/// Slowest V2 or VREF that is taken for one.
pub const MIN_REFERENCE_SPEED: i64 = 80_000_000;

/// V2 and VREF are below this.
pub const MAX_REFERENCE_SPEED: i64 = 250_000_000;

/// Lightest landing weight of a row of the landing distance table.
pub const MIN_LANDING_WEIGHT: i64 = 1_000_000_000;

pub open spec fn is_reference_speed(v: i64) -> bool {
    MIN_REFERENCE_SPEED <= v < MAX_REFERENCE_SPEED
}

/// Index of the first line from `i` on that starts with "APT", blanks aside.
pub open spec fn header_from(ls: Seq<Seq<char>>, i: int) -> Option<int>
    decreases ls.len() - i,
{
    if i < 0 || i >= ls.len() {
        None
    } else if starts_with(trim_start(ls[i]), "APT"@) {
        Some(i)
    } else {
        header_from(ls, i + 1)
    }
}

/// The words of the first line from `i` to `end` that starts with a
/// four-letter airport code.
pub open spec fn airport_row(ls: Seq<Seq<char>>, i: int, end: int) -> Option<Seq<Seq<char>>>
    decreases end - i,
{
    if i < 0 || i >= end || i >= ls.len() {
        None
    } else {
        let ws = words(ls[i]);
        if ws.len() > 0 && ws[0].len() == 4 && is_upper_text(ws[0]) {
            Some(ws)
        } else {
            airport_row(ls, i + 1, end)
        }
    }
}

/// The planned-data row of the report that starts at line `from`: among the four
/// lines after its "APT  PRWY ..." header.
pub open spec fn planned(ls: Seq<Seq<char>>, from: int) -> Option<Seq<Seq<char>>> {
    match header_from(ls, from) {
        Some(h) => airport_row(ls, h + 1, h + 5),
        None => None,
    }
}

/// A reference speed in text.
pub open spec fn reference_speed(s: Seq<char>) -> Option<i64> {
    match reading(s) {
        Some(v) if is_reference_speed(v) => Some(v),
        _ => None,
    }
}

/// The last word but one of the first line from `i` on that starts with the
/// runway and has three words or more, no further than a line of dashes.
pub open spec fn runway_speed(ls: Seq<Seq<char>>, runway: Seq<char>, i: int) -> Option<i64>
    decreases ls.len() - i,
{
    if i < 0 || i >= ls.len() || starts_with(ls[i], "----"@) {
        None
    } else {
        let ws = words(ls[i]);
        if ws.len() >= 3 && ws[0] == runway {
            reference_speed(ws[ws.len() - 2])
        } else {
            runway_speed(ls, runway, i + 1)
        }
    }
}

/// V2 for the planned take-off runway: the runway is the second word of the
/// planned row, the speed stands in the table for a dry runway in calm wind.
pub open spec fn takeoff_speed(ls: Seq<Seq<char>>) -> Option<i64> {
    match line_containing(ls, "/// TAKEOFF DATA ///"@, 0) {
        Some(k) => match planned(ls, k) {
            Some(row) if row.len() > 1 => match line_containing(
                ls,
                "DRY RWY - PTOW - CALM WIND"@,
                0,
            ) {
                Some(t) => runway_speed(ls, row[1], t + 1),
                None => None,
            },
            _ => None,
        },
        None => None,
    }
}

/// A row of a table with one argument.
#[derive(Debug, Clone, Copy, PartialEq, Eq, Structural)]
pub struct TableRow {
    pub x: i64,
    pub y: i64,
}

pub open spec fn without_slashes(s: Seq<char>) -> Seq<char>
    decreases s.len(),
{
    if s.len() > 0 && s[0] == '/' {
        without_slashes(s.drop_first())
    } else {
        s
    }
}

/// Landing weight and VREF on a line of the landing distance table. The row of
/// the planned weight is marked with a slash before it.
pub open spec fn landing_row(line: Seq<char>) -> Option<TableRow> {
    let ws = words(without_slashes(line));
    if ws.len() < 2 {
        None
    } else {
        match (reading(ws[0]), reference_speed(ws[1])) {
            (Some(x), Some(y)) if x >= MIN_LANDING_WEIGHT => Some(TableRow { x, y }),
            _ => None,
        }
    }
}

/// The rows on the lines from `i` to `end`.
pub open spec fn landing_rows(ls: Seq<Seq<char>>, i: int, end: int) -> Seq<TableRow>
    decreases end - i,
{
    if i < 0 || i >= end || i >= ls.len() {
        Seq::empty()
    } else {
        match landing_row(ls[i]) {
            Some(row) => seq![row] + landing_rows(ls, i + 1, end),
            None => landing_rows(ls, i + 1, end),
        }
    }
}

/// Whether `x` lies between row `i` and the next.
pub open spec fn brackets(rows: Seq<TableRow>, x: int, i: int) -> bool {
    rows[i].x <= x <= rows[i + 1].x && rows[i].x < rows[i + 1].x
}

/// Linear interpolation between the first two neighbouring rows from `i` on that
/// `x` lies between.
pub open spec fn interpolated_from(rows: Seq<TableRow>, x: int, i: int) -> Option<int>
    decreases rows.len() - i,
{
    if i < 0 || i + 1 >= rows.len() {
        None
    } else if brackets(rows, x, i) {
        Some(
            rows[i].y + scaled(
                rows[i + 1].y - rows[i].y,
                x - rows[i].x,
                rows[i + 1].x - rows[i].x,
            ),
        )
    } else {
        interpolated_from(rows, x, i + 1)
    }
}

/// Linear interpolation in a table, held at the values of its ends.
pub open spec fn interpolated(rows: Seq<TableRow>, x: int) -> Option<int> {
    if rows.len() == 0 {
        None
    } else if x <= rows[0].x {
        Some(rows[0].y as int)
    } else if x >= rows.last().x {
        Some(rows.last().y as int)
    } else {
        interpolated_from(rows, x, 0)
    }
}

/// The planned landing weight: the last word but one of the planned row.
pub open spec fn landing_weight(ls: Seq<Seq<char>>) -> Option<i64> {
    match line_containing(ls, "/// LANDING DATA ///"@, 0) {
        Some(k) => match planned(ls, k) {
            Some(row) if row.len() >= 2 => reading(row[row.len() - 2]),
            _ => None,
        },
        None => None,
    }
}

/// VREF at the planned landing weight, from the twenty lines after the one with
/// "LANDING DISTANCE".
pub open spec fn landing_speed(ls: Seq<Seq<char>>) -> Option<int> {
    match (landing_weight(ls), line_containing(ls, "LANDING DISTANCE"@, 0)) {
        (Some(x), Some(t)) => interpolated(landing_rows(ls, t + 1, t + 21), x as int),
        _ => None,
    }
}

/// In a table with rows there is a value for every argument, and it is none
/// outside the values of the rows.
pub proof fn interpolation_is_total(rows: Seq<TableRow>, x: int, low: int, high: int)
    requires
        rows.len() > 0,
        forall|i: int| 0 <= i < rows.len() ==> low <= (#[trigger] rows[i]).y <= high,
    ensures
        interpolated(rows, x) matches Some(y) && low <= y <= high,
{
    if rows[0].x < x < rows.last().x {
        lemma_bracketed(rows, x, 0, low, high);
    }
}

proof fn lemma_bracketed(rows: Seq<TableRow>, x: int, i: int, low: int, high: int)
    requires
        0 <= i < rows.len(),
        rows[i].x <= x < rows.last().x,
        forall|k: int| 0 <= k < rows.len() ==> low <= (#[trigger] rows[k]).y <= high,
    ensures
        interpolated_from(rows, x, i) matches Some(y) && low <= y <= high,
    decreases rows.len() - i,
{
    assert(i + 1 < rows.len());
    if brackets(rows, x, i) {
        lemma_scaled(
            rows[i + 1].y - rows[i].y,
            x - rows[i].x,
            rows[i + 1].x - rows[i].x,
        );
    } else {
        lemma_bracketed(rows, x, i + 1, low, high);
    }
}

/// At the argument of a row of a table in ascending order stands its value.
pub proof fn interpolation_meets_rows(rows: Seq<TableRow>, k: int)
    requires
        0 <= k < rows.len(),
        forall|i: int, j: int| 0 <= i < j < rows.len() ==> (#[trigger] rows[i]).x < (
        #[trigger] rows[j]).x,
    ensures
        interpolated(rows, rows[k].x as int) == Some(rows[k].y as int),
{
    if 0 < k < rows.len() - 1 {
        lemma_meets(rows, k, 0);
    }
}

proof fn lemma_meets(rows: Seq<TableRow>, k: int, i: int)
    requires
        0 <= i < k < rows.len(),
        forall|i: int, j: int| 0 <= i < j < rows.len() ==> (#[trigger] rows[i]).x < (
        #[trigger] rows[j]).x,
    ensures
        interpolated_from(rows, rows[k].x as int, i) == Some(rows[k].y as int),
    decreases k - i,
{
    if i + 1 < k {
        assert(rows[i + 1].x < rows[k].x);
        lemma_meets(rows, k, i + 1);
    } else {
        let d = rows[k].x - rows[i].x;
        lemma_scaled(rows[k].y - rows[i].y, d, d);
    }
}

/// The planned-data row of a take-off or landing report.
fn planned_row(ls: &Vec<Vec<char>>, from: usize) -> (r: Option<Vec<Vec<char>>>)
    requires
        from < ls@.len(),
    ensures
        match r {
            Some(ws) => planned(texts(ls@), from as int) == Some(texts(ws@)),
            None => planned(texts(ls@), from as int) is None,
        },
{
    let ghost g = texts(ls@);
    let mark = chars_of("APT");
    let mut h: usize = from;
    while h < ls.len() && !begins(trimmed_start(ls[h].as_slice()), mark.as_slice())
        invariant
            g == texts(ls@),
            mark@ == "APT"@,
            from <= h <= ls@.len(),
            header_from(g, h as int) == header_from(g, from as int),
        decreases ls@.len() - h,
    {
        h += 1;
    }
    if h >= ls.len() {
        return None;
    }
    let mut i: usize = h + 1;
    while i < ls.len() && i - h < 5
        invariant
            g == texts(ls@),
            h < i <= ls@.len(),
            i - h <= 5,
            header_from(g, from as int) == Some(h as int),
            airport_row(g, i as int, h + 5) == airport_row(g, h + 1, h + 5),
        decreases ls@.len() - i,
    {
        let ws = words_of(ls[i].as_slice());
        if ws.len() > 0 {
            proof {
                assert(texts(ws@)[0] == ws@[0]@);
            }
            let first: &[char] = ws[0].as_slice();
            if first.len() == 4 && all_upper(first) {
                return Some(ws);
            }
        }
        i += 1;
    }
    None
}

/// The planned runway of a take-off or landing report: second word of its row.
fn planned_runway(ls: &Vec<Vec<char>>, from: usize) -> (r: Option<Vec<char>>)
    requires
        from < ls@.len(),
    ensures
        match (r, planned(texts(ls@), from as int)) {
            (Some(w), Some(row)) => row.len() > 1 && row[1] == w@,
            (None, Some(row)) => row.len() <= 1,
            (Some(_), None) => false,
            (None, None) => true,
        },
{
    match planned_row(ls, from) {
        Some(ws) => {
            if ws.len() > 1 {
                let mut ws = ws;
                Some(ws.swap_remove(1))
            } else {
                None
            }
        },
        None => None,
    }
}

fn parse_reference_speed(s: &[char]) -> (r: Option<i64>)
    ensures
        r == reference_speed(s@),
{
    match parse_reading(s) {
        Some(v) => {
            if MIN_REFERENCE_SPEED <= v && v < MAX_REFERENCE_SPEED {
                Some(v)
            } else {
                None
            }
        },
        None => None,
    }
}

/// V2 for the planned take-off runway.
///
/// The planned row prints truncated speeds, so the runway is read there and the
/// speed from the table "DRY RWY - PTOW - CALM WIND", whose rows end in
/// "... FLP V1 VR V2 LIMIT".
pub fn parse_v2(ls: &Vec<Vec<char>>) -> (r: Option<i64>)
    ensures
        r == takeoff_speed(texts(ls@)),
        r matches Some(v) ==> is_reference_speed(v),
{
    let ghost g = texts(ls@);
    let report = match find_containing(ls, chars_of("/// TAKEOFF DATA ///").as_slice()) {
        Some(k) => k,
        None => {
            return None;
        },
    };
    let runway = match planned_runway(ls, report) {
        Some(w) => w,
        None => {
            return None;
        },
    };
    let table = match find_containing(ls, chars_of("DRY RWY - PTOW - CALM WIND").as_slice()) {
        Some(t) => t,
        None => {
            return None;
        },
    };
    let dashes = chars_of("----");
    assert(table < ls.len());
    let mut i: usize = table + 1;
    while i < ls.len()
        invariant
            g == texts(ls@),
            dashes@ == "----"@,
            table < i <= ls@.len(),
            takeoff_speed(g) == runway_speed(g, runway@, i as int),
        decreases ls@.len() - i,
    {
        let line: &[char] = ls[i].as_slice();
        if begins(line, dashes.as_slice()) {
            return None;
        }
        let ws = words_of(line);
        if ws.len() >= 3 {
            proof {
                assert(texts(ws@)[0] == ws@[0]@);
                assert(texts(ws@)[ws@.len() - 2] == ws@[ws@.len() - 2]@);
            }
            if same_chars(ws[0].as_slice(), runway.as_slice()) {
                return parse_reference_speed(ws[ws.len() - 2].as_slice());
            }
        }
        i += 1;
    }
    None
}

fn trimmed_slashes(s: &[char]) -> (r: &[char])
    ensures
        r@ == without_slashes(s@),
{
    let mut i: usize = 0;
    proof {
        assert(s@.skip(0) =~= s@);
    }
    while i < s.len() && s[i] == '/'
        invariant
            i <= s@.len(),
            without_slashes(s@.skip(i as int)) == without_slashes(s@),
        decreases s@.len() - i,
    {
        proof {
            assert(s@.skip(i as int).drop_first() =~= s@.skip(i + 1));
            assert(s@.skip(i as int)[0] == s@[i as int]);
        }
        i += 1;
    }
    proof {
        if i < s@.len() {
            assert(s@.skip(i as int)[0] == s@[i as int]);
        }
        assert(s@.subrange(i as int, s@.len() as int) =~= s@.skip(i as int));
    }
    slice_subrange(s, i, s.len())
}

fn parse_landing_row(line: &[char]) -> (r: Option<TableRow>)
    ensures
        r == landing_row(line@),
        r matches Some(row) ==> is_reading(row.x as int) && is_reference_speed(row.y),
{
    let ws = words_of(trimmed_slashes(line));
    if ws.len() < 2 {
        return None;
    }
    proof {
        assert(texts(ws@)[0] == ws@[0]@);
        assert(texts(ws@)[1] == ws@[1]@);
    }
    match (parse_reading(ws[0].as_slice()), parse_reference_speed(ws[1].as_slice())) {
        (Some(x), Some(y)) => {
            if x >= MIN_LANDING_WEIGHT {
                Some(TableRow { x, y })
            } else {
                None
            }
        },
        _ => None,
    }
}

fn parse_landing_rows(ls: &Vec<Vec<char>>, start: usize) -> (r: Vec<TableRow>)
    requires
        start <= ls@.len(),
    ensures
        r@ == landing_rows(texts(ls@), start as int, start + 20),
        forall|k: int|
            0 <= k < r@.len() ==> is_reading((#[trigger] r@[k]).x as int) && is_reference_speed(
                r@[k].y,
            ),
{
    let ghost g = texts(ls@);
    let mut rows: Vec<TableRow> = Vec::new();
    let mut i: usize = start;
    proof {
        assert(rows@ + landing_rows(g, start as int, start + 20) =~= landing_rows(
            g,
            start as int,
            start + 20,
        ));
    }
    while i < ls.len() && i - start < 20
        invariant
            g == texts(ls@),
            start <= i <= ls@.len(),
            i - start <= 20,
            rows@ + landing_rows(g, i as int, start + 20) == landing_rows(
                g,
                start as int,
                start + 20,
            ),
            forall|k: int|
                0 <= k < rows@.len() ==> is_reading((#[trigger] rows@[k]).x as int)
                    && is_reference_speed(rows@[k].y),
        decreases ls@.len() - i,
    {
        match parse_landing_row(ls[i].as_slice()) {
            Some(row) => {
                proof {
                    assert(rows@ + (seq![row] + landing_rows(g, i + 1, start + 20)) =~= rows@.push(
                        row,
                    ) + landing_rows(g, i + 1, start + 20));
                }
                rows.push(row);
            },
            None => {},
        }
        i += 1;
    }
    proof {
        assert(rows@ + landing_rows(g, i as int, start + 20) =~= rows@);
    }
    rows
}

/// Linear interpolation in a table, held at the values of its ends.
pub fn interpolate_table(rows: &Vec<TableRow>, x: i64) -> (r: Option<i64>)
    requires
        is_reading(x as int),
        forall|k: int|
            0 <= k < rows@.len() ==> is_reading((#[trigger] rows@[k]).x as int) && is_reading(
                rows@[k].y as int,
            ),
    ensures
        match r {
            Some(y) => interpolated(rows@, x as int) == Some(y as int),
            None => interpolated(rows@, x as int) is None,
        },
        r is None <==> rows@.len() == 0,
{
    if rows.len() == 0 {
        return None;
    }
    proof {
        interpolation_is_total(rows@, x as int, -READING_LIMIT as int, READING_LIMIT as int);
    }
    if x <= rows[0].x {
        return Some(rows[0].y);
    }
    if x >= rows[rows.len() - 1].x {
        return Some(rows[rows.len() - 1].y);
    }
    let mut i: usize = 0;
    while i < rows.len() - 1
        invariant
            0 < rows@.len(),
            i < rows@.len(),
            is_reading(x as int),
            forall|k: int|
                0 <= k < rows@.len() ==> is_reading((#[trigger] rows@[k]).x as int) && is_reading(
                    rows@[k].y as int,
                ),
            interpolated(rows@, x as int) == interpolated_from(rows@, x as int, i as int),
        decreases rows@.len() - i,
    {
        let a: TableRow = rows[i];
        let b: TableRow = rows[i + 1];
        if a.x <= x && x <= b.x && a.x < b.x {
            return Some(a.y + scale(b.y - a.y, (x - a.x) as u64, (b.x - a.x) as u64));
        }
        i += 1;
    }
    None
}

/// VREF interpolated at the planned landing weight.
///
/// The weight comes from the planned row of "/// LANDING DATA ///"; the table
/// "LANDING DISTANCE" gives weights and speeds to interpolate in.
pub fn parse_vref(ls: &Vec<Vec<char>>) -> (r: Option<i64>)
    ensures
        match r {
            Some(v) => landing_speed(texts(ls@)) == Some(v as int),
            None => landing_speed(texts(ls@)) is None,
        },
        r matches Some(v) ==> is_reference_speed(v),
{
    let ghost g = texts(ls@);
    let report = match find_containing(ls, chars_of("/// LANDING DATA ///").as_slice()) {
        Some(k) => k,
        None => {
            return None;
        },
    };
    let weight = match planned_row(ls, report) {
        Some(ws) => {
            if ws.len() < 2 {
                return None;
            }
            proof {
                assert(texts(ws@)[ws@.len() - 2] == ws@[ws@.len() - 2]@);
            }
            match parse_reading(ws[ws.len() - 2].as_slice()) {
                Some(x) => x,
                None => {
                    return None;
                },
            }
        },
        None => {
            return None;
        },
    };
    let table = match find_containing(ls, chars_of("LANDING DISTANCE").as_slice()) {
        Some(t) => t,
        None => {
            return None;
        },
    };
    assert(table < ls.len());
    let rows = parse_landing_rows(ls, table + 1);
    proof {
        if rows@.len() > 0 {
            interpolation_is_total(
                rows@,
                weight as int,
                MIN_REFERENCE_SPEED as int,
                MAX_REFERENCE_SPEED - 1,
            );
        }
    }
    interpolate_table(&rows, weight)
}

} // verus!
