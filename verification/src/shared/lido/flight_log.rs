//! The FLIGHT LOG section: the waypoints of the route.

use super::column::{
    column, field, latitude, longitude, minutes_of, parse_hhmm, parse_lat, parse_lon,
    parse_wind_comp, wind_component,
};
use super::{waypoint_views, LidoError, Waypoint, WaypointView};
use crate::number::{
    fixed_point, is_reading, narrowed, parse_fixed, parse_reading, reading, NANO, READING_LIMIT,
};
use crate::text::{chars_of, lines, lines_of, string_of, texts};
use vstd::prelude::*;
use vstd::slice::slice_to_vec;

verus! {

/// The latitude on a line of the flight log.
pub open spec fn latitude_on(line: Seq<char>) -> Option<i64> {
    match column(line, 12, 19) {
        Some(s) => latitude(s),
        None => None,
    }
}

/// The longitude on a line of the flight log.
pub open spec fn longitude_on(line: Seq<char>) -> Option<i64> {
    match column(line, 11, 19) {
        Some(s) => longitude(s),
        None => None,
    }
}

/// Whether a waypoint block has its LAT line at `i` and its LONG line after it.
pub open spec fn block_at(ls: Seq<Seq<char>>, i: int) -> bool {
    0 <= i && i + 1 < ls.len() && latitude_on(ls[i]) is Some && longitude_on(ls[i + 1]) is Some
}

/// The ident of a block: that of the LONG line, else the position name on the
/// LAT line (T O C, T O D).
pub open spec fn block_ident(lat_line: Seq<char>, lon_line: Seq<char>) -> Seq<char> {
    match (column(lon_line, 0, 11), column(lat_line, 0, 12)) {
        (Some(s), _) => s,
        (None, Some(s)) => s,
        (None, None) => "?"@,
    }
}

/// The reading in a column of a line.
pub open spec fn reading_on(line: Seq<char>, start: int, end: int) -> Option<i64> {
    match column(line, start, end) {
        Some(s) => reading(s),
        None => None,
    }
}

/// The altitude on the line before a block: flight levels are hundreds of feet.
pub open spec fn altitude_on(line: Seq<char>) -> Option<i64> {
    match column(line, 29, 33) {
        Some(s) => narrowed(fixed_point(s, 8, READING_LIMIT as int)),
        None => None,
    }
}

pub open spec fn wind_component_on(line: Seq<char>) -> Option<i64> {
    match column(line, 47, 52) {
        Some(s) => wind_component(s),
        None => None,
    }
}

pub open spec fn minutes_on(line: Seq<char>) -> Option<u32> {
    match column(line, 20, 24) {
        Some(s) => minutes_of(s),
        None => None,
    }
}

/// The waypoint of the block at `i`.
pub open spec fn block_waypoint(ls: Seq<Seq<char>>, i: int) -> WaypointView {
    let above = if i > 0 { ls[i - 1] } else { Seq::empty() };
    WaypointView {
        ident: block_ident(ls[i], ls[i + 1]),
        lat: latitude_on(ls[i])->0,
        lon: longitude_on(ls[i + 1])->0,
        altitude_ft: altitude_on(above),
        tas_kts: reading_on(ls[i], 38, 43),
        gs_kts: reading_on(ls[i + 1], 38, 43),
        wind_comp_kts: wind_component_on(ls[i]),
        cum_time_min: minutes_on(ls[i + 1]),
    }
}

/// Whether an ident is that of a FIR or UIR boundary ("-LFMM"). Such rows are
/// airspace annotations with unreliable coordinates, not fixes of the route.
pub open spec fn is_boundary_ident(s: Seq<char>) -> bool {
    s.len() > 0 && s[0] == '-'
}

/// The waypoints of the blocks from line `i` on, boundary rows left out. The two
/// lines of a block belong to no other.
pub open spec fn waypoints_from(ls: Seq<Seq<char>>, i: int) -> Seq<WaypointView>
    decreases ls.len() - i,
{
    if i < 0 || i >= ls.len() {
        Seq::empty()
    } else if !block_at(ls, i) {
        waypoints_from(ls, i + 1)
    } else if is_boundary_ident(block_waypoint(ls, i).ident) {
        waypoints_from(ls, i + 2)
    } else {
        seq![block_waypoint(ls, i)] + waypoints_from(ls, i + 2)
    }
}

/// The waypoints of a flight log.
pub open spec fn flight_log(text: Seq<char>) -> Seq<WaypointView> {
    waypoints_from(lines(text), 0)
}

/// Whether the values of a waypoint are within the bounds of their units.
pub open spec fn in_bounds(w: WaypointView) -> bool {
    &&& -90 * 60 * NANO <= w.lat <= 90 * 60 * NANO
    &&& -180 * 60 * NANO <= w.lon <= 180 * 60 * NANO
    &&& w.altitude_ft matches Some(v) ==> is_reading(v as int)
    &&& w.tas_kts matches Some(v) ==> is_reading(v as int)
    &&& w.gs_kts matches Some(v) ==> is_reading(v as int)
    &&& w.wind_comp_kts matches Some(v) ==> is_reading(v as int)
}

fn altitude_field(line: &[char]) -> (r: Option<i64>)
    ensures
        r == altitude_on(line@),
        r matches Some(v) ==> is_reading(v as int),
{
    match field(line, 29, 33) {
        Some(s) => parse_fixed(s, 8, READING_LIMIT),
        None => None,
    }
}

fn reading_field(line: &[char], start: usize, end: usize) -> (r: Option<i64>)
    ensures
        r == reading_on(line@, start as int, end as int),
        r matches Some(v) ==> is_reading(v as int),
{
    match field(line, start, end) {
        Some(s) => parse_reading(s),
        None => None,
    }
}

fn wind_comp_field(line: &[char]) -> (r: Option<i64>)
    ensures
        r == wind_component_on(line@),
        r matches Some(v) ==> is_reading(v as int),
{
    match field(line, 47, 52) {
        Some(s) => parse_wind_comp(s),
        None => None,
    }
}

fn minutes_field(line: &[char]) -> (r: Option<u32>)
    ensures
        r == minutes_on(line@),
{
    match field(line, 20, 24) {
        Some(s) => parse_hhmm(s),
        None => None,
    }
}

fn lat_field(line: &[char]) -> (r: Option<i64>)
    ensures
        r == latitude_on(line@),
        r matches Some(v) ==> -90 * 60 * NANO <= v <= 90 * 60 * NANO,
{
    match field(line, 12, 19) {
        Some(s) => parse_lat(s),
        None => None,
    }
}

fn lon_field(line: &[char]) -> (r: Option<i64>)
    ensures
        r == longitude_on(line@),
        r matches Some(v) ==> -180 * 60 * NANO <= v <= 180 * 60 * NANO,
{
    match field(line, 11, 19) {
        Some(s) => parse_lon(s),
        None => None,
    }
}

fn ident_field(lat_line: &[char], lon_line: &[char]) -> (r: Vec<char>)
    ensures
        r@ == block_ident(lat_line@, lon_line@),
{
    if let Some(s) = field(lon_line, 0, 11) {
        return slice_to_vec(s);
    }
    match field(lat_line, 0, 12) {
        Some(s) => slice_to_vec(s),
        None => chars_of("?"),
    }
}

/// The waypoint of the block at `i`, if there is a block.
fn read_block(ls: &Vec<Vec<char>>, i: usize) -> (r: Option<Waypoint>)
    requires
        i < ls@.len(),
    ensures
        r is Some <==> block_at(texts(ls@), i as int),
        r matches Some(w) ==> w@ == block_waypoint(texts(ls@), i as int) && in_bounds(w@),
{
    if i >= ls.len() - 1 {
        return None;
    }
    let lat_line: &[char] = ls[i].as_slice();
    let lon_line: &[char] = ls[i + 1].as_slice();
    match (lat_field(lat_line), lon_field(lon_line)) {
        (Some(lat), Some(lon)) => {
            let ident = ident_field(lat_line, lon_line);
            let altitude_ft = if i > 0 {
                altitude_field(ls[i - 1].as_slice())
            } else {
                let blank: Vec<char> = Vec::new();
                altitude_field(blank.as_slice())
            };
            Some(
                Waypoint {
                    ident: string_of(ident.as_slice()),
                    lat,
                    lon,
                    altitude_ft,
                    tas_kts: reading_field(lat_line, 38, 43),
                    gs_kts: reading_field(lon_line, 38, 43),
                    wind_comp_kts: wind_comp_field(lat_line),
                    cum_time_min: minutes_field(lon_line),
                },
            )
        },
        _ => None,
    }
}

fn boundary_ident(s: &String) -> (r: bool)
    ensures
        r == is_boundary_ident(s@),
{
    let chars = chars_of(s.as_str());
    chars.len() > 0 && chars[0] == '-'
}

/// Parse the waypoint list out of the lines of a briefing.
pub fn scan_flight_log(ls: &Vec<Vec<char>>) -> (r: Vec<Waypoint>)
    ensures
        waypoint_views(r@) == waypoints_from(texts(ls@), 0),
        forall|i: int| 0 <= i < r@.len() ==> in_bounds(#[trigger] r@[i]@),
{
    let ghost g = texts(ls@);
    let mut out: Vec<Waypoint> = Vec::new();
    let mut i: usize = 0;
    proof {
        assert(waypoint_views(out@) + waypoints_from(g, 0) =~= waypoints_from(g, 0));
    }
    while i < ls.len()
        invariant
            g == texts(ls@),
            i <= ls@.len(),
            waypoint_views(out@) + waypoints_from(g, i as int) == waypoints_from(g, 0),
            forall|k: int| 0 <= k < out@.len() ==> in_bounds(#[trigger] out@[k]@),
        decreases ls@.len() - i,
    {
        match read_block(ls, i) {
            Some(w) => {
                if !boundary_ident(&w.ident) {
                    let ghost before_push = out@;
                    proof {
                        lemma_push_view(before_push, w);
                        assert(waypoint_views(before_push) + (seq![w@] + waypoints_from(g, i + 2))
                            =~= waypoint_views(before_push).push(w@) + waypoints_from(g, i + 2));
                    }
                    out.push(w);
                }
                i += 2;
            },
            None => {
                i += 1;
            },
        }
    }
    proof {
        assert(waypoint_views(out@) + waypoints_from(g, i as int) =~= waypoint_views(out@));
    }
    out
}

proof fn lemma_push_view(v: Seq<Waypoint>, w: Waypoint)
    ensures
        waypoint_views(v.push(w)) == waypoint_views(v).push(w@),
{
    assert(waypoint_views(v.push(w)) =~= waypoint_views(v).push(w@));
}

/// Parse the waypoint list out of the FLIGHT LOG section.
pub fn parse_flight_log(text: &str) -> (r: Result<Vec<Waypoint>, LidoError>)
    ensures
        match r {
            Ok(w) => flight_log(text@).len() >= 2 && waypoint_views(w@) == flight_log(text@),
            Err(LidoError::TooFewWaypoints { count }) => flight_log(text@).len() == count && count
                < 2,
        },
        r matches Ok(w) ==> forall|i: int| 0 <= i < w@.len() ==> in_bounds(#[trigger] w@[i]@),
{
    let chars = chars_of(text);
    let ls = lines_of(chars.as_slice());
    let waypoints = scan_flight_log(&ls);
    if waypoints.len() < 2 {
        Err(LidoError::TooFewWaypoints { count: waypoints.len() })
    } else {
        Ok(waypoints)
    }
}

/// No waypoint is a FIR or UIR boundary row, and each is the block of some line.
pub proof fn waypoints_are_fixes(ls: Seq<Seq<char>>, i: int, k: int)
    requires
        0 <= i,
        0 <= k < waypoints_from(ls, i).len(),
    ensures
        !is_boundary_ident(waypoints_from(ls, i)[k].ident),
        exists|j: int| i <= j && block_at(ls, j) && waypoints_from(ls, i)[k] == block_waypoint(ls, j),
    decreases ls.len() - i,
{
    if !block_at(ls, i) {
        waypoints_are_fixes(ls, i + 1, k);
    } else if is_boundary_ident(block_waypoint(ls, i).ident) {
        waypoints_are_fixes(ls, i + 2, k);
    } else if k > 0 {
        waypoints_are_fixes(ls, i + 2, k - 1);
    }
}

/// Whether no line has a latitude in the LAT column.
pub open spec fn without_latitudes(ls: Seq<Seq<char>>) -> bool {
    forall|i: int| 0 <= i < ls.len() ==> latitude_on(#[trigger] ls[i]) is None
}

proof fn lemma_no_blocks(ls: Seq<Seq<char>>, i: int, k: int)
    requires
        0 <= i <= k <= ls.len(),
        forall|j: int| i <= j < k ==> latitude_on(#[trigger] ls[j]) is None,
    ensures
        waypoints_from(ls, i) == waypoints_from(ls, k),
    decreases k - i,
{
    if i < k {
        lemma_no_blocks(ls, i + 1, k);
    }
}

proof fn lemma_same_blocks(all: Seq<Seq<char>>, log: Seq<Seq<char>>, b: int, i: int)
    requires
        0 <= b,
        b + log.len() <= all.len(),
        forall|j: int| 0 <= j < log.len() ==> all[b + j] == #[trigger] log[j],
        log.len() > 0,
        latitude_on(log[0]) is None,
        latitude_on(log.last()) is None,
        waypoints_from(all, b + log.len()) == Seq::<WaypointView>::empty(),
        0 <= i <= log.len(),
    ensures
        waypoints_from(all, b + i) == waypoints_from(log, i),
    decreases log.len() - i,
{
    if i < log.len() {
        assert(all[b + i] == log[i]);
        if i + 1 < log.len() {
            assert(all[b + i + 1] == log[i + 1]);
            if block_at(log, i) {
                assert(all[b + i - 1] == log[i - 1]);
                assert(block_waypoint(all, b + i) == block_waypoint(log, i));
                lemma_same_blocks(all, log, b, i + 2);
            } else {
                lemma_same_blocks(all, log, b, i + 1);
            }
        } else {
            assert(log[i] == log.last());
            lemma_same_blocks(all, log, b, i + 1);
        }
    }
}

/// The scan is not disturbed by the other sections of a briefing: lines without
/// latitudes before a log and after it change none of its waypoints. A log starts
/// with a header or the airway line of its first block, and does not end in the
/// middle of a block.
pub proof fn other_sections_leave_waypoints_alone(
    before: Seq<Seq<char>>,
    log: Seq<Seq<char>>,
    after: Seq<Seq<char>>,
)
    requires
        without_latitudes(before),
        without_latitudes(after),
        log.len() > 0,
        latitude_on(log[0]) is None,
        latitude_on(log.last()) is None,
    ensures
        waypoints_from(before + log + after, 0) == waypoints_from(log, 0),
{
    let all = before + log + after;
    let b = before.len() as int;
    let e = b + log.len();
    assert forall|j: int| 0 <= j < b implies latitude_on(#[trigger] all[j]) is None by {
        assert(all[j] == before[j]);
    }
    assert forall|j: int| e <= j < all.len() implies latitude_on(#[trigger] all[j]) is None by {
        assert(all[j] == after[j - e]);
    }
    lemma_no_blocks(all, 0, b);
    lemma_no_blocks(all, e, all.len() as int);
    lemma_same_blocks(all, log, b, 0);
}

proof fn lemma_leading_blocks(all: Seq<Seq<char>>, a: Seq<Seq<char>>, i: int)
    requires
        a.len() <= all.len(),
        forall|j: int| 0 <= j < a.len() ==> #[trigger] all[j] == a[j],
        a.len() > 0,
        latitude_on(a.last()) is None,
        0 <= i <= a.len(),
    ensures
        waypoints_from(all, i) == waypoints_from(a, i) + waypoints_from(all, a.len() as int),
    decreases a.len() - i,
{
    let rest = waypoints_from(all, a.len() as int);
    if i == a.len() {
        assert(waypoints_from(a, i) + rest =~= rest);
    } else {
        assert(all[i] == a[i]);
        if i + 1 < a.len() {
            assert(all[i + 1] == a[i + 1]);
            if block_at(a, i) {
                if i > 0 {
                    assert(all[i - 1] == a[i - 1]);
                }
                let w = block_waypoint(a, i);
                assert(block_waypoint(all, i) == w);
                lemma_leading_blocks(all, a, i + 2);
                assert(seq![w] + (waypoints_from(a, i + 2) + rest) =~= (seq![w] + waypoints_from(
                    a,
                    i + 2,
                )) + rest);
            } else {
                lemma_leading_blocks(all, a, i + 1);
            }
        } else {
            assert(a[i] == a.last());
            lemma_leading_blocks(all, a, i + 1);
        }
    }
}

/// Page breaks between the blocks of a log change none of its waypoints: repeated
/// headers and other lines without latitudes are passed over.
pub proof fn page_breaks_leave_waypoints_alone(
    a: Seq<Seq<char>>,
    between: Seq<Seq<char>>,
    b: Seq<Seq<char>>,
)
    requires
        without_latitudes(between),
        a.len() > 0,
        b.len() > 0,
        latitude_on(a.last()) is None,
        latitude_on(b[0]) is None,
        latitude_on(b.last()) is None,
    ensures
        waypoints_from(a + between + b, 0) == waypoints_from(a, 0) + waypoints_from(b, 0),
{
    let all = a + between + b;
    let m = a.len() as int;
    let k = m + between.len();
    lemma_leading_blocks(all, a, 0);
    assert forall|j: int| m <= j < k implies latitude_on(#[trigger] all[j]) is None by {
        assert(all[j] == between[j - m]);
    }
    lemma_no_blocks(all, m, k);
    lemma_same_blocks(all, b, k, 0);
}

} // verus!
