//! What a run does between its parts: arguments, requests and ticks.

use crate::agent::aircraft::AircraftView;
use crate::agent::performance::{
    synonym_row, synonym_table, DefaultPerformance, PerformanceModel, DEFAULT_VERTICAL_RATE_FPM,
};
use crate::cli::{flag_from, paths_from};
use crate::fetch::{asks_states, short_text, FetchAction};
use crate::laws::identity::{is_decimal_of, numbers_are_their_digits};
use crate::laws::number::{all_digits, decimal, unsigned_is_decimal};
use crate::number::{decimal_text, decimal_text_reads_back, reading, rendered, Reading};
use crate::opensky::{
    error_text, first_short, header_text, in_box, is_success, london_box, retry_seconds,
    states_query, switzerland_box, uk_switzerland_box, BoundingBox, Json, OpenSkyError,
};
use crate::replay::run::{notice_at, ticked, SimFlightView};
use crate::shared::geo::turn_between;
use crate::shared::notice::Notice;
use crate::shared::plan::is_plan;
use crate::text::{lines, starts_with};
use vstd::prelude::*;

verus! {

/// The briefings are the arguments from the one after the first "--simulate" up to
/// the next that starts with two dashes, or to the last.
pub proof fn briefings_follow_their_flag(args: Seq<Seq<char>>, k: int, end: int)
    requires
        0 <= k < end <= args.len(),
        args[k] == "--simulate"@,
        forall|j: int| 0 <= j < k ==> #[trigger] args[j] != "--simulate"@,
        forall|j: int| k < j < end ==> !starts_with(#[trigger] args[j], "--"@),
        end < args.len() ==> starts_with(args[end], "--"@),
    ensures
        flag_from(args, 0) == Some(k),
        paths_from(args, k + 1) == args.subrange(k + 1, end),
{
    lemma_flag(args, 0, k);
    lemma_paths(args, k + 1, end);
}

proof fn lemma_flag(args: Seq<Seq<char>>, i: int, k: int)
    requires
        0 <= i <= k < args.len(),
        args[k] == "--simulate"@,
        forall|j: int| i <= j < k ==> #[trigger] args[j] != "--simulate"@,
    ensures
        flag_from(args, i) == Some(k),
    decreases k - i,
{
    if i < k {
        assert(args[i] != "--simulate"@);
        lemma_flag(args, i + 1, k);
    }
}

proof fn lemma_paths(args: Seq<Seq<char>>, i: int, end: int)
    requires
        0 <= i <= end <= args.len(),
        forall|j: int| i <= j < end ==> !starts_with(#[trigger] args[j], "--"@),
        end < args.len() ==> starts_with(args[end], "--"@),
    ensures
        paths_from(args, i) == args.subrange(i, end),
    decreases end - i,
{
    if i < end {
        assert(!starts_with(args[i], "--"@));
        lemma_paths(args, i + 1, end);
        assert(seq![args[i]] + args.subrange(i + 1, end) =~= args.subrange(i, end));
    } else {
        assert(args.subrange(i, end) =~= Seq::empty());
    }
}

/// Without "--simulate" among the arguments there is no flag.
pub proof fn no_flag_without_its_argument(args: Seq<Seq<char>>, i: int)
    requires
        0 <= i,
        forall|j: int| i <= j < args.len() ==> #[trigger] args[j] != "--simulate"@,
    ensures
        flag_from(args, i) is None,
    decreases args.len() - i,
{
    if i < args.len() {
        no_flag_without_its_argument(args, i + 1);
    }
}

/// Whether a query gives a parameter: its name and an equals sign after a question
/// mark or an ampersand, and then a number, up to an ampersand or the end.
pub open spec fn gives(
    query: Seq<char>,
    pre: Seq<char>,
    name: Seq<char>,
    v: Seq<char>,
    post: Seq<char>,
    number: i64,
) -> bool {
    &&& query == pre + name + seq!['='] + v + post
    &&& pre.len() > 0 && (pre.last() == '?' || pre.last() == '&')
    &&& post.len() == 0 || post[0] == '&'
    &&& reading(v) == Some(number)
}

/// The states are asked for between the least and the greatest latitude and
/// longitude of the box, each under its own name.
pub proof fn states_are_asked_within_the_box(b: BoundingBox)
    requires
        -100_000_000_000_000_000 <= b.min_lat <= 100_000_000_000_000_000,
        -100_000_000_000_000_000 <= b.max_lat <= 100_000_000_000_000_000,
        -100_000_000_000_000_000 <= b.min_lon <= 100_000_000_000_000_000,
        -100_000_000_000_000_000 <= b.max_lon <= 100_000_000_000_000_000,
    ensures
        ({
            let q = states_query(b);
            &&& starts_with(q, "https://opensky-network.org/api/states/all?"@)
            &&& exists|pre: Seq<char>, v: Seq<char>, post: Seq<char>| #[trigger]
                gives(q, pre, "lamin"@, v, post, b.min_lat)
            &&& exists|pre: Seq<char>, v: Seq<char>, post: Seq<char>| #[trigger]
                gives(q, pre, "lamax"@, v, post, b.max_lat)
            &&& exists|pre: Seq<char>, v: Seq<char>, post: Seq<char>| #[trigger]
                gives(q, pre, "lomin"@, v, post, b.min_lon)
            &&& exists|pre: Seq<char>, v: Seq<char>, post: Seq<char>| #[trigger]
                gives(q, pre, "lomax"@, v, post, b.max_lon)
        }),
{
    decimal_text_reads_back(b.min_lat as int);
    decimal_text_reads_back(b.max_lat as int);
    decimal_text_reads_back(b.min_lon as int);
    decimal_text_reads_back(b.max_lon as int);
    lemma_names();
    let q = states_query(b);
    let base = "https://opensky-network.org/api/states/all"@;
    let (s, w) = (decimal_text(b.min_lat as int), decimal_text(b.min_lon as int));
    let (n, e) = (decimal_text(b.max_lat as int), decimal_text(b.max_lon as int));
    lemma_base(q, s + "&lomin="@ + w + "&lamax="@ + n + "&lomax="@ + e);
    assert(q =~= base + "?lamin="@ + (s + "&lomin="@ + w + "&lamax="@ + n + "&lomax="@ + e));
    let post1 = "&lomin="@ + w + "&lamax="@ + n + "&lomax="@ + e;
    assert(q =~= base + "?lamin="@ + s + post1);
    lemma_gives(q, base, '?', "?lamin="@, "lamin"@, s, post1, b.min_lat);
    let pre2 = base + "?lamin="@ + s;
    let post2 = "&lamax="@ + n + "&lomax="@ + e;
    assert(q =~= pre2 + "&lomin="@ + w + post2);
    lemma_gives(q, pre2, '&', "&lomin="@, "lomin"@, w, post2, b.min_lon);
    let pre3 = pre2 + "&lomin="@ + w;
    let post3 = "&lomax="@ + e;
    assert(q =~= pre3 + "&lamax="@ + n + post3);
    lemma_gives(q, pre3, '&', "&lamax="@, "lamax"@, n, post3, b.max_lat);
    let pre4 = pre3 + "&lamax="@ + n;
    assert(q =~= pre4 + "&lomax="@ + e + Seq::empty());
    lemma_gives(q, pre4, '&', "&lomax="@, "lomax"@, e, Seq::empty(), b.max_lon);
}

proof fn lemma_names()
    ensures
        "?lamin="@ == seq!['?'] + "lamin"@ + seq!['='],
        "&lomin="@ == seq!['&'] + "lomin"@ + seq!['='],
        "&lamax="@ == seq!['&'] + "lamax"@ + seq!['='],
        "&lomax="@ == seq!['&'] + "lomax"@ + seq!['='],
{
    reveal_strlit("?lamin=");
    reveal_strlit("&lomin=");
    reveal_strlit("&lamax=");
    reveal_strlit("&lomax=");
    reveal_strlit("lamin");
    reveal_strlit("lomin");
    reveal_strlit("lamax");
    reveal_strlit("lomax");
    assert("?lamin="@ =~= seq!['?'] + "lamin"@ + seq!['=']);
    assert("&lomin="@ =~= seq!['&'] + "lomin"@ + seq!['=']);
    assert("&lamax="@ =~= seq!['&'] + "lamax"@ + seq!['=']);
    assert("&lomax="@ =~= seq!['&'] + "lomax"@ + seq!['=']);
}

proof fn lemma_base(q: Seq<char>, rest: Seq<char>)
    ensures
        q == "https://opensky-network.org/api/states/all"@ + "?lamin="@ + rest ==> starts_with(
            q,
            "https://opensky-network.org/api/states/all?"@,
        ),
{
    reveal_strlit("https://opensky-network.org/api/states/all");
    reveal_strlit("https://opensky-network.org/api/states/all?");
    let head = "https://opensky-network.org/api/states/all?"@;
    assert(head =~= "https://opensky-network.org/api/states/all"@.push('?'));
    lemma_names();
    if q == "https://opensky-network.org/api/states/all"@ + "?lamin="@ + rest {
        assert(q.take(head.len() as int) =~= head);
    }
}

proof fn lemma_gives(
    q: Seq<char>,
    pre: Seq<char>,
    mark: char,
    key: Seq<char>,
    name: Seq<char>,
    v: Seq<char>,
    post: Seq<char>,
    number: i64,
)
    requires
        q == pre + key + v + post,
        key == seq![mark] + name + seq!['='],
        mark == '?' || mark == '&',
        post.len() == 0 || post[0] == '&',
        reading(v) == Some(number),
    ensures
        gives(q, pre.push(mark), name, v, post, number),
{
    assert(pre + key =~= pre.push(mark) + name + seq!['=']);
}

/// The seconds to wait are the number in the first header, or in the second where
/// there is no first, and not said where it holds none.
pub proof fn waits_as_the_header_says(h: Seq<u8>, other: Option<Seq<u8>>, text: Seq<char>)
    requires
        text.len() == h.len(),
        forall|i: int| 0 <= i < h.len() ==> #[trigger] text[i] == h[i] as char,
    ensures
        retry_seconds(Some(h), other) == retry_seconds(None, Some(h)),
        text.len() > 0 && all_digits(text) && decimal(text) <= 0xffff_ffff_ffff_ffff
            ==> retry_seconds(Some(h), other) == Some(decimal(text) as nat),
        text.len() == 0 || (!all_digits(text) && text[0] != '+') ==> retry_seconds(Some(h), other)
            is None,
        retry_seconds(None, None) is None,
{
    assert(header_text(h) =~= text);
    unsigned_is_decimal(text, 0xffff_ffff_ffff_ffff);
}

/// Whether a text gives a number between two others.
pub open spec fn tells(text: Seq<char>, pre: Seq<char>, n: nat, post: Seq<char>) -> bool {
    exists|digits: Seq<char>|
        text == #[trigger] (pre + digits + post) && is_decimal_of(digits, n)
}

/// What is said of an array that is too short has its length, and what is said of
/// an error the seconds to wait, or the status with the reason and the body, or
/// what came of the request.
pub proof fn errors_tell_what_happened(e: OpenSkyError, len: nat)
    ensures
        tells(short_text(len), "expected at least 17 elements, got "@, len, Seq::empty()),
        match e {
            OpenSkyError::Request(m) => error_text(e) == "OpenSky request error: "@ + m@,
            OpenSkyError::Serde(m) => error_text(e) == "OpenSky deserialization error: "@ + m@,
            OpenSkyError::RateLimited { retry_after: Some(n) } => tells(
                error_text(e),
                "OpenSky rate limited (retry after "@,
                n as nat,
                "s)"@,
            ),
            OpenSkyError::RateLimited { retry_after: None } => error_text(e)
                == "OpenSky rate limited"@,
            OpenSkyError::HttpStatus { status, reason, body } => tells(
                error_text(e),
                "OpenSky HTTP "@,
                status as nat,
                " "@ + reason@ + ": "@ + body@,
            ),
        },
{
    numbers_are_their_digits(len);
    assert(short_text(len) =~= "expected at least 17 elements, got "@ + rendered(len, 10)
        + Seq::empty());
    match e {
        OpenSkyError::RateLimited { retry_after: Some(n) } => {
            numbers_are_their_digits(n as nat);
        },
        OpenSkyError::HttpStatus { status, reason, body } => {
            numbers_are_their_digits(status as nat);
            assert(error_text(e) =~= "OpenSky HTTP "@ + rendered(status as nat, 10) + (" "@
                + reason@ + ": "@ + body@));
        },
        _ => {},
    }
}

/// The boxes hold what lies between their degrees: London from 50 to 53 north and 2
/// west to 2 east, Switzerland from 45.8 to 47.8 north and 5.9 to 10.5 east, and
/// the two together what lies between the outer ones.
pub proof fn boxes_hold_what_lies_between(lat: int, lon: int)
    ensures
        in_box(london_box(), lat, lon) <==> 50 * 1_000_000 <= lat <= 53 * 1_000_000 && -2
            * 1_000_000 <= lon <= 2 * 1_000_000,
        in_box(switzerland_box(), lat, lon) <==> 458 * 100_000 <= lat <= 478 * 100_000 && 59
            * 100_000 <= lon <= 105 * 100_000,
        in_box(uk_switzerland_box(), lat, lon) <==> 458 * 100_000 <= lat <= 53 * 1_000_000 && -2
            * 1_000_000 <= lon <= 105 * 100_000,
{
}

/// The states of a box are asked for at its address, with a token iff there is one.
pub proof fn states_are_asked_with_the_token(
    a: FetchAction,
    bbox: BoundingBox,
    token: Option<Seq<char>>,
)
    ensures
        asks_states(a, bbox, token) <==> {
            &&& a is AskStates
            &&& a->AskStates_url@ == states_query(bbox)
            &&& a->AskStates_token is Some <==> token is Some
            &&& token matches Some(t) ==> (a->AskStates_token)->0@ == t
        },
{
}

/// An answer is a success iff its status is one of the two hundreds.
pub proof fn success_is_two_hundred(status: u16)
    ensures
        is_success(status) <==> status / 100 == 2,
{
}

/// An array is too short iff it has fewer than seventeen elements, and the first
/// such is found.
pub proof fn short_arrays_are_found(arrays: Seq<Vec<Json>>, i: int)
    ensures
        0 <= i ==> (match first_short(arrays, i) {
            Some(k) => i <= k < arrays.len() && arrays[k]@.len() < 17 && (forall|j: int|
                i <= j < k ==> (#[trigger] arrays[j])@.len() >= 17),
            None => forall|j: int| i <= j < arrays.len() ==> (#[trigger] arrays[j])@.len() >= 17,
        }),
    decreases arrays.len() - i,
{
    if 0 <= i < arrays.len() {
        short_arrays_are_found(arrays, i + 1);
    }
}

/// A flight is told to be under way before the time of its last point, to have
/// arrived on the first tick from then on, and to hold on the others; nothing else
/// of it changes with a tick.
pub proof fn ticks_tell_arrival_once(f: SimFlightView, t: int, later: int)
    requires
        is_plan(f.plan),
        0 <= t <= later,
    ensures
        ({
            let (end, next) = (f.plan[f.plan.len() - 1].time_s, ticked(f, t));
            &&& t < end ==> notice_at(f, t) == Notice::EnRoute
            &&& t >= end && !f.holding_announced ==> notice_at(f, t) == Notice::Arrived
            &&& t >= end && f.holding_announced ==> notice_at(f, t) == Notice::Holding
            &&& t >= end ==> notice_at(next, later) == Notice::Holding
            &&& t < end && later >= end && !f.holding_announced ==> notice_at(next, later)
                == Notice::Arrived
            &&& next.plan == f.plan && next.callsign == f.callsign
            &&& next.icao_address == f.icao_address && next.arrival == f.arrival
        }),
{
    crate::laws::replay::sample_ends_and_starts(f.plan, t);
    crate::laws::replay::sample_ends_and_starts(f.plan, later);
}

/// Flights with other addresses are the same but for those.
pub proof fn only_addresses_are_replaced(
    flights: Seq<SimFlightView>,
    fleet: Seq<AircraftView>,
    addresses: Seq<Seq<char>>,
    i: int,
)
    ensures
        0 <= i < flights.len() ==> {
            let (f, g) = (flights[i], crate::replay::run::with_addresses(flights, addresses)[i]);
            &&& g.icao_address == addresses[i]
            &&& g.plan == f.plan && g.callsign == f.callsign && g.arrival == f.arrival
            &&& g.holding_announced == f.holding_announced
        },
        0 <= i < fleet.len() ==> {
            let (a, b) = (fleet[i], crate::agent::run::with_addresses(fleet, addresses)[i]);
            &&& b.icao_address == addresses[i]
            &&& b.callsign == a.callsign && b.plan == a.plan && b.leg == a.leg
            &&& b.lat == a.lat && b.lon == a.lon && b.altitude_ft == a.altitude_ft
            &&& b.gs_kts == a.gs_kts && b.track_deg == a.track_deg
            &&& b.closest_nm == a.closest_nm && b.limits == a.limits && b.ended == a.ended
        },
        crate::replay::run::with_addresses(flights, addresses).len() == flights.len(),
        crate::agent::run::with_addresses(fleet, addresses).len() == fleet.len(),
{
}

/// The turn from one direction to another leads to it, and is no longer than half a
/// turn: one to the left is negative, and half a turn goes right.
pub proof fn turns_are_the_shorter_way(from_deg: int, to_deg: int, turns: int)
    ensures
        ({
            let d = turn_between(from_deg, to_deg);
            &&& -180_000_000 < d <= 180_000_000
            &&& (from_deg + d - to_deg) % 360_000_000 == 0
            &&& -180_000_000 < to_deg + 360_000_000 * turns - from_deg <= 180_000_000 ==> d
                == to_deg + 360_000_000 * turns - from_deg
        }),
{
}

/// With one rate for every type a climb and a descent are limited to it at every
/// altitude.
pub proof fn default_rate_is_for_all(p: DefaultPerformance, icao_type: Seq<char>, altitude_ft: i64)
    ensures
        ({
            let l = p.limits_for(icao_type);
            l.climb_at(altitude_ft) == Reading::Value(p.rate_fpm) && l.descent_at(altitude_ft)
                == Reading::Value(p.rate_fpm)
        }),
{
}

/// At the default rate a climb and a descent are limited to two thousand feet per
/// minute, for every type and at every altitude.
pub proof fn default_rate_is_two_thousand(
    p: DefaultPerformance,
    icao_type: Seq<char>,
    altitude_ft: i64,
)
    requires
        p.rate_fpm == DEFAULT_VERTICAL_RATE_FPM,
    ensures
        ({
            let l = p.limits_for(icao_type);
            l.climb_at(altitude_ft) == Reading::Value(2_000_000_000) && l.descent_at(altitude_ft)
                == Reading::Value(2_000_000_000)
        }),
{
}

/// The synonyms are the rows of the table from its second line on, in order.
pub proof fn synonyms_follow_the_header(content: Seq<char>, rows: Seq<(Seq<char>, Seq<char>)>)
    requires
        lines(content).len() >= 1,
        rows.len() + 1 == lines(content).len(),
        forall|i: int|
            1 <= i < lines(content).len() ==> synonym_row(#[trigger] lines(content)[i]) == Some(
                rows[i - 1],
            ),
    ensures
        synonym_table(content) == rows,
{
    lemma_synonyms(lines(content), rows, 1);
    assert(rows.skip(0) =~= rows);
}

proof fn lemma_synonyms(ls: Seq<Seq<char>>, rows: Seq<(Seq<char>, Seq<char>)>, i: int)
    requires
        1 <= i <= ls.len(),
        rows.len() + 1 == ls.len(),
        forall|i: int| 1 <= i < ls.len() ==> synonym_row(#[trigger] ls[i]) == Some(rows[i - 1]),
    ensures
        crate::agent::performance::synonyms_from(ls, i) == rows.skip(i - 1),
    decreases ls.len() - i,
{
    if i < ls.len() {
        lemma_synonyms(ls, rows, i + 1);
        assert(synonym_row(ls[i]) == Some(rows[i - 1]));
        assert(seq![rows[i - 1]] + rows.skip(i) =~= rows.skip(i - 1));
    } else {
        assert(rows.skip(i - 1) =~= Seq::empty());
    }
}

} // verus!
