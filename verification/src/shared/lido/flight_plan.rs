//! The ICAO flight plan and the ROUTING section: identity and runways.

use super::search::{
    find_containing, find_reading, lemma_line_containing, line_containing, line_reading,
};
use crate::text::{
    after, after_text, all_alphanumeric, all_upper, before, begins, chars_of, find, index_of,
    is_alphanumeric, is_upper, lemma_first_at, position, starts_with, string_of, text_of, texts,
    trim, trimmed, words, words_of,
};
use vstd::prelude::*;
use vstd::slice::slice_subrange;

verus! {

pub open spec fn is_alphanumeric_text(s: Seq<char>) -> bool {
    forall|i: int| 0 <= i < s.len() ==> is_alphanumeric(#[trigger] s[i])
}

pub open spec fn is_upper_text(s: Seq<char>) -> bool {
    forall|i: int| 0 <= i < s.len() ==> is_upper(#[trigger] s[i])
}

/// The line that opens the ICAO flight plan.
pub open spec fn plan_line(ls: Seq<Seq<char>>) -> Option<int> {
    line_containing(ls, "(FPL-"@, 0)
}

/// Item 7 of the flight plan, "ALU" in "(FPL-ALU-IS": one to seven letters and
/// digits.
pub open spec fn plan_callsign(ls: Seq<Seq<char>>) -> Option<Seq<char>> {
    match plan_line(ls) {
        Some(k) => {
            let c = trim(before(after_text(ls[k], "(FPL-"@), '-'));
            if 0 < c.len() <= 7 && is_alphanumeric_text(c) {
                Some(c)
            } else {
                None
            }
        },
        None => None,
    }
}

/// Item 9 of the flight plan, on the line after its first: "A320" in
/// "-A320/M-SDE3FGHIRWY/LB1", two to four letters and digits.
pub open spec fn plan_aircraft_type(ls: Seq<Seq<char>>) -> Option<Seq<char>> {
    match plan_line(ls) {
        Some(k) if k + 1 < ls.len() => {
            let line = trim(ls[k + 1]);
            let t = before(line.drop_first(), '/');
            if line.len() > 0 && line[0] == '-' && 2 <= t.len() <= 4 && is_alphanumeric_text(t) {
                Some(t)
            } else {
                None
            }
        },
        _ => None,
    }
}

pub open spec fn without_end_parens(s: Seq<char>) -> Seq<char>
    decreases s.len(),
{
    if s.len() > 0 && s.last() == ')' {
        without_end_parens(s.drop_last())
    } else {
        s
    }
}

/// What follows a prefix in the first word from `i` on that has it and more
/// than closing brackets after it.
pub open spec fn value_in(ws: Seq<Seq<char>>, prefix: Seq<char>, i: int) -> Option<Seq<char>>
    decreases ws.len() - i,
{
    if i < 0 || i >= ws.len() {
        None
    } else {
        let v = without_end_parens(ws[i].skip(prefix.len() as int));
        if starts_with(ws[i], prefix) && v.len() > 0 {
            Some(v)
        } else {
            value_in(ws, prefix, i + 1)
        }
    }
}

/// The value after a prefix on the lines from `i` on, no further than the first
/// line with a closing bracket.
pub open spec fn value_from(ls: Seq<Seq<char>>, prefix: Seq<char>, i: int) -> Option<Seq<char>>
    decreases ls.len() - i,
{
    if i < 0 || i >= ls.len() {
        None
    } else {
        match value_in(words(ls[i]), prefix, 0) {
            Some(v) => Some(v),
            None => if index_of(ls[i], ')') < ls[i].len() {
                None
            } else {
                value_from(ls, prefix, i + 1)
            },
        }
    }
}

/// A "KEY/value" item of the flight plan.
pub open spec fn plan_token(ls: Seq<Seq<char>>, prefix: Seq<char>) -> Option<Seq<char>> {
    match plan_line(ls) {
        Some(k) => value_from(ls, prefix, k),
        None => None,
    }
}

/// A word like "LSGG/22" or "LFPG/27R".
pub open spec fn is_airport_and_runway(w: Seq<char>) -> bool {
    let (apt, rwy) = (before(w, '/'), after(w, '/'));
    &&& index_of(w, '/') < w.len()
    &&& apt.len() == 4
    &&& is_upper_text(apt)
    &&& 0 < rwy.len() <= 3
    &&& is_alphanumeric_text(rwy)
}

/// Departure and arrival on the first line from `i` to `end` whose first word
/// is an airport and runway.
pub open spec fn routing_from(ls: Seq<Seq<char>>, i: int, end: int) -> (
    Option<Seq<char>>,
    Option<Seq<char>>,
)
    decreases end - i,
{
    if i < 0 || i >= end || i >= ls.len() {
        (None, None)
    } else {
        let ws = words(ls[i]);
        if ws.len() > 0 && is_airport_and_runway(ws[0]) {
            (
                Some(ws[0]),
                if is_airport_and_runway(ws.last()) {
                    Some(ws.last())
                } else {
                    None
                },
            )
        } else {
            routing_from(ls, i + 1, end)
        }
    }
}

/// Departure and arrival airport and runway: on one of the eight lines after
/// the one that reads "ROUTING:".
pub open spec fn routing(ls: Seq<Seq<char>>) -> (Option<Seq<char>>, Option<Seq<char>>) {
    match line_reading(ls, "ROUTING:"@, 0) {
        Some(k) => routing_from(ls, k + 1, k + 9),
        None => (None, None),
    }
}

/// ATC callsign from the ICAO flight plan: "ALU" in "(FPL-ALU-IS".
pub fn parse_fpl_callsign(ls: &Vec<Vec<char>>) -> (r: Option<String>)
    ensures
        text_of(r) == plan_callsign(texts(ls@)),
{
    let mark = chars_of("(FPL-");
    match find_containing(ls, mark.as_slice()) {
        Some(k) => {
            let line: &[char] = ls[k].as_slice();
            proof {
                lemma_line_containing(texts(ls@), mark@, 0);
                assert(texts(ls@)[k as int] == line@);
            }
            let end: usize = line.len();
            match find(line, mark.as_slice()) {
                Some(i) => {
                    let rest: &[char] = slice_subrange(line, i + mark.len(), end);
                    proof {
                        lemma_first_at(line@, mark@, i as int);
                        assert(rest@ =~= after_text(line@, mark@));
                    }
                    let n: usize = position(rest, '-');
                    let item: &[char] = slice_subrange(rest, 0, n);
                    proof {
                        assert(item@ =~= before(rest@, '-'));
                    }
                    let c: &[char] = trimmed(item);
                    if c.len() > 0 && c.len() <= 7 && all_alphanumeric(c) {
                        Some(string_of(c))
                    } else {
                        None
                    }
                },
                None => None,
            }
        },
        None => None,
    }
}

/// Aircraft type from item 9 of the flight plan, on the line after "(FPL-...".
pub fn parse_fpl_aircraft_type(ls: &Vec<Vec<char>>) -> (r: Option<String>)
    ensures
        text_of(r) == plan_aircraft_type(texts(ls@)),
{
    let mark = chars_of("(FPL-");
    match find_containing(ls, mark.as_slice()) {
        Some(k) => {
            if k >= ls.len() - 1 {
                return None;
            }
            let line: &[char] = trimmed(ls[k + 1].as_slice());
            if line.len() == 0 || line[0] != '-' {
                return None;
            }
            let rest: &[char] = slice_subrange(line, 1, line.len());
            let n: usize = position(rest, '/');
            let t: &[char] = slice_subrange(rest, 0, n);
            proof {
                assert(rest@ =~= line@.drop_first());
                assert(t@ =~= before(rest@, '/'));
            }
            if t.len() >= 2 && t.len() <= 4 && all_alphanumeric(t) {
                Some(string_of(t))
            } else {
                None
            }
        },
        None => None,
    }
}

fn trimmed_parens(s: &[char]) -> (r: &[char])
    ensures
        r@ == without_end_parens(s@),
{
    let mut n: usize = s.len();
    proof {
        assert(s@.take(s@.len() as int) =~= s@);
    }
    while n > 0 && s[n - 1] == ')'
        invariant
            n <= s@.len(),
            without_end_parens(s@.take(n as int)) == without_end_parens(s@),
        decreases n,
    {
        proof {
            assert(s@.take(n as int).drop_last() =~= s@.take(n - 1));
            assert(s@.take(n as int).last() == s@[n - 1]);
        }
        n -= 1;
    }
    proof {
        if n > 0 {
            assert(s@.take(n as int).last() == s@[n - 1]);
        }
        assert(s@.subrange(0, n as int) =~= s@.take(n as int));
    }
    slice_subrange(s, 0, n)
}

fn find_value(ws: &Vec<Vec<char>>, prefix: &[char]) -> (r: Option<String>)
    ensures
        text_of(r) == value_in(texts(ws@), prefix@, 0),
{
    let ghost g = texts(ws@);
    let mut i: usize = 0;
    while i < ws.len()
        invariant
            g == texts(ws@),
            i <= ws@.len(),
            value_in(g, prefix@, i as int) == value_in(g, prefix@, 0),
        decreases ws@.len() - i,
    {
        let word: &[char] = ws[i].as_slice();
        if begins(word, prefix) {
            let rest: &[char] = slice_subrange(word, prefix.len(), word.len());
            proof {
                assert(rest@ =~= g[i as int].skip(prefix@.len() as int));
            }
            let v: &[char] = trimmed_parens(rest);
            if v.len() > 0 {
                return Some(string_of(v));
            }
        }
        i += 1;
    }
    None
}

/// The value of a "KEY/value" item of the flight plan ("REG/N320SB",
/// "CODE/1349").
pub fn parse_fpl_token(ls: &Vec<Vec<char>>, prefix: &str) -> (r: Option<String>)
    ensures
        text_of(r) == plan_token(texts(ls@), prefix@),
{
    let ghost g = texts(ls@);
    let mark = chars_of("(FPL-");
    let key = chars_of(prefix);
    match find_containing(ls, mark.as_slice()) {
        Some(k) => {
            let mut i: usize = k;
            while i < ls.len()
                invariant
                    g == texts(ls@),
                    key@ == prefix@,
                    plan_line(g) == Some(k as int),
                    k <= i <= ls@.len(),
                    value_from(g, prefix@, i as int) == value_from(g, prefix@, k as int),
                decreases ls@.len() - i,
            {
                let line: &[char] = ls[i].as_slice();
                let ws = words_of(line);
                match find_value(&ws, key.as_slice()) {
                    Some(v) => {
                        return Some(v);
                    },
                    None => {},
                }
                if position(line, ')') < line.len() {
                    return None;
                }
                i += 1;
            }
            None
        },
        None => None,
    }
}

/// Whether a word is like "LSGG/22" or "LFPG/27R".
pub fn is_airport_runway(w: &[char]) -> (r: bool)
    ensures
        r == is_airport_and_runway(w@),
{
    let n: usize = position(w, '/');
    if n >= w.len() {
        return false;
    }
    let apt: &[char] = slice_subrange(w, 0, n);
    let rwy: &[char] = slice_subrange(w, n + 1, w.len());
    proof {
        assert(apt@ =~= before(w@, '/'));
        assert(rwy@ =~= after(w@, '/'));
    }
    apt.len() == 4 && all_upper(apt) && rwy.len() > 0 && rwy.len() <= 3 && all_alphanumeric(rwy)
}

/// Departure and arrival airport and runway from the ROUTING section:
/// "LSGG/22 DIPIR1A ... TINIL9W LFPG/27R".
pub fn parse_routing(ls: &Vec<Vec<char>>) -> (r: (Option<String>, Option<String>))
    ensures
        (text_of(r.0), text_of(r.1)) == routing(texts(ls@)),
{
    let ghost g = texts(ls@);
    let mark = chars_of("ROUTING:");
    match find_reading(ls, mark.as_slice()) {
        Some(k) => {
            assert(k < ls.len());
            let mut i: usize = k + 1;
            while i < ls.len() && i - k < 9
                invariant
                    g == texts(ls@),
                    k < i <= ls@.len(),
                    i - k <= 9,
                    line_reading(g, "ROUTING:"@, 0) == Some(k as int),
                    routing_from(g, i as int, k + 9) == routing_from(g, k + 1, k + 9),
                decreases ls@.len() - i,
            {
                let ws = words_of(ls[i].as_slice());
                if ws.len() > 0 {
                    proof {
                        assert(texts(ws@)[0] == ws@[0]@);
                        assert(texts(ws@).last() == ws@.last()@);
                    }
                    let first: &[char] = ws[0].as_slice();
                    let last: &[char] = ws[ws.len() - 1].as_slice();
                    if is_airport_runway(first) {
                        let arrival = if is_airport_runway(last) {
                            Some(string_of(last))
                        } else {
                            None
                        };
                        return (Some(string_of(first)), arrival);
                    }
                }
                i += 1;
            }
            (None, None)
        },
        None => (None, None),
    }
}

} // verus!
