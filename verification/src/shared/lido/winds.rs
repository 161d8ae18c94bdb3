//! The WIND INFORMATION section: winds and temperatures aloft.

use super::column::{column, field};
use super::search::{find_reading, line_reading};
use super::{profile_views, WindLevel, WindProfile, WindProfileView};
use crate::number::{parse_unsigned, parse_written, unsigned, written, READING_LIMIT};
use crate::text::{
    after, before, begins, chars_of, digit, index_of, is_digit, position, starts_with, string_of,
    texts, trim, trimmed, words, words_of,
};
use vstd::prelude::*;
use vstd::slice::slice_subrange;

verus! {

/// Characters in a column of the tables.
pub const CELL_WIDTH: usize = 17;

/// Columns of a table.
pub const TABLE_COLUMNS: usize = 4;

/// The text in a column of a table.
pub open spec fn cell(line: Seq<char>, col: int) -> Option<Seq<char>> {
    column(line, col * CELL_WIDTH, col * CELL_WIDTH + CELL_WIDTH)
}

/// The level in a column of a data line: "350 314/037 -51" is flight level 350,
/// wind from 314 degrees at 37 knots, 51 degrees below zero.
pub open spec fn wind_level(line: Seq<char>, col: int) -> Option<WindLevel> {
    match cell(line, col) {
        Some(c) => {
            let ws = words(c);
            if ws.len() < 3 || index_of(ws[1], '/') >= ws[1].len() {
                None
            } else {
                match (
                    unsigned(ws[0], 10, u32::MAX as nat),
                    written(before(ws[1], '/'), 6, READING_LIMIT as int),
                    written(after(ws[1], '/'), 6, READING_LIMIT as int),
                    written(ws[2], 6, READING_LIMIT as int),
                ) {
                    (Some(fl), Some(dir_deg), Some(speed_kts), Some(oat_c)) => Some(
                        WindLevel { fl: fl as u32, dir_deg, speed_kts, oat_c },
                    ),
                    _ => None,
                }
            }
        },
        None => None,
    }
}

/// The names on a header line from column `col` on, up to the first blank column.
pub open spec fn names_from(line: Seq<char>, col: int) -> Seq<Seq<char>>
    decreases TABLE_COLUMNS - col,
{
    if col < 0 || col >= TABLE_COLUMNS {
        Seq::empty()
    } else {
        match cell(line, col) {
            Some(name) => seq![name] + names_from(line, col + 1),
            None => Seq::empty(),
        }
    }
}

/// Profiles of the given names, without levels.
pub open spec fn named(names: Seq<Seq<char>>) -> Seq<WindProfileView> {
    Seq::new(names.len(), |i: int| WindProfileView { name: names[i], levels: Seq::empty() })
}

/// A profile with the level in a column of a data line, if there is one.
pub open spec fn with_level(p: WindProfileView, line: Seq<char>, col: int) -> WindProfileView {
    match wind_level(line, col) {
        Some(l) => WindProfileView { name: p.name, levels: p.levels.push(l) },
        None => p,
    }
}

/// Profiles with the levels of a data line: one column for each profile from
/// `base` on.
pub open spec fn with_levels(
    ps: Seq<WindProfileView>,
    base: int,
    line: Seq<char>,
) -> Seq<WindProfileView> {
    Seq::new(
        ps.len(),
        |i: int|
            if i < base {
                ps[i]
            } else {
                with_level(ps[i], line, i - base)
            },
    )
}

/// Whether a line ends the section.
pub open spec fn ends_section(line: Seq<char>) -> bool {
    (trim(line).len() > 0 && trim(line)[0] == '[') || starts_with(line, "----"@)
}

/// Whether a line is blank or a rule.
pub open spec fn is_filler(line: Seq<char>) -> bool {
    forall|i: int| 0 <= i < trim(line).len() ==> (#[trigger] trim(line)[i] == '-' || trim(line)[i]
        == ' ')
}

/// The profiles once the lines from `i` on are read, given those read before; the
/// columns of a data line belong to the profiles from `base` on. A data line
/// starts with a flight level, a header line with the name of a profile.
pub open spec fn profiles_from(
    ls: Seq<Seq<char>>,
    i: int,
    ps: Seq<WindProfileView>,
    base: int,
) -> Seq<WindProfileView>
    decreases ls.len() - i,
{
    if i < 0 || i >= ls.len() || ends_section(ls[i]) {
        ps
    } else if is_filler(ls[i]) {
        profiles_from(ls, i + 1, ps, base)
    } else if is_digit(trim(ls[i])[0]) {
        profiles_from(ls, i + 1, with_levels(ps, base, ls[i]), base)
    } else {
        profiles_from(ls, i + 1, ps + named(names_from(ls[i], 0)), ps.len() as int)
    }
}

/// The wind profiles after the line that reads "WIND INFORMATION".
pub open spec fn wind_information(ls: Seq<Seq<char>>) -> Seq<WindProfileView> {
    match line_reading(ls, "WIND INFORMATION"@, 0) {
        Some(k) => profiles_from(ls, k + 1, Seq::empty(), 0),
        None => Seq::empty(),
    }
}

fn section_end(line: &[char], dashes: &[char]) -> (r: bool)
    requires
        dashes@ == "----"@,
    ensures
        r == ends_section(line@),
{
    let t: &[char] = trimmed(line);
    (t.len() > 0 && t[0] == '[') || begins(line, dashes)
}

fn filler(line: &[char]) -> (r: bool)
    ensures
        r == is_filler(line@),
{
    let t: &[char] = trimmed(line);
    let mut i: usize = 0;
    while i < t.len()
        invariant
            i <= t@.len(),
            t@ == trim(line@),
            forall|j: int| 0 <= j < i ==> (#[trigger] t@[j] == '-' || t@[j] == ' '),
        decreases t@.len() - i,
    {
        if t[i] != '-' && t[i] != ' ' {
            assert(trim(line@)[i as int] == t@[i as int]);
            return false;
        }
        i += 1;
    }
    true
}

/// The level in a column of a data line.
pub fn parse_wind_cell(line: &[char], col: usize) -> (r: Option<WindLevel>)
    requires
        col < TABLE_COLUMNS,
    ensures
        r == wind_level(line@, col as int),
{
    let text: &[char] = match field(line, col * CELL_WIDTH, col * CELL_WIDTH + CELL_WIDTH) {
        Some(c) => c,
        None => {
            return None;
        },
    };
    let ws = words_of(text);
    if ws.len() < 3 {
        return None;
    }
    proof {
        assert(texts(ws@)[0] == ws@[0]@);
        assert(texts(ws@)[1] == ws@[1]@);
        assert(texts(ws@)[2] == ws@[2]@);
    }
    let wind: &[char] = ws[1].as_slice();
    let n: usize = position(wind, '/');
    if n >= wind.len() {
        return None;
    }
    let dir: &[char] = slice_subrange(wind, 0, n);
    let spd: &[char] = slice_subrange(wind, n + 1, wind.len());
    proof {
        assert(dir@ =~= before(wind@, '/'));
        assert(spd@ =~= after(wind@, '/'));
    }
    match (
        parse_unsigned(ws[0].as_slice(), u32::MAX as u64),
        parse_written(dir, 6, READING_LIMIT),
        parse_written(spd, 6, READING_LIMIT),
        parse_written(ws[2].as_slice(), 6, READING_LIMIT),
    ) {
        (Some(fl), Some(dir_deg), Some(speed_kts), Some(oat_c)) => Some(
            WindLevel { fl: fl as u32, dir_deg, speed_kts, oat_c },
        ),
        _ => None,
    }
}

/// Append the profiles that a header line names.
fn read_header(line: &[char], profiles: &mut Vec<WindProfile>)
    ensures
        profile_views(final(profiles)@) == profile_views(old(profiles)@) + named(
            names_from(line@, 0),
        ),
        old(profiles)@.len() <= final(profiles)@.len() <= old(profiles)@.len() + TABLE_COLUMNS,
{
    let ghost start = profile_views(profiles@);
    let ghost goal = start + named(names_from(line@, 0));
    let mut col: usize = 0;
    while col < TABLE_COLUMNS
        invariant
            col <= TABLE_COLUMNS,
            profiles@.len() == start.len() + col,
            start == profile_views(old(profiles)@),
            goal == start + named(names_from(line@, 0)),
            profile_views(profiles@) + named(names_from(line@, col as int)) == goal,
        decreases TABLE_COLUMNS - col,
    {
        match field(line, col * CELL_WIDTH, col * CELL_WIDTH + CELL_WIDTH) {
            Some(name) => {
                let p = WindProfile { name: string_of(name), levels: Vec::new() };
                let ghost before_push = profiles@;
                proof {
                    let rest = names_from(line@, col + 1);
                    assert(cell(line@, col as int) == Some(name@));
                    assert(p@ =~= WindProfileView { name: name@, levels: Seq::empty() });
                    assert(named(seq![name@] + rest) =~= seq![p@] + named(rest));
                    assert(profile_views(before_push.push(p)) =~= profile_views(before_push).push(
                        p@,
                    ));
                    assert(profile_views(before_push) + (seq![p@] + named(rest))
                        =~= profile_views(before_push).push(p@) + named(rest));
                }
                profiles.push(p);
            },
            None => {
                proof {
                    assert(cell(line@, col as int) is None);
                    assert(profile_views(profiles@) + named(Seq::empty()) =~= profile_views(
                        profiles@,
                    ));
                }
                return ;
            },
        }
        col += 1;
    }
    proof {
        assert(profile_views(profiles@) + named(Seq::empty()) =~= profile_views(profiles@));
    }
}

/// Append the levels of a data line to the profiles from `base` on.
fn read_levels(line: &[char], profiles: &mut Vec<WindProfile>, base: usize)
    requires
        base <= old(profiles)@.len() <= base + TABLE_COLUMNS,
    ensures
        profile_views(final(profiles)@) == with_levels(
            profile_views(old(profiles)@),
            base as int,
            line@,
        ),
        final(profiles)@.len() == old(profiles)@.len(),
{
    let ghost start = profile_views(profiles@);
    let mut i: usize = base;
    while i < profiles.len()
        invariant
            base <= i <= profiles@.len() <= base + TABLE_COLUMNS,
            start == profile_views(old(profiles)@),
            start.len() == profiles@.len(),
            forall|k: int|
                0 <= k < profiles@.len() ==> (#[trigger] profiles@[k])@ == (if base <= k < i {
                    with_level(start[k], line@, k - base)
                } else {
                    start[k]
                }),
        decreases profiles@.len() - i,
    {
        match parse_wind_cell(line, i - base) {
            Some(level) => {
                let ghost old_p = profiles@[i as int];
                profiles[i].levels.push(level);
                proof {
                    assert(profiles@[i as int]@ =~= WindProfileView {
                        name: old_p@.name,
                        levels: old_p@.levels.push(level),
                    });
                }
            },
            None => {},
        }
        i += 1;
    }
    proof {
        assert(profile_views(profiles@) =~= with_levels(start, base as int, line@));
    }
}

/// Winds and temperatures aloft from the WIND INFORMATION section.
///
/// A header line names profiles ("CLIMB            T O C ..."); the data lines
/// after it hold one 17-character cell for each: "350 314/037 -51".
pub fn parse_wind_information(ls: &Vec<Vec<char>>) -> (r: Vec<WindProfile>)
    ensures
        profile_views(r@) == wind_information(texts(ls@)),
{
    let ghost g = texts(ls@);
    let mut profiles: Vec<WindProfile> = Vec::new();
    proof {
        assert(profile_views(profiles@) =~= Seq::empty());
    }
    let start = match find_reading(ls, chars_of("WIND INFORMATION").as_slice()) {
        Some(k) => k,
        None => {
            return profiles;
        },
    };
    let dashes = chars_of("----");
    let mut base: usize = 0;
    assert(start < ls.len());
    let mut i: usize = start + 1;
    while i < ls.len()
        invariant
            g == texts(ls@),
            dashes@ == "----"@,
            start < i <= ls@.len(),
            base <= profiles@.len() <= base + TABLE_COLUMNS,
            profiles_from(g, i as int, profile_views(profiles@), base as int) == wind_information(
                g,
            ),
        decreases ls@.len() - i,
    {
        let line: &[char] = ls[i].as_slice();
        if section_end(line, dashes.as_slice()) {
            return profiles;
        }
        if !filler(line) {
            let t: &[char] = trimmed(line);
            if digit(t[0]) {
                read_levels(line, &mut profiles, base);
            } else {
                base = profiles.len();
                read_header(line, &mut profiles);
            }
        }
        i += 1;
    }
    profiles
}

} // verus!
