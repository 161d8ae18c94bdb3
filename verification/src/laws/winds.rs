//! What is read of the winds aloft.

use crate::laws::sections::first_reading;
use crate::laws::text::texts_are_parted_at_the_first;
use crate::number::{unsigned, written};
use crate::shared::lido::column::column;
use crate::shared::lido::search::lemma_line_reading;
use crate::shared::lido::winds::{
    cell, is_filler, named, names_from, profiles_from, wind_information, wind_level, with_levels,
};
use crate::shared::lido::WindProfileView;
use crate::text::{starts_with, trim, words};
use vstd::prelude::*;

verus! {

/// A level is the first three words in its seventeen characters: flight level, the
/// direction and the speed of the wind around a slash, and the temperature. Where
/// one of them is missing, or is no number, there is no level.
pub proof fn level_is_read_from_its_cell(
    line: Seq<char>,
    col: int,
    dir: Seq<char>,
    speed: Seq<char>,
)
    requires
        0 <= col,
        forall|i: int| 0 <= i < dir.len() ==> #[trigger] dir[i] != '/',
    ensures
        ({
            let limit = 100_000_000_000_000_000;
            let level = wind_level(line, col);
            match column(line, 17 * col, 17 * col + 17) {
                None => level is None,
                Some(c) => {
                    let ws = words(c);
                    &&& ws.len() < 3 ==> level is None
                    &&& ws.len() >= 3 && ws[1] == dir ==> level is None
                    &&& ws.len() >= 3 && ws[1] == dir + seq!['/'] + speed ==> (match level {
                        Some(l) => {
                            &&& unsigned(ws[0], 10, 0xffff_ffff) == Some(l.fl as nat)
                            &&& written(dir, 6, limit) == Some(l.dir_deg)
                            &&& written(speed, 6, limit) == Some(l.speed_kts)
                            &&& written(ws[2], 6, limit) == Some(l.oat_c)
                        },
                        None => {
                            ||| unsigned(ws[0], 10, 0xffff_ffff) is None
                            ||| written(dir, 6, limit) is None
                            ||| written(speed, 6, limit) is None
                            ||| written(ws[2], 6, limit) is None
                        },
                    })
                },
            }
        }),
{
    texts_are_parted_at_the_first(dir, '/', speed);
}

/// Whether a line gives names: one in each seventeen characters, four at the most,
/// up to the first that are blank.
pub open spec fn gives_names(line: Seq<char>, names: Seq<Seq<char>>) -> bool {
    &&& names.len() <= 4
    &&& forall|i: int|
        0 <= i < names.len() ==> column(line, 17 * i, 17 * i + 17) == Some(#[trigger] names[i])
    &&& names.len() < 4 ==> ({
        let end = 17 * names.len() as int;
        column(line, end, end + 17) is None
    })
}

proof fn lemma_names(line: Seq<char>, names: Seq<Seq<char>>, k: int)
    requires
        gives_names(line, names),
        0 <= k <= names.len(),
    ensures
        names_from(line, k) == names.skip(k),
    decreases names.len() - k,
{
    if k < names.len() {
        lemma_names(line, names, k + 1);
        assert(cell(line, k) == Some(names[k]));
        assert(seq![names[k]] + names.skip(k + 1) =~= names.skip(k));
    } else {
        assert(names.skip(k) =~= Seq::empty());
    }
}

/// Whether a line is blank but for dashes.
pub open spec fn is_rule(line: Seq<char>) -> bool {
    forall|i: int| 0 <= i < trim(line).len() ==> #[trigger] trim(line)[i] == '-' || trim(line)[i]
        == ' '
}

/// Whether a line is past the winds: a bracket comes first in it, or four dashes.
pub open spec fn is_past(line: Seq<char>) -> bool {
    starts_with(line, "----"@) || (trim(line).len() > 0 && trim(line)[0] == '[')
}

pub open spec fn starts_with_digit(line: Seq<char>) -> bool {
    trim(line).len() > 0 && '0' <= trim(line)[0] && trim(line)[0] <= '9'
}

/// A line of names starts a table: profiles with those names, and nothing in them
/// yet, come after the ones before.
pub proof fn names_start_a_table(
    ls: Seq<Seq<char>>,
    i: int,
    ps: Seq<WindProfileView>,
    base: int,
    names: Seq<Seq<char>>,
    next: Seq<WindProfileView>,
)
    requires
        0 <= i < ls.len(),
        !is_past(ls[i]),
        !is_rule(ls[i]),
        !starts_with_digit(ls[i]),
        gives_names(ls[i], names),
        next.len() == ps.len() + names.len(),
        forall|k: int| 0 <= k < ps.len() ==> #[trigger] next[k] == ps[k],
        forall|k: int|
            ps.len() <= k < next.len() ==> (#[trigger] next[k]).name == names[k - ps.len()]
                && next[k].levels.len() == 0,
    ensures
        profiles_from(ls, i, ps, base) == profiles_from(ls, i + 1, next, ps.len() as int),
{
    lemma_names(ls[i], names, 0);
    assert(names.skip(0) =~= names);
    let made = ps + named(names);
    assert(made.len() == next.len());
    assert forall|k: int| 0 <= k < next.len() implies #[trigger] made[k] == next[k] by {
        if k >= ps.len() {
            assert(made[k].name == next[k].name);
            assert(made[k].levels =~= next[k].levels);
        }
    }
    assert(made =~= next);
    assert(!is_filler(ls[i]));
}

/// A line of numbers adds a level to each profile of its table, from the characters
/// under its name; where it has none there the profile stays, and so do those of
/// the tables before.
pub proof fn numbers_add_levels(
    ls: Seq<Seq<char>>,
    i: int,
    ps: Seq<WindProfileView>,
    base: int,
    next: Seq<WindProfileView>,
)
    requires
        0 <= i < ls.len(),
        0 <= base,
        !is_past(ls[i]),
        !is_rule(ls[i]),
        starts_with_digit(ls[i]),
        next.len() == ps.len(),
        forall|k: int|
            0 <= k < ps.len() ==> {
                let level = wind_level(ls[i], k - base);
                &&& (#[trigger] next[k]).name == ps[k].name
                &&& k >= base && level is Some ==> next[k].levels == ps[k].levels.push(level->0)
                &&& k < base || level is None ==> next[k].levels == ps[k].levels
            },
    ensures
        profiles_from(ls, i, ps, base) == profiles_from(ls, i + 1, next, base),
{
    let made = with_levels(ps, base, ls[i]);
    assert forall|k: int| 0 <= k < next.len() implies #[trigger] made[k] == next[k] by {
        assert(next[k].name == ps[k].name);
        assert(made[k].levels =~= next[k].levels);
    }
    assert(made =~= next);
    assert(!is_filler(ls[i]));
}

/// A rule between the tables changes nothing, and the winds end where the section
/// or the text does.
pub proof fn rules_are_passed_over(
    ls: Seq<Seq<char>>,
    i: int,
    ps: Seq<WindProfileView>,
    base: int,
)
    requires
        0 <= i < ls.len(),
    ensures
        is_past(ls[i]) ==> profiles_from(ls, i, ps, base) == ps,
        !is_past(ls[i]) && is_rule(ls[i]) ==> profiles_from(ls, i, ps, base) == profiles_from(
            ls,
            i + 1,
            ps,
            base,
        ),
        profiles_from(ls, ls.len() as int, ps, base) == ps,
{
    if is_rule(ls[i]) {
        assert(is_filler(ls[i]));
    }
}

/// The winds are those from the line after "WIND INFORMATION" on; without that line
/// there are none.
pub proof fn winds_follow_their_title(ls: Seq<Seq<char>>, k: int)
    ensures
        first_reading(ls, "WIND INFORMATION"@, k) ==> wind_information(ls) == profiles_from(
            ls,
            k + 1,
            Seq::empty(),
            0,
        ),
        (forall|j: int|
            0 <= j < ls.len() ==> !crate::laws::text::is_trimmed(
                "WIND INFORMATION"@,
                #[trigger] ls[j],
            )) ==> wind_information(ls).len() == 0,
{
    if first_reading(ls, "WIND INFORMATION"@, k) {
        crate::laws::sections::lemma_first_reading(ls, "WIND INFORMATION"@, k);
    }
    lemma_line_reading(ls, "WIND INFORMATION"@, 0);
    if let Some(m) = crate::shared::lido::search::line_reading(ls, "WIND INFORMATION"@, 0) {
        crate::laws::text::trimming_takes_white_ends(ls[m]);
    }
}

} // verus!
