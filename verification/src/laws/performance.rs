//! Where the limits of an aircraft type come from.

use crate::agent::performance::{
    feet_of, fpm_of, limits_in, lookup, synonym_row, types_from, variable, variable_from,
    wrap_type, PerformanceModel, VerticalLimits, WrapPerformance,
};
use crate::laws::text::texts_are_parted_at_the_first;
use crate::laws::whole_part;
use crate::number::{written, Reading};
use crate::text::{lines, lowercase, trim, words};
use vstd::prelude::*;

verus! {

/// Whether an altitude is lower than another, in numbers.
pub open spec fn lower_than(altitude_ft: i64, other: Reading) -> bool {
    other == (Reading::Infinite { negative: false }) || (other matches Reading::Value(v)
        && altitude_ft < v)
}

/// Whether an altitude is no lower than another, in numbers.
pub open spec fn no_lower_than(altitude_ft: i64, other: Reading) -> bool {
    other == (Reading::Infinite { negative: true }) || (other matches Reading::Value(v)
        && altitude_ft >= v)
}

/// A climb has the low rate below the first altitude of the climb, the middle rate
/// from there to the second, and the high rate above; a descent the high rate from
/// the second altitude of the descent up, the middle rate down to the first, and
/// the low rate below.
pub proof fn limits_are_by_altitude(l: VerticalLimits, altitude_ft: i64)
    ensures
        ({
            let (climb, descent) = (l.climb_at(altitude_ft), l.descent_at(altitude_ft));
            &&& lower_than(altitude_ft, l.climb_cas_alt_ft) ==> climb == l.climb_low
            &&& !lower_than(altitude_ft, l.climb_cas_alt_ft) && lower_than(
                altitude_ft,
                l.climb_mach_alt_ft,
            ) ==> climb == l.climb_mid
            &&& !lower_than(altitude_ft, l.climb_cas_alt_ft) && !lower_than(
                altitude_ft,
                l.climb_mach_alt_ft,
            ) ==> climb == l.climb_high
            &&& no_lower_than(altitude_ft, l.descent_mach_alt_ft) ==> descent == l.descent_high
            &&& !no_lower_than(altitude_ft, l.descent_mach_alt_ft) && no_lower_than(
                altitude_ft,
                l.descent_cas_alt_ft,
            ) ==> descent == l.descent_mid
            &&& !no_lower_than(altitude_ft, l.descent_mach_alt_ft) && !no_lower_than(
                altitude_ft,
                l.descent_cas_alt_ft,
            ) ==> descent == l.descent_low
        }),
{
}

/// A foot a minute is 0.00508 metres a second, a foot 0.0003048 kilometres.
pub proof fn units_are_converted(v: i64)
    ensures
        whole_part(fpm_of(v), v * 100_000, 508),
        whole_part(feet_of(v), v * 10_000_000, 3_048),
        v == 0 ==> fpm_of(v) == 0 && feet_of(v) == 0,
{
}

/// Whether a limit is a rate in feet per minute of one in metres per second.
pub open spec fn is_rate(n: Reading, v: Reading) -> bool {
    match (n, v) {
        (Reading::Value(fpm), Reading::Value(mps)) => whole_part(fpm as int, mps * 100_000, 508),
        (Reading::Infinite { negative: a }, Reading::Infinite { negative: b }) => a == b,
        (Reading::NotANumber, Reading::NotANumber) => true,
        _ => false,
    }
}

/// Whether a limit is the size of a rate in feet per minute of one in metres per
/// second.
pub open spec fn is_rate_size(n: Reading, v: Reading) -> bool {
    match (n, v) {
        (Reading::Value(fpm), Reading::Value(mps)) => fpm >= 0 && (whole_part(
            fpm as int,
            mps * 100_000,
            508,
        ) || whole_part(-fpm, mps * 100_000, 508)),
        (Reading::Infinite { negative }, Reading::Infinite { .. }) => !negative,
        (Reading::NotANumber, Reading::NotANumber) => true,
        _ => false,
    }
}

/// Whether an altitude is in feet of one in kilometres.
pub open spec fn is_altitude(n: Reading, v: Reading) -> bool {
    match (n, v) {
        (Reading::Value(ft), Reading::Value(km)) => whole_part(ft as int, km * 10_000_000, 3_048),
        (Reading::Infinite { negative: a }, Reading::Infinite { negative: b }) => a == b,
        (Reading::NotANumber, Reading::NotANumber) => true,
        _ => false,
    }
}

/// The limits of a type are the variables of its file, each from its own and in
/// feet; where one is missing there are none.
pub proof fn limits_are_the_variables(content: Seq<char>)
    ensures
        ({
            let v = |name: Seq<char>| variable(content, name);
            let given = v("cl_vs_avg_pre_cas"@) is Some && v("cl_vs_avg_cas_const"@) is Some && v(
                "cl_vs_avg_mach_const"@,
            ) is Some && v("cl_h_cas_const"@) is Some && v("cl_h_mach_const"@) is Some && v(
                "de_vs_avg_mach_const"@,
            ) is Some && v("de_vs_avg_cas_const"@) is Some && v("de_vs_avg_after_cas"@) is Some
                && v("de_h_mach_const"@) is Some && v("de_h_cas_const"@) is Some;
            match limits_in(content) {
                Some(l) => {
                    &&& given
                    &&& is_rate(l.climb_low, v("cl_vs_avg_pre_cas"@)->0)
                    &&& is_rate(l.climb_mid, v("cl_vs_avg_cas_const"@)->0)
                    &&& is_rate(l.climb_high, v("cl_vs_avg_mach_const"@)->0)
                    &&& is_altitude(l.climb_cas_alt_ft, v("cl_h_cas_const"@)->0)
                    &&& is_altitude(l.climb_mach_alt_ft, v("cl_h_mach_const"@)->0)
                    &&& is_rate_size(l.descent_high, v("de_vs_avg_mach_const"@)->0)
                    &&& is_rate_size(l.descent_mid, v("de_vs_avg_cas_const"@)->0)
                    &&& is_rate_size(l.descent_low, v("de_vs_avg_after_cas"@)->0)
                    &&& is_altitude(l.descent_mach_alt_ft, v("de_h_mach_const"@)->0)
                    &&& is_altitude(l.descent_cas_alt_ft, v("de_h_cas_const"@)->0)
                },
                None => !given,
            }
        }),
{
    lemma_in_limit(lines(content), "cl_vs_avg_pre_cas"@, 0);
    lemma_in_limit(lines(content), "cl_vs_avg_cas_const"@, 0);
    lemma_in_limit(lines(content), "cl_vs_avg_mach_const"@, 0);
    lemma_in_limit(lines(content), "cl_h_cas_const"@, 0);
    lemma_in_limit(lines(content), "cl_h_mach_const"@, 0);
    lemma_in_limit(lines(content), "de_vs_avg_mach_const"@, 0);
    lemma_in_limit(lines(content), "de_vs_avg_cas_const"@, 0);
    lemma_in_limit(lines(content), "de_vs_avg_after_cas"@, 0);
    lemma_in_limit(lines(content), "de_h_mach_const"@, 0);
    lemma_in_limit(lines(content), "de_h_cas_const"@, 0);
}

proof fn lemma_in_limit(ls: Seq<Seq<char>>, var: Seq<char>, i: int)
    ensures
        variable_from(ls, var, i) matches Some(v) ==> v.within(2_000_000_000_000_000),
    decreases ls.len() - i,
{
    if 0 <= i < ls.len() {
        lemma_in_limit(ls, var, i + 1);
    }
}

/// Whether a line is a row of a variable: its name first, and a number in the fifth
/// place from the right.
pub open spec fn is_row(line: Seq<char>, var: Seq<char>) -> bool {
    let ws = words(line);
    ws.len() >= 5 && ws[0] == var && written(ws[ws.len() - 5], 6, 2_000_000_000_000_000) is Some
}

/// A variable is the fifth word from the right of its first row; without a row it
/// is missing.
pub proof fn variable_is_in_its_first_row(content: Seq<char>, var: Seq<char>, i: int)
    ensures
        ({
            let ls = lines(content);
            &&& 0 <= i < ls.len() && is_row(ls[i], var) && (forall|j: int|
                0 <= j < i ==> !is_row(#[trigger] ls[j], var)) ==> variable(content, var)
                == written(words(ls[i])[words(ls[i]).len() - 5], 6, 2_000_000_000_000_000)
            &&& (forall|j: int| 0 <= j < ls.len() ==> !is_row(#[trigger] ls[j], var)) ==> variable(
                content,
                var,
            ) is None
        }),
{
    let ls = lines(content);
    if 0 <= i < ls.len() && is_row(ls[i], var) && (forall|j: int|
        0 <= j < i ==> !is_row(#[trigger] ls[j], var)) {
        lemma_first_row(ls, var, 0, i);
    }
    if forall|j: int| 0 <= j < ls.len() ==> !is_row(#[trigger] ls[j], var) {
        lemma_no_row(ls, var, 0);
    }
}

proof fn lemma_first_row(ls: Seq<Seq<char>>, var: Seq<char>, k: int, i: int)
    requires
        0 <= k <= i < ls.len(),
        is_row(ls[i], var),
        forall|j: int| k <= j < i ==> !is_row(#[trigger] ls[j], var),
    ensures
        variable_from(ls, var, k) == written(
            words(ls[i])[words(ls[i]).len() - 5],
            6,
            2_000_000_000_000_000,
        ),
    decreases i - k,
{
    if k < i {
        assert(!is_row(ls[k], var));
        lemma_first_row(ls, var, k + 1, i);
    }
}

proof fn lemma_no_row(ls: Seq<Seq<char>>, var: Seq<char>, k: int)
    requires
        0 <= k,
        forall|j: int| k <= j < ls.len() ==> !is_row(#[trigger] ls[j], var),
    ensures
        variable_from(ls, var, k) is None,
    decreases ls.len() - k,
{
    if k < ls.len() {
        assert(!is_row(ls[k], var));
        lemma_no_row(ls, var, k + 1);
    }
}

/// A key stands for the last entry with it, and for nothing where there is none.
pub proof fn lookup_finds_the_last<T>(entries: Seq<(Seq<char>, T)>, key: Seq<char>, i: int)
    ensures
        0 <= i < entries.len() && entries[i].0 == key && (forall|j: int|
            i < j < entries.len() ==> (#[trigger] entries[j]).0 != key) ==> lookup(entries, key)
            == Some(entries[i].1),
        (forall|j: int| 0 <= j < entries.len() ==> (#[trigger] entries[j]).0 != key) ==> lookup(
            entries,
            key,
        ) is None,
    decreases entries.len(),
{
    if entries.len() > 0 {
        let init = entries.drop_last();
        lookup_finds_the_last(init, key, i);
        if 0 <= i < entries.len() - 1 {
            assert(init[i] == entries[i]);
        }
        if forall|j: int| 0 <= j < entries.len() ==> (#[trigger] entries[j]).0 != key {
            assert(entries[entries.len() - 1].0 != key);
            assert forall|j: int| 0 <= j < init.len() implies (#[trigger] init[j]).0 != key by {
                assert(init[j] == entries[j]);
            }
        }
        if 0 <= i < entries.len() - 1 && entries[i].0 == key && (forall|j: int|
            i < j < entries.len() ==> (#[trigger] entries[j]).0 != key) {
            assert(entries[entries.len() - 1].0 != key);
            assert forall|j: int| i < j < init.len() implies (#[trigger] init[j]).0 != key by {
                assert(init[j] == entries[j]);
            }
        }
    }
}

/// The limits of a type, whatever its case, are its own, else those of the type
/// that stands for it, else one rate for all altitudes.
pub proof fn types_have_limits(w: WrapPerformance, icao_type: Seq<char>, altitude_ft: i64)
    ensures
        ({
            let l = w.limits_for(icao_type);
            let key = lowercase(icao_type);
            let own = lookup(w.types(), key);
            let stand_in = match lookup(w.aliases(), key) {
                Some(other) => lookup(w.types(), other),
                None => None,
            };
            &&& own is Some ==> own == Some(l)
            &&& own is None && stand_in is Some ==> stand_in == Some(l)
            &&& own is None && stand_in is None ==> l.climb_at(altitude_ft) == Reading::Value(
                w.default_rate(),
            ) && l.descent_at(altitude_ft) == Reading::Value(w.default_rate())
        }),
{
}

/// A file is about the type that it is named after before ".txt", in lower case; a
/// name that starts with an underscore or has nothing before the dot is none.
pub proof fn files_are_named_after_types(stem: Seq<char>, name: Seq<char>)
    ensures
        stem.len() > 0 && stem[0] != '_' ==> wrap_type(stem + seq!['.', 't', 'x', 't']) == Some(
            lowercase(stem),
        ),
        stem.len() == 0 || stem[0] == '_' ==> wrap_type(stem + seq!['.', 't', 'x', 't']) is None,
        wrap_type(name) is Some ==> name.len() > 4 && name.skip(name.len() - 4) == seq![
            '.',
            't',
            'x',
            't',
        ],
{
    reveal_strlit(".txt");
    assert(".txt"@ =~= seq!['.', 't', 'x', 't']);
    let full = stem + seq!['.', 't', 'x', 't'];
    assert(full.take(full.len() - 4) =~= stem);
    assert(full.skip(full.len() - 4) =~= seq!['.', 't', 'x', 't']);
    if stem.len() > 0 {
        assert(full[0] == stem[0]);
    }
}

/// Files that are about a type and hold limits give them, in order.
pub proof fn files_give_their_types(files: Seq<(Seq<char>, Seq<char>)>, i: int)
    requires
        0 <= i < files.len(),
    ensures
        match (wrap_type(files[i].0), limits_in(files[i].1)) {
            (Some(key), Some(limits)) => types_from(files, i) == seq![(key, limits)] + types_from(
                files,
                i + 1,
            ),
            _ => types_from(files, i) == types_from(files, i + 1),
        },
        types_from(files, files.len() as int).len() == 0,
{
}

/// A synonym is the first of a row, up to a comma, and stands for the second, up to
/// the next comma or the end, blanks aside and in lower case.
pub proof fn synonyms_are_rows(a: Seq<char>, b: Seq<char>, rest: Seq<char>)
    requires
        forall|i: int| 0 <= i < a.len() ==> #[trigger] a[i] != ',',
        forall|i: int| 0 <= i < b.len() ==> #[trigger] b[i] != ',',
        rest.len() == 0 || rest[0] == ',',
    ensures
        synonym_row(a + seq![','] + b + rest) == Some((lowercase(trim(a)), lowercase(trim(b)))),
        synonym_row(a) is None,
{
    texts_are_parted_at_the_first(a, ',', b + rest);
    assert(a + seq![','] + b + rest =~= a + seq![','] + (b + rest));
    if rest.len() > 0 {
        texts_are_parted_at_the_first(b, ',', rest.drop_first());
        assert(b + rest =~= b + seq![','] + rest.drop_first());
    } else {
        texts_are_parted_at_the_first(b, ',', rest);
        assert(b + rest =~= b);
    }
}

} // verus!
