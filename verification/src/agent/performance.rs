//! Where the limits on climb and descent rates come from.
//!
//! An agent reads its limits through a [`PerformanceModel`]: the built-in
//! [`DefaultPerformance`] with one rate for all, or [`WrapPerformance`] with the
//! rates of each type from files in the OpenAP WRAP format, which are never
//! shipped. Those files are in metres per second and kilometres; rates here
//! count millionths of a foot per minute, altitudes millionths of a foot.

use crate::number::{parse_written, scaled, written, Reading};
use crate::text::{
    after, before, chars_of, index_of, lines, lines_of, lowercase, lowercase_of, position,
    same_chars, texts, trim, trimmed, words, words_of,
};
use vstd::prelude::*;
use vstd::slice::slice_subrange;

verus! {

/// Vertical rate where no performance data is loaded: 2000 ft/min.
pub const DEFAULT_VERTICAL_RATE_FPM: i64 = 2_000_000_000;

/// Bound on a variable of a WRAP file, in millionths: two billion units. In feet
/// per minute or feet it still fits a limit.
pub const WRAP_LIMIT: i64 = 2_000_000_000_000_000;

pub open spec fn in_wrap_limit(v: int) -> bool {
    -WRAP_LIMIT <= v <= WRAP_LIMIT
}

/// A value in a WRAP file, in millionths.
pub open spec fn wrap_value(s: Seq<char>) -> Option<Reading> {
    written(s, 6, WRAP_LIMIT as int)
}

/// Limits on climb and descent rates as a function of altitude, in three bands
/// for each: parted where the climb or descent goes from constant calibrated
/// airspeed to constant Mach number, and where it takes up or leaves the former.
///
/// Each value may be infinite or not a number, as in the data it comes from: no
/// altitude is below one that is not a number or at it, and a rate that is not a
/// number limits nothing.
#[derive(Debug, Clone, Copy, PartialEq, Eq, Structural)]
pub struct VerticalLimits {
    /// Below `climb_cas_alt_ft`
    pub climb_low: Reading,
    /// From `climb_cas_alt_ft` to `climb_mach_alt_ft`
    pub climb_mid: Reading,
    /// From `climb_mach_alt_ft` up
    pub climb_high: Reading,
    pub climb_cas_alt_ft: Reading,
    pub climb_mach_alt_ft: Reading,
    /// From `descent_mach_alt_ft` up
    pub descent_high: Reading,
    /// From `descent_cas_alt_ft` to `descent_mach_alt_ft`
    pub descent_mid: Reading,
    /// Below `descent_cas_alt_ft`
    pub descent_low: Reading,
    pub descent_mach_alt_ft: Reading,
    pub descent_cas_alt_ft: Reading,
}

/// Whether an altitude is below another; none is below one that is no number.
pub open spec fn below(altitude_ft: i64, other: Reading) -> bool {
    match other {
        Reading::Value(v) => altitude_ft < v,
        Reading::Infinite { negative } => !negative,
        Reading::NotANumber => false,
    }
}

/// Whether an altitude is another or above it; none is where that is no number.
pub open spec fn at_or_above(altitude_ft: i64, other: Reading) -> bool {
    match other {
        Reading::Value(v) => altitude_ft >= v,
        Reading::Infinite { negative } => negative,
        Reading::NotANumber => false,
    }
}

fn is_below(altitude_ft: i64, other: Reading) -> (r: bool)
    ensures
        r == below(altitude_ft, other),
{
    match other {
        Reading::Value(v) => altitude_ft < v,
        Reading::Infinite { negative } => !negative,
        Reading::NotANumber => false,
    }
}

fn is_at_or_above(altitude_ft: i64, other: Reading) -> (r: bool)
    ensures
        r == at_or_above(altitude_ft, other),
{
    match other {
        Reading::Value(v) => altitude_ft >= v,
        Reading::Infinite { negative } => negative,
        Reading::NotANumber => false,
    }
}

impl VerticalLimits {
    /// One rate at every altitude.
    pub open spec fn constant(fpm: i64) -> Self {
        VerticalLimits {
            climb_low: Reading::Value(fpm),
            climb_mid: Reading::Value(fpm),
            climb_high: Reading::Value(fpm),
            climb_cas_alt_ft: Reading::Value(0),
            climb_mach_alt_ft: Reading::Value(0),
            descent_high: Reading::Value(fpm),
            descent_mid: Reading::Value(fpm),
            descent_low: Reading::Value(fpm),
            descent_mach_alt_ft: Reading::Value(0),
            descent_cas_alt_ft: Reading::Value(0),
        }
    }

    pub open spec fn climb_at(self, altitude_ft: i64) -> Reading {
        if below(altitude_ft, self.climb_cas_alt_ft) {
            self.climb_low
        } else if below(altitude_ft, self.climb_mach_alt_ft) {
            self.climb_mid
        } else {
            self.climb_high
        }
    }

    pub open spec fn descent_at(self, altitude_ft: i64) -> Reading {
        if at_or_above(altitude_ft, self.descent_mach_alt_ft) {
            self.descent_high
        } else if at_or_above(altitude_ft, self.descent_cas_alt_ft) {
            self.descent_mid
        } else {
            self.descent_low
        }
    }

    /// A constant rate at every altitude.
    pub fn flat(fpm: i64) -> (r: Self)
        ensures
            r == Self::constant(fpm),
    {
        VerticalLimits {
            climb_low: Reading::Value(fpm),
            climb_mid: Reading::Value(fpm),
            climb_high: Reading::Value(fpm),
            climb_cas_alt_ft: Reading::Value(0),
            climb_mach_alt_ft: Reading::Value(0),
            descent_high: Reading::Value(fpm),
            descent_mid: Reading::Value(fpm),
            descent_low: Reading::Value(fpm),
            descent_mach_alt_ft: Reading::Value(0),
            descent_cas_alt_ft: Reading::Value(0),
        }
    }

    /// Largest climb rate at an altitude.
    pub fn climb_limit_fpm(&self, altitude_ft: i64) -> (r: Reading)
        ensures
            r == self.climb_at(altitude_ft),
    {
        if is_below(altitude_ft, self.climb_cas_alt_ft) {
            self.climb_low
        } else if is_below(altitude_ft, self.climb_mach_alt_ft) {
            self.climb_mid
        } else {
            self.climb_high
        }
    }

    /// Largest descent rate at an altitude, positive.
    pub fn descent_limit_fpm(&self, altitude_ft: i64) -> (r: Reading)
        ensures
            r == self.descent_at(altitude_ft),
    {
        if is_at_or_above(altitude_ft, self.descent_mach_alt_ft) {
            self.descent_high
        } else if is_at_or_above(altitude_ft, self.descent_cas_alt_ft) {
            self.descent_mid
        } else {
            self.descent_low
        }
    }
}

/// Flat limits are the same at every altitude, up and down.
pub proof fn flat_is_constant(fpm: i64, altitude_ft: i64)
    ensures
        VerticalLimits::constant(fpm).climb_at(altitude_ft) == Reading::Value(fpm),
        VerticalLimits::constant(fpm).descent_at(altitude_ft) == Reading::Value(fpm),
{
}

/// A source of limits by aircraft type.
pub trait PerformanceModel {
    /// The limits for an ICAO aircraft type.
    spec fn limits_for(&self, icao_type: Seq<char>) -> VerticalLimits;

    /// Limits on vertical rates for an ICAO aircraft type ("A320"). Unknown types
    /// have the default limits.
    fn vertical_limits(&self, icao_type: &str) -> (r: VerticalLimits)
        ensures
            r == self.limits_for(icao_type@),
    ;
}

/// One rate for every type.
#[derive(Debug)]
pub struct DefaultPerformance {
    pub rate_fpm: i64,
}

impl DefaultPerformance {
    pub fn new(rate_fpm: i64) -> (r: Self)
        ensures
            r.rate_fpm == rate_fpm,
    {
        DefaultPerformance { rate_fpm }
    }
}

impl PerformanceModel for DefaultPerformance {
    open spec fn limits_for(&self, icao_type: Seq<char>) -> VerticalLimits {
        VerticalLimits::constant(self.rate_fpm)
    }

    fn vertical_limits(&self, icao_type: &str) -> (r: VerticalLimits) {
        VerticalLimits::flat(self.rate_fpm)
    }
}

/// Feet per minute, from metres per second: one of the former is 0.00508 of the
/// latter.
pub open spec fn fpm_of(mps: i64) -> int {
    scaled(mps as int, 100_000, 508)
}

/// Feet, from kilometres: one of the former is 0.0003048 of the latter.
pub open spec fn feet_of(km: i64) -> int {
    scaled(km as int, 10_000_000, 3_048)
}

fn convert(v: i64, num: i128, den: i128) -> (r: i64)
    requires
        in_wrap_limit(v as int),
        0 < den,
        0 <= num <= 4_000 * den,
        num <= 10_000_000,
    ensures
        r == scaled(v as int, num as int, den as int),
{
    let m: i128 = if v < 0 {
        -(v as i128)
    } else {
        v as i128
    };
    proof {
        assert(0 <= m * num <= 2_000_000_000_000_000 * 10_000_000) by (nonlinear_arith)
            requires
                0 <= m <= 2_000_000_000_000_000,
                0 <= num <= 10_000_000,
        ;
        assert(0 <= m * num / (den as int) <= 4_000 * m) by (nonlinear_arith)
            requires
                0 <= m,
                0 <= num <= 4_000 * den,
                0 < den,
        ;
    }
    let q: i128 = m * num / den;
    if v < 0 {
        -(q as i64)
    } else {
        q as i64
    }
}

/// Feet per minute, from metres per second.
pub fn mps_to_fpm(mps: i64) -> (r: i64)
    requires
        in_wrap_limit(mps as int),
    ensures
        r == fpm_of(mps),
{
    convert(mps, 100_000, 508)
}

/// Feet, from kilometres.
pub fn km_to_ft(km: i64) -> (r: i64)
    requires
        in_wrap_limit(km as int),
    ensures
        r == feet_of(km),
{
    convert(km, 10_000_000, 3_048)
}

/// The value of a variable on the lines from `i` on: on the first that starts
/// with its name and has a number in the fifth place from the right.
pub open spec fn variable_from(ls: Seq<Seq<char>>, var: Seq<char>, i: int) -> Option<Reading>
    decreases ls.len() - i,
{
    if i < 0 || i >= ls.len() {
        None
    } else {
        let ws = words(ls[i]);
        if ws.len() >= 5 && ws[0] == var && wrap_value(ws[ws.len() - 5]) is Some {
            wrap_value(ws[ws.len() - 5])
        } else {
            variable_from(ls, var, i + 1)
        }
    }
}

/// The value of a variable in a WRAP file.
pub open spec fn variable(content: Seq<char>, var: Seq<char>) -> Option<Reading> {
    variable_from(lines(content), var, 0)
}

pub open spec fn magnitude_of(v: i64) -> i64 {
    if v < 0 {
        (-v) as i64
    } else {
        v
    }
}

/// A rate in feet per minute, from metres per second.
pub open spec fn rate_in(v: Reading) -> Reading {
    match v {
        Reading::Value(mps) => Reading::Value(fpm_of(mps) as i64),
        _ => v,
    }
}

/// The magnitude of a rate in feet per minute, from metres per second.
pub open spec fn magnitude_in(v: Reading) -> Reading {
    match v {
        Reading::Value(mps) => Reading::Value(fpm_of(magnitude_of(mps)) as i64),
        Reading::Infinite { .. } => Reading::Infinite { negative: false },
        Reading::NotANumber => v,
    }
}

/// An altitude in feet, from kilometres.
pub open spec fn altitude_in(v: Reading) -> Reading {
    match v {
        Reading::Value(km) => Reading::Value(feet_of(km) as i64),
        _ => v,
    }
}

/// The limits in a WRAP file, none where one of the variables is missing.
/// Descent rates are magnitudes.
pub open spec fn limits_in(content: Seq<char>) -> Option<VerticalLimits> {
    match (
        variable(content, "cl_vs_avg_pre_cas"@),
        variable(content, "cl_vs_avg_cas_const"@),
        variable(content, "cl_vs_avg_mach_const"@),
        variable(content, "cl_h_cas_const"@),
        variable(content, "cl_h_mach_const"@),
        variable(content, "de_vs_avg_mach_const"@),
        variable(content, "de_vs_avg_cas_const"@),
        variable(content, "de_vs_avg_after_cas"@),
        variable(content, "de_h_mach_const"@),
        variable(content, "de_h_cas_const"@),
    ) {
        (
            Some(cl_pre),
            Some(cl_cas),
            Some(cl_mach),
            Some(cl_h_cas),
            Some(cl_h_mach),
            Some(de_mach),
            Some(de_cas),
            Some(de_after),
            Some(de_h_mach),
            Some(de_h_cas),
        ) => Some(
            VerticalLimits {
                climb_low: rate_in(cl_pre),
                climb_mid: rate_in(cl_cas),
                climb_high: rate_in(cl_mach),
                climb_cas_alt_ft: altitude_in(cl_h_cas),
                climb_mach_alt_ft: altitude_in(cl_h_mach),
                descent_high: magnitude_in(de_mach),
                descent_mid: magnitude_in(de_cas),
                descent_low: magnitude_in(de_after),
                descent_mach_alt_ft: altitude_in(de_h_mach),
                descent_cas_alt_ft: altitude_in(de_h_cas),
            },
        ),
        _ => None,
    }
}

fn find_variable(ls: &Vec<Vec<char>>, var: &str) -> (r: Option<Reading>)
    ensures
        r == variable_from(texts(ls@), var@, 0),
        r matches Some(v) ==> v.within(WRAP_LIMIT as int),
{
    let ghost g = texts(ls@);
    let name = chars_of(var);
    let mut i: usize = 0;
    while i < ls.len()
        invariant
            g == texts(ls@),
            name@ == var@,
            i <= ls@.len(),
            variable_from(g, var@, i as int) == variable_from(g, var@, 0),
        decreases ls@.len() - i,
    {
        let ws = words_of(ls[i].as_slice());
        if ws.len() >= 5 {
            proof {
                assert(texts(ws@)[0] == ws@[0]@);
                assert(texts(ws@)[ws@.len() - 5] == ws@[ws@.len() - 5]@);
            }
            if same_chars(ws[0].as_slice(), name.as_slice()) {
                let v = parse_written(ws[ws.len() - 5].as_slice(), 6, WRAP_LIMIT);
                if v.is_some() {
                    return v;
                }
            }
        }
        i += 1;
    }
    None
}

/// The default value of a variable in a WRAP file. The table has a name column
/// of several words, so a row is read from the right: it ends in
/// "... opt min max model params".
pub fn wrap_opt(content: &str, var: &str) -> (r: Option<Reading>)
    ensures
        r == variable(content@, var@),
        r matches Some(v) ==> v.within(WRAP_LIMIT as int),
{
    let chars = chars_of(content);
    let ls = lines_of(chars.as_slice());
    find_variable(&ls, var)
}

fn rate_of(v: Reading) -> (r: Reading)
    requires
        v.within(WRAP_LIMIT as int),
    ensures
        r == rate_in(v),
{
    match v {
        Reading::Value(mps) => Reading::Value(mps_to_fpm(mps)),
        _ => v,
    }
}

fn size_of_rate(v: Reading) -> (r: Reading)
    requires
        v.within(WRAP_LIMIT as int),
    ensures
        r == magnitude_in(v),
{
    match v {
        Reading::Value(mps) => Reading::Value(
            mps_to_fpm(
                if mps < 0 {
                    -mps
                } else {
                    mps
                },
            ),
        ),
        Reading::Infinite { .. } => Reading::Infinite { negative: false },
        Reading::NotANumber => v,
    }
}

fn altitude_of(v: Reading) -> (r: Reading)
    requires
        v.within(WRAP_LIMIT as int),
    ensures
        r == altitude_in(v),
{
    match v {
        Reading::Value(km) => Reading::Value(km_to_ft(km)),
        _ => v,
    }
}

/// The limits in one type's WRAP file, none where a variable is missing.
pub fn parse_vertical_limits(content: &str) -> (r: Option<VerticalLimits>)
    ensures
        r == limits_in(content@),
{
    let cl_pre = wrap_opt(content, "cl_vs_avg_pre_cas")?;
    let cl_cas = wrap_opt(content, "cl_vs_avg_cas_const")?;
    let cl_mach = wrap_opt(content, "cl_vs_avg_mach_const")?;
    let cl_h_cas = wrap_opt(content, "cl_h_cas_const")?;
    let cl_h_mach = wrap_opt(content, "cl_h_mach_const")?;
    let de_mach = wrap_opt(content, "de_vs_avg_mach_const")?;
    let de_cas = wrap_opt(content, "de_vs_avg_cas_const")?;
    let de_after = wrap_opt(content, "de_vs_avg_after_cas")?;
    let de_h_mach = wrap_opt(content, "de_h_mach_const")?;
    let de_h_cas = wrap_opt(content, "de_h_cas_const")?;
    Some(
        VerticalLimits {
            climb_low: rate_of(cl_pre),
            climb_mid: rate_of(cl_cas),
            climb_high: rate_of(cl_mach),
            climb_cas_alt_ft: altitude_of(cl_h_cas),
            climb_mach_alt_ft: altitude_of(cl_h_mach),
            descent_high: size_of_rate(de_mach),
            descent_mid: size_of_rate(de_cas),
            descent_low: size_of_rate(de_after),
            descent_mach_alt_ft: altitude_of(de_h_mach),
            descent_cas_alt_ft: altitude_of(de_h_cas),
        },
    )
}

proof fn lemma_variable_bounded(ls: Seq<Seq<char>>, var: Seq<char>, i: int)
    ensures
        variable_from(ls, var, i) matches Some(v) ==> v.within(WRAP_LIMIT as int),
    decreases ls.len() - i,
{
    if 0 <= i < ls.len() {
        lemma_variable_bounded(ls, var, i + 1);
    }
}

/// Whether a rate is not negative, if it is a number.
pub open spec fn is_magnitude(v: Reading) -> bool {
    match v {
        Reading::Value(n) => n >= 0,
        Reading::Infinite { negative } => !negative,
        Reading::NotANumber => true,
    }
}

/// Descent rates read from a file are never negative.
pub proof fn descent_rates_are_magnitudes(content: Seq<char>, altitude_ft: i64)
    ensures
        limits_in(content) matches Some(l) ==> is_magnitude(l.descent_at(altitude_ft)),
{
    let ls = lines(content);
    lemma_variable_bounded(ls, "de_vs_avg_mach_const"@, 0);
    lemma_variable_bounded(ls, "de_vs_avg_cas_const"@, 0);
    lemma_variable_bounded(ls, "de_vs_avg_after_cas"@, 0);
}

/// A type and its limits.
#[derive(Debug)]
pub struct TypeLimits {
    pub key: Vec<char>,
    pub limits: VerticalLimits,
}

/// A type and the one whose limits stand for it.
#[derive(Debug)]
pub struct Synonym {
    pub key: Vec<char>,
    pub target: Vec<char>,
}

pub open spec fn type_views(v: Seq<TypeLimits>) -> Seq<(Seq<char>, VerticalLimits)> {
    Seq::new(v.len(), |i: int| (v[i].key@, v[i].limits))
}

pub open spec fn synonym_views(v: Seq<Synonym>) -> Seq<(Seq<char>, Seq<char>)> {
    Seq::new(v.len(), |i: int| (v[i].key@, v[i].target@))
}

/// What a key stands for in a list, the last entry with it where there are more.
pub open spec fn lookup<T>(entries: Seq<(Seq<char>, T)>, key: Seq<char>) -> Option<T>
    decreases entries.len(),
{
    if entries.len() == 0 {
        None
    } else {
        let (k, v) = entries.last();
        if k == key {
            Some(v)
        } else {
            lookup(entries.drop_last(), key)
        }
    }
}

/// Limits by type, from a directory of WRAP files.
#[derive(Debug)]
pub struct WrapPerformance {
    by_type: Vec<TypeLimits>,
    synonyms: Vec<Synonym>,
    default_rate_fpm: i64,
}

/// No file gave limits.
#[derive(Debug, Clone, Copy, PartialEq, Eq, Structural)]
pub struct NoWrapData;

/// A file of a WRAP directory.
#[derive(Debug)]
pub struct WrapFile {
    /// Name within the directory
    pub name: String,
    pub content: String,
}

pub open spec fn file_views(v: Seq<WrapFile>) -> Seq<(Seq<char>, Seq<char>)> {
    Seq::new(v.len(), |i: int| (v[i].name@, v[i].content@))
}

/// The type that a file of the directory is about: the stem of a name that ends
/// in ".txt", in lower case, unless it starts with an underscore.
pub open spec fn wrap_type(name: Seq<char>) -> Option<Seq<char>> {
    let stem = name.take(name.len() - 4);
    if name.len() > 4 && name.skip(name.len() - 4) == ".txt"@ && name[0] != '_' {
        Some(lowercase(stem))
    } else {
        None
    }
}

/// The limits in the files from `i` on, by type.
pub open spec fn types_from(files: Seq<(Seq<char>, Seq<char>)>, i: int) -> Seq<
    (Seq<char>, VerticalLimits),
>
    decreases files.len() - i,
{
    if i < 0 || i >= files.len() {
        Seq::empty()
    } else {
        let (name, content) = files[i];
        match (wrap_type(name), limits_in(content)) {
            (Some(key), Some(limits)) => seq![(key, limits)] + types_from(files, i + 1),
            _ => types_from(files, i + 1),
        }
    }
}

/// A row "orig,new" of the synonym table, in lower case and without blanks around
/// the names; anything after a second comma is left out.
pub open spec fn synonym_row(line: Seq<char>) -> Option<(Seq<char>, Seq<char>)> {
    if index_of(line, ',') < line.len() {
        Some(
            (
                lowercase(trim(before(line, ','))),
                lowercase(trim(before(after(line, ','), ','))),
            ),
        )
    } else {
        None
    }
}

/// The rows on the lines from `i` on.
pub open spec fn synonyms_from(ls: Seq<Seq<char>>, i: int) -> Seq<(Seq<char>, Seq<char>)>
    decreases ls.len() - i,
{
    if i < 0 || i >= ls.len() {
        Seq::empty()
    } else {
        match synonym_row(ls[i]) {
            Some(row) => seq![row] + synonyms_from(ls, i + 1),
            None => synonyms_from(ls, i + 1),
        }
    }
}

/// The synonym table: its first line is a header.
pub open spec fn synonym_table(content: Seq<char>) -> Seq<(Seq<char>, Seq<char>)> {
    synonyms_from(lines(content), 1)
}

impl WrapPerformance {
    /// Limits by type.
    pub closed spec fn types(&self) -> Seq<(Seq<char>, VerticalLimits)> {
        type_views(self.by_type@)
    }

    /// Types that another stands for.
    pub closed spec fn aliases(&self) -> Seq<(Seq<char>, Seq<char>)> {
        synonym_views(self.synonyms@)
    }

    pub closed spec fn default_rate(&self) -> i64 {
        self.default_rate_fpm
    }

    /// Take the limits from the files of a directory, and from its synonym table
    /// where it has one.
    pub fn load(
        files: &Vec<WrapFile>,
        synonyms: Option<&str>,
        default_rate_fpm: i64,
    ) -> (r: Result<Self, NoWrapData>)
        ensures
            ({
                let types = types_from(file_views(files@), 0);
                match r {
                    Ok(w) => types.len() > 0 && w.types() == types && w.default_rate()
                        == default_rate_fpm && w.aliases() == (match synonyms {
                        Some(content) => synonym_table(content@),
                        None => Seq::empty(),
                    }),
                    Err(_) => types.len() == 0,
                }
            }),
    {
        let by_type = read_types(files);
        if by_type.len() == 0 {
            return Err(NoWrapData);
        }
        let synonyms = match synonyms {
            Some(content) => load_synonyms(content),
            None => {
                let none: Vec<Synonym> = Vec::new();
                proof {
                    assert(synonym_views(none@) =~= Seq::empty());
                }
                none
            },
        };
        Ok(WrapPerformance { by_type, synonyms, default_rate_fpm })
    }
}

impl PerformanceModel for WrapPerformance {
    /// The limits of the type itself, else of the type that stands for it, else
    /// the default rate at every altitude.
    open spec fn limits_for(&self, icao_type: Seq<char>) -> VerticalLimits {
        let key = lowercase(icao_type);
        match lookup(self.types(), key) {
            Some(limits) => limits,
            None => match lookup(self.aliases(), key) {
                Some(target) => match lookup(self.types(), target) {
                    Some(limits) => limits,
                    None => VerticalLimits::constant(self.default_rate()),
                },
                None => VerticalLimits::constant(self.default_rate()),
            },
        }
    }

    fn vertical_limits(&self, icao_type: &str) -> (r: VerticalLimits) {
        let name = chars_of(icao_type);
        let key = lowercase_of(name.as_slice());
        if let Some(limits) = find_limits(&self.by_type, key.as_slice()) {
            return limits;
        }
        if let Some(target) = find_synonym(&self.synonyms, key.as_slice()) {
            if let Some(limits) = find_limits(&self.by_type, target) {
                return limits;
            }
        }
        VerticalLimits::flat(self.default_rate_fpm)
    }
}

fn find_limits(entries: &Vec<TypeLimits>, key: &[char]) -> (r: Option<VerticalLimits>)
    ensures
        r == lookup(type_views(entries@), key@),
{
    let ghost g = type_views(entries@);
    let mut n: usize = entries.len();
    proof {
        assert(g.take(n as int) =~= g);
    }
    while n > 0
        invariant
            g == type_views(entries@),
            n <= entries@.len(),
            lookup(g.take(n as int), key@) == lookup(g, key@),
        decreases n,
    {
        proof {
            assert(g.take(n as int).drop_last() =~= g.take(n - 1));
            assert(g.take(n as int).last() == g[n - 1]);
        }
        n -= 1;
        if same_chars(entries[n].key.as_slice(), key) {
            return Some(entries[n].limits);
        }
    }
    None
}

fn find_synonym<'a>(entries: &'a Vec<Synonym>, key: &[char]) -> (r: Option<&'a [char]>)
    ensures
        match r {
            Some(t) => lookup(synonym_views(entries@), key@) == Some(t@),
            None => lookup(synonym_views(entries@), key@) is None,
        },
{
    let ghost g = synonym_views(entries@);
    let mut n: usize = entries.len();
    proof {
        assert(g.take(n as int) =~= g);
    }
    while n > 0
        invariant
            g == synonym_views(entries@),
            n <= entries@.len(),
            lookup(g.take(n as int), key@) == lookup(g, key@),
        decreases n,
    {
        proof {
            assert(g.take(n as int).drop_last() =~= g.take(n - 1));
            assert(g.take(n as int).last() == g[n - 1]);
        }
        n -= 1;
        if same_chars(entries[n].key.as_slice(), key) {
            return Some(entries[n].target.as_slice());
        }
    }
    None
}

/// The type that a file of the directory is about, if it is about one.
pub fn wrap_key(name: &str) -> (r: Option<Vec<char>>)
    ensures
        match r {
            Some(key) => wrap_type(name@) == Some(key@),
            None => wrap_type(name@) is None,
        },
{
    let chars = chars_of(name);
    let n: usize = chars.len();
    if n <= 4 || chars[0] == '_' {
        return None;
    }
    let s: &[char] = chars.as_slice();
    let end: &[char] = slice_subrange(s, n - 4, n);
    proof {
        assert(end@ =~= name@.skip(n - 4));
    }
    if !same_chars(end, chars_of(".txt").as_slice()) {
        return None;
    }
    let stem: &[char] = slice_subrange(s, 0, n - 4);
    proof {
        assert(stem@ =~= name@.take(n - 4));
    }
    Some(lowercase_of(stem))
}

fn read_types(files: &Vec<WrapFile>) -> (r: Vec<TypeLimits>)
    ensures
        type_views(r@) == types_from(file_views(files@), 0),
{
    let ghost g = file_views(files@);
    let mut out: Vec<TypeLimits> = Vec::new();
    let mut i: usize = 0;
    proof {
        assert(type_views(out@) + types_from(g, 0) =~= types_from(g, 0));
    }
    while i < files.len()
        invariant
            g == file_views(files@),
            i <= files@.len(),
            type_views(out@) + types_from(g, i as int) == types_from(g, 0),
        decreases files@.len() - i,
    {
        let file: &WrapFile = &files[i];
        proof {
            assert(g[i as int] == (file.name@, file.content@));
        }
        match (wrap_key(file.name.as_str()), parse_vertical_limits(file.content.as_str())) {
            (Some(key), Some(limits)) => {
                let e = TypeLimits { key, limits };
                proof {
                    assert(type_views(out@.push(e)) =~= type_views(out@).push((key@, limits)));
                    assert(type_views(out@) + (seq![(key@, limits)] + types_from(g, i + 1))
                        =~= type_views(out@).push((key@, limits)) + types_from(g, i + 1));
                }
                out.push(e);
            },
            _ => {},
        }
        i += 1;
    }
    proof {
        assert(type_views(out@) + types_from(g, i as int) =~= type_views(out@));
    }
    out
}

fn parse_synonym_row(line: &[char]) -> (r: Option<Synonym>)
    ensures
        match r {
            Some(e) => synonym_row(line@) == Some((e.key@, e.target@)),
            None => synonym_row(line@) is None,
        },
{
    let n: usize = position(line, ',');
    if n >= line.len() {
        return None;
    }
    let orig: &[char] = slice_subrange(line, 0, n);
    let rest: &[char] = slice_subrange(line, n + 1, line.len());
    let m: usize = position(rest, ',');
    let new: &[char] = slice_subrange(rest, 0, m);
    proof {
        assert(orig@ =~= before(line@, ','));
        assert(rest@ =~= after(line@, ','));
        assert(new@ =~= before(rest@, ','));
    }
    Some(Synonym { key: lowercase_of(trimmed(orig)), target: lowercase_of(trimmed(new)) })
}

/// Read the synonym table ("orig,new" rows under a header).
pub fn load_synonyms(content: &str) -> (r: Vec<Synonym>)
    ensures
        synonym_views(r@) == synonym_table(content@),
{
    let chars = chars_of(content);
    let ls = lines_of(chars.as_slice());
    let ghost g = texts(ls@);
    let mut out: Vec<Synonym> = Vec::new();
    let mut i: usize = 1;
    proof {
        assert(synonym_views(out@) + synonyms_from(g, 1) =~= synonyms_from(g, 1));
    }
    while i < ls.len()
        invariant
            g == texts(ls@),
            1 <= i,
            synonym_views(out@) + synonyms_from(g, i as int) == synonyms_from(g, 1),
        decreases ls@.len() - i,
    {
        match parse_synonym_row(ls[i].as_slice()) {
            Some(e) => {
                let ghost row = (e.key@, e.target@);
                proof {
                    assert(synonym_views(out@.push(e)) =~= synonym_views(out@).push(row));
                    assert(synonym_views(out@) + (seq![row] + synonyms_from(g, i + 1))
                        =~= synonym_views(out@).push(row) + synonyms_from(g, i + 1));
                }
                out.push(e);
            },
            None => {},
        }
        i += 1;
    }
    proof {
        assert(synonym_views(out@) + synonyms_from(g, i as int) =~= synonym_views(out@));
    }
    out
}

/// A type without data of its own has the default limits at every altitude,
/// unless another stands for it.
pub proof fn unknown_type_has_default(w: WrapPerformance, icao_type: Seq<char>, altitude_ft: i64)
    requires
        lookup(w.types(), lowercase(icao_type)) is None,
        lookup(w.aliases(), lowercase(icao_type)) is None,
    ensures
        w.limits_for(icao_type).climb_at(altitude_ft) == Reading::Value(w.default_rate()),
        w.limits_for(icao_type).descent_at(altitude_ft) == Reading::Value(w.default_rate()),
{
}

/// The case of a type does not matter.
pub proof fn type_case_is_ignored(w: WrapPerformance, a: Seq<char>, b: Seq<char>)
    requires
        lowercase(a) == lowercase(b),
    ensures
        w.limits_for(a) == w.limits_for(b),
{
}

} // verus!
