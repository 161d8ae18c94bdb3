//! Numbers in text, and quantities in fixed point.
//!
//! A quantity is an integer that counts millionths of its unit (knots, feet,
//! degrees, seconds); angles of position and distances count billionths, of a
//! minute of arc and of a nautical mile.

use crate::text::{digit, is_digit, lower, lowercase, lowercase_of, position, same_chars};
use crate::text::{chars_of, index_of, lemma_index_of, lemma_index_of_unique};
use vstd::arithmetic::power::{lemma_pow_increases, lemma_pow_positive, pow};
use vstd::prelude::*;
use vstd::slice::{slice_subrange, slice_to_vec};

verus! {

/// Millionths in one.
pub const MICRO: i64 = 1_000_000;

/// Billionths in one.
pub const NANO: i64 = 1_000_000_000;

/// Bound on a quantity in millionths: a hundred billion units.
pub const READING_LIMIT: i64 = 100_000_000_000_000_000;

/// Bound on a position or a distance in billionths: a hundred thousand units.
pub const SPAN_LIMIT: i64 = 100_000_000_000_000;

/// Whether a quantity in millionths is within its bound.
pub open spec fn is_reading(v: int) -> bool {
    -READING_LIMIT <= v <= READING_LIMIT
}

/// The value of a digit, ten and more written with letters of either case.
pub open spec fn digit_value(c: char) -> nat {
    if is_digit(c) {
        (c as u32 - '0' as u32) as nat
    } else if 'a' <= lower(c) && lower(c) <= 'z' {
        (lower(c) as u32 - 'a' as u32 + 10) as nat
    } else {
        36
    }
}

/// Whether a text is made of one or more digits of a radix.
pub open spec fn is_numeral(s: Seq<char>, radix: nat) -> bool {
    s.len() > 0 && forall|i: int| 0 <= i < s.len() ==> digit_value(#[trigger] s[i]) < radix
}

/// The value of a text of digits.
pub open spec fn value(s: Seq<char>, radix: nat) -> nat
    decreases s.len(),
{
    if s.len() == 0 {
        0
    } else {
        value(s.drop_last(), radix) * radix + digit_value(s.last())
    }
}

pub open spec fn strip_plus(s: Seq<char>) -> Seq<char> {
    if s.len() > 0 && s[0] == '+' {
        s.drop_first()
    } else {
        s
    }
}

/// An unsigned integer of at most `max` in text: digits, with or without a
/// plus sign before them.
pub open spec fn unsigned(s: Seq<char>, radix: nat, max: nat) -> Option<nat> {
    let digits = strip_plus(s);
    if is_numeral(digits, radix) && value(digits, radix) <= max {
        Some(value(digits, radix))
    } else {
        None
    }
}

/// A number in text.
pub enum Number {
    NotANumber,
    Infinite { negative: bool },
    /// The mantissa times ten to the exponent.
    Finite { negative: bool, mantissa: nat, exponent: int },
}

pub open spec fn strip_sign(s: Seq<char>) -> Seq<char> {
    if s.len() > 0 && (s[0] == '+' || s[0] == '-') {
        s.drop_first()
    } else {
        s
    }
}

pub open spec fn is_negative(s: Seq<char>) -> bool {
    s.len() > 0 && s[0] == '-'
}

/// Digits before and after the point of a mantissa, with the point or without.
pub open spec fn integer_digits(s: Seq<char>) -> Seq<char> {
    s.take(index_of(s, '.'))
}

pub open spec fn fraction_digits(s: Seq<char>) -> Seq<char> {
    if index_of(s, '.') < s.len() {
        s.skip(index_of(s, '.') + 1)
    } else {
        Seq::empty()
    }
}

/// Index of the letter that starts the exponent, the length of `s` if none does.
pub open spec fn exponent_mark(s: Seq<char>) -> int {
    index_of(lowercase(s), 'e')
}

pub open spec fn exponent_value(s: Seq<char>) -> Option<int> {
    let mark = exponent_mark(s);
    if mark == s.len() {
        Some(0)
    } else {
        let e = s.skip(mark + 1);
        if is_numeral(strip_sign(e), 10) {
            let n = value(strip_sign(e), 10) as int;
            Some(if is_negative(e) { -n } else { n })
        } else {
            None
        }
    }
}

/// Decimal notation without a sign: digits with at most one point among or
/// beside them, then perhaps an exponent.
pub open spec fn magnitude(s: Seq<char>) -> Option<(nat, int)> {
    let mantissa = s.take(exponent_mark(s));
    let digits = integer_digits(mantissa) + fraction_digits(mantissa);
    match exponent_value(s) {
        Some(e) if is_numeral(digits, 10) => Some(
            (value(digits, 10), e - fraction_digits(mantissa).len()),
        ),
        _ => None,
    }
}

/// The number that a text stands for: decimal notation, `inf`, `infinity` or
/// `nan` in letters of either case, with or without a sign.
pub open spec fn number(s: Seq<char>) -> Option<Number> {
    let body = strip_sign(s);
    let negative = is_negative(s);
    if lowercase(body) == "nan"@ {
        Some(Number::NotANumber)
    } else if lowercase(body) == "inf"@ || lowercase(body) == "infinity"@ {
        Some(Number::Infinite { negative })
    } else {
        match magnitude(body) {
            Some((mantissa, exponent)) => Some(Number::Finite { negative, mantissa, exponent }),
            None => None,
        }
    }
}

/// `m` times ten to the `e`, less the part after the point.
pub open spec fn shifted(m: nat, e: int) -> nat
    decreases
            (if e < 0 {
                -e
            } else {
                e
            }),
{
    if e > 0 {
        shifted(m * 10, e - 1)
    } else if e < 0 {
        shifted(m / 10, e + 1)
    } else {
        m
    }
}

pub open spec fn at_most(n: int, limit: int) -> int {
    if n <= limit {
        n
    } else {
        limit
    }
}

/// A number held at the ends of a 32-bit integer.
pub open spec fn clamped(n: int) -> int {
    if n > i32::MAX {
        i32::MAX as int
    } else if n < i32::MIN {
        i32::MIN as int
    } else {
        n
    }
}

/// A number held at the ends of a 32-bit integer.
pub fn clamp_to_i32(n: i128) -> (r: i32)
    ensures
        r == clamped(n as int),
{
    if n > i32::MAX as i128 {
        i32::MAX
    } else if n < i32::MIN as i128 {
        i32::MIN
    } else {
        n as i32
    }
}

pub open spec fn signed(negative: bool, n: int) -> int {
    if negative {
        -n
    } else {
        n
    }
}

/// The number that a text stands for, in fixed point: its first `places`
/// decimals, the rest dropped, and held at `limit` where it is larger. A text
/// that stands for no number, `nan` among them, has none.
pub open spec fn fixed_point(s: Seq<char>, places: int, limit: int) -> Option<int> {
    match number(s) {
        Some(Number::Finite { negative, mantissa, exponent }) => Some(
            signed(negative, at_most(shifted(mantissa, exponent + places) as int, limit)),
        ),
        Some(Number::Infinite { negative }) => Some(signed(negative, limit)),
        _ => None,
    }
}

/// A quantity as it is written down: in fixed point, infinite, or not a number.
#[derive(Debug, Clone, Copy, PartialEq, Eq, Structural)]
pub enum Reading {
    NotANumber,
    Infinite { negative: bool },
    Value(i64),
}

impl Reading {
    /// Whether a value, if it is one, is at most `limit` from zero.
    pub open spec fn within(self, limit: int) -> bool {
        self matches Reading::Value(v) ==> -limit <= v <= limit
    }
}

/// The quantity that a text stands for, `nan` and `inf` among them.
pub open spec fn written(s: Seq<char>, places: int, limit: int) -> Option<Reading> {
    match (number(s), narrowed(fixed_point(s, places, limit))) {
        (Some(Number::NotANumber), _) => Some(Reading::NotANumber),
        (Some(Number::Infinite { negative }), _) => Some(Reading::Infinite { negative }),
        (_, Some(v)) => Some(Reading::Value(v)),
        _ => None,
    }
}

/// A quantity in text, in millionths.
pub open spec fn reading(s: Seq<char>) -> Option<i64> {
    narrowed(fixed_point(s, 6, READING_LIMIT as int))
}

pub open spec fn narrowed(v: Option<int>) -> Option<i64> {
    match v {
        Some(n) => Some(n as i64),
        None => None,
    }
}

proof fn lemma_shift_cap(m: nat, e: int, limit: nat)
    requires
        e >= 0,
    ensures
        at_most(shifted(at_most(m as int, limit as int) as nat, e) as int, limit as int)
            == at_most(shifted(m, e) as int, limit as int),
        shifted(m, e) >= m,
        m >= 1 ==> shifted(m, e) >= m + e,
        m == 0 ==> shifted(m, e) == 0,
    decreases e,
{
    if e > 0 {
        lemma_shift_cap(m * 10, e - 1, limit);
        let c = at_most(m as int, limit as int) as nat;
        lemma_shift_cap(c * 10, e - 1, limit);
        if m > limit {
            lemma_shift_cap(limit * 10, e - 1, limit);
        }
    }
}

/// Dropping decimals of a numeral drops its last digits.
proof fn lemma_shift_down(s: Seq<char>, k: int)
    requires
        0 <= k,
        forall|i: int| 0 <= i < s.len() ==> digit_value(#[trigger] s[i]) < 10,
    ensures
        k <= s.len() ==> shifted(value(s, 10), -k) == value(s.take(s.len() - k), 10),
        k >= s.len() ==> shifted(value(s, 10), -k) == 0,
    decreases k,
{
    if k == 0 {
        assert(s.take(s.len() as int) =~= s);
    } else if s.len() == 0 {
        lemma_shift_down(s, k - 1);
        assert(s.take(0) =~= s);
    } else {
        let init = s.drop_last();
        let v = value(init, 10);
        let d = digit_value(s.last());
        assert(d < 10);
        assert((v * 10 + d) / 10 == v);
        lemma_shift_down(init, k - 1);
        if k <= s.len() {
            assert(init.take(init.len() - (k - 1)) =~= s.take(s.len() - k));
        }
    }
}

/// Moving the point up multiplies by a power of ten.
proof fn lemma_shift_pow(m: nat, e: nat)
    ensures
        shifted(m, e as int) == m * pow(10, e),
    decreases e,
{
    reveal(pow);
    if e > 0 {
        lemma_shift_pow(m * 10, (e - 1) as nat);
        let p = pow(10, (e - 1) as nat);
        assert((m * 10) * p == m * (10 * p)) by (nonlinear_arith);
    } else {
        assert(m * 1 == m);
    }
}

proof fn lemma_value_bounded(s: Seq<char>)
    requires
        forall|i: int| 0 <= i < s.len() ==> digit_value(#[trigger] s[i]) < 10,
    ensures
        value(s, 10) < pow(10, s.len()),
    decreases s.len(),
{
    reveal(pow);
    if s.len() > 0 {
        lemma_value_bounded(s.drop_last());
    }
}

/// A text of up to nine digits and points has a value in billionths that is
/// exact: no digit is dropped, and it is far from the largest.
pub proof fn lemma_short_decimal(s: Seq<char>)
    requires
        s.len() <= 9,
        forall|i: int| 0 <= i < s.len() ==> is_digit(#[trigger] s[i]) || s[i] == '.',
    ensures
        fixed_point(s, 9, i64::MAX as int) == (match magnitude(s) {
            Some((m, e)) => Some((m * pow(10, (e + 9) as nat)) as int),
            None => None,
        }),
        magnitude(s) matches Some((m, e)) ==> -9 <= e <= 0,
{
    let small = lowercase(s);
    assert forall|i: int| 0 <= i < s.len() implies #[trigger] small[i] != 'e' by {
        assert(is_digit(s[i]) || s[i] == '.');
    }
    assert(small.len() == s.len());
    lemma_index_of_unique(small, 'e', s.len() as int);
    reveal_strlit("nan");
    reveal_strlit("inf");
    reveal_strlit("infinity");
    if s.len() > 0 {
        assert(is_digit(s[0]) || s[0] == '.');
        assert(small[0] == s[0]);
    }
    assert("nan"@[0] == 'n' && "inf"@[0] == 'i' && "infinity"@[0] == 'i');
    assert(strip_sign(s) == s);
    assert(!is_negative(s));
    let mantissa = s.take(exponent_mark(s));
    assert(mantissa =~= s);
    lemma_index_of(s, '.');
    let digits = integer_digits(s) + fraction_digits(s);
    if let Some((m, e)) = magnitude(s) {
        assert(is_numeral(digits, 10));
        lemma_value_bounded(digits);
        lemma_shift_pow(m, (e + 9) as nat);
        assert(digits.len() <= 9);
        let (a, b) = (digits.len(), (e + 9) as nat);
        lemma_pow_increases(10, a, 9);
        lemma_pow_increases(10, b, 9);
        assert(pow(10, 9) == 1_000_000_000) by {
            reveal_with_fuel(pow, 10);
        }
        let (p, q) = (pow(10, a), pow(10, b));
        lemma_pow_positive(10, b);
        assert(m * q <= 1_000_000_000 * 1_000_000_000) by (nonlinear_arith)
            requires
                0 <= m < p <= 1_000_000_000,
                0 <= q <= 1_000_000_000,
        ;
        assert(0 <= m * q) by (nonlinear_arith)
            requires
                0 <= m,
                0 <= q,
        ;
    }
}

pub fn decimal_digit(c: char) -> (r: u64)
    requires
        is_digit(c),
    ensures
        r == digit_value(c),
        r < 10,
{
    (c as u32 - '0' as u32) as u64
}

/// Whether a text is made of one or more decimal digits.
pub fn numeral(s: &[char]) -> (r: bool)
    ensures
        r == is_numeral(s@, 10),
{
    if s.len() == 0 {
        return false;
    }
    let mut i: usize = 0;
    while i < s.len()
        invariant
            i <= s@.len(),
            forall|j: int| 0 <= j < i ==> digit_value(#[trigger] s@[j]) < 10,
        decreases s@.len() - i,
    {
        if !digit(s[i]) {
            assert(digit_value(s@[i as int]) >= 10);
            return false;
        }
        i += 1;
    }
    true
}

/// The value of a text of decimal digits, held at `limit` where it is larger.
fn value_at_most(s: &[char], limit: u128) -> (r: u128)
    requires
        forall|i: int| 0 <= i < s@.len() ==> digit_value(#[trigger] s@[i]) < 10,
        limit <= 0x1_0000_0000_0000_0000_0000_0000,
    ensures
        r == at_most(value(s@, 10) as int, limit as int),
{
    let mut v: u128 = 0;
    let mut i: usize = 0;
    proof {
        assert(s@.take(0) =~= Seq::<char>::empty());
    }
    while i < s.len()
        invariant
            i <= s@.len(),
            forall|j: int| 0 <= j < s@.len() ==> digit_value(#[trigger] s@[j]) < 10,
            limit <= 0x1_0000_0000_0000_0000_0000_0000,
            v == at_most(value(s@.take(i as int), 10) as int, limit as int),
        decreases s@.len() - i,
    {
        proof {
            assert(s@.take(i + 1).drop_last() =~= s@.take(i as int));
            assert(digit_value(s@[i as int]) < 10);
        }
        let d: u64 = decimal_digit(s[i]);
        v = v * 10 + d as u128;
        if v > limit {
            v = limit;
        }
        i += 1;
    }
    proof {
        assert(s@.take(i as int) =~= s@);
    }
    v
}

/// The unsigned decimal integer of at most `max` that a text stands for.
pub fn parse_unsigned(s: &[char], max: u64) -> (r: Option<u64>)
    ensures
        match r {
            Some(n) => unsigned(s@, 10, max as nat) == Some(n as nat),
            None => unsigned(s@, 10, max as nat) is None,
        },
{
    let mut digits: &[char] = s;
    if s.len() > 0 && s[0] == '+' {
        digits = slice_subrange(s, 1, s.len());
        proof {
            assert(digits@ =~= s@.drop_first());
        }
    }
    if !numeral(digits) {
        return None;
    }
    let v: u128 = value_at_most(digits, max as u128 + 1);
    if v > max as u128 {
        None
    } else {
        Some(v as u64)
    }
}

/// A text of decimal digits with its point moved by `e` places, the digits past
/// the point dropped, held at `limit` where it is larger.
fn shift_digits(s: &[char], e: i128, limit: u64) -> (r: u64)
    requires
        forall|i: int| 0 <= i < s@.len() ==> digit_value(#[trigger] s@[i]) < 10,
        -0x100_0000_0000_0000_0000 <= e <= 0x100_0000_0000_0000_0000,
    ensures
        r == at_most(shifted(value(s@, 10), e as int) as int, limit as int),
{
    if e < 0 {
        let k: u128 = (-e) as u128;
        proof {
            lemma_shift_down(s@, k as int);
        }
        if k >= s.len() as u128 {
            return 0;
        }
        let kept: usize = s.len() - k as usize;
        proof {
            assert(s@.subrange(0, kept as int) =~= s@.take(s@.len() - k));
        }
        return value_at_most(slice_subrange(s, 0, kept), limit as u128) as u64;
    }
    let mut v: u128 = value_at_most(s, limit as u128);
    let mut left: u128 = e as u128;
    proof {
        lemma_shift_cap(value(s@, 10), e as int, limit as nat);
    }
    while left > 0 && v > 0 && v < limit as u128
        invariant
            v <= limit,
            left <= 0x100_0000_0000_0000_0000,
            at_most(shifted(v as nat, left as int) as int, limit as int) == at_most(
                shifted(value(s@, 10), e as int) as int,
                limit as int,
            ),
        decreases left,
    {
        let ghost grown = (v * 10) as nat;
        proof {
            lemma_shift_cap(grown, left - 1, limit as nat);
        }
        v = v * 10;
        if v > limit as u128 {
            v = limit as u128;
        }
        left = left - 1;
    }
    proof {
        lemma_shift_cap(v as nat, left as int, limit as nat);
    }
    v as u64
}

/// Exponents past this bound all shift a machine's worth of digits out of range.
const EXPONENT_CAP: u128 = 0x10_0000_0000_0000_0000;

/// The number that a text stands for, in fixed point.
pub fn parse_fixed(s: &[char], places: u8, limit: i64) -> (r: Option<i64>)
    requires
        limit >= 0,
    ensures
        r == narrowed(fixed_point(s@, places as int, limit as int)),
        r matches Some(n) ==> -limit <= n <= limit && fixed_point(
            s@,
            places as int,
            limit as int,
        ) == Some(n as int),
{
    let mut body: &[char] = s;
    let mut negative: bool = false;
    if s.len() > 0 && (s[0] == '+' || s[0] == '-') {
        negative = s[0] == '-';
        body = slice_subrange(s, 1, s.len());
        proof {
            assert(body@ =~= s@.drop_first());
        }
    }
    let small = lowercase_of(body);
    if same_chars(small.as_slice(), chars_of("nan").as_slice()) {
        return None;
    }
    if same_chars(small.as_slice(), chars_of("inf").as_slice()) || same_chars(
        small.as_slice(),
        chars_of("infinity").as_slice(),
    ) {
        return Some(
            if negative {
                -limit
            } else {
                limit
            },
        );
    }
    match parse_magnitude(body, small.as_slice(), places, limit as u64) {
        Some(n) => Some(
            if negative {
                -(n as i64)
            } else {
                n as i64
            },
        ),
        None => None,
    }
}

/// The quantity that a text stands for, `nan` and `inf` among them.
pub fn parse_written(s: &[char], places: u8, limit: i64) -> (r: Option<Reading>)
    requires
        limit >= 0,
    ensures
        r == written(s@, places as int, limit as int),
        r matches Some(q) ==> q.within(limit as int),
{
    let mut body: &[char] = s;
    let mut negative: bool = false;
    if s.len() > 0 && (s[0] == '+' || s[0] == '-') {
        negative = s[0] == '-';
        body = slice_subrange(s, 1, s.len());
        proof {
            assert(body@ =~= s@.drop_first());
        }
    }
    let small = lowercase_of(body);
    if same_chars(small.as_slice(), chars_of("nan").as_slice()) {
        return Some(Reading::NotANumber);
    }
    if same_chars(small.as_slice(), chars_of("inf").as_slice()) || same_chars(
        small.as_slice(),
        chars_of("infinity").as_slice(),
    ) {
        return Some(Reading::Infinite { negative });
    }
    match parse_fixed(s, places, limit) {
        Some(v) => Some(Reading::Value(v)),
        None => None,
    }
}

/// Decimal notation without a sign, in fixed point.
fn parse_magnitude(s: &[char], small: &[char], places: u8, limit: u64) -> (r: Option<u64>)
    requires
        small@ == lowercase(s@),
        limit <= i64::MAX,
    ensures
        match r {
            Some(n) => magnitude(s@) matches Some((m, e)) && n == at_most(
                shifted(m, e + places) as int,
                limit as int,
            ),
            None => magnitude(s@) is None,
        },
        r matches Some(n) ==> n <= limit,
{
    let mark: usize = position(small, 'e');
    let mantissa: &[char] = slice_subrange(s, 0, mark);
    proof {
        assert(mantissa@ =~= s@.take(exponent_mark(s@)));
        lemma_index_of(mantissa@, '.');
    }
    let point: usize = position(mantissa, '.');
    let mut digits: Vec<char> = slice_to_vec(slice_subrange(mantissa, 0, point));
    let mut decimals: usize = 0;
    if point < mantissa.len() {
        let fraction: &[char] = slice_subrange(mantissa, point + 1, mantissa.len());
        decimals = fraction.len();
        let mut tail: Vec<char> = slice_to_vec(fraction);
        digits.append(&mut tail);
        proof {
            assert(fraction@ =~= fraction_digits(mantissa@));
        }
    }
    proof {
        assert(mantissa@.subrange(0, point as int) =~= integer_digits(mantissa@));
        assert(digits@ =~= integer_digits(mantissa@) + fraction_digits(mantissa@));
    }
    if !numeral(digits.as_slice()) {
        return None;
    }
    let mut e: i128 = 0;
    let ghost mut true_e: int = 0;
    if mark < s.len() {
        let mut exponent: &[char] = slice_subrange(s, mark + 1, s.len());
        let mut down: bool = false;
        proof {
            assert(exponent@ =~= s@.skip(mark + 1));
        }
        let ghost exponent_text = exponent@;
        if exponent.len() > 0 && (exponent[0] == '+' || exponent[0] == '-') {
            down = exponent[0] == '-';
            let rest: &[char] = slice_subrange(exponent, 1, exponent.len());
            proof {
                assert(rest@ =~= exponent@.drop_first());
            }
            exponent = rest;
        }
        if !numeral(exponent) {
            return None;
        }
        let n: u128 = value_at_most(exponent, EXPONENT_CAP);
        proof {
            true_e = signed(down, value(exponent@, 10) as int);
            assert(exponent_value(s@) == Some(true_e));
        }
        e = if down {
            -(n as i128)
        } else {
            n as i128
        };
    }
    let shift: i128 = e - decimals as i128 + places as i128;
    proof {
        assert(magnitude(s@) == Some((value(digits@, 10), true_e - decimals)));
        let exact = true_e - decimals + places;
        let m = value(digits@, 10);
        if e != true_e {
            if e > 0 {
                lemma_shift_cap(m, shift as int, limit as nat);
                lemma_shift_cap(m, exact, limit as nat);
            } else {
                lemma_shift_down(digits@, -shift as int);
                lemma_shift_down(digits@, -exact);
            }
        }
        assert(at_most(shifted(m, shift as int) as int, limit as int) == at_most(
            shifted(m, exact) as int,
            limit as int,
        ));
    }
    Some(shift_digits(digits.as_slice(), shift, limit))
}

/// A quantity in text, in millionths.
pub fn parse_reading(s: &[char]) -> (r: Option<i64>)
    ensures
        r == reading(s@),
        r matches Some(n) ==> is_reading(n as int),
{
    parse_fixed(s, 6, READING_LIMIT)
}

/// The digit that stands for `d`, a letter in lower case from ten on.
pub open spec fn digit_char(d: int) -> char {
    if d < 10 {
        (('0' as u32 + d) as u32) as char
    } else {
        (('a' as u32 + d - 10) as u32) as char
    }
}

/// `n` written in a radix.
pub open spec fn rendered(n: nat, radix: nat) -> Seq<char>
    decreases n,
{
    if radix < 2 || n < radix {
        seq![digit_char(n as int)]
    } else {
        proof {
            assert(n / radix < n) by (nonlinear_arith)
                requires
                    2 <= radix <= n,
            ;
        }
        rendered(n / radix, radix).push(digit_char((n % radix) as int))
    }
}

pub open spec fn zeros(k: nat) -> Seq<char> {
    Seq::new(k, |i: int| '0')
}

/// A text with zeros before it, `width` characters long at the least.
pub open spec fn zero_padded(s: Seq<char>, width: int) -> Seq<char> {
    if s.len() >= width {
        s
    } else {
        zeros((width - s.len()) as nat) + s
    }
}

proof fn lemma_digit_char(d: int, radix: nat)
    requires
        0 <= d < radix <= 16,
    ensures
        digit_value(digit_char(d)) == d,
        digit_char(d) != '+',
{
}

/// A rendered number, with zeros before it or without, reads back as itself.
pub proof fn lemma_rendered_value(n: nat, radix: nat, width: int)
    requires
        2 <= radix <= 16,
    ensures
        is_numeral(zero_padded(rendered(n, radix), width), radix),
        value(zero_padded(rendered(n, radix), width), radix) == n,
        zero_padded(rendered(n, radix), width)[0] != '+',
        forall|max: nat|
            n <= max ==> #[trigger] unsigned(
                zero_padded(rendered(n, radix), width),
                radix,
                max,
            ) == Some(n),
{
    lemma_rendered(n, radix);
    let s = rendered(n, radix);
    if s.len() < width {
        lemma_leading_zeros(s, (width - s.len()) as nat, radix);
    }
}

proof fn lemma_rendered(n: nat, radix: nat)
    requires
        2 <= radix <= 16,
    ensures
        is_numeral(rendered(n, radix), radix),
        value(rendered(n, radix), radix) == n,
        rendered(n, radix)[0] != '+',
    decreases n,
{
    if n < radix {
        lemma_digit_char(n as int, radix);
        let s = seq![digit_char(n as int)];
        assert(s.drop_last() =~= Seq::<char>::empty());
        assert(value(s.drop_last(), radix) == 0);
        assert(0 * radix == 0);
    } else {
        let q = n / radix;
        let d = (n % radix) as int;
        assert(q < n) by (nonlinear_arith)
            requires
                q == n / radix,
                2 <= radix <= n,
        ;
        lemma_rendered(q, radix);
        lemma_digit_char(d, radix);
        let s = rendered(n, radix);
        assert(s.drop_last() =~= rendered(q, radix));
        assert(q * radix + d == n) by (nonlinear_arith)
            requires
                q == n / radix,
                d == n % radix,
                2 <= radix,
        ;
        assert(s[0] == rendered(q, radix)[0]);
        assert forall|i: int| 0 <= i < s.len() implies digit_value(#[trigger] s[i]) < radix by {
            if i < s.len() - 1 {
                assert(s[i] == rendered(q, radix)[i]);
            }
        }
    }
}

proof fn lemma_leading_zeros(s: Seq<char>, k: nat, radix: nat)
    requires
        is_numeral(s, radix),
    ensures
        value(zeros(k) + s, radix) == value(s, radix),
        is_numeral(zeros(k) + s, radix),
    decreases s.len(),
{
    let z = zeros(k) + s;
    assert(z.last() == s.last());
    assert(z.drop_last() =~= zeros(k) + s.drop_last());
    assert(digit_value(s[0]) < radix);
    assert forall|i: int| 0 <= i < z.len() implies digit_value(#[trigger] z[i]) < radix by {
        if i >= k {
            assert(z[i] == s[i - k]);
        }
    }
    if s.len() == 1 {
        lemma_zeros(k, radix);
        assert(z.drop_last() =~= zeros(k));
        assert(s.drop_last() =~= Seq::<char>::empty());
        assert(value(z.drop_last(), radix) == 0);
        assert(value(s.drop_last(), radix) == 0);
        assert(value(z, radix) == 0 * radix + digit_value(s.last()));
        assert(value(s, radix) == 0 * radix + digit_value(s.last()));
    } else {
        lemma_leading_zeros(s.drop_last(), k, radix);
    }
}

proof fn lemma_zeros(k: nat, radix: nat)
    ensures
        value(zeros(k), radix) == 0,
    decreases k,
{
    if k > 0 {
        lemma_zeros((k - 1) as nat, radix);
        assert(zeros(k).drop_last() =~= zeros((k - 1) as nat));
        assert(0 * radix == 0);
    }
}

fn digit_of(d: u64) -> (r: char)
    requires
        d < 16,
    ensures
        r == digit_char(d as int),
{
    if d < 10 {
        (48 + d as u8) as char
    } else {
        (97 + (d as u8 - 10)) as char
    }
}

/// `n` written in a radix.
pub fn render(n: u64, radix: u64) -> (r: Vec<char>)
    requires
        2 <= radix <= 16,
    ensures
        r@ == rendered(n as nat, radix as nat),
    decreases n,
{
    if n < radix {
        let mut v: Vec<char> = Vec::new();
        v.push(digit_of(n));
        proof {
            assert(v@ =~= rendered(n as nat, radix as nat));
        }
        v
    } else {
        proof {
            assert(n / radix < n) by (nonlinear_arith)
                requires
                    2 <= radix <= n,
            ;
        }
        let mut v = render(n / radix, radix);
        v.push(digit_of(n % radix));
        v
    }
}

/// A text with zeros before it, `width` characters long at the least.
pub fn pad_zeros(s: Vec<char>, width: usize) -> (r: Vec<char>)
    ensures
        r@ == zero_padded(s@, width as int),
{
    if s.len() >= width {
        return s;
    }
    let k: usize = width - s.len();
    let mut out: Vec<char> = Vec::new();
    while out.len() < k
        invariant
            out@.len() <= k,
            forall|i: int| 0 <= i < out@.len() ==> out@[i] == '0',
        decreases k - out@.len(),
    {
        out.push('0');
    }
    let mut tail = s;
    out.append(&mut tail);
    proof {
        assert(out@ =~= zero_padded(s@, width as int));
    }
    out
}

/// Text without the zeros at its end.
pub open spec fn without_end_zeros(s: Seq<char>) -> Seq<char>
    decreases s.len(),
{
    if s.len() > 0 && s.last() == '0' {
        without_end_zeros(s.drop_last())
    } else {
        s
    }
}

/// A quantity in millionths in decimal notation, as short as it can be.
pub open spec fn decimal_text(v: int) -> Seq<char> {
    let n = if v < 0 { -v } else { v };
    let sign = if v < 0 { seq!['-'] } else { Seq::empty() };
    let whole = rendered((n / 1_000_000) as nat, 10);
    let fraction = without_end_zeros(
        zero_padded(rendered((n % 1_000_000) as nat, 10), 6),
    );
    if fraction.len() == 0 {
        sign + whole
    } else {
        sign + whole + seq!['.'] + fraction
    }
}

/// A quantity in millionths in decimal notation, as short as it can be.
pub fn render_decimal(v: i64) -> (r: Vec<char>)
    ensures
        r@ == decimal_text(v as int),
{
    let n: u64 = if v < 0 {
        (-(v as i128)) as u64
    } else {
        v as u64
    };
    let mut out: Vec<char> = Vec::new();
    if v < 0 {
        out.push('-');
    }
    let mut whole = render(n / 1_000_000, 10);
    out.append(&mut whole);
    let mut fraction = pad_zeros(render(n % 1_000_000, 10), 6);
    let ghost full = fraction@;
    while fraction.len() > 0 && fraction[fraction.len() - 1] == '0'
        invariant
            without_end_zeros(fraction@) == without_end_zeros(full),
        decreases fraction@.len(),
    {
        let ghost longer = fraction@;
        fraction.pop();
        proof {
            assert(fraction@ =~= longer.drop_last());
        }
    }
    if fraction.len() > 0 {
        out.push('.');
        out.append(&mut fraction);
    }
    proof {
        assert(out@ =~= decimal_text(v as int));
    }
    out
}

/// Ten to the `k`.
spec fn ten_to(k: nat) -> nat
    decreases k,
{
    if k == 0 {
        1
    } else {
        10 * ten_to((k - 1) as nat)
    }
}

proof fn lemma_value_concat(a: Seq<char>, b: Seq<char>)
    ensures
        value(a + b, 10) == value(a, 10) * ten_to(b.len()) + value(b, 10),
    decreases b.len(),
{
    if b.len() == 0 {
        assert(a + b =~= a);
        assert(value(a, 10) * 1 == value(a, 10));
        assert(ten_to(0) == 1);
    } else {
        let init = b.drop_last();
        assert((a + b).drop_last() =~= a + init);
        assert((a + b).last() == b.last());
        assert(ten_to(b.len()) == 10 * ten_to(init.len()));
        lemma_value_concat(a, init);
        let (x, y, z) = (value(a, 10), ten_to(init.len()), value(init, 10));
        assert((x * y + z) * 10 == x * (10 * y) + z * 10) by (nonlinear_arith);
    }
}

/// Digits with zeros after them stand for the number shifted up.
proof fn lemma_shift_up(s: Seq<char>, e: nat)
    ensures
        shifted(value(s, 10), e as int) == value(s + zeros(e), 10),
    decreases e,
{
    if e == 0 {
        assert(s + zeros(0) =~= s);
    } else {
        let longer = s.push('0');
        assert(longer.drop_last() =~= s);
        assert(value(longer, 10) == value(s, 10) * 10);
        lemma_shift_up(longer, (e - 1) as nat);
        assert(longer + zeros((e - 1) as nat) =~= s + zeros(e));
    }
}

proof fn lemma_rendered_len(n: nat, k: nat)
    requires
        n < ten_to(k),
        k > 0,
    ensures
        rendered(n, 10).len() <= k,
    decreases k,
{
    if n >= 10 {
        if k == 1 {
            assert(ten_to(1) == 10) by {
                reveal_with_fuel(ten_to, 2);
            }
        }
        lemma_rendered_len(n / 10, (k - 1) as nat);
    }
}

proof fn lemma_end_zeros(s: Seq<char>)
    ensures
        without_end_zeros(s).len() <= s.len(),
        s == without_end_zeros(s) + zeros((s.len() - without_end_zeros(s).len()) as nat),
    decreases s.len(),
{
    if s.len() > 0 && s.last() == '0' {
        let init = s.drop_last();
        lemma_end_zeros(init);
        let t = without_end_zeros(init);
        let k = (init.len() - t.len()) as nat;
        assert(s =~= init.push('0'));
        assert(init.push('0') =~= t + zeros(k + 1));
    } else {
        assert(s + zeros(0) =~= s);
    }
}

proof fn lemma_plain_notation(whole: Seq<char>, fraction: Seq<char>)
    requires
        is_numeral(whole, 10),
        fraction.len() > 0 ==> is_numeral(fraction, 10),
    ensures
        ({
            let s = if fraction.len() == 0 {
                whole
            } else {
                whole + seq!['.'] + fraction
            };
            &&& s.len() > 0
            &&& is_digit(s[0])
            &&& magnitude(s) == Some((value(whole + fraction, 10), -(fraction.len() as int)))
        }),
{
    let s = if fraction.len() == 0 {
        whole
    } else {
        whole + seq!['.'] + fraction
    };
    assert forall|i: int| 0 <= i < s.len() implies (is_digit(#[trigger] s[i]) || s[i] == '.') && (
    s[i] == '.' ==> i == whole.len()) by {
        if i < whole.len() {
            assert(digit_value(whole[i]) < 10);
        } else if i > whole.len() {
            assert(digit_value(fraction[i - whole.len() - 1]) < 10);
        }
    }
    assert(digit_value(whole[0]) < 10);
    assert(s[0] == whole[0]);
    let small = lowercase(s);
    assert forall|i: int| 0 <= i < small.len() implies #[trigger] small[i] != 'e' by {
        assert(is_digit(s[i]) || s[i] == '.');
    }
    lemma_index_of_unique(small, 'e', small.len() as int);
    assert(s.take(s.len() as int) =~= s);
    let point = if fraction.len() == 0 {
        s.len() as int
    } else {
        whole.len() as int
    };
    lemma_index_of_unique(s, '.', point);
    assert(integer_digits(s) =~= whole);
    assert(fraction_digits(s) =~= fraction);
    let digits = whole + fraction;
    assert forall|i: int| 0 <= i < digits.len() implies digit_value(#[trigger] digits[i]) < 10 by {
        if i < whole.len() {
            assert(digits[i] == whole[i]);
        } else {
            assert(digits[i] == fraction[i - whole.len()]);
        }
    }
}

/// A quantity in decimal notation reads back as itself.
pub proof fn decimal_text_reads_back(v: int)
    requires
        is_reading(v),
    ensures
        reading(decimal_text(v)) == Some(v as i64),
{
    let n = if v < 0 {
        -v
    } else {
        v
    };
    let (w, f) = ((n / 1_000_000) as nat, (n % 1_000_000) as nat);
    let whole = rendered(w, 10);
    let full = zero_padded(rendered(f, 10), 6);
    let fraction = without_end_zeros(full);
    lemma_rendered_value(w, 10, 0);
    lemma_rendered_value(f, 10, 6);
    assert(ten_to(6) == 1_000_000) by {
        reveal_with_fuel(ten_to, 7);
    }
    lemma_rendered_len(f, 6);
    lemma_end_zeros(full);
    let gap = (6 - fraction.len()) as nat;
    assert forall|i: int| 0 <= i < fraction.len() implies digit_value(#[trigger] fraction[i]) < 10 by {
        assert(fraction[i] == full[i]);
    }
    lemma_plain_notation(whole, fraction);
    lemma_shift_up(whole + fraction, gap);
    assert(whole + fraction + zeros(gap) =~= whole + full);
    lemma_value_concat(whole, full);
    assert(full.len() == 6);
    assert(zero_padded(whole, 0) == whole);
    assert(value(whole, 10) * ten_to(6) == w * 1_000_000);
    assert(value(whole + full, 10) == n);
    let body = if fraction.len() == 0 {
        whole
    } else {
        whole + seq!['.'] + fraction
    };
    let s = decimal_text(v);
    if v < 0 {
        assert(s =~= seq!['-'] + body);
        assert(strip_sign(s) =~= body);
    } else {
        assert(s =~= body);
        assert(strip_sign(s) == body);
    }
    reveal_strlit("nan");
    reveal_strlit("inf");
    reveal_strlit("infinity");
    assert(lowercase(body)[0] == body[0]);
    assert(lowercase(body)[0] != "nan"@[0]);
    assert(lowercase(body)[0] != "inf"@[0]);
    assert(lowercase(body)[0] != "infinity"@[0]);
    assert(shifted(value(whole + fraction, 10), gap as int) == n);
    assert(number(s) == Some(
        Number::Finite {
            negative: v < 0,
            mantissa: value(whole + fraction, 10),
            exponent: -(fraction.len() as int),
        },
    ));
}

/// `d` times `num` over `den`, rounded towards zero.
pub open spec fn scaled(d: int, num: int, den: int) -> int {
    if d >= 0 {
        d * num / den
    } else {
        -(-d * num / den)
    }
}

/// The part `num` over `den` of `d` has its sign and is no larger.
pub proof fn lemma_scaled(d: int, num: int, den: int)
    requires
        0 <= num <= den,
        0 < den,
    ensures
        d >= 0 ==> 0 <= scaled(d, num, den) <= d,
        d <= 0 ==> d <= scaled(d, num, den) <= 0,
        num == 0 ==> scaled(d, num, den) == 0,
        num == den ==> scaled(d, num, den) == d,
{
    let m = if d >= 0 { d } else { -d };
    assert(0 <= m * num / den <= m) by (nonlinear_arith)
        requires
            0 <= m,
            0 <= num <= den,
            0 < den,
    ;
    assert(num == 0 ==> m * num / den == 0) by (nonlinear_arith)
        requires
            0 < den,
    ;
    assert(num == den ==> m * num / den == m) by (nonlinear_arith)
        requires
            0 < den,
    ;
}

/// A larger part of `d` is at least as far from zero.
pub proof fn lemma_scaled_grows(d: int, a: int, b: int, den: int)
    requires
        0 <= a <= b,
        0 < den,
    ensures
        d >= 0 ==> scaled(d, a, den) <= scaled(d, b, den),
        d <= 0 ==> scaled(d, b, den) <= scaled(d, a, den),
{
    let m = if d >= 0 { d } else { -d };
    assert(m * a / den <= m * b / den) by (nonlinear_arith)
        requires
            0 <= m,
            0 <= a <= b,
            0 < den,
    ;
    assert(m == 0 ==> m * a / den == 0 && m * b / den == 0) by (nonlinear_arith)
        requires
            0 < den,
    ;
}

/// The part `num` over `den` of `d`, rounded towards zero.
pub fn scale(d: i64, num: u64, den: u64) -> (r: i64)
    requires
        num <= den,
        0 < den,
    ensures
        r == scaled(d as int, num as int, den as int),
        d >= 0 ==> 0 <= r <= d,
        d <= 0 ==> d <= r <= 0,
{
    let negative: bool = d < 0;
    let m: u128 = if negative {
        (-(d as i128)) as u128
    } else {
        d as u128
    };
    proof {
        lemma_scaled(d as int, num as int, den as int);
        assert(m * num <= 0x8000_0000_0000_0000 * 0xffff_ffff_ffff_ffff) by (nonlinear_arith)
            requires
                m <= 0x8000_0000_0000_0000,
                num <= 0xffff_ffff_ffff_ffff,
        ;
    }
    let q: u128 = m * (num as u128) / (den as u128);
    if negative {
        (-(q as i128)) as i64
    } else {
        q as i64
    }
}

} // verus!
