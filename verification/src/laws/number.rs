//! What a text stands for as a number.

use crate::number::{
    fixed_point, fraction_digits, integer_digits, is_negative, is_numeral, magnitude, reading,
    shifted, strip_sign, unsigned, value, written, exponent_mark, narrowed, Reading,
};
use crate::text::{is_digit, lemma_index_of_unique, lowercase};
use vstd::arithmetic::power::{lemma_pow_positive, pow};
use vstd::prelude::*;

verus! {

/// Whether a text is made of decimal digits alone, perhaps of none.
pub open spec fn all_digits(s: Seq<char>) -> bool {
    forall|i: int| 0 <= i < s.len() ==> '0' <= #[trigger] s[i] && s[i] <= '9'
}

/// The number that decimal digits stand for.
pub open spec fn decimal(s: Seq<char>) -> int
    decreases s.len(),
{
    if s.len() == 0 {
        0
    } else {
        decimal(s.drop_last()) * 10 + (s.last() as u32 - '0' as u32)
    }
}

/// The number that a hexadecimal digit stands for, in letters of either case.
pub open spec fn hex_digit(c: char) -> Option<int> {
    if '0' <= c && c <= '9' {
        Some(c as u32 - '0' as u32)
    } else if 'a' <= c && c <= 'f' {
        Some(c as u32 - 'a' as u32 + 10)
    } else if 'A' <= c && c <= 'F' {
        Some(c as u32 - 'A' as u32 + 10)
    } else {
        None
    }
}

/// Whether a text is made of hexadecimal digits alone.
pub open spec fn all_hex(s: Seq<char>) -> bool {
    forall|i: int| 0 <= i < s.len() ==> hex_digit(#[trigger] s[i]) is Some
}

/// The number that hexadecimal digits stand for.
pub open spec fn hexadecimal(s: Seq<char>) -> int
    decreases s.len(),
{
    if s.len() == 0 {
        0
    } else {
        hexadecimal(s.drop_last()) * 16 + (match hex_digit(s.last()) {
            Some(d) => d,
            None => 0,
        })
    }
}

pub proof fn lemma_decimal(s: Seq<char>)
    requires
        all_digits(s),
    ensures
        value(s, 10) == decimal(s),
        0 <= decimal(s),
        s.len() > 0 ==> is_numeral(s, 10),
    decreases s.len(),
{
    if s.len() > 0 {
        let c = s.last();
        assert('0' <= s[s.len() - 1] && s[s.len() - 1] <= '9');
        lemma_decimal(s.drop_last());
    }
}

pub proof fn lemma_hexadecimal(s: Seq<char>)
    requires
        all_hex(s),
    ensures
        value(s, 16) == hexadecimal(s),
        0 <= hexadecimal(s),
        s.len() > 0 ==> is_numeral(s, 16),
    decreases s.len(),
{
    if s.len() > 0 {
        assert(hex_digit(s[s.len() - 1]) is Some);
        lemma_hexadecimal(s.drop_last());
    }
}

/// A text of decimal digits is their number, where that is at most `max`, and a
/// plus sign before it changes nothing; a text with anything else in it, or with
/// nothing, is no unsigned number.
pub proof fn unsigned_is_decimal(s: Seq<char>, max: nat)
    ensures
        s.len() > 0 && all_digits(s) ==> unsigned(s, 10, max) == unsigned(seq!['+'] + s, 10, max)
            && (if decimal(s) <= max {
            unsigned(s, 10, max) == Some(decimal(s) as nat)
        } else {
            unsigned(s, 10, max) is None
        }),
        !(s.len() > 0 && all_digits(s)) && !(s.len() > 0 && s[0] == '+') ==> unsigned(s, 10, max)
            is None && unsigned(seq!['+'] + s, 10, max) is None,
{
    assert((seq!['+'] + s).drop_first() =~= s);
    if all_digits(s) {
        lemma_decimal(s);
        if s.len() > 0 {
            assert('0' <= s[0] && s[0] <= '9');
        }
    } else {
        let i = choose|i: int| 0 <= i < s.len() && !('0' <= #[trigger] s[i] && s[i] <= '9');
        assert(!is_numeral(s, 10));
    }
}

/// A text of hexadecimal digits is their number, where that is at most `max`, and
/// a plus sign before it changes nothing; a text with anything else in it, or with
/// nothing, is no hexadecimal number.
pub proof fn unsigned_is_hexadecimal(s: Seq<char>, max: nat)
    ensures
        s.len() > 0 && all_hex(s) ==> unsigned(s, 16, max) == unsigned(seq!['+'] + s, 16, max) && (
        if hexadecimal(s) <= max {
            unsigned(s, 16, max) == Some(hexadecimal(s) as nat)
        } else {
            unsigned(s, 16, max) is None
        }),
        !(s.len() > 0 && all_hex(s)) && !(s.len() > 0 && s[0] == '+') ==> unsigned(s, 16, max)
            is None && unsigned(seq!['+'] + s, 16, max) is None,
{
    assert((seq!['+'] + s).drop_first() =~= s);
    if all_hex(s) {
        lemma_hexadecimal(s);
        if s.len() > 0 {
            assert(hex_digit(s[0]) is Some);
        }
    } else {
        let i = choose|i: int| 0 <= i < s.len() && !(hex_digit(#[trigger] s[i]) is Some);
        assert(!is_numeral(s, 16));
    }
}

/// A minus sign before a number makes it its opposite, and a plus sign changes
/// nothing.
pub proof fn sign_gives_opposite(s: Seq<char>, places: int, limit: int)
    requires
        s.len() == 0 || (s[0] != '+' && s[0] != '-'),
    ensures
        fixed_point(seq!['-'] + s, places, limit) == (match fixed_point(s, places, limit) {
            Some(v) => Some(-v),
            None => None,
        }),
        fixed_point(seq!['+'] + s, places, limit) == fixed_point(s, places, limit),
{
    assert((seq!['-'] + s).drop_first() =~= s);
    assert((seq!['+'] + s).drop_first() =~= s);
}

/// Whether a text spells a number without a sign and an exponent: digits, then
/// perhaps a point and more digits.
pub open spec fn spells(s: Seq<char>, whole: Seq<char>, fraction: Seq<char>) -> bool {
    &&& all_digits(whole) && all_digits(fraction) && whole.len() + fraction.len() > 0
    &&& s == whole + seq!['.'] + fraction || (fraction.len() == 0 && s == whole)
}

proof fn lemma_shift_up(m: nat, e: nat)
    ensures
        shifted(m, e as int) == m * pow(10, e),
    decreases e,
{
    reveal(pow);
    if e > 0 {
        lemma_shift_up(m * 10, (e - 1) as nat);
        let p = pow(10, (e - 1) as nat);
        assert((m * 10) * p == m * (10 * p)) by (nonlinear_arith);
    } else {
        assert(m * 1 == m);
    }
}

proof fn lemma_shift_down(m: nat, k: nat)
    ensures
        shifted(m, -(k as int)) * pow(10, k) <= m < (shifted(m, -(k as int)) + 1) * pow(10, k),
    decreases k,
{
    reveal(pow);
    if k > 0 {
        lemma_shift_down(m / 10, (k - 1) as nat);
        let p = pow(10, (k - 1) as nat);
        let n = shifted(m / 10, -((k - 1) as int)) as int;
        let t = (m / 10) as int;
        assert(n * (10 * p) <= 10 * t) by (nonlinear_arith)
            requires
                n * p <= t,
        ;
        assert(10 * t + 10 <= (n + 1) * (10 * p)) by (nonlinear_arith)
            requires
                t + 1 <= (n + 1) * p,
        ;
        lemma_pow_positive(10, (k - 1) as nat);
    }
}

/// Digits with a point among them or without are the number that they spell: `v` of
/// `places` decimals is the number without those past the last, where `limit` does
/// not hold it.
pub proof fn digits_are_their_number(
    s: Seq<char>,
    whole: Seq<char>,
    fraction: Seq<char>,
    places: nat,
    limit: int,
)
    requires
        spells(s, whole, fraction),
        0 <= limit,
    ensures
        ({
            let m = decimal(whole + fraction) * pow(10, places);
            let unit = pow(10, fraction.len());
            fixed_point(s, places as int, limit) matches Some(v) && 0 <= v <= limit && v * unit
                <= m && (v == limit || m < (v + 1) * unit)
        }),
{
    let digits = whole + fraction;
    assert forall|i: int| 0 <= i < digits.len() implies '0' <= #[trigger] digits[i] && digits[i]
        <= '9' by {
        if i < whole.len() {
            assert(digits[i] == whole[i]);
        } else {
            assert(digits[i] == fraction[i - whole.len()]);
        }
    }
    lemma_decimal(digits);
    // where the point is
    assert forall|i: int| 0 <= i < s.len() implies (is_digit(#[trigger] s[i]) || s[i] == '.') && (i
        < whole.len() ==> s[i] != '.') by {
        if i < whole.len() {
            assert(s[i] == whole[i]);
        } else if i > whole.len() {
            assert(s[i] == fraction[i - whole.len() - 1]);
        }
    }
    let small = lowercase(s);
    assert forall|i: int| 0 <= i < s.len() implies #[trigger] small[i] != 'e' by {
        assert(is_digit(s[i]) || s[i] == '.');
    }
    lemma_index_of_unique(small, 'e', s.len() as int);
    lemma_index_of_unique(s, '.', whole.len() as int);
    reveal_strlit("nan");
    reveal_strlit("inf");
    reveal_strlit("infinity");
    assert(s.len() > 0);
    assert(is_digit(s[0]) || s[0] == '.');
    assert(small[0] == s[0]);
    assert("nan"@[0] == 'n' && "inf"@[0] == 'i' && "infinity"@[0] == 'i');
    assert(strip_sign(s) == s && !is_negative(s));
    assert(s.take(exponent_mark(s)) =~= s);
    assert(integer_digits(s) =~= whole);
    assert(fraction_digits(s) =~= fraction);
    let k = fraction.len();
    let m = value(digits, 10);
    assert(magnitude(s) == Some((m, -(k as int))));
    let n = shifted(m, places - k) as int;
    let (top, unit) = (m * pow(10, places), pow(10, k));
    lemma_pow_positive(10, k);
    lemma_pow_positive(10, places);
    assert(n * unit <= top < (n + 1) * unit) by {
        if k <= places {
            let e = (places - k) as nat;
            lemma_shift_up(m, e);
            vstd::arithmetic::power::lemma_pow_adds(10, e, k);
            let (p, q) = (pow(10, e), unit);
            assert((m * p) * q == m * (p * q)) by (nonlinear_arith);
            assert((n + 1) * unit == n * unit + unit) by (nonlinear_arith);
        } else {
            let e = (k - places) as nat;
            lemma_shift_down(m, e);
            vstd::arithmetic::power::lemma_pow_adds(10, e, places);
            let (p, q) = (pow(10, e), pow(10, places));
            assert(n * (p * q) <= m * q) by (nonlinear_arith)
                requires
                    n * p <= m,
                    0 < q,
            ;
            assert(m * q < (n + 1) * (p * q)) by (nonlinear_arith)
                requires
                    m < (n + 1) * p,
                    0 < q,
            ;
        }
    }
    if n > limit {
        assert(limit * unit <= n * unit) by (nonlinear_arith)
            requires
                limit <= n,
                0 < unit,
        ;
    }
}

/// Quantities in a text are in millionths, held at a hundred billion units.
pub proof fn readings_are_millionths(s: Seq<char>)
    ensures
        match (reading(s), fixed_point(s, 6, 100_000_000_000_000_000)) {
            (Some(v), Some(n)) => v == n,
            (None, None) => true,
            _ => false,
        },
        match (narrowed(fixed_point(s, 8, 100_000_000_000_000_000)), fixed_point(
            s,
            8,
            100_000_000_000_000_000,
        )) {
            (Some(v), Some(n)) => v == n,
            (None, None) => true,
            _ => false,
        },
{
}

/// `nan`, `inf` and `infinity` in letters of either case are no numbers in digits:
/// the first is not a number, the others are infinite, with their sign. All else is
/// a value where it reads as a number.
pub proof fn words_for_numbers(s: Seq<char>, places: int, limit: int)
    requires
        0 <= limit <= i64::MAX,
        s.len() == 0 || (s[0] != '+' && s[0] != '-'),
    ensures
        ({
            let (w, minus) = (written(s, places, limit), written(seq!['-'] + s, places, limit));
            let small = lowercase(s);
            let infinite = small == seq!['i', 'n', 'f'] || small == seq![
                'i',
                'n',
                'f',
                'i',
                'n',
                'i',
                't',
                'y',
            ];
            &&& small == seq!['n', 'a', 'n'] ==> w == Some(Reading::NotANumber) && minus == Some(
                Reading::NotANumber,
            ) && fixed_point(s, places, limit) is None
            &&& infinite ==> w == Some(Reading::Infinite { negative: false }) && minus == Some(
                Reading::Infinite { negative: true },
            ) && fixed_point(s, places, limit) == Some(limit)
            &&& small != seq!['n', 'a', 'n'] && !infinite ==> match (w, fixed_point(
                s,
                places,
                limit,
            )) {
                (Some(Reading::Value(v)), Some(n)) => v == n,
                (None, None) => true,
                _ => false,
            }
        }),
{
    reveal_strlit("nan");
    reveal_strlit("inf");
    reveal_strlit("infinity");
    assert("nan"@ =~= seq!['n', 'a', 'n']);
    assert("inf"@ =~= seq!['i', 'n', 'f']);
    assert("infinity"@ =~= seq!['i', 'n', 'f', 'i', 'n', 'i', 't', 'y']);
    assert((seq!['-'] + s).drop_first() =~= s);
}

/// An exponent moves the point: a number and `e` and `k` is the number with its
/// point `k` places further, to the right, or to the left after a minus sign.
pub proof fn exponents_move_the_point(
    s: Seq<char>,
    whole: Seq<char>,
    fraction: Seq<char>,
    exponent: Seq<char>,
    places: int,
    limit: int,
)
    requires
        spells(s, whole, fraction),
        exponent.len() > 0,
        all_digits(exponent),
    ensures
        fixed_point(s + seq!['e'] + exponent, places, limit) == fixed_point(
            s,
            places + decimal(exponent),
            limit,
        ),
        fixed_point(s + seq!['E'] + exponent, places, limit) == fixed_point(
            s,
            places + decimal(exponent),
            limit,
        ),
        fixed_point(s + seq!['e', '-'] + exponent, places, limit) == fixed_point(
            s,
            places - decimal(exponent),
            limit,
        ),
{
    lemma_exponent(s, whole, fraction, seq!['e'], exponent, exponent, places, limit);
    lemma_exponent(s, whole, fraction, seq!['E'], exponent, exponent, places, limit);
    let down = seq!['-'] + exponent;
    assert(down.drop_first() =~= exponent);
    lemma_exponent(s, whole, fraction, seq!['e'], down, exponent, places, limit);
    assert(s + seq!['e', '-'] + exponent =~= s + seq!['e'] + down);
}

proof fn lemma_exponent(
    s: Seq<char>,
    whole: Seq<char>,
    fraction: Seq<char>,
    mark: Seq<char>,
    exponent: Seq<char>,
    digits: Seq<char>,
    places: int,
    limit: int,
)
    requires
        spells(s, whole, fraction),
        mark == seq!['e'] || mark == seq!['E'],
        digits.len() > 0,
        all_digits(digits),
        exponent == digits || exponent == seq!['-'] + digits,
    ensures
        fixed_point(s + mark + exponent, places, limit) == fixed_point(
            s,
            places + (if exponent == digits {
                decimal(digits)
            } else {
                -decimal(digits)
            }),
            limit,
        ),
{
    lemma_decimal(digits);
    assert('0' <= digits[0] && digits[0] <= '9');
    assert((seq!['-'] + digits).drop_first() =~= digits);
    assert((seq!['-'] + digits)[0] == '-');
    let t = s + mark + exponent;
    assert forall|i: int| 0 <= i < s.len() implies (is_digit(#[trigger] s[i]) || s[i] == '.') by {
        if i < whole.len() {
            assert(s[i] == whole[i]);
        } else if i > whole.len() {
            assert(s[i] == fraction[i - whole.len() - 1]);
        }
    }
    let (small, small_t) = (lowercase(s), lowercase(t));
    assert forall|i: int| 0 <= i < s.len() implies #[trigger] small[i] != 'e' && small_t[i]
        == small[i] by {
        assert(is_digit(s[i]) || s[i] == '.');
        assert(t[i] == s[i]);
    }
    assert forall|i: int| 0 <= i < s.len() implies #[trigger] small_t[i] != 'e' by {
        assert(small[i] != 'e');
    }
    lemma_index_of_unique(small, 'e', s.len() as int);
    assert(t[s.len() as int] == mark[0]);
    lemma_index_of_unique(small_t, 'e', s.len() as int);
    reveal_strlit("nan");
    reveal_strlit("inf");
    reveal_strlit("infinity");
    assert(s.len() > 0);
    assert(is_digit(s[0]) || s[0] == '.');
    assert(small[0] == s[0] && small_t[0] == s[0] && t[0] == s[0]);
    assert("nan"@[0] == 'n' && "inf"@[0] == 'i' && "infinity"@[0] == 'i');
    assert(strip_sign(s) == s && !is_negative(s));
    assert(strip_sign(t) == t && !is_negative(t));
    assert(s.take(exponent_mark(s)) =~= s);
    assert(t.take(exponent_mark(t)) =~= s);
    assert(t.skip(exponent_mark(t) + 1) =~= exponent);
}

} // verus!
