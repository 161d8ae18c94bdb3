//! Under which callsign, address and track number a flight is published.

use crate::laws::number::{
    all_digits, all_hex, decimal, hex_digit, hexadecimal, lemma_decimal, lemma_hexadecimal,
    unsigned_is_hexadecimal,
};
use crate::number::{digit_char, lemma_rendered_value, rendered, zero_padded};
use crate::shared::cat062::{hex_address, replaced, sim_address, sim_callsign, track_number};
use crate::shared::config::SimulationConfig;
use crate::shared::identity::{address_of, callsign_of, ignores_overrides, moves};
use crate::shared::lido::LidoBriefingView;
use crate::shared::notice::{notice_of, Notice};
use vstd::prelude::*;

verus! {

/// The digits of a number are digits of its radix in lower case, and the first is
/// no zero unless it is the only one.
proof fn lemma_rendered_digits(n: nat, radix: nat)
    requires
        2 <= radix <= 16,
    ensures
        rendered(n, radix).len() > 0,
        n > 0 ==> rendered(n, radix)[0] != '0',
        forall|i: int|
            0 <= i < rendered(n, radix).len() ==> {
                let c = #[trigger] rendered(n, radix)[i];
                ('0' <= c && c <= '9') || (radix > 10 && 'a' <= c && c <= 'f')
            },
    decreases n,
{
    let s = rendered(n, radix);
    if n < radix {
        assert(s =~= seq![digit_char(n as int)]);
    } else {
        let (q, d) = (n / radix, n % radix);
        assert(0 < q < n) by (nonlinear_arith)
            requires
                q == n / radix,
                2 <= radix <= n,
        ;
        assert(0 <= d < radix) by (nonlinear_arith)
            requires
                d == n % radix,
                2 <= radix,
        ;
        lemma_rendered_digits(q, radix);
        let t = rendered(q, radix);
        assert forall|i: int| 0 <= i < s.len() implies {
            let c = #[trigger] s[i];
            ('0' <= c && c <= '9') || (radix > 10 && 'a' <= c && c <= 'f')
        } by {
            if i < t.len() {
                assert(s[i] == t[i]);
            } else {
                assert(s[i] == digit_char(d as int));
            }
        }
        assert(s[0] == t[0]);
    }
}

/// Whether a text is a number in decimal digits, as few as there can be.
pub open spec fn is_decimal_of(digits: Seq<char>, n: nat) -> bool {
    &&& digits.len() > 0 && all_digits(digits)
    &&& decimal(digits) == n
    &&& digits[0] == '0' ==> digits.len() == 1
}

/// A number is rendered in the digits that it has.
pub proof fn numbers_are_their_digits(n: nat)
    ensures
        is_decimal_of(rendered(n, 10), n),
{
    let digits = rendered(n, 10);
    lemma_rendered_digits(n, 10);
    lemma_rendered_value(n, 10, 0);
    assert forall|i: int| 0 <= i < digits.len() implies '0' <= #[trigger] digits[i] && digits[i]
        <= '9' by {
        let c = digits[i];
    }
    lemma_decimal(digits);
}

/// The fallback callsign of a flight is "SIM" and its number, the first being one,
/// in three digits or as many as it takes.
pub proof fn fallback_callsign_counts(index: nat)
    ensures
        ({
            let (s, digits) = (sim_callsign(index), sim_callsign(index).skip(3));
            &&& s.len() >= 6
            &&& s.take(3) == seq!['S', 'I', 'M']
            &&& all_digits(digits) && decimal(digits) == index + 1
            &&& s.len() > 6 ==> digits[0] != '0'
        }),
{
    let r = rendered(index + 1, 10);
    let digits = zero_padded(r, 3);
    reveal_strlit("SIM");
    assert(sim_callsign(index).take(3) =~= seq!['S', 'I', 'M']);
    assert(sim_callsign(index).skip(3) =~= digits);
    lemma_rendered_value(index + 1, 10, 3);
    lemma_rendered_digits(index + 1, 10);
    assert forall|i: int| 0 <= i < digits.len() implies '0' <= #[trigger] digits[i] && digits[i]
        <= '9' by {
        if r.len() < 3 {
            let k = 3 - r.len();
            if i < k {
                assert(digits[i] == '0');
            } else {
                assert(digits[i] == r[i - k]);
            }
        } else {
            assert(digits[i] == r[i]);
        }
    }
    lemma_decimal(digits);
}

/// The fallback address of a flight is that of the first, `4b1234`, plus its index,
/// in six hexadecimal digits or as many as it takes, in lower case.
pub proof fn fallback_address_counts(index: nat)
    requires
        0x4b1234 + index <= u32::MAX,
    ensures
        ({
            let s = sim_address(index);
            &&& s.len() >= 6
            &&& all_hex(s) && hexadecimal(s) == 0x4b1234 + index
            &&& forall|i: int| 0 <= i < s.len() ==> !('A' <= #[trigger] s[i] && s[i] <= 'Z')
            &&& s.len() > 6 ==> s[0] != '0'
            &&& hex_address(s) == Some((0x4b1234 + index) as nat)
            &&& track_number(s) == (0x4b1234 + index) % 4096
        }),
{
    let n = (0x4b1234 + index) as nat;
    let r = rendered(n, 16);
    let s = sim_address(index);
    assert(s == zero_padded(r, 6));
    lemma_rendered_value(n, 16, 6);
    lemma_rendered_digits(n, 16);
    assert forall|i: int| 0 <= i < s.len() implies hex_digit(#[trigger] s[i]) is Some && !('A'
        <= s[i] && s[i] <= 'Z') by {
        if r.len() < 6 {
            let k = 6 - r.len();
            if i < k {
                assert(s[i] == '0');
            } else {
                assert(s[i] == r[i - k]);
            }
        } else {
            assert(s[i] == r[i]);
        }
    }
    lemma_hexadecimal(s);
}

/// The address of a flight is the number that its hexadecimal digits stand for, and
/// its track number the lower twelve bits of it; without digits, with anything else
/// among them, or past thirty-two bits there is no address, and the number is zero.
pub proof fn addresses_are_hexadecimal(s: Seq<char>)
    requires
        s.len() == 0 || s[0] != '+',
    ensures
        s.len() > 0 && all_hex(s) && hexadecimal(s) <= 0xffff_ffff ==> hex_address(s) == Some(
            hexadecimal(s) as nat,
        ) && track_number(s) == hexadecimal(s) % 4096,
        !(s.len() > 0 && all_hex(s) && hexadecimal(s) <= 0xffff_ffff) ==> hex_address(s) is None
            && track_number(s) == 0,
        hex_address(seq!['+'] + s) == hex_address(s),
{
    unsigned_is_hexadecimal(s, u32::MAX as nat);
    if all_hex(s) {
        lemma_hexadecimal(s);
    }
}

/// A flight is published under the override of the configuration where it is the
/// only one, else as its briefing says, else under the fallback for its index:
/// callsign and address each on its own.
pub proof fn identity_is_override_briefing_fallback(
    config: SimulationConfig,
    briefing: LidoBriefingView,
    index: nat,
    single: bool,
)
    ensures
        ({
            let (c, a) = (
                callsign_of(config, briefing, index, single),
                address_of(config, briefing, index, single),
            );
            &&& single ==> (config.callsign matches Some(s) ==> c == s@)
            &&& single ==> (config.icao_address matches Some(s) ==> a == s@)
            &&& !single || config.callsign is None ==> (briefing.callsign matches Some(s) ==> c
                == s)
            &&& !single || config.icao_address is None ==> (briefing.icao_address matches Some(s)
                ==> a == s)
            &&& (!single || config.callsign is None) && briefing.callsign is None ==> c
                == sim_callsign(index)
            &&& (!single || config.icao_address is None) && briefing.icao_address is None ==> a
                == sim_address(index)
        }),
{
}

/// Overrides are told to be ignored iff there are some and there is not one flight.
pub proof fn overrides_are_told(config: SimulationConfig, flights: nat)
    ensures
        ignores_overrides(config, flights) <==> (flights == 0 || flights >= 2) && !(
        config.callsign is None && config.icao_address is None),
{
}

/// An arrival is told once, and what is under way before.
pub proof fn notices_tell_arrival_once(announced: bool)
    ensures
        notice_of(false, announced) == Notice::EnRoute,
        notice_of(true, false) == Notice::Arrived,
        notice_of(true, true) == Notice::Holding,
{
}

/// Replacements are made one by one, each at its index and nowhere else, and told
/// with the address they replace.
pub proof fn replacements_are_made(
    addresses: Seq<Seq<char>>,
    remaps: Seq<(int, Seq<char>)>,
    k: int,
)
    requires
        forall|i: int| 0 <= i < remaps.len() ==> 0 <= (#[trigger] remaps[i]).0 < addresses.len(),
        forall|i: int, j: int|
            0 <= i < j < remaps.len() ==> (#[trigger] remaps[i]).0 < (#[trigger] remaps[j]).0,
        0 <= k < remaps.len(),
    ensures
        ({
            let (i, a) = remaps[k];
            &&& replaced(addresses, remaps)[i] == a
            &&& moves(addresses, remaps)[k] == (i, addresses[i], a)
            &&& moves(addresses, remaps).len() == remaps.len()
        }),
    decreases remaps.len(),
{
    let (i, a) = remaps[0];
    let rest = remaps.drop_first();
    assert forall|m: int| 0 <= m < rest.len() implies 0 <= (#[trigger] rest[m]).0
        < addresses.len() && rest[m].0 > i by {
        assert(rest[m] == remaps[m + 1]);
    }
    assert forall|m: int, n: int| 0 <= m < n < rest.len() implies (#[trigger] rest[m]).0 < (
    #[trigger] rest[n]).0 by {
        assert(rest[m] == remaps[m + 1] && rest[n] == remaps[n + 1]);
    }
    if k > 0 {
        assert(rest[k - 1] == remaps[k]);
        replacements_are_made(addresses.update(i, a), rest, k - 1);
    } else {
        lemma_untouched(addresses.update(i, a), rest, i);
    }
}

proof fn lemma_untouched(addresses: Seq<Seq<char>>, remaps: Seq<(int, Seq<char>)>, i: int)
    requires
        0 <= i < addresses.len(),
        forall|m: int|
            0 <= m < remaps.len() ==> i < (#[trigger] remaps[m]).0 < addresses.len(),
    ensures
        replaced(addresses, remaps)[i] == addresses[i],
    decreases remaps.len(),
{
    if remaps.len() > 0 {
        let (j, a) = remaps[0];
        let rest = remaps.drop_first();
        assert(i < remaps[0].0);
        assert forall|m: int| 0 <= m < rest.len() implies i < (#[trigger] rest[m]).0
            < addresses.len() by {
            assert(rest[m] == remaps[m + 1]);
        }
        lemma_untouched(addresses.update(j, a), rest, i);
    }
}

} // verus!
