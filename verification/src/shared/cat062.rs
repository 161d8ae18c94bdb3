//! What the sources of CAT-062 records have in common: time of day, fallback
//! identities of simulated flights, track numbers and the record itself.

use crate::number::{
    clamp_to_i32, clamped, lemma_rendered_value, pad_zeros, render, rendered, scale, scaled,
    unsigned, zero_padded, MICRO, NANO,
};
use crate::shared::config::AsterixConfig;
use crate::text::{chars_of, string_of, text_of};
use libasterix::asterix::cat062::{icao_to_track_number, parse_icao_address};
use vstd::prelude::*;
use vstd::set_lib::{lemma_int_range, lemma_len_subset, set_int_range};

verus! {

/// Metres per second in a knot, in millionths.
pub const KNOTS_TO_MPS: i64 = 514_444;

/// First fallback Mode-S address; the flights after the first take the
/// addresses after it.
pub const DEFAULT_SIM_ICAO_ADDRESS_BASE: u32 = 0x4b1234;

/// Track numbers that twelve bits can hold.
pub const TRACK_NUMBERS: usize = 4096;

/// The Mode-S address that a text stands for: hexadecimal digits of at most
/// thirty-two bits, with or without a plus sign before them.
pub open spec fn hex_address(s: Seq<char>) -> Option<nat> {
    unsigned(s, 16, u32::MAX as nat)
}

/// The track number of a Mode-S address: its lower twelve bits, zero where the
/// text stands for no address.
pub open spec fn track_number(s: Seq<char>) -> u16 {
    match hex_address(s) {
        Some(a) => (a % 4096) as u16,
        None => 0,
    }
}

/// `icao_to_track_number` reads the text in radix 16 as a `u32`, takes zero where
/// that fails, and keeps the lower twelve bits.
pub assume_specification[ libasterix::asterix::cat062::icao_to_track_number ](icao24: &str) -> (r:
    u16)
    ensures
        r == track_number(icao24@),
;

/// `parse_icao_address` reads the text in radix 16 as a `u32`, and gives nothing
/// where that fails.
pub assume_specification[ libasterix::asterix::cat062::parse_icao_address ](icao24: &str) -> (r:
    Option<u32>)
    ensures
        match r {
            Some(a) => hex_address(icao24@) == Some(a as nat),
            None => hex_address(icao24@) is None,
        },
;

/// Fallback callsign of the flight at `index`.
pub open spec fn sim_callsign(index: nat) -> Seq<char> {
    "SIM"@ + zero_padded(rendered(index + 1, 10), 3)
}

/// Number of the fallback address of the flight at `index`.
pub open spec fn sim_address_number(index: nat) -> nat {
    (DEFAULT_SIM_ICAO_ADDRESS_BASE + index % 0x1_0000_0000) as nat
}

/// Fallback Mode-S address of the flight at `index`.
pub open spec fn sim_address(index: nat) -> Seq<char> {
    zero_padded(rendered(sim_address_number(index), 16), 6)
}

/// Fallback callsign for the flight at `index`: SIM001, SIM002, ...
pub fn default_sim_callsign(index: usize) -> (r: String)
    requires
        index < usize::MAX,
    ensures
        r@ == sim_callsign(index as nat),
{
    let mut out = chars_of("SIM");
    let mut digits = pad_zeros(render(index as u64 + 1, 10), 3);
    out.append(&mut digits);
    string_of(out.as_slice())
}

/// Fallback Mode-S address for the flight at `index`.
pub fn default_sim_icao_address(index: usize) -> (r: String)
    requires
        sim_address_number(index as nat) <= u32::MAX,
    ensures
        r@ == sim_address(index as nat),
{
    let n: u64 = DEFAULT_SIM_ICAO_ADDRESS_BASE as u64 + (index as u64) % 0x1_0000_0000;
    string_of(pad_zeros(render(n, 16), 6).as_slice())
}

/// No two flights have the same fallback callsign.
pub proof fn sim_callsigns_differ(i: nat, j: nat)
    requires
        i != j,
    ensures
        sim_callsign(i) != sim_callsign(j),
{
    lemma_rendered_value(i + 1, 10, 3);
    lemma_rendered_value(j + 1, 10, 3);
    let a = zero_padded(rendered(i + 1, 10), 3);
    let b = zero_padded(rendered(j + 1, 10), 3);
    reveal_strlit("SIM");
    assert(("SIM"@ + a).skip(3) =~= a);
    assert(("SIM"@ + b).skip(3) =~= b);
}

/// The fallback address of a flight stands for the base address plus its index.
pub proof fn sim_address_reads_back(index: nat)
    requires
        sim_address_number(index) <= u32::MAX,
    ensures
        hex_address(sim_address(index)) == Some(sim_address_number(index)),
        track_number(sim_address(index)) == sim_address_number(index) % 4096,
{
    lemma_rendered_value(sim_address_number(index), 16, 6);
}

/// Fallback addresses of flights fewer than 4096 apart have different track
/// numbers.
pub proof fn sim_addresses_differ(i: nat, j: nat)
    requires
        i < j < i + 4096,
        j + DEFAULT_SIM_ICAO_ADDRESS_BASE <= u32::MAX,
    ensures
        sim_address(i) != sim_address(j),
        track_number(sim_address(i)) != track_number(sim_address(j)),
{
    sim_address_reads_back(i);
    sim_address_reads_back(j);
    lemma_remainders_differ(sim_address_number(i) as int, sim_address_number(j) as int);
}

proof fn lemma_remainders_differ(a: int, b: int)
    requires
        a < b < a + 4096,
    ensures
        a % 4096 != b % 4096,
{
}

/// The first fallback address from the `k`th on whose track number is not in use.
pub open spec fn free_from(used: Seq<u16>, k: nat) -> Option<nat>
    decreases TRACK_NUMBERS - k,
{
    if k >= TRACK_NUMBERS {
        None
    } else if used.contains(track_number(sim_address(k))) {
        free_from(used, k + 1)
    } else {
        Some(k)
    }
}

/// Replacements made before those of the remaining flights.
pub open spec fn prepended(
    done: Seq<(int, Seq<char>)>,
    rest: Result<Seq<(int, Seq<char>)>, int>,
) -> Result<Seq<(int, Seq<char>)>, int> {
    match rest {
        Ok(r) => Ok(done + r),
        Err(e) => Err(e),
    }
}

/// Replacement addresses for the flights from `i` on, given the track numbers of
/// those before and the fallback address to try next; the first flight that
/// finds no free number, where one does not.
pub open spec fn remap_from(
    addresses: Seq<Seq<char>>,
    i: int,
    used: Seq<u16>,
    next: nat,
) -> Result<Seq<(int, Seq<char>)>, int>
    decreases addresses.len() - i,
{
    if i < 0 || i >= addresses.len() {
        Ok(Seq::empty())
    } else if !used.contains(track_number(addresses[i])) {
        remap_from(addresses, i + 1, used.push(track_number(addresses[i])), next)
    } else {
        match free_from(used, next) {
            Some(k) => prepended(
                seq![(i, sim_address(k))],
                remap_from(addresses, i + 1, used.push(track_number(sim_address(k))), k + 1),
            ),
            None => Err(i),
        }
    }
}

/// Replacement addresses by flight: a flight whose track number an earlier one
/// publishes takes the next fallback address with a free number.
pub open spec fn remapping(addresses: Seq<Seq<char>>) -> Result<Seq<(int, Seq<char>)>, int> {
    remap_from(addresses, 0, Seq::empty(), 0)
}

/// The addresses once replacements are made.
pub open spec fn replaced(addresses: Seq<Seq<char>>, remaps: Seq<(int, Seq<char>)>) -> Seq<
    Seq<char>,
>
    decreases remaps.len(),
{
    if remaps.len() == 0 {
        addresses
    } else {
        let (i, a) = remaps[0];
        replaced(addresses.update(i, a), remaps.drop_first())
    }
}

pub open spec fn remap_views(v: Seq<(usize, String)>) -> Seq<(int, Seq<char>)> {
    Seq::new(
        v.len(),
        |k: int|
            {
                let (i, a) = v[k];
                (i as int, a@)
            },
    )
}

pub open spec fn str_views(v: Seq<&str>) -> Seq<Seq<char>> {
    Seq::new(v.len(), |i: int| v[i]@)
}

/// No track number is left for a flight.
#[derive(Debug)]
pub struct TrackNumbersExhausted {
    /// Address of the flight
    pub icao_address: String,
}

fn in_use(used: &Vec<u16>, track: u16) -> (r: bool)
    ensures
        r == used@.contains(track),
{
    let mut i: usize = 0;
    while i < used.len()
        invariant
            i <= used@.len(),
            forall|j: int| 0 <= j < i ==> used@[j] != track,
        decreases used@.len() - i,
    {
        if used[i] == track {
            assert(used@[i as int] == track);
            return true;
        }
        i += 1;
    }
    false
}

/// The first fallback address from the `k`th on whose track number is not in use.
fn next_free(used: &Vec<u16>, k: usize) -> (r: Option<usize>)
    requires
        k <= TRACK_NUMBERS,
    ensures
        match r {
            Some(n) => free_from(used@, k as nat) == Some(n as nat) && k <= n < TRACK_NUMBERS,
            None => free_from(used@, k as nat) is None,
        },
{
    let mut n: usize = k;
    while n < TRACK_NUMBERS
        invariant
            k <= n <= TRACK_NUMBERS,
            free_from(used@, n as nat) == free_from(used@, k as nat),
        decreases TRACK_NUMBERS - n,
    {
        let candidate = default_sim_icao_address(n);
        if !in_use(used, icao_to_track_number(candidate.as_str())) {
            return Some(n);
        }
        n += 1;
    }
    None
}

/// Replacement addresses so that every flight publishes its own 12-bit track
/// number: a shared one would corrupt the correlation of downstream trackers.
///
/// Briefings from one airframe share a Mode-S code, so collisions are common.
/// Colliding flights after the first are moved onto the fallback addresses.
/// Returns the index and the replacement address of each.
pub fn remap_track_collisions(icao_addresses: &[&str]) -> (r: Result<
    Vec<(usize, String)>,
    TrackNumbersExhausted,
>)
    ensures
        match (r, remapping(str_views(icao_addresses@))) {
            (Ok(v), Ok(remaps)) => remap_views(v@) == remaps,
            (Err(e), Err(i)) => 0 <= i < icao_addresses@.len() && e.icao_address@
                == icao_addresses@[i]@,
            _ => false,
        },
        r matches Ok(v) ==> forall|k: int|
            0 <= k < v@.len() ==> (#[trigger] remap_views(v@)[k]).0 < icao_addresses@.len(),
        r is Ok <==> icao_addresses@.len() <= TRACK_NUMBERS,
{
    let ghost g = str_views(icao_addresses@);
    let mut used: Vec<u16> = Vec::new();
    let mut remaps: Vec<(usize, String)> = Vec::new();
    let mut next: usize = 0;
    let mut i: usize = 0;
    proof {
        remap_succeeds_up_to_all(g);
        lemma_remap_indices(g, 0, Seq::empty(), 0);
        assert(remap_views(remaps@) =~= Seq::empty());
        lemma_prepend(Seq::empty(), remapping(g));
    }
    while i < icao_addresses.len()
        invariant
            g == str_views(icao_addresses@),
            i <= icao_addresses@.len(),
            next <= TRACK_NUMBERS,
            remapping(g) is Ok <==> g.len() <= TRACK_NUMBERS,
            remapping(g) == prepended(
                remap_views(remaps@),
                remap_from(g, i as int, used@, next as nat),
            ),
        decreases icao_addresses@.len() - i,
    {
        let address: &str = icao_addresses[i];
        let track: u16 = icao_to_track_number(address);
        if !in_use(&used, track) {
            used.push(track);
        } else {
            match next_free(&used, next) {
                Some(k) => {
                    let candidate = default_sim_icao_address(k);
                    let number: u16 = icao_to_track_number(candidate.as_str());
                    proof {
                        lemma_remap_views_push(remaps@, (i, candidate));
                        lemma_prepend_one(
                            remap_views(remaps@),
                            (i as int, candidate@),
                            remap_from(g, i + 1, used@.push(number), (k + 1) as nat),
                        );
                    }
                    used.push(number);
                    remaps.push((i, candidate));
                    next = k + 1;
                },
                None => {
                    return Err(
                        TrackNumbersExhausted {
                            icao_address: string_of(chars_of(address).as_slice()),
                        },
                    );
                },
            }
        }
        i += 1;
    }
    proof {
        assert(remap_views(remaps@) + Seq::<(int, Seq<char>)>::empty() =~= remap_views(remaps@));
    }
    Ok(remaps)
}

proof fn lemma_prepend(
    done: Seq<(int, Seq<char>)>,
    rest: Result<Seq<(int, Seq<char>)>, int>,
)
    requires
        done.len() == 0,
    ensures
        prepended(done, rest) == rest,
{
    if let Ok(r) = rest {
        assert(done + r =~= r);
    }
}

proof fn lemma_prepend_one(
    done: Seq<(int, Seq<char>)>,
    one: (int, Seq<char>),
    rest: Result<Seq<(int, Seq<char>)>, int>,
)
    ensures
        prepended(done, prepended(seq![one], rest)) == prepended(done.push(one), rest),
{
    if let Ok(r) = rest {
        assert(done + (seq![one] + r) =~= done.push(one) + r);
    }
}

proof fn lemma_remap_views_push(v: Seq<(usize, String)>, e: (usize, String))
    ensures
        remap_views(v.push(e)) == remap_views(v).push((e.0 as int, e.1@)),
{
    assert(remap_views(v.push(e)) =~= remap_views(v).push((e.0 as int, e.1@)));
}

/// Replacements are for flights in ascending order.
pub proof fn remap_indices_ascend(addresses: Seq<Seq<char>>)
    ensures
        match remapping(addresses) {
            Ok(remaps) => {
                &&& forall|k: int|
                    0 <= k < remaps.len() ==> 0 <= (#[trigger] remaps[k]).0 < addresses.len()
                &&& forall|j: int, k: int|
                    0 <= j < k < remaps.len() ==> (#[trigger] remaps[j]).0 < (
                    #[trigger] remaps[k]).0
            },
            Err(e) => 0 <= e < addresses.len(),
        },
{
    lemma_remap_indices(addresses, 0, Seq::empty(), 0);
}

proof fn lemma_remap_indices(addresses: Seq<Seq<char>>, i: int, used: Seq<u16>, next: nat)
    requires
        0 <= i,
    ensures
        match remap_from(addresses, i, used, next) {
            Ok(remaps) => {
                &&& forall|k: int|
                    0 <= k < remaps.len() ==> i <= (#[trigger] remaps[k]).0 < addresses.len()
                &&& forall|j: int, k: int|
                    0 <= j < k < remaps.len() ==> (#[trigger] remaps[j]).0 < (
                    #[trigger] remaps[k]).0
            },
            Err(e) => i <= e < addresses.len(),
        },
    decreases addresses.len() - i,
{
    if i < addresses.len() {
        if !used.contains(track_number(addresses[i])) {
            lemma_remap_indices(addresses, i + 1, used.push(track_number(addresses[i])), next);
        } else if let Some(k) = free_from(used, next) {
            lemma_remap_indices(
                addresses,
                i + 1,
                used.push(track_number(sim_address(k))),
                k + 1,
            );
        }
    }
}

/// The track numbers of fallback addresses from `k` on that `free_from` skips are
/// in use, and the one it stops at is not.
proof fn lemma_free_from(used: Seq<u16>, k: nat)
    ensures
        match free_from(used, k) {
            Some(n) => k <= n < TRACK_NUMBERS && !used.contains(track_number(sim_address(n)))
                && forall|m: nat|
                k <= m < n ==> used.contains(#[trigger] track_number(sim_address(m))),
            None => forall|m: nat|
                k <= m < TRACK_NUMBERS ==> used.contains(#[trigger] track_number(sim_address(m))),
        },
    decreases TRACK_NUMBERS - k,
{
    if k < TRACK_NUMBERS && used.contains(track_number(sim_address(k))) {
        lemma_free_from(used, k + 1);
    }
}

/// Every track number is that of a fallback address.
proof fn lemma_fallback(t: int) -> (m: nat)
    requires
        0 <= t < TRACK_NUMBERS,
    ensures
        m < TRACK_NUMBERS,
        track_number(sim_address(m)) == t,
{
    let base = DEFAULT_SIM_ICAO_ADDRESS_BASE as int;
    let m = ((t - base) % 4096) as nat;
    sim_address_reads_back(m);
    assert((base + (t - base) % 4096) % 4096 == t);
    m
}

/// All 4096 numbers take a list of 4096 at the least.
proof fn lemma_all_numbers(used: Seq<u16>)
    requires
        forall|m: nat| m < TRACK_NUMBERS ==> used.contains(#[trigger] track_number(sim_address(m))),
    ensures
        used.len() >= TRACK_NUMBERS,
{
    let ints = used.map_values(|t: u16| t as int);
    let range = set_int_range(0, TRACK_NUMBERS as int);
    assert forall|t: int| range.contains(t) implies ints.to_set().contains(t) by {
        lemma_number_used(used, ints, t);
    }
    lemma_int_range(0, TRACK_NUMBERS as int);
    ints.lemma_cardinality_of_set();
    lemma_len_subset(range, ints.to_set());
}

proof fn lemma_number_used(used: Seq<u16>, ints: Seq<int>, t: int)
    requires
        forall|m: nat| m < TRACK_NUMBERS ==> used.contains(#[trigger] track_number(sim_address(m))),
        ints == used.map_values(|t: u16| t as int),
        0 <= t < TRACK_NUMBERS,
    ensures
        ints.to_set().contains(t),
{
    let m = lemma_fallback(t);
    let n = track_number(sim_address(m));
    assert(used.contains(n));
    let j = choose|j: int| 0 <= j < used.len() && used[j] == n;
    assert(ints[j] == t);
}

/// With no more flights than track numbers, every flight finds one.
pub proof fn remap_succeeds(addresses: Seq<Seq<char>>)
    requires
        addresses.len() <= TRACK_NUMBERS,
    ensures
        remapping(addresses) is Ok,
{
    lemma_remap_succeeds(addresses, 0, Seq::empty(), 0);
}

proof fn lemma_remap_succeeds(addresses: Seq<Seq<char>>, i: int, used: Seq<u16>, next: nat)
    requires
        addresses.len() <= TRACK_NUMBERS,
        0 <= i,
        used.len() == i,
        forall|m: nat| m < next ==> used.contains(#[trigger] track_number(sim_address(m))),
    ensures
        remap_from(addresses, i, used, next) is Ok,
    decreases addresses.len() - i,
{
    if i < addresses.len() {
        let track = track_number(addresses[i]);
        lemma_free_from(used, next);
        if !used.contains(track) {
            lemma_still_used(used, track, next);
            lemma_remap_succeeds(addresses, i + 1, used.push(track), next);
        } else {
            match free_from(used, next) {
                Some(k) => {
                    let t = track_number(sim_address(k));
                    lemma_still_used(used, t, k);
                    assert(used.push(t)[used.len() as int] == t);
                    lemma_remap_succeeds(addresses, i + 1, used.push(t), k + 1);
                },
                None => {
                    lemma_all_numbers(used);
                },
            }
        }
    }
}

proof fn lemma_still_used(used: Seq<u16>, t: u16, n: nat)
    requires
        forall|m: nat| m < n ==> used.contains(#[trigger] track_number(sim_address(m))),
    ensures
        forall|m: nat| m < n ==> used.push(t).contains(#[trigger] track_number(sim_address(m))),
{
    assert forall|m: nat| m < n implies used.push(t).contains(
        #[trigger] track_number(sim_address(m)),
    ) by {
        let j = choose|j: int| 0 <= j < used.len() && used[j] == track_number(sim_address(m));
        assert(used.push(t)[j] == track_number(sim_address(m)));
    }
}

/// Whether no two of some flights have the same track number.
pub open spec fn distinct_numbers(addresses: Seq<Seq<char>>) -> bool {
    forall|i: int, j: int|
        0 <= i < j < addresses.len() ==> track_number(#[trigger] addresses[i]) != track_number(
            #[trigger] addresses[j],
        )
}

/// Whether flight `j` is among those that take a replacement.
pub open spec fn is_remapped(remaps: Seq<(int, Seq<char>)>, j: int) -> bool {
    exists|k: int| 0 <= k < remaps.len() && (#[trigger] remaps[k]).0 == j
}

/// Once replacements are made every flight publishes its own track number; a
/// flight takes a replacement iff an earlier one publishes its number, and the
/// others keep their addresses.
pub proof fn remap_separates(addresses: Seq<Seq<char>>)
    requires
        remapping(addresses) is Ok,
    ensures
        ({
            let remaps = remapping(addresses)->Ok_0;
            let out = replaced(addresses, remaps);
            &&& out.len() == addresses.len()
            &&& distinct_numbers(out)
            &&& forall|j: int|
                0 <= j < addresses.len() ==> (#[trigger] is_remapped(remaps, j) <==> exists|m: int|
                    0 <= m < j && track_number(#[trigger] out[m]) == track_number(addresses[j]))
            &&& forall|j: int|
                0 <= j < addresses.len() && !#[trigger] is_remapped(remaps, j) ==> out[j]
                    == addresses[j]
        }),
{
    lemma_remap_separates(addresses, addresses, 0, Seq::empty(), 0);
}

/// A flight is among those that take a replacement whether one for another flight
/// stands before or not.
proof fn lemma_remapped_after(one: (int, Seq<char>), rest: Seq<(int, Seq<char>)>, j: int)
    requires
        one.0 != j,
    ensures
        is_remapped(seq![one] + rest, j) <==> is_remapped(rest, j),
{
    let remaps = seq![one] + rest;
    if is_remapped(remaps, j) {
        let q = choose|q: int| 0 <= q < remaps.len() && (#[trigger] remaps[q]).0 == j;
        assert(rest[q - 1] == remaps[q]);
    }
    if is_remapped(rest, j) {
        let q = choose|q: int| 0 <= q < rest.len() && (#[trigger] rest[q]).0 == j;
        assert(remaps[q + 1] == rest[q]);
    }
}

#[verifier::spinoff_prover]
proof fn lemma_remap_separates(
    addresses: Seq<Seq<char>>,
    shown: Seq<Seq<char>>,
    i: int,
    used: Seq<u16>,
    next: nat,
)
    requires
        0 <= i <= addresses.len(),
        shown.len() == addresses.len(),
        forall|j: int| i <= j < shown.len() ==> #[trigger] shown[j] == addresses[j],
        used.len() == i,
        forall|j: int| 0 <= j < i ==> track_number(#[trigger] shown[j]) == used[j],
        forall|a: int, b: int| 0 <= a < b < i ==> #[trigger] used[a] != #[trigger] used[b],
        remap_from(addresses, i, used, next) is Ok,
    ensures
        ({
            let remaps = remap_from(addresses, i, used, next)->Ok_0;
            let out = replaced(shown, remaps);
            &&& out.len() == addresses.len()
            &&& forall|j: int| 0 <= j < i ==> #[trigger] out[j] == shown[j]
            &&& distinct_numbers(out)
            &&& forall|k: int| 0 <= k < remaps.len() ==> (#[trigger] remaps[k]).0 >= i
            &&& forall|j: int|
                i <= j < addresses.len() ==> (#[trigger] is_remapped(remaps, j) <==> exists|m: int|
                    0 <= m < j && track_number(#[trigger] out[m]) == track_number(addresses[j]))
            &&& forall|j: int|
                i <= j < addresses.len() && !#[trigger] is_remapped(remaps, j) ==> out[j]
                    == addresses[j]
        }),
    decreases addresses.len() - i,
{
    let result = remap_from(addresses, i, used, next);
    let remaps = result->Ok_0;
    if i == addresses.len() {
        assert(replaced(shown, remaps) == shown);
    } else {
        let track = track_number(addresses[i]);
        if !used.contains(track) {
            lemma_remap_separates(addresses, shown, i + 1, used.push(track), next);
            let out = replaced(shown, remaps);
            assert(out[i] == shown[i]);
            assert(!is_remapped(remaps, i));
            assert forall|m: int| 0 <= m < i implies track_number(#[trigger] out[m]) != track by {
                assert(out[m] == shown[m]);
                assert(used[m] == track_number(shown[m]));
            }
        } else {
            lemma_free_from(used, next);
            let k = free_from(used, next)->Some_0;
            let a = sim_address(k);
            let t = track_number(a);
            let shown2 = shown.update(i, a);
            let rest = remap_from(addresses, i + 1, used.push(t), k + 1)->Ok_0;
            assert(remaps == seq![(i, a)] + rest);
            assert(remaps.drop_first() =~= rest);
            assert(remaps[0] == (i, a));
            assert forall|j: int| 0 <= j < i + 1 implies track_number(#[trigger] shown2[j])
                == used.push(t)[j] by {
                if j < i {
                    assert(shown2[j] == shown[j]);
                }
            }
            lemma_remap_separates(addresses, shown2, i + 1, used.push(t), k + 1);
            let out = replaced(shown, remaps);
            assert(out == replaced(shown2, rest));
            let m0 = choose|m: int| 0 <= m < used.len() && used[m] == track;
            assert(shown2[m0] == shown[m0]);
            assert(track_number(out[m0]) == track);
            assert(is_remapped(remaps, i));
            assert forall|j: int| i < j < addresses.len() implies (#[trigger] is_remapped(remaps, j)
                <==> is_remapped(rest, j)) by {
                lemma_remapped_after((i, a), rest, j);
            }
            assert forall|q: int| 0 <= q < remaps.len() implies (#[trigger] remaps[q]).0 >= i by {
                if q > 0 {
                    assert(remaps[q] == rest[q - 1]);
                }
            }
            assert forall|j: int| 0 <= j < i implies #[trigger] out[j] == shown[j] by {
                assert(shown2[j] == shown[j]);
            }
        }
    }
}

/// Flights that all publish their own track numbers are at most 4096.
proof fn lemma_distinct_len(addresses: Seq<Seq<char>>)
    requires
        distinct_numbers(addresses),
    ensures
        addresses.len() <= TRACK_NUMBERS,
{
    let numbers = addresses.map_values(|a: Seq<char>| track_number(a) as int);
    let range = set_int_range(0, TRACK_NUMBERS as int);
    assert forall|i: int, j: int| 0 <= i < numbers.len() && 0 <= j < numbers.len() && i != j
        implies numbers[i] != numbers[j] by {
        if i < j {
            assert(track_number(addresses[i]) != track_number(addresses[j]));
        } else {
            assert(track_number(addresses[j]) != track_number(addresses[i]));
        }
    }
    assert(numbers.no_duplicates());
    numbers.unique_seq_to_set();
    assert forall|t: int| numbers.to_set().contains(t) implies range.contains(t) by {
        let i = choose|i: int| 0 <= i < numbers.len() && numbers[i] == t;
        assert(numbers[i] == track_number(addresses[i]));
    }
    lemma_int_range(0, TRACK_NUMBERS as int);
    lemma_len_subset(numbers.to_set(), range);
}

/// Every flight finds a track number iff there are no more flights than numbers.
pub proof fn remap_succeeds_up_to_all(addresses: Seq<Seq<char>>)
    ensures
        remapping(addresses) is Ok <==> addresses.len() <= TRACK_NUMBERS,
{
    if addresses.len() <= TRACK_NUMBERS {
        remap_succeeds(addresses);
    }
    if remapping(addresses) is Ok {
        remap_separates(addresses);
        lemma_distinct_len(replaced(addresses, remapping(addresses)->Ok_0));
    }
}

/// Every replacement is one of the first 4096 fallback addresses.
pub proof fn replacements_are_fallbacks(addresses: Seq<Seq<char>>)
    requires
        remapping(addresses) is Ok,
    ensures
        ({
            let remaps = remapping(addresses)->Ok_0;
            forall|k: int|
                0 <= k < remaps.len() ==> is_fallback((#[trigger] remaps[k]).1)
        }),
{
    lemma_fallbacks(addresses, 0, Seq::empty(), 0);
}

/// Whether an address is one of the first 4096 fallback addresses.
pub open spec fn is_fallback(address: Seq<char>) -> bool {
    exists|m: nat| m < TRACK_NUMBERS && address == #[trigger] sim_address(m)
}

proof fn lemma_fallbacks(addresses: Seq<Seq<char>>, i: int, used: Seq<u16>, next: nat)
    requires
        remap_from(addresses, i, used, next) is Ok,
    ensures
        ({
            let remaps = remap_from(addresses, i, used, next)->Ok_0;
            forall|k: int|
                0 <= k < remaps.len() ==> is_fallback((#[trigger] remaps[k]).1)
        }),
    decreases addresses.len() - i,
{
    if 0 <= i < addresses.len() {
        if !used.contains(track_number(addresses[i])) {
            lemma_fallbacks(addresses, i + 1, used.push(track_number(addresses[i])), next);
        } else {
            lemma_free_from(used, next);
            let n = free_from(used, next)->Some_0;
            lemma_fallbacks(addresses, i + 1, used.push(track_number(sim_address(n))), n + 1);
            assert(is_fallback(sim_address(n)));
        }
    }
}

/// Once replacements are made there is nothing left to replace.
pub proof fn remap_settles(addresses: Seq<Seq<char>>)
    requires
        remapping(addresses) is Ok,
    ensures
        remapping(replaced(addresses, remapping(addresses)->Ok_0)) == Ok::<
            Seq<(int, Seq<char>)>,
            int,
        >(Seq::empty()),
{
    remap_separates(addresses);
    lemma_settled(replaced(addresses, remapping(addresses)->Ok_0), 0, Seq::empty());
}

proof fn lemma_settled(addresses: Seq<Seq<char>>, i: int, used: Seq<u16>)
    requires
        distinct_numbers(addresses),
        0 <= i,
        used.len() == i <= addresses.len(),
        forall|j: int| 0 <= j < i ==> used[j] == track_number(#[trigger] addresses[j]),
    ensures
        remap_from(addresses, i, used, 0) == Ok::<Seq<(int, Seq<char>)>, int>(Seq::empty()),
    decreases addresses.len() - i,
{
    if i < addresses.len() {
        let track = track_number(addresses[i]);
        assert forall|j: int| 0 <= j < used.len() implies used[j] != track by {
            assert(track_number(addresses[j]) != track_number(addresses[i]));
        }
        lemma_settled(addresses, i + 1, used.push(track));
    }
}

/// A replacement is the first fallback address that is free: the track number of
/// every one before it is published by an earlier flight.
pub proof fn replacement_is_first_free(addresses: Seq<Seq<char>>, q: int)
    requires
        remapping(addresses) is Ok,
        0 <= q < remapping(addresses)->Ok_0.len(),
    ensures
        ({
            let remaps = remapping(addresses)->Ok_0;
            let (i, a) = remaps[q];
            is_first_free(replaced(addresses, remaps), i, a)
        }),
{
    lemma_first_free(addresses, addresses, 0, Seq::empty(), 0, q);
}

/// Whether an address is the first fallback address whose track number no flight
/// before the one at `i` publishes.
pub open spec fn is_first_free(published: Seq<Seq<char>>, i: int, address: Seq<char>) -> bool {
    exists|m: nat|
        m < 4096 && address == #[trigger] sim_address(m) && forall|n: nat|
            n < m ==> exists|j: int|
                0 <= j < i && track_number(#[trigger] published[j]) == track_number(
                    #[trigger] sim_address(n),
                )
}

proof fn lemma_first_free(
    addresses: Seq<Seq<char>>,
    shown: Seq<Seq<char>>,
    i: int,
    used: Seq<u16>,
    next: nat,
    q: int,
)
    requires
        0 <= i <= addresses.len(),
        shown.len() == addresses.len(),
        forall|j: int| i <= j < shown.len() ==> #[trigger] shown[j] == addresses[j],
        used.len() == i,
        forall|j: int| 0 <= j < i ==> track_number(#[trigger] shown[j]) == used[j],
        forall|a: int, b: int| 0 <= a < b < i ==> #[trigger] used[a] != #[trigger] used[b],
        forall|m: nat| m < next ==> used.contains(#[trigger] track_number(sim_address(m))),
        remap_from(addresses, i, used, next) is Ok,
        0 <= q < remap_from(addresses, i, used, next)->Ok_0.len(),
    ensures
        ({
            let remaps = remap_from(addresses, i, used, next)->Ok_0;
            is_first_free(replaced(shown, remaps), remaps[q].0, remaps[q].1)
        }),
    decreases addresses.len() - i,
{
    let remaps = remap_from(addresses, i, used, next)->Ok_0;
    if i < addresses.len() {
        let track = track_number(addresses[i]);
        if !used.contains(track) {
            lemma_still_used(used, track, next);
            lemma_first_free(addresses, shown, i + 1, used.push(track), next, q);
        } else {
            lemma_free_from(used, next);
            let k = free_from(used, next)->Some_0;
            let a = sim_address(k);
            let t = track_number(a);
            let shown2 = shown.update(i, a);
            let rest = remap_from(addresses, i + 1, used.push(t), k + 1)->Ok_0;
            assert(remaps == seq![(i, a)] + rest);
            assert(remaps.drop_first() =~= rest);
            assert(remaps[0] == (i, a));
            assert forall|j: int| 0 <= j < i + 1 implies track_number(#[trigger] shown2[j])
                == used.push(t)[j] by {
                if j < i {
                    assert(shown2[j] == shown[j]);
                }
            }
            if q == 0 {
                lemma_remap_separates(addresses, shown, i, used, next);
                let out = replaced(shown, remaps);
                assert forall|n: nat| n < k implies exists|j: int|
                    0 <= j < i && track_number(#[trigger] out[j]) == track_number(
                        #[trigger] sim_address(n),
                    ) by {
                    assert(used.contains(track_number(sim_address(n))));
                    let j = choose|j: int|
                        0 <= j < used.len() && used[j] == track_number(sim_address(n));
                    assert(out[j] == shown[j]);
                }
                assert(a == sim_address(k));
            } else {
                lemma_still_used(used, t, k);
                assert(used.push(t)[used.len() as int] == t);
                assert(remaps[q] == rest[q - 1]);
                lemma_first_free(addresses, shown2, i + 1, used.push(t), k + 1, q - 1);
            }
        }
    }
}

/// Nanoseconds since midnight UTC, from the seconds of the day and the
/// nanoseconds of the second (which pass one second in a leap second).
pub fn seconds_since_midnight_utc(seconds: u32, nanoseconds: u32) -> (r: u64)
    ensures
        r == seconds * NANO + nanoseconds,
        r == seconds * 1_000_000_000 + nanoseconds,
{
    seconds as u64 * NANO as u64 + nanoseconds as u64
}

/// An altitude in millionths of a foot to the nearest foot, halves away from
/// zero, held at the ends of the type.
pub open spec fn whole_feet(altitude_ft: int) -> int {
    if altitude_ft >= 0 {
        clamped((altitude_ft + 500_000) / 1_000_000)
    } else {
        clamped(-((-altitude_ft + 500_000) / 1_000_000))
    }
}

/// An altitude to the nearest foot.
pub fn round_feet(altitude_ft: i64) -> (r: i32)
    ensures
        r == whole_feet(altitude_ft as int),
{
    let a: i128 = altitude_ft as i128;
    let n: i128 = if a >= 0 {
        (a + 500_000) / 1_000_000
    } else {
        -((-a + 500_000) / 1_000_000)
    };
    clamp_to_i32(n)
}

/// Speed and direction of a flight.
#[derive(Debug, Clone, Copy, PartialEq, Eq, Structural)]
pub struct Velocity {
    /// Millionths of a metre per second
    pub speed_mps: i64,
    /// Millionths of a degree
    pub track_deg: i64,
}

/// What a CAT-062 record says of one flight.
#[derive(Debug)]
pub struct FlightRecord {
    /// Data source (system area and identification code)
    pub sac: u8,
    pub sic: u8,
    /// Track number, 12 bits
    pub track_number: u16,
    /// Nanoseconds since midnight UTC
    pub time_of_day: u64,
    /// Position, billionths of a minute of arc
    pub latitude: i64,
    pub longitude: i64,
    /// Altitude in feet
    pub altitude_ft: Option<i32>,
    /// Velocity over ground
    pub velocity: Option<Velocity>,
    /// Mode-S address
    pub icao_address: Option<u32>,
    /// Target identification
    pub callsign: Option<String>,
    /// Track status
    pub track_status: u8,
}

#[verifier::ext_equal]
pub struct RecordView {
    pub sac: u8,
    pub sic: u8,
    pub track_number: u16,
    pub time_of_day: u64,
    pub latitude: i64,
    pub longitude: i64,
    pub altitude_ft: Option<i32>,
    pub velocity: Option<Velocity>,
    pub icao_address: Option<u32>,
    pub callsign: Option<Seq<char>>,
    pub track_status: u8,
}

impl View for FlightRecord {
    type V = RecordView;

    open spec fn view(&self) -> RecordView {
        RecordView {
            sac: self.sac,
            sic: self.sic,
            track_number: self.track_number,
            time_of_day: self.time_of_day,
            latitude: self.latitude,
            longitude: self.longitude,
            altitude_ft: self.altitude_ft,
            velocity: self.velocity,
            icao_address: self.icao_address,
            callsign: text_of(self.callsign),
            track_status: self.track_status,
        }
    }
}

/// The Mode-S address that a text stands for, as a number.
pub open spec fn address_number(s: Seq<char>) -> Option<u32> {
    match hex_address(s) {
        Some(a) => Some(a as u32),
        None => None,
    }
}

/// The record of a flight.
pub open spec fn record(
    asterix: AsterixConfig,
    callsign: Seq<char>,
    icao_address: Seq<char>,
    lat: i64,
    lon: i64,
    altitude_ft: i64,
    gs_kts: i64,
    track_deg: i64,
    time_of_day: u64,
) -> RecordView {
    RecordView {
        sac: asterix.sac,
        sic: asterix.sic,
        track_number: track_number(icao_address),
        time_of_day,
        latitude: lat,
        longitude: lon,
        altitude_ft: Some(whole_feet(altitude_ft as int) as i32),
        velocity: Some(
            Velocity {
                speed_mps: scaled(gs_kts as int, KNOTS_TO_MPS as int, MICRO as int) as i64,
                track_deg,
            },
        ),
        icao_address: address_number(icao_address),
        callsign: Some(callsign),
        track_status: 0,
    }
}

/// The record of a flight. The Mode-S address seeds the track number, and with
/// the callsign lets downstream systems correlate the flight with its plan.
pub fn flight_record(
    asterix: AsterixConfig,
    callsign: &str,
    icao_address: &str,
    lat: i64,
    lon: i64,
    altitude_ft: i64,
    gs_kts: i64,
    track_deg: i64,
    time_of_day: u64,
) -> (r: FlightRecord)
    ensures
        r@ == record(
            asterix,
            callsign@,
            icao_address@,
            lat,
            lon,
            altitude_ft,
            gs_kts,
            track_deg,
            time_of_day,
        ),
        r.latitude == lat,
        r.longitude == lon,
        r.time_of_day == time_of_day,
        r.sac == asterix.sac && r.sic == asterix.sic,
        r.velocity matches Some(v) && v.track_deg == track_deg,
        r.callsign matches Some(c) && c@ == callsign@,
        r.track_number == track_number(icao_address@),
        match r.icao_address {
            Some(a) => hex_address(icao_address@) == Some(a as nat),
            None => hex_address(icao_address@) is None,
        },
{
    FlightRecord {
        sac: asterix.sac,
        sic: asterix.sic,
        track_number: icao_to_track_number(icao_address),
        time_of_day,
        latitude: lat,
        longitude: lon,
        altitude_ft: Some(round_feet(altitude_ft)),
        velocity: Some(
            Velocity {
                speed_mps: scale(gs_kts, KNOTS_TO_MPS as u64, MICRO as u64),
                track_deg,
            },
        ),
        icao_address: parse_icao_address(icao_address),
        callsign: Some(string_of(chars_of(callsign).as_slice())),
        track_status: 0,
    }
}

} // verus!
