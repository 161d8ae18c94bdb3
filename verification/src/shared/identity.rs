//! The identity that a simulated flight is published under.

use crate::shared::cat062::{
    default_sim_callsign, default_sim_icao_address, remap_indices_ascend, remap_track_collisions,
    remap_views, remapping,
    replaced, sim_address, sim_address_number, sim_callsign, str_views, TrackNumbersExhausted,
    TRACK_NUMBERS,
};
use crate::shared::config::SimulationConfig;
use crate::shared::lido::{LidoBriefing, LidoBriefingView};
use crate::text::{string_views, text_of};
use vstd::prelude::*;

verus! {

/// Callsign and Mode-S address of a flight.
#[derive(Debug)]
pub struct Identity {
    pub callsign: String,
    pub icao_address: String,
}

/// The first of an override, a briefing's value and a fallback; overrides are for
/// single flights.
pub open spec fn preferred(
    over: Option<Seq<char>>,
    briefed: Option<Seq<char>>,
    fallback: Seq<char>,
    single: bool,
) -> Seq<char> {
    match (over, briefed) {
        (Some(s), _) if single => s,
        (_, Some(s)) => s,
        _ => fallback,
    }
}

/// Whether a value is given, so that no fallback is needed.
pub open spec fn is_given(
    over: Option<Seq<char>>,
    briefed: Option<Seq<char>>,
    single: bool,
) -> bool {
    (single && over is Some) || briefed is Some
}

/// The callsign of the flight at `index`.
pub open spec fn callsign_of(
    config: SimulationConfig,
    briefing: LidoBriefingView,
    index: nat,
    single: bool,
) -> Seq<char> {
    preferred(text_of(config.callsign), briefing.callsign, sim_callsign(index), single)
}

/// The Mode-S address of the flight at `index`.
pub open spec fn address_of(
    config: SimulationConfig,
    briefing: LidoBriefingView,
    index: nat,
    single: bool,
) -> Seq<char> {
    preferred(text_of(config.icao_address), briefing.icao_address, sim_address(index), single)
}

/// Whether overrides are given that several flights cannot share.
pub open spec fn ignores_overrides(config: SimulationConfig, flights: nat) -> bool {
    flights != 1 && (config.callsign is Some || config.icao_address is Some)
}

/// Whether overrides are given that several flights cannot share.
pub fn overrides_ignored(config: &SimulationConfig, flights: usize) -> (r: bool)
    ensures
        r == ignores_overrides(*config, flights as nat),
{
    flights != 1 && (config.callsign.is_some() || config.icao_address.is_some())
}

fn given(over: &Option<String>, briefed: &Option<String>, single: bool) -> (r: Option<String>)
    ensures
        match r {
            Some(s) => is_given(text_of(*over), text_of(*briefed), single) && forall|f: Seq<char>|
                s@ == #[trigger] preferred(text_of(*over), text_of(*briefed), f, single),
            None => !is_given(text_of(*over), text_of(*briefed), single),
        },
{
    if single {
        if let Some(s) = over {
            return Some(s.clone());
        }
    }
    match briefed {
        Some(s) => Some(s.clone()),
        None => None,
    }
}

/// The identity of the flight at `index`: overrides of the configuration where
/// it is the only flight, else what the briefing gives (callsign and Mode-S code
/// of the flight plan), else fallbacks by index.
pub fn flight_identity(
    config: &SimulationConfig,
    briefing: &LidoBriefing,
    index: usize,
    single: bool,
) -> (r: Identity)
    requires
        is_given(text_of(config.callsign), briefing@.callsign, single) || index < usize::MAX,
        is_given(text_of(config.icao_address), briefing@.icao_address, single)
            || sim_address_number(index as nat) <= u32::MAX,
    ensures
        r.callsign@ == callsign_of(*config, briefing@, index as nat, single),
        r.icao_address@ == address_of(*config, briefing@, index as nat, single),
{
    Identity {
        callsign: match given(&config.callsign, &briefing.callsign, single) {
            Some(s) => s,
            None => default_sim_callsign(index),
        },
        icao_address: match given(&config.icao_address, &briefing.icao_address, single) {
            Some(s) => s,
            None => default_sim_icao_address(index),
        },
    }
}

/// With several flights the overrides of the configuration change nothing.
pub proof fn overrides_are_for_single_flights(
    a: SimulationConfig,
    b: SimulationConfig,
    briefing: LidoBriefingView,
    index: nat,
)
    ensures
        callsign_of(a, briefing, index, false) == callsign_of(b, briefing, index, false),
        address_of(a, briefing, index, false) == address_of(b, briefing, index, false),
{
}

/// An address that was replaced.
#[derive(Debug)]
pub struct Remap {
    /// Index of the flight
    pub index: usize,
    /// Address that it had
    pub from: String,
    /// Address that it has
    pub to: String,
}

pub open spec fn remap_moves(v: Seq<Remap>) -> Seq<(int, Seq<char>, Seq<char>)> {
    Seq::new(v.len(), |k: int| (v[k].index as int, v[k].from@, v[k].to@))
}

/// Replacements, each with the address that it replaces.
pub open spec fn moves(addresses: Seq<Seq<char>>, remaps: Seq<(int, Seq<char>)>) -> Seq<
    (int, Seq<char>, Seq<char>),
> {
    Seq::new(
        remaps.len(),
        |k: int|
            {
                let (i, a) = remaps[k];
                (i, addresses[i], a)
            },
    )
}

/// Replace addresses so that every flight has its own track number. Returns the
/// replacements that were made; where there is a flight for which no number is
/// left, makes none.
pub fn separate_addresses(addresses: &mut Vec<String>) -> (r: Result<
    Vec<Remap>,
    TrackNumbersExhausted,
>)
    ensures
        ({
            let before = string_views(old(addresses)@);
            let after = string_views(final(addresses)@);
            match (r, remapping(before)) {
                (Ok(v), Ok(remaps)) => after == replaced(before, remaps) && remap_moves(v@)
                    == moves(before, remaps),
                (Err(e), Err(i)) => after == before && 0 <= i < before.len() && e.icao_address@
                    == before[i],
                _ => false,
            }
        }),
        final(addresses)@.len() == old(addresses)@.len(),
        r is Ok <==> old(addresses)@.len() <= TRACK_NUMBERS,
{
    let ghost before = string_views(addresses@);
    let mut refs: Vec<&str> = Vec::new();
    let mut i: usize = 0;
    while i < addresses.len()
        invariant
            i <= addresses@.len(),
            before == string_views(addresses@),
            refs@.len() == i,
            forall|k: int| 0 <= k < i ==> (#[trigger] refs@[k])@ == before[k],
        decreases addresses@.len() - i,
    {
        refs.push(addresses[i].as_str());
        i += 1;
    }
    proof {
        assert(str_views(refs@) =~= before);
    }
    let remaps = match remap_track_collisions(refs.as_slice()) {
        Ok(v) => v,
        Err(e) => {
            return Err(e);
        },
    };
    let ghost plan = remap_views(remaps@);
    let mut out: Vec<Remap> = Vec::new();
    let mut k: usize = 0;
    proof {
        assert(plan.skip(0) =~= plan);
    }
    while k < remaps.len()
        invariant
            plan == remap_views(remaps@),
            k <= remaps@.len(),
            before == string_views(old(addresses)@),
            addresses@.len() == before.len(),
            remapping(before) matches Ok(p) && p == plan,
            forall|m: int|
                0 <= m < before.len() && k < plan.len() && m >= plan[k as int].0 ==> (
                #[trigger] addresses@[m])@ == before[m],
            replaced(string_views(addresses@), plan.skip(k as int)) == replaced(before, plan),
            out@.len() == k,
            forall|j: int|
                0 <= j < k ==> (#[trigger] remap_moves(out@)[j]) == moves(before, plan)[j],
        decreases remaps@.len() - k,
    {
        let index: usize = remaps[k].0;
        let to = remaps[k].1.clone();
        proof {
            remap_indices_ascend(before);
            assert(plan[k as int] == (index as int, to@));
            assert(plan.skip(k as int).drop_first() =~= plan.skip(k + 1));
            assert(plan.skip(k as int)[0] == plan[k as int]);
        }
        let e = Remap { index, from: addresses[index].clone(), to: to.clone() };
        let ghost current = addresses@;
        let ghost done = out@;
        addresses.set(index, to);
        out.push(e);
        proof {
            assert(string_views(addresses@) =~= string_views(current).update(index as int, to@));
            assert forall|j: int| 0 <= j < k + 1 implies (#[trigger] remap_moves(out@)[j]) == moves(
                before,
                plan,
            )[j] by {
                if j < k {
                    assert(remap_moves(done)[j] == moves(before, plan)[j]);
                }
            }
        }
        k += 1;
    }
    proof {
        assert(plan.skip(k as int) =~= Seq::empty());
        assert(remap_moves(out@) =~= moves(before, plan));
    }
    Ok(out)
}

} // verus!
