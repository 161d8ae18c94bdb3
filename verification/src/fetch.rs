//! Fetching states from the OpenSky Network: what to do next, after each thing
//! that was done.
//!
//! The caller performs an action, and hands what came of it to the function for
//! that event, which says what to do next.

use crate::number::{render, rendered};
use crate::opensky::{
    bytes_of, check_rate_limit, check_success, first_short, is_fresh, is_success, retry_seconds,
    state_of, states_query, states_url, BoundingBox, Json, OpenSkyError, OpenSkyResponse,
    StateVector, TokenManager, TOO_MANY_REQUESTS,
};
use crate::text::{chars_of, string_of};
use vstd::prelude::*;

verus! {

/// What to do next.
#[derive(Debug)]
pub enum FetchAction {
    /// Ask for a token, with the form of the token manager
    AskToken,
    /// Ask for the states at an address, with a bearer token if there is one
    AskStates { url: String, token: Option<String> },
    /// Read the body of the answer
    ReadBody,
    /// Read states from the text of the answer
    ReadStates { text: String },
    /// Done
    Finish { result: Result<Vec<StateVector>, OpenSkyError> },
}

/// Whether an action asks for the states within a box, with the given token.
pub open spec fn asks_states(a: FetchAction, bbox: BoundingBox, token: Option<Seq<char>>) -> bool {
    a matches FetchAction::AskStates { url, token: t } && url@ == states_query(bbox) && (
    match (t, token) {
        (Some(s), Some(v)) => s@ == v,
        (None, None) => true,
        _ => false,
    })
}

/// Start a fetch: without token manager the states are asked for at once, with
/// one as soon as there is a token that does not expire within the minute.
pub fn start_fetch(bbox: &BoundingBox, tokens: Option<&TokenManager>, now: u64) -> (r: FetchAction)
    ensures
        match tokens {
            None => asks_states(r, *bbox, None),
            Some(m) => match m.cached_token {
                Some(t) if is_fresh(t.expires_at as int, now as int) => asks_states(
                    r,
                    *bbox,
                    Some(t.access_token@),
                ),
                _ => r is AskToken,
            },
        },
{
    match tokens {
        None => FetchAction::AskStates { url: states_url(bbox), token: None },
        Some(m) => match m.get_token(now) {
            Some(token) => FetchAction::AskStates { url: states_url(bbox), token: Some(token) },
            None => FetchAction::AskToken,
        },
    }
}

/// A token has come: keep it, and ask for the states with it.
pub fn on_token(
    bbox: &BoundingBox,
    tokens: &mut TokenManager,
    access_token: String,
    expires_in: u64,
    now: u64,
) -> (r: FetchAction)
    ensures
        asks_states(r, *bbox, Some(access_token@)),
        final(tokens).credentials == old(tokens).credentials,
        final(tokens).cached_token matches Some(t) && t.access_token@ == access_token@
            && t.expires_at == now + expires_in * 1_000_000_000,
{
    let token = access_token.clone();
    tokens.store(access_token, expires_in, now);
    FetchAction::AskStates { url: states_url(bbox), token: Some(token) }
}

/// An answer has come: refuse it after too many requests, else read its body.
pub fn on_answer(
    status: u16,
    primary: &Option<Vec<u8>>,
    secondary: &Option<Vec<u8>>,
) -> (r: FetchAction)
    ensures
        if status == TOO_MANY_REQUESTS {
            r matches FetchAction::Finish { result: Err(e) }
                && e matches OpenSkyError::RateLimited { retry_after } && (match retry_after {
                Some(n) => retry_seconds(bytes_of(*primary), bytes_of(*secondary)) == Some(
                    n as nat,
                ),
                None => retry_seconds(bytes_of(*primary), bytes_of(*secondary)) is None,
            })
        } else {
            r is ReadBody
        },
        r is ReadBody <==> status != 429,
{
    match check_rate_limit(status, primary, secondary) {
        Ok(_) => FetchAction::ReadBody,
        Err(e) => FetchAction::Finish { result: Err(e) },
    }
}

/// The body has come: refuse it with another status than success, else read
/// states from it.
pub fn on_body(status: u16, reason: String, body: String) -> (r: FetchAction)
    ensures
        if is_success(status) {
            r == (FetchAction::ReadStates { text: body })
        } else {
            r == (FetchAction::Finish {
                result: Err(OpenSkyError::HttpStatus { status, reason, body }),
            })
        },
{
    match check_success(status, reason, body) {
        Ok(text) => FetchAction::ReadStates { text },
        Err(e) => FetchAction::Finish { result: Err(e) },
    }
}

/// What is said of an array that is too short for a state.
pub open spec fn short_text(len: nat) -> Seq<char> {
    "expected at least 17 elements, got "@ + rendered(len, 10)
}

fn short_message(len: usize) -> (r: String)
    ensures
        r@ == short_text(len as nat),
{
    let mut out = chars_of("expected at least 17 elements, got ");
    let mut digits = render(len as u64, 10);
    out.append(&mut digits);
    string_of(out.as_slice())
}

/// The text has been read: as its time and the arrays of its states, or not, with
/// what is said of it.
pub fn on_text(parsed: Result<(i64, Option<Vec<Vec<Json>>>), String>) -> (r: FetchAction)
    ensures
        r matches FetchAction::Finish { result } && (match (parsed, result) {
            (Err(m), Err(OpenSkyError::Serde(s))) => s == m,
            (Ok((_, None)), Ok(states)) => states@.len() == 0,
            (Ok((_, Some(arrays))), Ok(states)) => {
                &&& first_short(arrays@, 0) is None
                &&& states@.len() == arrays@.len()
                &&& forall|i: int|
                    0 <= i < states@.len() ==> (#[trigger] states@[i])@ == state_of(arrays@[i]@)
                        && states@[i].wf()
            },
            (Ok((_, Some(arrays))), Err(OpenSkyError::Serde(s))) => first_short(
                arrays@,
                0,
            ) matches Some(i) && s@ == short_text(arrays@[i]@.len()),
            _ => false,
        }),
{
    let (time, arrays) = match parsed {
        Ok(p) => p,
        Err(m) => {
            return FetchAction::Finish { result: Err(OpenSkyError::Serde(m)) };
        },
    };
    match OpenSkyResponse::from_arrays(time, arrays) {
        Ok(response) => FetchAction::Finish { result: Ok(response.into_states()) },
        Err(e) => FetchAction::Finish {
            result: Err(OpenSkyError::Serde(short_message(e.len))),
        },
    }
}

/// A request has failed.
pub fn on_failure(message: String) -> (r: FetchAction)
    ensures
        r == (FetchAction::Finish { result: Err(OpenSkyError::Request(message)) }),
{
    FetchAction::Finish { result: Err(OpenSkyError::Request(message)) }
}

} // verus!
