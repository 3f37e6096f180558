//! The access token of the remote: how long one is used, and how it is
//! presented.

use vstd::prelude::*;
use vstd::string::StringExecFns;

verus! {

/// Seconds by which a token is given up before it expires, and the least
/// time that a token is used.
pub const EXPIRY_MARGIN: u64 = 10;

/// The seconds for which a token is used that expires in `expires_in`
/// seconds: ten seconds less, but never less than ten.
pub open spec fn token_lifetime_of(expires_in: u64) -> int {
    if expires_in >= 2 * EXPIRY_MARGIN {
        expires_in - EXPIRY_MARGIN
    } else {
        EXPIRY_MARGIN as int
    }
}

/// The seconds for which a token is used that expires in `expires_in`
/// seconds.
pub fn token_lifetime(expires_in: u64) -> (secs: u64)
    ensures
        secs == token_lifetime_of(expires_in),
{
    let early = expires_in.saturating_sub(EXPIRY_MARGIN);
    if early < EXPIRY_MARGIN {
        EXPIRY_MARGIN
    } else {
        early
    }
}

/// An access token and the time, on the caller's clock, after which it is
/// no longer used.
#[derive(Debug, Clone)]
pub struct CachedToken {
    pub token: String,
    pub expires: u64,
}

/// Whether a new token must be obtained at time `now`: none is cached, or
/// the cached one is no longer used.
pub fn needs_refresh(cached: &Option<CachedToken>, now: u64) -> (refresh: bool)
    ensures
        refresh == match *cached {
            None => true,
            Some(held) => held.expires <= now,
        },
{
    match cached {
        None => true,
        Some(held) => held.expires <= now,
    }
}

/// The cache entry for a token obtained at time `now` that expires in
/// `expires_in` seconds. The time saturates at the end of the clock.
pub fn cache_token(token: String, now: u64, expires_in: u64) -> (held: CachedToken)
    ensures
        held.token == token,
        held.expires == if now + token_lifetime_of(expires_in) > u64::MAX {
            u64::MAX as int
        } else {
            now + token_lifetime_of(expires_in)
        },
{
    CachedToken { token, expires: now.saturating_add(token_lifetime(expires_in)) }
}

/// The `Authorization` header that presents a token.
pub fn header(token: &str) -> (value: String)
    ensures
        value@ == "Bearer "@ + token@,
{
    let mut value = String::from_str("Bearer ");
    value.append(token);
    value
}

} // verus!
