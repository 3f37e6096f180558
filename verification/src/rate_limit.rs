//! Rate limits in the form `burst/period`: `burst` actions at once, the whole
//! burst replenished every `period` seconds.

use crate::text::{
    decimal, decimal_string, number, parse_number, trim_end, trim_start, trimmed_end, trimmed_start,
};
use governor::Quota;
use std::num::NonZeroU32;
use std::time::Duration;
use vstd::arithmetic::div_mod::lemma_hoist_over_denominator;
use vstd::prelude::*;
use vstd::string::{StrSliceExecFns, StringExecFns};

verus! {

/// Why a rate limit was refused.
#[derive(Clone, Copy, Debug, PartialEq, Eq, Structural)]
pub enum Error {
    /// The value is not a positive `burst/period`.
    Format,
}

/// Nanoseconds in a second.
pub const NANOS_PER_SEC: u64 = 1_000_000_000;

/// `Quota::with_period` on an interval of `secs` seconds and `nanos`
/// nanoseconds: the quota is refused exactly where the interval is zero.
#[verifier::external_body]
fn quota_accepts(secs: u64, nanos: u32) -> (ok: bool)
    requires
        nanos < NANOS_PER_SEC,
    ensures
        ok == (secs * NANOS_PER_SEC + nanos != 0),
{
    Quota::with_period(Duration::new(secs, nanos)).is_some()
}

/// `Quota::burst_size_replenished_in`, in whole seconds, of the quota that
/// replenishes one cell per interval and allows `burst` at once: the
/// interval's nanoseconds times the burst, cut to 64 bits, as seconds. There
/// is no such quota where the burst or the interval is zero.
#[verifier::external_body]
fn quota_replenished_secs(secs: u64, nanos: u32, burst: u32) -> (r: Option<u64>)
    requires
        nanos < NANOS_PER_SEC,
    ensures
        r is Some <==> (burst != 0 && secs * NANOS_PER_SEC + nanos != 0),
        r is Some ==> r->Some_0 == replenished_secs((secs * NANOS_PER_SEC + nanos) as nat, burst),
{
    let burst = NonZeroU32::new(burst)?;
    let quota = Quota::with_period(Duration::new(secs, nanos))?.allow_burst(burst);
    Some(quota.burst_size_replenished_in().as_secs())
}

/// The whole seconds in which a burst is replenished at one cell per
/// `interval` nanoseconds, as the limiter reports them: the product is cut
/// to 64 bits.
pub open spec fn replenished_secs(interval: nat, burst: u32) -> nat {
    (((interval * burst) % 0x1_0000_0000_0000_0000) / (NANOS_PER_SEC as int)) as nat
}

/// Whether `at` is where the only `/` of `text` stands.
pub open spec fn is_only_slash(text: Seq<char>, at: int) -> bool {
    &&& 0 <= at < text.len()
    &&& text[at] == '/'
    &&& forall|j: int| 0 <= j < text.len() && j != at ==> text[j] != '/'
}

/// Whether `text` holds exactly one `/`.
pub open spec fn has_one_slash(text: Seq<char>) -> bool {
    exists|at: int| is_only_slash(text, at)
}

/// Where the only `/` of `text` stands.
pub open spec fn slash_at(text: Seq<char>) -> int {
    choose|at: int| is_only_slash(text, at)
}

/// The nanoseconds after which one cell is replenished where `burst` cells
/// are replenished every `period` seconds.
pub open spec fn interval_of(burst: u32, period: u64) -> nat {
    ((period * NANOS_PER_SEC) / (burst as int)) as nat
}

/// The burst and the period in seconds that a text names: the text holds
/// exactly one `/`, what stands before it is the burst, a positive 32-bit
/// number, what stands after it the period, a 64-bit number; white space
/// around the `/` does not count; and a cell is replenished in no less than
/// a nanosecond. `None` for every other text.
pub open spec fn rate_of(text: Seq<char>) -> Option<(u32, u64)> {
    if has_one_slash(text) {
        let at = slash_at(text);
        match (
            number(trim_end(text.subrange(0, at))),
            number(trim_start(text.subrange(at + 1, text.len() as int))),
        ) {
            (Some(burst), Some(period)) => if 0 < burst <= u32::MAX && period <= u64::MAX
                && interval_of(burst as u32, period as u64) > 0 {
                Some((burst as u32, period as u64))
            } else {
                None
            },
            _ => None,
        }
    } else {
        None
    }
}

/// A rate limit: how many cells a burst holds, and the interval at which
/// one cell is replenished.
#[derive(Clone, Copy, Debug)]
pub struct RateLimit {
    burst: u32,
    secs: u64,
    nanos: u32,
}

impl RateLimit {
    #[verifier::type_invariant]
    spec fn valid(self) -> bool {
        &&& self.burst > 0
        &&& self.nanos < NANOS_PER_SEC
        &&& self.secs != 0 || self.nanos != 0
    }

    /// The number of cells of a burst.
    pub closed spec fn burst(self) -> u32 {
        self.burst
    }

    /// The nanoseconds after which one cell is replenished.
    pub closed spec fn interval(self) -> nat {
        (self.secs * NANOS_PER_SEC + self.nanos) as nat
    }

    /// The number of cells of a burst; never zero.
    pub fn burst_size(&self) -> (r: u32)
        ensures
            r == self.burst(),
            r > 0,
    {
        proof {
            use_type_invariant(self);
        }
        self.burst
    }

    /// The interval at which one cell is replenished, as whole seconds and
    /// the nanoseconds beyond them; never zero.
    pub fn replenish_interval(&self) -> (r: (u64, u32))
        ensures
            r.1 < NANOS_PER_SEC,
            r.0 * NANOS_PER_SEC + r.1 == self.interval(),
            self.interval() > 0,
    {
        proof {
            use_type_invariant(self);
        }
        (self.secs, self.nanos)
    }

    /// Reads a rate limit of the form `burst/period`.
    pub fn from_str(s: &str) -> (r: Result<RateLimit, Error>)
        ensures
            match rate_of(s@) {
                Some((burst, period)) => r is Ok && r->Ok_0.burst() == burst && r->Ok_0.interval()
                    == interval_of(burst, period),
                None => r == Err::<RateLimit, Error>(Error::Format),
            },
    {
        let n = s.unicode_len();
        let mut at: usize = 0;
        while at < n && s.get_char(at) != '/'
            invariant
                at <= n,
                n == s@.len(),
                forall|j: int| 0 <= j < at ==> s@[j] != '/',
            decreases n - at,
        {
            at += 1;
        }
        if at == n {
            proof {
                if has_one_slash(s@) {
                    assert(is_only_slash(s@, slash_at(s@)));
                }
            }
            return Err(Error::Format);
        }
        let mut next: usize = at + 1;
        while next < n && s.get_char(next) != '/'
            invariant
                at < next <= n,
                n == s@.len(),
                forall|j: int| at < j < next ==> s@[j] != '/',
            decreases n - next,
        {
            next += 1;
        }
        if next < n {
            proof {
                if has_one_slash(s@) {
                    assert(is_only_slash(s@, slash_at(s@)));
                }
            }
            return Err(Error::Format);
        }
        proof {
            assert(is_only_slash(s@, at as int));
            assert(is_only_slash(s@, slash_at(s@)));
            assert(slash_at(s@) == at);
        }
        let burst_end = trimmed_end(s, 0, at);
        let period_start = trimmed_start(s, at + 1, n);
        let burst = match parse_number(s, 0, burst_end) {
            Some(v) => v,
            None => {
                return Err(Error::Format);
            },
        };
        let period = match parse_number(s, period_start, n) {
            Some(v) => v,
            None => {
                return Err(Error::Format);
            },
        };
        if burst == 0 || burst > 0xFFFF_FFFF {
            return Err(Error::Format);
        }
        let burst = burst as u32;
        let secs = period / (burst as u64);
        let rest = period % (burst as u64);
        let nanos = (rest * NANOS_PER_SEC / (burst as u64)) as u32;
        proof {
            let b = burst as int;
            let e = NANOS_PER_SEC as int;
            assert(period == secs * b + rest) by (nonlinear_arith)
                requires
                    secs == period as int / b,
                    rest == period as int % b,
                    b > 0,
            ;
            assert(period * e == rest * e + (secs * e) * b) by (nonlinear_arith)
                requires
                    period == secs * b + rest,
            ;
            lemma_hoist_over_denominator(rest * e, secs * e, b as nat);
            assert((rest * e) / b < e) by (nonlinear_arith)
                requires
                    0 <= rest < b,
                    e > 0,
            ;
            assert(secs * NANOS_PER_SEC + nanos == interval_of(burst, period));
        }
        if !quota_accepts(secs, nanos) {
            return Err(Error::Format);
        }
        Ok(RateLimit { burst, secs, nanos })
    }

    /// Writes the rate limit as `burst/period`, the period being the whole
    /// seconds in which the limiter replenishes a burst.
    pub fn to_string(&self) -> (s: String)
        ensures
            s@ == decimal(self.burst() as nat) + "/"@ + decimal(
                replenished_secs(self.interval(), self.burst()),
            ),
    {
        proof {
            use_type_invariant(self);
        }
        let period = match quota_replenished_secs(self.secs, self.nanos, self.burst) {
            Some(period) => period,
            None => 0,
        };
        let mut s = decimal_string(self.burst as u64);
        s.append("/");
        s.append(decimal_string(period).as_str());
        s
    }
}

} // verus!
