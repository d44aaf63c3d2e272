//! Time helpers. Times and durations are counts of nanoseconds.

use vstd::prelude::*;

use crate::binary64::Binary64;
use crate::conversion::from_u64;
use crate::conversion::whole;

verus! {

/// 1e6.
pub const MILLION: u64 = 0x412E_8480_0000_0000;

/// 1e9.
pub const BILLION: u64 = 0x41CD_CD65_0000_0000;

/// 1000.
pub const THOUSAND: u64 = 0x408F_4000_0000_0000;

/// The low 64 bits of a count of nanoseconds.
pub open spec fn wrapped(ns: nat) -> nat {
    ns % 0x1_0000_0000_0000_0000
}

/// What has passed from `origin` to `t`: nothing, where `t` comes first.
pub open spec fn elapsed(origin: nat, t: nat) -> nat {
    if t > origin {
        (t - origin) as nat
    } else {
        0
    }
}

/// The low 64 bits of a count of nanoseconds.
pub fn wrap(ns: u128) -> (r: u64)
    ensures
        r == wrapped(ns as nat),
{
    (ns % 0x1_0000_0000_0000_0000) as u64
}

/// What has passed from `origin` to `t`: nothing, where `t` comes first.
pub fn saturating_since(origin: u128, t: u128) -> (r: u128)
    ensures
        r == elapsed(origin as nat, t as nat),
{
    if t > origin {
        t - origin
    } else {
        0
    }
}

/// Nanoseconds elapsed from `origin`, saturating at zero. The log records
/// every time as nanoseconds since the start of the run.
pub fn ns_since(origin: u128, t: u128) -> (r: u64)
    ensures
        r == wrapped(elapsed(origin as nat, t as nat)),
{
    wrap(saturating_since(origin, t))
}

/// The whole nanoseconds in `ms` milliseconds.
pub open spec fn ms_to_ns(ms: Binary64) -> nat {
    ms.times(Binary64 { bits: MILLION }).saturated()
}

/// The whole nanoseconds in `ms` milliseconds, cut off at either end of the
/// range.
pub fn ms_to_duration(ms: Binary64) -> (r: u64)
    ensures
        r == ms_to_ns(ms),
{
    ms.mul(Binary64::from_bits(MILLION)).to_u64()
}

/// A count of nanoseconds in milliseconds.
pub open spec fn ns_to_ms(ns: nat) -> Binary64 {
    whole(ns).over(Binary64 { bits: MILLION })
}

/// A count of nanoseconds in milliseconds.
pub fn duration_to_ms(ns: u64) -> (r: Binary64)
    ensures
        r == ns_to_ms(ns as nat),
{
    from_u64(ns).div(Binary64::from_bits(MILLION))
}

/// A duration in seconds: the whole seconds, plus the rest.
pub open spec fn ns_to_secs(ns: nat) -> Binary64 {
    whole(ns / 1_000_000_000).plus(
        whole(ns % 1_000_000_000).over(Binary64 { bits: BILLION }),
    )
}

/// A duration in seconds.
pub fn duration_to_secs(ns: u128) -> (r: Binary64)
    requires
        ns < 0x1_0000_0000_0000_0000 * 1_000_000_000,
    ensures
        r == ns_to_secs(ns as nat),
{
    let seconds: u64 = (ns / 1_000_000_000) as u64;
    let rest: u64 = (ns % 1_000_000_000) as u64;
    from_u64(seconds).add(from_u64(rest).div(Binary64::from_bits(BILLION)))
}

} // verus!
