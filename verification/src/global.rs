use vstd::prelude::*;

verus! {

/// Abuse code recorded for an address outside the whitelist.
pub const AC_IP_NOT_WHITELISTED: u16 = 1000;

/// Abuse code recorded when AbuseIPDB could not be asked.
pub const AC_IPABUSEDB_FAIL: u16 = 2000;

/// How long a CSRF token lasts, in seconds: 48 hours.
pub const CSRF_TTL: i64 = 172_800;

/// The lowest abuse code of a submission counted as valid.
pub const AC_LOWEST: i16 = 0;

/// The highest abuse code of a submission counted as valid.
pub const AC_HIGHEST: i16 = 20;

/// The shortest time, in seconds, taken to answer a valid submission.
pub const MIN_SUB_DURATION: i32 = 20;

/// The longest time, in seconds, taken to answer a valid submission.
pub const MAX_SUB_DURATION: i32 = 21_600;

} // verus!
