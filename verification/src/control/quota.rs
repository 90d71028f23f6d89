//! Soft and hard limits of a namespace, borrowing beyond the soft one, and the
//! signal that goes with a refusal.

use vstd::prelude::*;

use crate::base::keys;
use crate::base::text::text;
use crate::proto::{BackpressureSignal, BackpressureSignalView, Quota};

verus! {

/// What a charged write amounts to.
#[derive(Debug, Clone, Copy, PartialEq, Eq, Structural)]
pub enum AdmitWrite {
    /// Within the soft limit, or there is none.
    WithinSoft,
    /// Above the soft limit, within the hard one.
    OverSoft,
    /// Above the hard limit.
    HardQuota { used_bytes: i64, soft_bytes: i64, hard_bytes: i64, deficit_bytes: i64 },
    /// Within the hard limit, but the shared pool has no room for it.
    PoolCapacity { used_bytes: i64, soft_bytes: i64, hard_bytes: i64, deficit_bytes: i64 },
}

impl AdmitWrite {
    /// The signal of a refusal.
    pub open spec fn signal(self, model_id: Seq<char>, revision: Seq<char>) -> Option<
        BackpressureSignalView,
    > {
        match self {
            AdmitWrite::HardQuota { used_bytes, soft_bytes, hard_bytes, deficit_bytes } => Some(
                BackpressureSignalView {
                    model_id,
                    revision,
                    used_bytes,
                    soft_bytes,
                    hard_bytes,
                    deficit_bytes,
                    reason: "HARD_QUOTA"@,
                },
            ),
            AdmitWrite::PoolCapacity { used_bytes, soft_bytes, hard_bytes, deficit_bytes } => Some(
                BackpressureSignalView {
                    model_id,
                    revision,
                    used_bytes,
                    soft_bytes,
                    hard_bytes,
                    deficit_bytes,
                    reason: "POOL_CAPACITY"@,
                },
            ),
            _ => None,
        }
    }

    /// The signal of a refusal.
    pub fn backpressure(&self, model_id: &str, revision: &str) -> (s: Option<BackpressureSignal>)
        ensures
            keys::opt(s) == self.signal(model_id@, revision@),
    {
        match *self {
            AdmitWrite::HardQuota { used_bytes, soft_bytes, hard_bytes, deficit_bytes } => Some(
                BackpressureSignal {
                    model_id: text(model_id),
                    revision: text(revision),
                    used_bytes,
                    soft_bytes,
                    hard_bytes,
                    deficit_bytes,
                    reason: text("HARD_QUOTA"),
                },
            ),
            AdmitWrite::PoolCapacity { used_bytes, soft_bytes, hard_bytes, deficit_bytes } => Some(
                BackpressureSignal {
                    model_id: text(model_id),
                    revision: text(revision),
                    used_bytes,
                    soft_bytes,
                    hard_bytes,
                    deficit_bytes,
                    reason: text("POOL_CAPACITY"),
                },
            ),
            _ => None,
        }
    }
}

/// The limits of a namespace that names none: unlimited, no borrowing.
pub open spec fn effective(q: Option<Quota>) -> Quota {
    match q {
        Some(q) => q,
        None => Quota { soft_bytes: 0, hard_bytes: 0, borrow_enabled: false },
    }
}

/// The limits of a namespace, or none.
pub fn quota_or_default(q: Option<Quota>) -> (r: Quota)
    ensures
        r == effective(q),
{
    match q {
        Some(q) => q,
        None => Quota { soft_bytes: 0, hard_bytes: 0, borrow_enabled: false },
    }
}

/// What makes limits acceptable: none is negative, and a hard limit is no lower
/// than the soft one.
pub open spec fn quota_verdict(q: Quota) -> Result<(), Seq<char>> {
    if q.soft_bytes < 0 || q.hard_bytes < 0 {
        Err("quota: soft/hard_bytes must be non-negative"@)
    } else if q.hard_bytes > 0 && q.soft_bytes > q.hard_bytes {
        Err("quota: soft_bytes must be <= hard_bytes when hard>0"@)
    } else {
        Ok(())
    }
}

/// Checks limits before they are set.
pub fn validate_quota(q: &Quota) -> (r: Result<(), String>)
    ensures
        keys::told(r) == quota_verdict(*q),
{
    if q.soft_bytes < 0 || q.hard_bytes < 0 {
        return Err(text("quota: soft/hard_bytes must be non-negative"));
    }
    if q.hard_bytes > 0 && q.soft_bytes > q.hard_bytes {
        return Err(text("quota: soft_bytes must be <= hard_bytes when hard>0"));
    }
    Ok(())
}

/// Bytes above the soft limit; none without a soft limit.
pub open spec fn borrowed(used: int, soft: int) -> int {
    if soft <= 0 || used <= soft {
        0
    } else {
        used - soft
    }
}

/// Bytes above the soft limit; none without a soft limit.
pub fn borrowed_bytes(used: i64, soft: i64) -> (n: i64)
    requires
        soft <= 0 || used - soft >= i64::MIN,
    ensures
        n == borrowed(used as int, soft as int),
{
    if soft <= 0 {
        return 0;
    }
    let over: i64 = used - soft;
    if over > 0 {
        over
    } else {
        0
    }
}

/// The nearest value that fits 64 signed bits.
pub open spec fn clamped(n: int) -> int {
    if n > i64::MAX {
        i64::MAX as int
    } else if n < i64::MIN {
        i64::MIN as int
    } else {
        n
    }
}

/// The nearest value that fits 64 signed bits.
pub fn clamp(n: i128) -> (r: i64)
    ensures
        r == clamped(n as int),
{
    if n > 9_223_372_036_854_775_807 {
        i64::MAX
    } else if n < -9_223_372_036_854_775_808 {
        i64::MIN
    } else {
        n as i64
    }
}

/// What a write of `delta` bytes amounts to at the given usage.
pub open spec fn classified(used: int, delta: int, q: Quota) -> AdmitWrite {
    let projected = clamped(used + delta);
    if q.hard_bytes > 0 && projected > q.hard_bytes {
        AdmitWrite::HardQuota {
            used_bytes: used as i64,
            soft_bytes: q.soft_bytes,
            hard_bytes: q.hard_bytes,
            deficit_bytes: (projected - q.hard_bytes) as i64,
        }
    } else if q.soft_bytes > 0 && projected > q.soft_bytes {
        AdmitWrite::OverSoft
    } else {
        AdmitWrite::WithinSoft
    }
}

/// Holds a write of `delta` bytes against the limits.
pub fn classify_write(used: i64, delta: i64, quota: &Quota) -> (r: AdmitWrite)
    ensures
        r == classified(used as int, delta as int, *quota),
{
    let projected: i64 = clamp(used as i128 + delta as i128);
    let soft: i64 = quota.soft_bytes;
    let hard: i64 = quota.hard_bytes;
    if hard > 0 && projected > hard {
        return AdmitWrite::HardQuota {
            used_bytes: used,
            soft_bytes: soft,
            hard_bytes: hard,
            deficit_bytes: projected - hard,
        };
    }
    if soft > 0 && projected > soft {
        return AdmitWrite::OverSoft;
    }
    AdmitWrite::WithinSoft
}

/// A write that is let through stays within the hard limit; without limits every
/// write is let through.
pub proof fn admitted_fits(used: int, delta: int, q: Quota)
    requires
        i64::MIN <= used + delta <= i64::MAX,
    ensures
        q.hard_bytes > 0 && !(classified(used, delta, q) is HardQuota) ==> used + delta
            <= q.hard_bytes,
        q.hard_bytes <= 0 && q.soft_bytes <= 0 ==> classified(used, delta, q)
            == AdmitWrite::WithinSoft,
{
}

/// A write is above the hard limit exactly where there is one and it takes the usage over it,
/// by what it is over; it is above the soft limit only where there is one and the hard limit
/// holds.
pub proof fn limits_are_drawn(used: i64, delta: int, q: Quota)
    requires
        i64::MIN <= used + delta <= i64::MAX,
        q.hard_bytes >= 0,
        q.soft_bytes >= 0,
    ensures
        ({
            let after = used + delta;
            let hard = q.hard_bytes > 0 && after > q.hard_bytes;
            let soft = q.soft_bytes > 0 && after > q.soft_bytes;
            match classified(used as int, delta, q) {
                AdmitWrite::HardQuota { used_bytes, soft_bytes, hard_bytes, deficit_bytes } => hard
                    && deficit_bytes == after - q.hard_bytes && used_bytes == used && soft_bytes
                    == q.soft_bytes && hard_bytes == q.hard_bytes,
                AdmitWrite::OverSoft => !hard && soft,
                AdmitWrite::WithinSoft => !hard && !soft,
                _ => false,
            }
        }),
{
}

} // verus!
