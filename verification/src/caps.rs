//! Whether the daemon may use realtime scheduling.

use vstd::prelude::*;

verus! {

/// The number of the capability that realtime scheduling needs.
pub const CAP_SYS_NICE: u32 = 23;

/// The words of a process's effective capabilities.
#[derive(Debug, Clone, Copy, PartialEq, Eq, Structural)]
pub struct EffectiveCaps {
    /// Capabilities 0 to 31.
    pub low: u32,
    /// Capabilities 32 to 63.
    pub high: u32,
}

/// Whether a bit of a word is set.
pub open spec fn bit(word: u32, n: u32) -> bool {
    (word >> n) & 1 == 1
}

/// Whether a capability is effective.
pub open spec fn effective(caps: EffectiveCaps, cap: u32) -> bool {
    if cap < 32 {
        bit(caps.low, cap)
    } else {
        bit(caps.high, (cap - 32) as u32)
    }
}

/// Whether a capability is effective.
pub fn has_cap(caps: EffectiveCaps, cap: u32) -> (r: bool)
    requires
        cap < 64,
    ensures
        r == effective(caps, cap),
{
    if cap < 32 {
        (caps.low >> cap) & 1 == 1
    } else {
        (caps.high >> (cap - 32)) & 1 == 1
    }
}

/// Whether real-time classes are permitted.
pub open spec fn may_rt(root: bool, caps: Option<EffectiveCaps>) -> bool {
    root || (caps is Some && effective(caps.unwrap(), CAP_SYS_NICE))
}

/// Whether realtime scheduling is allowed: to the superuser, and to whoever
/// has the capability. Without an answer of the kernel it is not.
pub fn can_rt_sched(root: bool, caps: Option<EffectiveCaps>) -> (r: bool)
    ensures
        r == may_rt(root, caps),
{
    if root {
        return true;
    }
    match caps {
        Some(c) => has_cap(c, CAP_SYS_NICE),
        None => false,
    }
}

} // verus!
