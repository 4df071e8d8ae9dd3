//! Processes that wait for their name.
//!
//! A process that was just forked has no command line for a moment. It waits
//! in a queue and is looked at again after growing delays, a few times at
//! most.

use vstd::prelude::*;

verus! {

/// Delays before the looks that follow the first, in milliseconds.
pub const PENDING_BACKOFF_MS: [u64; 3] = [100, 300, 1000];

/// Looks that follow the first.
pub const PENDING_MAX_RETRIES: u8 = 3;

/// A process that waits.
#[derive(Debug, Clone, Copy, PartialEq, Eq, Structural)]
pub struct Pending {
    pub pid: i32,
    /// Looks that failed so far, the first one aside.
    pub retries: u8,
    /// When to look again, in milliseconds.
    pub next: u64,
}

// ---------------------------------------------------------------------
// Specifications
// ---------------------------------------------------------------------

/// The delay after a look that failed.
pub open spec fn delay(retries: u8) -> u64 {
    if retries == 0 {
        100
    } else if retries == 1 {
        300
    } else {
        1000
    }
}

/// The process after a look that failed, unless it is given up.
pub open spec fn retried(p: Pending, now: u64) -> Option<Pending> {
    if p.retries < PENDING_MAX_RETRIES {
        Some(
            Pending {
                pid: p.pid,
                retries: (p.retries + 1) as u8,
                next: (now + delay(p.retries)) as u64,
            },
        )
    } else {
        None
    }
}

/// The queue with a retried process, if it is not given up.
pub open spec fn put_back(q: Seq<Pending>, p: Option<Pending>) -> Seq<Pending> {
    match p {
        Some(p) => q.push(p),
        None => q,
    }
}

/// Whether a process waits.
pub open spec fn waits(q: Seq<Pending>, pid: i32) -> bool {
    exists|i: int| 0 <= i < q.len() && (#[trigger] q[i]).pid == pid
}

/// The queue with one more process, unless it waits already or the queue is
/// full.
pub open spec fn queued(q: Seq<Pending>, pid: i32, now: u64, max: usize) -> Seq<Pending> {
    if q.len() < max && !waits(q, pid) {
        q.push(Pending { pid, retries: 0, next: now })
    } else {
        q
    }
}

/// What holds of every queue: no process waits twice, and none longer than
/// it may.
pub open spec fn orderly(q: Seq<Pending>) -> bool {
    &&& forall|i: int, j: int| 0 <= i < j < q.len() ==> (#[trigger] q[i]).pid != (#[trigger] q[j]).pid
    &&& forall|i: int| 0 <= i < q.len() ==> (#[trigger] q[i]).retries <= PENDING_MAX_RETRIES
}

/// The earliest moment at which a process wants to be looked at.
pub open spec fn earliest(q: Seq<Pending>) -> Option<u64>
    decreases q.len(),
{
    if q.len() == 0 {
        None
    } else {
        match earliest(q.drop_last()) {
            Some(t) => if q.last().next < t {
                Some(q.last().next)
            } else {
                Some(t)
            },
            None => Some(q.last().next),
        }
    }
}

/// When to wake: at the deadline, or when the first process wants a look.
pub open spec fn wake_time(q: Seq<Pending>, deadline: u64) -> u64 {
    match earliest(q) {
        Some(t) => if t < deadline {
            t
        } else {
            deadline
        },
        None => deadline,
    }
}

// ---------------------------------------------------------------------
// Executable functions
// ---------------------------------------------------------------------

/// The process after a look that failed, unless it is given up.
pub fn retry(p: &Pending, now: u64) -> (r: Option<Pending>)
    requires
        now + 1000 <= u64::MAX,
    ensures
        r == retried(*p, now),
{
    if p.retries >= PENDING_MAX_RETRIES {
        return None;
    }
    let wait: u64 = if p.retries == 0 {
        PENDING_BACKOFF_MS[0]
    } else if p.retries == 1 {
        PENDING_BACKOFF_MS[1]
    } else {
        PENDING_BACKOFF_MS[2]
    };
    Some(Pending { pid: p.pid, retries: p.retries + 1, next: now + wait })
}

/// Whether a process waits.
pub fn is_waiting(q: &Vec<Pending>, pid: i32) -> (r: bool)
    ensures
        r == waits(q@, pid),
{
    let mut i: usize = 0;
    while i < q.len()
        invariant
            0 <= i <= q@.len(),
            forall|j: int| 0 <= j < i ==> (#[trigger] q@[j]).pid != pid,
        decreases q@.len() - i,
    {
        if q[i].pid == pid {
            return true;
        }
        i += 1;
    }
    false
}

/// Puts a process into a queue, unless it waits already or the queue is
/// full.
pub fn enqueue(q: &mut Vec<Pending>, pid: i32, now: u64, max: usize)
    requires
        orderly(old(q)@),
    ensures
        final(q)@ == queued(old(q)@, pid, now, max),
        orderly(final(q)@),
        old(q)@.len() <= max ==> final(q)@.len() <= max,
{
    if q.len() < max && !is_waiting(q, pid) {
        q.push(Pending { pid, retries: 0, next: now });
    }
}

/// When to wake: at the deadline, or when the first process wants a look.
pub fn wake_at(q: &Vec<Pending>, deadline: u64) -> (r: u64)
    ensures
        r == wake_time(q@, deadline),
{
    let mut first: Option<u64> = None;
    let mut i: usize = 0;
    assert(q@.take(0) =~= Seq::<Pending>::empty());
    while i < q.len()
        invariant
            0 <= i <= q@.len(),
            first == earliest(q@.take(i as int)),
        decreases q@.len() - i,
    {
        assert(q@.take(i + 1).drop_last() =~= q@.take(i as int));
        let next: u64 = q[i].next;
        first = match first {
            Some(t) => if next < t {
                Some(next)
            } else {
                Some(t)
            },
            None => Some(next),
        };
        i += 1;
    }
    assert(q@.take(i as int) =~= q@);
    match first {
        Some(t) => if t < deadline {
            t
        } else {
            deadline
        },
        None => deadline,
    }
}

// ---------------------------------------------------------------------
// Laws
// ---------------------------------------------------------------------

/// The processes still waiting after `n` looks that failed, each at its
/// time.
pub open spec fn after_looks(p: Pending, n: nat) -> Option<Pending>
    decreases n,
{
    if n == 0 {
        Some(p)
    } else {
        match after_looks(p, (n - 1) as nat) {
            Some(q) => retried(q, q.next),
            None => None,
        }
    }
}

/// A process is looked at four times, at 0, 100, 400 and 1400 milliseconds,
/// and then given up.
pub proof fn law_backoff_ends(pid: i32, now: u64)
    requires
        now + 1400 <= u64::MAX,
    ensures
        ({
            let p = Pending { pid, retries: 0, next: now };
            &&& after_looks(p, 1) == Some(Pending { pid, retries: 1, next: (now + 100) as u64 })
            &&& after_looks(p, 2) == Some(Pending { pid, retries: 2, next: (now + 400) as u64 })
            &&& after_looks(p, 3) == Some(Pending { pid, retries: 3, next: (now + 1400) as u64 })
            &&& after_looks(p, 4) is None
        }),
{
    reveal_with_fuel(after_looks, 5);
}

/// A sleeper wakes no later than its deadline and no later than any process
/// wants to be looked at.
pub proof fn law_nobody_oversleeps(q: Seq<Pending>, deadline: u64, i: int)
    requires
        0 <= i < q.len(),
    ensures
        wake_time(q, deadline) <= deadline,
        wake_time(q, deadline) <= q[i].next,
{
    lemma_earliest(q, i);
}

/// The earliest moment is no later than any.
proof fn lemma_earliest(q: Seq<Pending>, i: int)
    requires
        0 <= i < q.len(),
    ensures
        earliest(q) is Some,
        earliest(q).unwrap() <= q[i].next,
    decreases q.len(),
{
    if i < q.len() - 1 {
        lemma_earliest(q.drop_last(), i);
    } else if q.len() > 1 {
        lemma_earliest(q.drop_last(), 0);
    }
}

} // verus!
