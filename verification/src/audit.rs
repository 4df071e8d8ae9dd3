//! The audit log: what each application of a rule asked for and what came of
//! it. Decisions read their failure rate from here.

use vstd::prelude::*;

use crate::ratio::Ratio;
use crate::text;

verus! {

/// The log keeps this many entries.
pub const AUDIT_LOG_MAX: usize = 256;

/// One application of a rule to one thread.
#[derive(Debug)]
pub struct AuditEntry {
    /// Seconds of the UNIX epoch; zero before the entry is recorded.
    pub timestamp: u64,
    pub tid: i32,
    pub pkg: String,
    /// The CPUs that were asked for, in range notation.
    pub requested_cpus: String,
    /// The CPUs that remained, in range notation.
    pub effective_cpus: String,
    pub success: bool,
    pub reason: String,
}

impl Clone for AuditEntry {
    fn clone(&self) -> (r: AuditEntry)
        ensures
            r == *self,
    {
        AuditEntry {
            timestamp: self.timestamp,
            tid: self.tid,
            pkg: self.pkg.clone(),
            requested_cpus: self.requested_cpus.clone(),
            effective_cpus: self.effective_cpus.clone(),
            success: self.success,
            reason: self.reason.clone(),
        }
    }
}

/// Counts over a part of the log.
#[derive(Clone, Copy, PartialEq, Eq, Structural, Debug)]
pub struct AuditSummary {
    pub total_attempts: usize,
    pub success: usize,
    pub blocked_by_cgroup: usize,
    pub blocked_by_perm: usize,
    pub downgraded: usize,
    pub esrch: usize,
}

impl Default for AuditSummary {
    fn default() -> (r: AuditSummary)
        ensures
            r == (AuditSummary {
                total_attempts: 0,
                success: 0,
                blocked_by_cgroup: 0,
                blocked_by_perm: 0,
                downgraded: 0,
                esrch: 0,
            }),
    {
        AuditSummary {
            total_attempts: 0,
            success: 0,
            blocked_by_cgroup: 0,
            blocked_by_perm: 0,
            downgraded: 0,
            esrch: 0,
        }
    }
}

impl AuditSummary {
    /// The share of attempts that failed; zero when there was none. An
    /// attempt that was downgraded counts as a success.
    pub fn failure_rate(&self) -> (r: Ratio)
        requires
            self.success <= self.total_attempts,
        ensures
            r == failures_of(*self),
    {
        if self.total_attempts == 0 {
            Ratio::zero()
        } else {
            Ratio {
                num: (self.total_attempts - self.success) as u64,
                den: self.total_attempts as u64,
            }
        }
    }
}

/// The last entries that were recorded, oldest first.
pub struct AuditLog {
    entries: Vec<AuditEntry>,
}

impl View for AuditLog {
    type V = Seq<AuditEntry>;

    closed spec fn view(&self) -> Seq<AuditEntry> {
        self.entries@
    }
}

impl AuditLog {
    /// The log never holds more than its limit.
    pub open spec fn wf(&self) -> bool {
        self@.len() <= AUDIT_LOG_MAX
    }

    /// An empty log.
    pub fn new() -> (r: AuditLog)
        ensures
            r@ == Seq::<AuditEntry>::empty(),
            r.wf(),
    {
        AuditLog { entries: Vec::new() }
    }

    /// Removes all entries.
    pub fn clear(&mut self)
        ensures
            final(self)@ == Seq::<AuditEntry>::empty(),
            final(self).wf(),
    {
        self.entries.clear();
    }
}

/// The entry with the time of recording, unless it has a time of its own.
pub open spec fn stamped(e: AuditEntry, now: u64) -> AuditEntry {
    if e.timestamp == 0 {
        AuditEntry { timestamp: now, ..e }
    } else {
        e
    }
}

/// A full log without its oldest entry; any other log as it is.
pub open spec fn with_room(log: Seq<AuditEntry>) -> Seq<AuditEntry> {
    if log.len() >= AUDIT_LOG_MAX {
        log.skip(1)
    } else {
        log
    }
}

/// Records an entry, dropping the oldest one when the log is full.
pub fn record(log: &mut AuditLog, entry: AuditEntry, now: u64)
    requires
        old(log).wf(),
    ensures
        final(log)@ == recorded(old(log)@, entry, now),
        final(log).wf(),
{
    let mut e = entry;
    if e.timestamp == 0 {
        e.timestamp = now;
    }
    if log.entries.len() >= AUDIT_LOG_MAX {
        log.entries.remove(0);
        proof {
            assert(log.entries@ =~= old(log).entries@.skip(1));
        }
    }
    log.entries.push(e);
}

/// The last `n` entries, oldest first.
pub fn recent(log: &AuditLog, n: usize) -> (r: Vec<AuditEntry>)
    ensures
        r@ == newest(log@, n as int),
{
    let len: usize = log.entries.len();
    let start: usize = if len > n {
        len - n
    } else {
        0
    };
    let mut out: Vec<AuditEntry> = Vec::new();
    let mut i: usize = start;
    while i < len
        invariant
            start <= i <= len,
            len == log.entries@.len(),
            out@ == log.entries@.subrange(start as int, i as int),
        decreases len - i,
    {
        out.push(log.entries[i].clone());
        proof {
            assert(out@ =~= log.entries@.subrange(start as int, i + 1));
        }
        i += 1;
    }
    proof {
        assert(out@ =~= log@.skip(start as int));
    }
    out
}

// ---------------------------------------------------------------------
// Summaries
// ---------------------------------------------------------------------

/// The log with one more entry.
pub open spec fn recorded(log: Seq<AuditEntry>, e: AuditEntry, now: u64) -> Seq<AuditEntry> {
    with_room(log).push(stamped(e, now))
}

/// The last entries of a log, `n` at most.
pub open spec fn newest(log: Seq<AuditEntry>, n: int) -> Seq<AuditEntry> {
    log.skip(
        if log.len() > n {
            log.len() - n
        } else {
            0
        },
    )
}

/// The share of the attempts that failed; zero when there were none.
pub open spec fn failures_of(s: AuditSummary) -> Ratio {
    if s.total_attempts == 0 {
        Ratio { num: 0, den: 1 }
    } else {
        Ratio { num: (s.total_attempts - s.success) as u64, den: s.total_attempts as u64 }
    }
}

/// How many entries satisfy `p`.
pub open spec fn count(log: Seq<AuditEntry>, p: spec_fn(AuditEntry) -> bool) -> nat
    decreases log.len(),
{
    if log.len() == 0 {
        0
    } else {
        count(log.drop_last(), p) + if p(log.last()) {
            1nat
        } else {
            0nat
        }
    }
}

/// The test for entries recorded at `since` or later.
pub open spec fn is_since(since: int) -> spec_fn(AuditEntry) -> bool {
    |e: AuditEntry| e.timestamp >= since
}

/// The test for successes recorded at `since` or later.
pub open spec fn is_success(since: int) -> spec_fn(AuditEntry) -> bool {
    |e: AuditEntry| e.timestamp >= since && e.success
}

/// The test for entries with one reason, recorded at `since` or later.
pub open spec fn has_reason(since: int, reason: Seq<char>) -> spec_fn(AuditEntry) -> bool {
    |e: AuditEntry| e.timestamp >= since && e.reason@ == reason
}

/// Whether `s` sums up the entries recorded at `since` or later. A thread is
/// blocked by its cgroup when no CPU remained or when it could not be moved.
pub open spec fn sums_up(s: AuditSummary, log: Seq<AuditEntry>, since: int) -> bool {
    &&& s.total_attempts == count(log, is_since(since))
    &&& s.success == count(log, is_success(since))
    &&& s.blocked_by_cgroup == count(log, has_reason(since, "cgroup"@)) + count(
        log,
        has_reason(since, "cpuset_write_failed"@),
    )
    &&& s.blocked_by_perm == count(log, has_reason(since, "eperm"@))
    &&& s.downgraded == count(log, has_reason(since, "downgraded"@))
    &&& s.esrch == count(log, has_reason(since, "esrch"@))
}

proof fn lemma_reasons_differ()
    ensures
        "cgroup"@ != "cpuset_write_failed"@,
        "cgroup"@ != "eperm"@,
        "cgroup"@ != "downgraded"@,
        "cgroup"@ != "esrch"@,
        "cpuset_write_failed"@ != "eperm"@,
        "cpuset_write_failed"@ != "downgraded"@,
        "cpuset_write_failed"@ != "esrch"@,
        "eperm"@ != "downgraded"@,
        "eperm"@ != "esrch"@,
        "downgraded"@ != "esrch"@,
{
    reveal_strlit("cgroup");
    reveal_strlit("cpuset_write_failed");
    reveal_strlit("eperm");
    reveal_strlit("downgraded");
    reveal_strlit("esrch");
    assert("eperm"@[1] == 'p' && "esrch"@[1] == 's');
    assert("cgroup"@.len() == 6 && "cpuset_write_failed"@.len() == 19 && "eperm"@.len() == 5
        && "downgraded"@.len() == 10 && "esrch"@.len() == 5);
}

/// No kind of entry is counted more often than there are entries.
pub proof fn lemma_count_bounds(log: Seq<AuditEntry>, since: int)
    ensures
        count(log, is_since(since)) <= log.len(),
        count(log, is_success(since)) <= count(log, is_since(since)),
        count(log, has_reason(since, "cgroup"@)) + count(
            log,
            has_reason(since, "cpuset_write_failed"@),
        ) <= log.len(),
        count(log, has_reason(since, "eperm"@)) <= log.len(),
        count(log, has_reason(since, "downgraded"@)) <= log.len(),
        count(log, has_reason(since, "esrch"@)) <= log.len(),
    decreases log.len(),
{
    lemma_reasons_differ();
    if log.len() > 0 {
        lemma_count_bounds(log.drop_last(), since);
    }
}

/// Counts the entries recorded at `since` or later.
fn summarize(log: &[AuditEntry], since: u64) -> (s: AuditSummary)
    ensures
        sums_up(s, log@, since as int),
        s.success <= s.total_attempts,
{
    let mut s = AuditSummary::default();
    let mut i: usize = 0;
    proof {
        assert(log@.take(0) =~= Seq::<AuditEntry>::empty());
    }
    while i < log.len()
        invariant
            0 <= i <= log@.len(),
            sums_up(s, log@.take(i as int), since as int),
        decreases log@.len() - i,
    {
        let entry = &log[i];
        proof {
            lemma_reasons_differ();
            lemma_count_bounds(log@.take(i as int), since as int);
            assert(log@.take(i + 1).drop_last() =~= log@.take(i as int));
            assert(log@.take(i + 1).last() == log@[i as int]);
            reveal_with_fuel(count, 2);
        }
        if entry.timestamp >= since {
            s.total_attempts += 1;
            if entry.success {
                s.success += 1;
            }
            let reason = entry.reason.as_str();
            if text::same_text(reason, "cgroup") || text::same_text(reason, "cpuset_write_failed") {
                s.blocked_by_cgroup += 1;
            } else if text::same_text(reason, "eperm") {
                s.blocked_by_perm += 1;
            } else if text::same_text(reason, "downgraded") {
                s.downgraded += 1;
            } else if text::same_text(reason, "esrch") {
                s.esrch += 1;
            }
        }
        i += 1;
    }
    proof {
        assert(log@.take(i as int) =~= log@);
        lemma_count_bounds(log@, since as int);
    }
    s
}

/// Sums up the whole log.
pub fn summary(log: &AuditLog) -> (s: AuditSummary)
    ensures
        sums_up(s, log@, 0),
        s.success <= s.total_attempts,
{
    summarize(log.entries.as_slice(), 0)
}

/// Where a window of `window` seconds that ends at `now` begins; a window of
/// zero seconds takes in everything.
pub open spec fn window_start(window: u64, now: u64) -> int {
    if window == 0 || now < window {
        0
    } else {
        now - window
    }
}

/// Sums up the entries of the last `window_secs` seconds before `now`.
pub fn summary_windowed(log: &AuditLog, window_secs: u64, now: u64) -> (s: AuditSummary)
    ensures
        sums_up(s, log@, window_start(window_secs, now)),
        s.success <= s.total_attempts,
{
    if window_secs == 0 || now < window_secs {
        return summary(log);
    }
    summarize(log.entries.as_slice(), now - window_secs)
}

/// The text of a summary.
pub open spec fn summary_text(s: AuditSummary) -> Seq<char> {
    "audit(last60s): total="@ + text::decimal(s.total_attempts as nat) + " success="@
        + text::decimal(s.success as nat) + " cgroup_blocked="@ + text::decimal(
        s.blocked_by_cgroup as nat,
    ) + " perm_blocked="@ + text::decimal(s.blocked_by_perm as nat) + " downgraded="@
        + text::decimal(s.downgraded as nat) + " esrch="@ + text::decimal(s.esrch as nat)
}

/// One line on the last minute.
pub fn summary_string(log: &AuditLog, now: u64) -> (r: String)
    ensures
        exists|s: AuditSummary|
            #[trigger] sums_up(s, log@, window_start(60, now)) && r@ == summary_text(s),
{
    let s = summary_windowed(log, 60, now);
    let mut out = String::new();
    out.append("audit(last60s): total=");
    text::push_decimal(&mut out, s.total_attempts as u64);
    out.append(" success=");
    text::push_decimal(&mut out, s.success as u64);
    out.append(" cgroup_blocked=");
    text::push_decimal(&mut out, s.blocked_by_cgroup as u64);
    out.append(" perm_blocked=");
    text::push_decimal(&mut out, s.blocked_by_perm as u64);
    out.append(" downgraded=");
    text::push_decimal(&mut out, s.downgraded as u64);
    out.append(" esrch=");
    text::push_decimal(&mut out, s.esrch as u64);
    proof {
        assert(out@ =~= summary_text(s));
    }
    out
}

} // verus!
