//! Policies and how one is applied to one thread.
//!
//! The kernel interface is outside this module: applying the affinity of a
//! policy is a machine whose state names the kernel operation to perform next
//! and whose input is the outcome of that operation.

use std::collections::HashSet;

use vstd::prelude::*;

use crate::audit::AuditEntry;
use crate::text;
use crate::topology;
use crate::topology::{CpuSet, CpuTopology};

verus! {

/// A scheduling class.
#[derive(Clone, Copy, Debug, PartialEq, Eq, Structural)]
pub enum SchedPolicy {
    Other,
    Fifo,
    Rr,
    Batch,
    Idle,
}

/// The scheduling class that a configuration file calls `s`.
pub open spec fn sched_named(s: Seq<char>) -> Option<SchedPolicy> {
    if s == "other"@ || s == "normal"@ || s == ""@ {
        Some(SchedPolicy::Other)
    } else if s == "fifo"@ {
        Some(SchedPolicy::Fifo)
    } else if s == "rr"@ {
        Some(SchedPolicy::Rr)
    } else if s == "batch"@ {
        Some(SchedPolicy::Batch)
    } else if s == "idle"@ {
        Some(SchedPolicy::Idle)
    } else {
        None
    }
}

impl SchedPolicy {
    /// The class with this name in configuration files.
    pub fn from_str(s: &str) -> (r: Option<SchedPolicy>)
        ensures
            r == sched_named(s@),
    {
        if text::same_text(s, "other") || text::same_text(s, "normal") || text::same_text(s, "") {
            Some(SchedPolicy::Other)
        } else if text::same_text(s, "fifo") {
            Some(SchedPolicy::Fifo)
        } else if text::same_text(s, "rr") {
            Some(SchedPolicy::Rr)
        } else if text::same_text(s, "batch") {
            Some(SchedPolicy::Batch)
        } else if text::same_text(s, "idle") {
            Some(SchedPolicy::Idle)
        } else {
            None
        }
    }

    /// Whether the class is a real-time class.
    pub open spec fn real_time(&self) -> bool {
        *self == SchedPolicy::Fifo || *self == SchedPolicy::Rr
    }

    /// Whether the class is a real-time class, which needs `CAP_SYS_NICE`.
    pub fn is_rt(self) -> (r: bool)
        ensures
            r == self.real_time(),
    {
        matches!(self, SchedPolicy::Fifo | SchedPolicy::Rr)
    }
}

/// What is to hold of a thread. Fields that are unset leave the thread as it
/// is; so does an empty set of CPUs.
#[derive(Debug)]
pub struct Policy {
    pub cpus: CpuSet,
    /// Name of the cpuset directory below the root; empty for the root.
    pub cpuset_dir: String,
    pub sched: Option<SchedPolicy>,
    pub sched_prio: Option<i32>,
    pub nice: Option<i32>,
    pub uclamp_min: Option<u32>,
    pub uclamp_max: Option<u32>,
}

/// The contents of a policy.
#[verifier::ext_equal]
pub struct PolicyView {
    pub cpus: Set<int>,
    pub cpuset_dir: Seq<char>,
    pub sched: Option<SchedPolicy>,
    pub sched_prio: Option<i32>,
    pub nice: Option<i32>,
    pub uclamp_min: Option<u32>,
    pub uclamp_max: Option<u32>,
}

impl View for Policy {
    type V = PolicyView;

    open spec fn view(&self) -> PolicyView {
        PolicyView {
            cpus: self.cpus@,
            cpuset_dir: self.cpuset_dir@,
            sched: self.sched,
            sched_prio: self.sched_prio,
            nice: self.nice,
            uclamp_min: self.uclamp_min,
            uclamp_max: self.uclamp_max,
        }
    }
}

impl Clone for Policy {
    fn clone(&self) -> (r: Policy)
        ensures
            r == *self,
    {
        Policy {
            cpus: self.cpus,
            cpuset_dir: self.cpuset_dir.clone(),
            sched: self.sched,
            sched_prio: self.sched_prio,
            nice: self.nice,
            uclamp_min: self.uclamp_min,
            uclamp_max: self.uclamp_max,
        }
    }
}

/// What came of applying the affinity of a policy to a thread.
#[derive(Debug, Clone, Copy, PartialEq, Eq, Structural)]
pub enum ApplyOutcome {
    /// In force, either set now or found to be so.
    Applied,
    /// The thread is gone.
    Exited,
    /// The cgroup of the thread leaves none of the CPUs.
    BlockedByCgroup,
    /// The cgroup of the thread leaves only some of the CPUs, which are set.
    Downgraded,
    /// The kernel does not permit it.
    BlockedByPerm,
    /// The kernel refused the mask.
    EINVAL,
    /// Any other refusal.
    Failed,
    /// There is no CPU to set.
    SkippedNoCpus,
}

// ---------------------------------------------------------------------
// Warnings that are given once per thread
// ---------------------------------------------------------------------

/// More threads than this are not remembered.
pub const WARNED_MAX: usize = 32768;

/// The threads that a warning was given for.
pub struct WarnedTids {
    tids: HashSet<i32>,
}

impl View for WarnedTids {
    type V = Set<i32>;

    closed spec fn view(&self) -> Set<i32> {
        self.tids@
    }
}

impl WarnedTids {
    /// No thread yet.
    pub fn new() -> (r: WarnedTids)
        ensures
            r@ == Set::<i32>::empty(),
            r@.finite(),
    {
        broadcast use vstd::std_specs::hash::group_hash_axioms;

        WarnedTids { tids: HashSet::new() }
    }

    /// Whether the warning is due for `tid`, which is remembered from now on.
    /// A set that has grown beyond its limit is emptied first.
    pub fn warn_once(&mut self, tid: i32) -> (r: bool)
        ensures
            r == !kept(old(self)@).contains(tid),
            final(self)@ == kept(old(self)@).insert(tid),
    {
        broadcast use vstd::std_specs::hash::group_hash_axioms;

        if self.tids.len() > WARNED_MAX {
            self.tids.clear();
        }
        self.tids.insert(tid)
    }
}

/// What remains of the remembered threads before the next is added.
pub open spec fn kept(tids: Set<i32>) -> Set<i32> {
    if tids.len() > WARNED_MAX {
        Set::empty()
    } else {
        tids
    }
}

// ---------------------------------------------------------------------
// Applying the affinity
// ---------------------------------------------------------------------

/// The kernel operation that is due next, or the outcome.
#[derive(Clone, Copy, Debug)]
pub enum AffinityState {
    /// Move the thread into the cpuset of the policy.
    Join,
    /// Read the affinity of the thread.
    Compare,
    /// Read the CPUs that the cgroup of the thread allows.
    Restrict,
    /// Set the affinity of the thread to this mask, which its cgroup may have
    /// reduced.
    SetMask { mask: CpuSet, reduced: bool },
    /// Nothing is left to do.
    Done { outcome: ApplyOutcome },
}

/// Why the kernel refused an affinity.
#[derive(Clone, Copy, Debug, PartialEq, Eq, Structural)]
pub enum MaskError {
    /// `ESRCH`.
    NoSuchThread,
    /// `EINVAL`.
    Invalid,
    /// `EPERM`.
    NotPermitted,
    /// Any other error.
    Other,
}

/// The outcome of a kernel operation.
#[derive(Clone, Copy, Debug)]
pub enum AffinityEvent {
    /// The thread was moved into the cpuset, or could not be.
    Joined { ok: bool },
    /// The affinity of the thread, if it could be read.
    Current { mask: Option<CpuSet> },
    /// The CPUs that the cgroup allows, if they could be read.
    Allowed { mask: Option<CpuSet> },
    /// The affinity was set, or refused.
    Finished { error: Option<MaskError> },
}

/// A warning that goes with a step; each is given once per thread, except the
/// last.
#[derive(Clone, Copy, Debug, PartialEq, Eq, Structural)]
pub enum AffinityWarning {
    CpusetJoinFailed,
    NoIntersection,
    Degraded,
    Invalid,
    NotPermitted,
    SetFailed,
}

/// What follows from the outcome of a kernel operation.
pub struct AffinityStep {
    pub next: AffinityState,
    pub record: Option<AuditEntry>,
    pub warning: Option<AffinityWarning>,
}

/// Whether an event is the outcome of the operation that is due.
pub open spec fn answers(state: AffinityState, event: AffinityEvent) -> bool {
    match state {
        AffinityState::Join => event is Joined,
        AffinityState::Compare => event is Current,
        AffinityState::Restrict => event is Allowed,
        AffinityState::SetMask { .. } => event is Finished,
        AffinityState::Done { .. } => false,
    }
}

/// Whether `e` is an entry, not yet recorded, with these contents.
pub open spec fn entry_says(
    e: AuditEntry,
    tid: i32,
    pkg: Seq<char>,
    requested: Set<int>,
    effective: Set<int>,
    success: bool,
    reason: Seq<char>,
) -> bool {
    &&& e.timestamp == 0
    &&& e.tid == tid
    &&& e.pkg@ == pkg
    &&& e.requested_cpus@ == topology::range_text(requested)
    &&& e.effective_cpus@ == topology::range_text(effective)
    &&& e.success == success
    &&& e.reason@ == reason
}

/// The CPUs of a policy that are online; where nothing is known of the CPUs
/// that are online, all of them.
pub open spec fn online_part(cpus: Set<int>, online: Set<int>) -> Set<int> {
    if online == Set::<int>::empty() {
        cpus
    } else {
        cpus.intersect(online)
    }
}

/// The CPUs that remain of a policy: online, and allowed as far as that is
/// known.
pub open spec fn usable_part(
    cpus: Set<int>,
    online: Set<int>,
    allowed: Option<CpuSet>,
) -> Set<int> {
    match allowed {
        Some(a) => online_part(cpus, online).intersect(a@),
        None => online_part(cpus, online),
    }
}

/// The reason that the audit log gives for a refused affinity.
pub open spec fn error_reason(e: MaskError) -> Seq<char> {
    match e {
        MaskError::NoSuchThread => "esrch"@,
        MaskError::Invalid => "einval"@,
        MaskError::NotPermitted => "eperm"@,
        MaskError::Other => "other"@,
    }
}

/// The outcome that a refused affinity stands for.
pub open spec fn error_outcome(e: MaskError) -> ApplyOutcome {
    match e {
        MaskError::NoSuchThread => ApplyOutcome::Exited,
        MaskError::Invalid => ApplyOutcome::EINVAL,
        MaskError::NotPermitted => ApplyOutcome::BlockedByPerm,
        MaskError::Other => ApplyOutcome::Failed,
    }
}

/// The warning that a refused affinity brings.
pub open spec fn error_warning(e: MaskError) -> Option<AffinityWarning> {
    match e {
        MaskError::NoSuchThread => None,
        MaskError::Invalid => Some(AffinityWarning::Invalid),
        MaskError::NotPermitted => Some(AffinityWarning::NotPermitted),
        MaskError::Other => Some(AffinityWarning::SetFailed),
    }
}

/// Path of the `tasks` file of a cpuset directory; the empty name stands for
/// the root.
pub open spec fn tasks_path_of(dir: Seq<char>) -> Seq<char> {
    if dir.len() == 0 {
        topology::BASE_CPUSET@ + "/tasks"@
    } else {
        topology::BASE_CPUSET@ + "/"@ + dir + "/tasks"@
    }
}

/// Path of the `tasks` file of a cpuset directory.
pub fn tasks_path(dir: &str) -> (r: String)
    ensures
        r@ == tasks_path_of(dir@),
{
    let mut out = topology::BASE_CPUSET.to_owned();
    if !dir.is_empty() {
        out.append("/");
        out.append(dir);
    }
    out.append("/tasks");
    out
}

/// The first operation for a policy with these CPUs.
pub open spec fn started(cpus: Set<int>, cpuset_enabled: bool, root: int) -> AffinityState {
    if cpus == Set::<int>::empty() {
        AffinityState::Done { outcome: ApplyOutcome::SkippedNoCpus }
    } else if cpuset_enabled && root != -1 {
        AffinityState::Join
    } else {
        AffinityState::Compare
    }
}

/// The first operation for a policy. Without a CPU there is nothing to do;
/// without a cpuset root the thread stays where it is.
pub fn start_affinity(policy: &Policy, topo: &CpuTopology) -> (r: AffinityState)
    ensures
        r == started(policy.cpus@, topo.cpuset_enabled, topo.base_cpuset_fd as int),
{
    if policy.cpus.count() == 0 {
        AffinityState::Done { outcome: ApplyOutcome::SkippedNoCpus }
    } else if topo.cpuset_enabled && topo.base_cpuset_fd != -1 {
        AffinityState::Join
    } else {
        AffinityState::Compare
    }
}

fn entry(
    tid: i32,
    pkg: &str,
    requested: &CpuSet,
    effective: &CpuSet,
    success: bool,
    reason: &str,
) -> (e: AuditEntry)
    ensures
        entry_says(e, tid, pkg@, requested@, effective@, success, reason@),
{
    AuditEntry {
        timestamp: 0,
        tid,
        pkg: pkg.to_owned(),
        requested_cpus: requested.to_range_string(),
        effective_cpus: effective.to_range_string(),
        success,
        reason: reason.to_owned(),
    }
}

/// What a failed or finished move into the cpuset leads to.
pub open spec fn join_step(
    s: AffinityStep,
    tid: i32,
    pkg: Seq<char>,
    cpus: Set<int>,
    ok: bool,
) -> bool {
    &&& s.next == AffinityState::Compare
    &&& if ok {
        s.record is None && s.warning is None
    } else {
        &&& s.record matches Some(e) && entry_says(
            e,
            tid,
            pkg,
            cpus,
            Set::empty(),
            false,
            "cpuset_write_failed"@,
        )
        &&& s.warning == Some(AffinityWarning::CpusetJoinFailed)
    }
}

/// What the present affinity leads to: nothing is left to do when it is the
/// one asked for.
pub open spec fn compare_step(
    s: AffinityStep,
    tid: i32,
    pkg: Seq<char>,
    cpus: Set<int>,
    current: Option<CpuSet>,
) -> bool {
    &&& s.warning is None
    &&& if current matches Some(c) && c@ == cpus {
        &&& s.next == AffinityState::Done { outcome: ApplyOutcome::Applied }
        &&& s.record matches Some(e) && entry_says(e, tid, pkg, cpus, cpus, true, "already"@)
    } else {
        s.next == AffinityState::Restrict && s.record is None
    }
}

/// What the allowed CPUs lead to. Nothing is set when no CPU remains; where
/// the cgroup leaves some of those that are online, these are set.
pub open spec fn restrict_step(
    s: AffinityStep,
    tid: i32,
    pkg: Seq<char>,
    cpus: Set<int>,
    online: Set<int>,
    allowed: Option<CpuSet>,
) -> bool {
    let before = online_part(cpus, online);
    let after = usable_part(cpus, online, allowed);
    if allowed is Some && after == Set::<int>::empty() {
        &&& s.next == AffinityState::Done { outcome: ApplyOutcome::BlockedByCgroup }
        &&& s.record matches Some(e) && entry_says(
            e,
            tid,
            pkg,
            before,
            Set::empty(),
            false,
            "cgroup"@,
        )
        &&& s.warning == Some(AffinityWarning::NoIntersection)
    } else if after == Set::<int>::empty() {
        &&& s.next == AffinityState::Done { outcome: ApplyOutcome::SkippedNoCpus }
        &&& s.record is None
        &&& s.warning is None
    } else {
        &&& s.next matches AffinityState::SetMask { mask, reduced } && mask@ == after && reduced == (
        after != before)
        &&& s.record is None
        &&& s.warning == if after != before {
            Some(AffinityWarning::Degraded)
        } else {
            None
        }
    }
}

/// What setting the affinity leads to. A mask that the cgroup has reduced is
/// recorded beside the CPUs that are online.
pub open spec fn set_step(
    s: AffinityStep,
    tid: i32,
    pkg: Seq<char>,
    cpus: Set<int>,
    online: Set<int>,
    mask: Set<int>,
    reduced: bool,
    error: Option<MaskError>,
) -> bool {
    match error {
        None => if reduced {
            &&& s.next == AffinityState::Done { outcome: ApplyOutcome::Downgraded }
            &&& s.record matches Some(e) && entry_says(
                e,
                tid,
                pkg,
                online_part(cpus, online),
                mask,
                true,
                "downgraded"@,
            )
            &&& s.warning is None
        } else {
            &&& s.next == AffinityState::Done { outcome: ApplyOutcome::Applied }
            &&& s.record matches Some(e) && entry_says(e, tid, pkg, cpus, mask, true, "applied"@)
            &&& s.warning is None
        },
        Some(err) => {
            &&& s.next == AffinityState::Done { outcome: error_outcome(err) }
            &&& s.record matches Some(e) && entry_says(
                e,
                tid,
                pkg,
                cpus,
                mask,
                false,
                error_reason(err),
            )
            &&& s.warning == error_warning(err)
        },
    }
}

/// What follows from the outcome of the operation that is due.
pub fn apply_affinity(
    tid: i32,
    pkg: &str,
    policy: &Policy,
    topo: &CpuTopology,
    state: AffinityState,
    event: AffinityEvent,
) -> (s: AffinityStep)
    requires
        answers(state, event),
    ensures
        state is Join ==> (event matches AffinityEvent::Joined { ok } ==> join_step(
            s,
            tid,
            pkg@,
            policy.cpus@,
            ok,
        )),
        state is Compare ==> (event matches AffinityEvent::Current { mask } ==> compare_step(
            s,
            tid,
            pkg@,
            policy.cpus@,
            mask,
        )),
        state is Restrict ==> (event matches AffinityEvent::Allowed { mask } ==> restrict_step(
            s,
            tid,
            pkg@,
            policy.cpus@,
            topo.online_cpus@,
            mask,
        )),
        state matches AffinityState::SetMask { mask, reduced } ==> (
        event matches AffinityEvent::Finished { error } ==> set_step(
            s,
            tid,
            pkg@,
            policy.cpus@,
            topo.online_cpus@,
            mask@,
            reduced,
            error,
        )),
{
    let cpus = &policy.cpus;
    match (state, event) {
        (AffinityState::Join, AffinityEvent::Joined { ok }) => if ok {
            AffinityStep { next: AffinityState::Compare, record: None, warning: None }
        } else {
            AffinityStep {
                next: AffinityState::Compare,
                record: Some(
                    entry(tid, pkg, cpus, &CpuSet::new(), false, "cpuset_write_failed"),
                ),
                warning: Some(AffinityWarning::CpusetJoinFailed),
            }
        },
        (AffinityState::Compare, AffinityEvent::Current { mask }) => {
            let already = match &mask {
                Some(c) => c.same(cpus),
                None => false,
            };
            if already {
                AffinityStep {
                    next: AffinityState::Done { outcome: ApplyOutcome::Applied },
                    record: Some(entry(tid, pkg, cpus, cpus, true, "already")),
                    warning: None,
                }
            } else {
                AffinityStep { next: AffinityState::Restrict, record: None, warning: None }
            }
        },
        (AffinityState::Restrict, AffinityEvent::Allowed { mask }) => restrict(
            tid,
            pkg,
            cpus,
            &topo.online_cpus,
            mask,
        ),
        (AffinityState::SetMask { mask, reduced }, AffinityEvent::Finished { error }) => match error {
            None if reduced => AffinityStep {
                next: AffinityState::Done { outcome: ApplyOutcome::Downgraded },
                record: Some(
                    entry(tid, pkg, &online_of(cpus, &topo.online_cpus), &mask, true, "downgraded"),
                ),
                warning: None,
            },
            None => AffinityStep {
                next: AffinityState::Done { outcome: ApplyOutcome::Applied },
                record: Some(entry(tid, pkg, cpus, &mask, true, "applied")),
                warning: None,
            },
            Some(MaskError::NoSuchThread) => AffinityStep {
                next: AffinityState::Done { outcome: ApplyOutcome::Exited },
                record: Some(entry(tid, pkg, cpus, &mask, false, "esrch")),
                warning: None,
            },
            Some(MaskError::Invalid) => AffinityStep {
                next: AffinityState::Done { outcome: ApplyOutcome::EINVAL },
                record: Some(entry(tid, pkg, cpus, &mask, false, "einval")),
                warning: Some(AffinityWarning::Invalid),
            },
            Some(MaskError::NotPermitted) => AffinityStep {
                next: AffinityState::Done { outcome: ApplyOutcome::BlockedByPerm },
                record: Some(entry(tid, pkg, cpus, &mask, false, "eperm")),
                warning: Some(AffinityWarning::NotPermitted),
            },
            Some(MaskError::Other) => AffinityStep {
                next: AffinityState::Done { outcome: ApplyOutcome::Failed },
                record: Some(entry(tid, pkg, cpus, &mask, false, "other")),
                warning: Some(AffinityWarning::SetFailed),
            },
        },
        _ => AffinityStep { next: state, record: None, warning: None },
    }
}

fn online_of(cpus: &CpuSet, online: &CpuSet) -> (r: CpuSet)
    ensures
        r@ == online_part(cpus@, online@),
{
    let mut r = *cpus;
    if online.count() > 0 {
        r.and(online);
    }
    r
}

fn restrict(
    tid: i32,
    pkg: &str,
    cpus: &CpuSet,
    online: &CpuSet,
    allowed: Option<CpuSet>,
) -> (s: AffinityStep)
    ensures
        restrict_step(s, tid, pkg@, cpus@, online@, allowed),
{
    let before = online_of(cpus, online);
    let mut effective = before;
    let mut reduced = false;
    if let Some(a) = allowed {
        effective.and(&a);
        if effective.count() == 0 {
            return AffinityStep {
                next: AffinityState::Done { outcome: ApplyOutcome::BlockedByCgroup },
                record: Some(entry(tid, pkg, &before, &CpuSet::new(), false, "cgroup")),
                warning: Some(AffinityWarning::NoIntersection),
            };
        }
        reduced = !effective.same(&before);
    }
    if effective.count() == 0 {
        AffinityStep {
            next: AffinityState::Done { outcome: ApplyOutcome::SkippedNoCpus },
            record: None,
            warning: None,
        }
    } else {
        AffinityStep {
            next: AffinityState::SetMask { mask: effective, reduced },
            record: None,
            warning: if reduced {
                Some(AffinityWarning::Degraded)
            } else {
                None
            },
        }
    }
}

/// How many operations can still follow.
pub open spec fn operations_left(state: AffinityState) -> nat {
    match state {
        AffinityState::Join => 4,
        AffinityState::Compare => 3,
        AffinityState::Restrict => 2,
        AffinityState::SetMask { .. } => 1,
        AffinityState::Done { .. } => 0,
    }
}

/// Every step brings the machine closer to its end: the thread is moved
/// before its affinity is read, that before the allowed CPUs are, and those
/// before the mask is set.
pub proof fn law_affinity_ends(
    s: AffinityStep,
    tid: i32,
    pkg: Seq<char>,
    cpus: Set<int>,
    online: Set<int>,
    ok: bool,
    mask: Option<CpuSet>,
    set: Set<int>,
    reduced: bool,
    error: Option<MaskError>,
)
    ensures
        join_step(s, tid, pkg, cpus, ok) ==> operations_left(s.next) < operations_left(
            AffinityState::Join,
        ),
        compare_step(s, tid, pkg, cpus, mask) ==> operations_left(s.next) < operations_left(
            AffinityState::Compare,
        ),
        restrict_step(s, tid, pkg, cpus, online, mask) ==> operations_left(s.next)
            < operations_left(AffinityState::Restrict),
        set_step(s, tid, pkg, cpus, online, set, reduced, error) ==> operations_left(s.next) == 0,
{
}

/// A mask that is handed to the kernel is not empty, holds only CPUs of the
/// policy, and none that is known to be offline or not allowed.
pub proof fn law_mask_is_usable(
    s: AffinityStep,
    tid: i32,
    pkg: Seq<char>,
    cpus: Set<int>,
    online: Set<int>,
    allowed: Option<CpuSet>,
)
    requires
        restrict_step(s, tid, pkg, cpus, online, allowed),
    ensures
        s.next matches AffinityState::SetMask { mask, .. } ==> {
            &&& mask@ != Set::<int>::empty()
            &&& mask@.subset_of(cpus)
            &&& online != Set::<int>::empty() ==> mask@.subset_of(online)
            &&& allowed matches Some(a) ==> mask@.subset_of(a@)
        },
{
}

/// Where the cgroup leaves some of the CPUs that are online, and not all, just
/// these are set, and the thread counts as downgraded once they are.
pub proof fn law_reduced_masks_are_set(
    first: AffinityStep,
    second: AffinityStep,
    tid: i32,
    pkg: Seq<char>,
    cpus: Set<int>,
    online: Set<int>,
    allowed: CpuSet,
)
    requires
        restrict_step(first, tid, pkg, cpus, online, Some(allowed)),
        first.next matches AffinityState::SetMask { mask, reduced } ==> set_step(
            second,
            tid,
            pkg,
            cpus,
            online,
            mask@,
            reduced,
            None,
        ),
        online_part(cpus, online).intersect(allowed@) != Set::<int>::empty(),
        online_part(cpus, online).intersect(allowed@) != online_part(cpus, online),
    ensures
        first.next matches AffinityState::SetMask { mask, .. } && mask@ == online_part(
            cpus,
            online,
        ).intersect(allowed@),
        second.next == (AffinityState::Done { outcome: ApplyOutcome::Downgraded }),
        second.record matches Some(e) && entry_says(
            e,
            tid,
            pkg,
            online_part(cpus, online),
            online_part(cpus, online).intersect(allowed@),
            true,
            "downgraded"@,
        ),
{
}

// ---------------------------------------------------------------------
// Scheduling attributes
// ---------------------------------------------------------------------

/// The scheduling attributes to set on a thread.
#[derive(Clone, Copy, Debug, PartialEq, Eq, Structural)]
pub struct SchedSetting {
    pub policy: SchedPolicy,
    pub priority: i32,
    /// Niceness to set besides; real-time classes have none.
    pub nice: Option<i32>,
}

/// The scheduling part of a policy.
#[derive(Clone, Copy, Debug, PartialEq, Eq, Structural)]
pub enum SchedPlan {
    /// The policy says nothing of scheduling.
    Keep,
    /// The policy asks for a real-time class that is not permitted.
    NotPermitted,
    /// Set these attributes.
    Apply { setting: SchedSetting },
}

/// `n` brought into `low ..= high`.
pub open spec fn clamped(n: int, low: int, high: int) -> int {
    if n < low {
        low
    } else if n > high {
        high
    } else {
        n
    }
}

/// Brings `n` into `low ..= high`.
pub fn clamp_to(n: i32, low: i32, high: i32) -> (r: i32)
    ensures
        r == clamped(n as int, low as int, high as int),
{
    if n < low {
        low
    } else if n > high {
        high
    } else {
        n
    }
}

/// The static priority of a class: real-time classes run from 1 to 99, by
/// default at 1, and the others at 0.
pub open spec fn priority_of(sched: SchedPolicy, prio: Option<i32>) -> int {
    if sched.real_time() {
        match prio {
            Some(p) => clamped(p as int, 1, 99),
            None => 1,
        }
    } else {
        0
    }
}

/// The niceness that goes with a class.
pub open spec fn nice_of(sched: SchedPolicy, nice: Option<i32>) -> Option<i32> {
    if sched.real_time() {
        None
    } else {
        match nice {
            Some(n) => Some(clamped(n as int, -20, 19) as i32),
            None => None,
        }
    }
}

/// The scheduling part of a policy.
pub open spec fn planned(policy: PolicyView, rt_allowed: bool) -> SchedPlan {
    match policy.sched {
        None => SchedPlan::Keep,
        Some(p) => if p.real_time() && !rt_allowed {
            SchedPlan::NotPermitted
        } else {
            SchedPlan::Apply {
                setting: SchedSetting {
                    policy: p,
                    priority: priority_of(p, policy.sched_prio) as i32,
                    nice: nice_of(p, policy.nice),
                },
            }
        },
    }
}

/// The scheduling part of a policy. A real-time class is left out where it is
/// not permitted.
pub fn sched_plan(policy: &Policy, rt_allowed: bool) -> (r: SchedPlan)
    ensures
        r == planned(policy@, rt_allowed),
{
    match policy.sched {
        None => SchedPlan::Keep,
        Some(p) => if p.is_rt() {
            if !rt_allowed {
                SchedPlan::NotPermitted
            } else {
                let prio: i32 = match policy.sched_prio {
                    Some(n) => clamp_to(n, 1, 99),
                    None => 1,
                };
                SchedPlan::Apply { setting: SchedSetting { policy: p, priority: prio, nice: None } }
            }
        } else {
            let nice = match policy.nice {
                Some(n) => Some(clamp_to(n, -20, 19)),
                None => None,
            };
            SchedPlan::Apply { setting: SchedSetting { policy: p, priority: 0, nice } }
        },
    }
}

} // verus!
