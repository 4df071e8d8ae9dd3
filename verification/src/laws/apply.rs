//! What applying a policy to a thread does.

use vstd::prelude::*;

use crate::audit::AuditEntry;
use crate::policy;
use crate::policy::{
    AffinityState, AffinityStep, AffinityWarning, ApplyOutcome, MaskError, PolicyView, SchedPlan,
    SchedPolicy,
};
use crate::topology;
use crate::topology::CpuSet;

verus! {

/// Whether a step ends the machine with an outcome.
pub open spec fn ends_in(s: AffinityStep, outcome: ApplyOutcome) -> bool {
    s.next == (AffinityState::Done { outcome })
}

/// Whether an entry is about this thread and says that `effective` was reached
/// of `requested`.
pub open spec fn about(
    e: AuditEntry,
    tid: i32,
    pkg: Seq<char>,
    requested: Set<int>,
    effective: Set<int>,
) -> bool {
    e.tid == tid && e.pkg@ == pkg && e.requested_cpus@ == topology::range_text(requested)
        && e.effective_cpus@ == topology::range_text(effective)
}

/// A policy without CPUs is skipped. The thread of any other is moved into a
/// cpuset first where there is a cpuset root, and its affinity is read
/// otherwise.
pub proof fn law_where_applying_starts(cpus: Set<int>, cpuset_enabled: bool, root: int)
    ensures
        (forall|c: int| !cpus.contains(c)) <==> policy::started(cpus, cpuset_enabled, root) == (
        AffinityState::Done { outcome: ApplyOutcome::SkippedNoCpus }),
        (exists|c: int| cpus.contains(c)) && cpuset_enabled && root != -1 ==> policy::started(
            cpus,
            cpuset_enabled,
            root,
        ) is Join,
        (exists|c: int| cpus.contains(c)) && (!cpuset_enabled || root == -1) ==> policy::started(
            cpus,
            cpuset_enabled,
            root,
        ) is Compare,
{
    if forall|c: int| !cpus.contains(c) {
        assert(cpus =~= Set::<int>::empty());
    }
}

/// Whether or not a thread could be moved into a cpuset, its affinity is read
/// next; only a failure is recorded, and warned of.
pub proof fn law_joining_goes_on(
    s: AffinityStep,
    tid: i32,
    pkg: Seq<char>,
    cpus: Set<int>,
    ok: bool,
)
    requires
        policy::join_step(s, tid, pkg, cpus, ok),
    ensures
        s.next is Compare,
        ok <==> s.record is None,
        ok <==> s.warning is None,
        !ok ==> s.warning == Some(AffinityWarning::CpusetJoinFailed),
        !ok ==> (s.record matches Some(e) && about(e, tid, pkg, cpus, Set::empty()) && !e.success
            && e.reason@ == "cpuset_write_failed"@),
{
}

/// A thread is left as it is just when the affinity that was read holds the
/// CPUs of the policy and no others. Where it differs in a single CPU, or
/// could not be read, the allowed CPUs are read next.
pub proof fn law_only_the_exact_mask_is_left(
    s: AffinityStep,
    tid: i32,
    pkg: Seq<char>,
    cpus: Set<int>,
    current: Option<CpuSet>,
)
    requires
        policy::compare_step(s, tid, pkg, cpus, current),
    ensures
        ends_in(s, ApplyOutcome::Applied) <==> (current matches Some(m) && forall|c: int|
            m@.contains(c) <==> #[trigger] cpus.contains(c)),
        ends_in(s, ApplyOutcome::Applied) ==> (current matches Some(m) && m@ == cpus),
        current matches Some(m) ==> ((exists|c: int| m@.contains(c) != cpus.contains(c))
            ==> s.next is Restrict),
        current is None ==> s.next is Restrict,
        s.next is Restrict || ends_in(s, ApplyOutcome::Applied),
        s.next is Restrict ==> s.record is None,
        ends_in(s, ApplyOutcome::Applied) ==> (s.record matches Some(e) && about(
            e,
            tid,
            pkg,
            cpus,
            cpus,
        ) && e.success && e.reason@ == "already"@),
        s.warning is None,
{
    if let Some(m) = current {
        if forall|c: int| m@.contains(c) <==> #[trigger] cpus.contains(c) {
            assert(m@ =~= cpus);
        }
    }
}

/// Whether a CPU remains of a policy: it is one of the policy's, online as far
/// as that is known, and allowed as far as that is known.
pub open spec fn remains(
    cpus: Set<int>,
    online: Set<int>,
    allowed: Option<CpuSet>,
    c: int,
) -> bool {
    &&& cpus.contains(c)
    &&& online.contains(c) || forall|d: int| !online.contains(d)
    &&& allowed matches Some(a) ==> a@.contains(c)
}

/// Whether a text lists the CPUs of a policy that are online.
pub open spec fn lists_remaining(list: Seq<char>, cpus: Set<int>, online: Set<int>) -> bool {
    exists|s: Set<int>|
        list == #[trigger] topology::range_text(s) && forall|c: int| #[trigger]
            s.contains(c) <==> remains(cpus, online, None, c)
}

proof fn lemma_listed(cpus: Set<int>, online: Set<int>)
    ensures
        lists_remaining(
            topology::range_text(policy::online_part(cpus, online)),
            cpus,
            online,
        ),
{
    let s = policy::online_part(cpus, online);
    if forall|d: int| !online.contains(d) {
        assert(online =~= Set::<int>::empty());
    }
    assert forall|c: int| #[trigger] s.contains(c) <==> remains(cpus, online, None, c) by {
        assert(online.contains(c) || !online.contains(c));
    }
}

/// The mask to set holds each CPU that remains, and no other. It is called
/// reduced, with a warning, just when the cgroup took one of the CPUs that
/// are online. Without a CPU that remains nothing is set.
pub proof fn law_just_the_remaining_cpus_are_set(
    s: AffinityStep,
    tid: i32,
    pkg: Seq<char>,
    cpus: Set<int>,
    online: Set<int>,
    allowed: Option<CpuSet>,
)
    requires
        policy::restrict_step(s, tid, pkg, cpus, online, allowed),
    ensures
        (exists|c: int| remains(cpus, online, allowed, c)) ==> {
            &&& s.next matches AffinityState::SetMask { mask, reduced } && {
                &&& forall|c: int| #[trigger] mask@.contains(c) <==> remains(cpus, online, allowed, c)
                &&& reduced <==> exists|c: int|
                    remains(cpus, online, None, c) && !#[trigger] remains(cpus, online, allowed, c)
                &&& reduced <==> s.warning == Some(AffinityWarning::Degraded)
                &&& !reduced <==> s.warning is None
            }
            &&& s.record is None
        },
        (forall|c: int| !remains(cpus, online, allowed, c)) && allowed is Some ==> ends_in(
            s,
            ApplyOutcome::BlockedByCgroup,
        ) && s.warning == Some(AffinityWarning::NoIntersection) && (s.record matches Some(e)
            && !e.success && e.tid == tid && e.pkg@ == pkg && e.reason@ == "cgroup"@
            && e.effective_cpus@ == topology::range_text(Set::empty()) && lists_remaining(
            e.requested_cpus@,
            cpus,
            online,
        )),
        (forall|c: int| !remains(cpus, online, allowed, c)) && allowed is None ==> ends_in(
            s,
            ApplyOutcome::SkippedNoCpus,
        ) && s.warning is None && s.record is None,
{
    let before = policy::online_part(cpus, online);
    let after = policy::usable_part(cpus, online, allowed);
    lemma_listed(cpus, online);
    if forall|d: int| !online.contains(d) {
        assert(online =~= Set::<int>::empty());
    }
    assert forall|c: int| #[trigger] after.contains(c) <==> remains(cpus, online, allowed, c) by {
        assert(online.contains(c) || !online.contains(c));
    }
    assert forall|c: int| #[trigger] before.contains(c) <==> remains(cpus, online, None, c) by {}
    if forall|c: int| !remains(cpus, online, allowed, c) {
        assert(after =~= Set::<int>::empty());
    } else {
        let c = choose|c: int| remains(cpus, online, allowed, c);
        assert(after.contains(c));
    }
    if forall|c: int|
        remains(cpus, online, None, c) ==> #[trigger] remains(cpus, online, allowed, c) {
        assert(after =~= before);
    }
    if exists|c: int|
        remains(cpus, online, None, c) && !#[trigger] remains(cpus, online, allowed, c) {
        let c = choose|c: int|
            remains(cpus, online, None, c) && !#[trigger] remains(cpus, online, allowed, c);
        assert(before.contains(c) && !after.contains(c));
    }
}

/// Setting a mask ends the machine. A mask that was set has applied the
/// policy, or downgraded it where the cgroup had reduced it; a refusal counts
/// as what the kernel gave for it. Each is recorded, and a refusal warned of
/// unless the thread was gone.
pub proof fn law_setting_ends(
    s: AffinityStep,
    tid: i32,
    pkg: Seq<char>,
    cpus: Set<int>,
    online: Set<int>,
    mask: Set<int>,
    reduced: bool,
    error: Option<MaskError>,
)
    requires
        policy::set_step(s, tid, pkg, cpus, online, mask, reduced, error),
    ensures
        ends_in(s, ApplyOutcome::Applied) <==> error is None && !reduced,
        ends_in(s, ApplyOutcome::Downgraded) <==> error is None && reduced,
        ends_in(s, ApplyOutcome::Exited) <==> error == Some(MaskError::NoSuchThread),
        ends_in(s, ApplyOutcome::EINVAL) <==> error == Some(MaskError::Invalid),
        ends_in(s, ApplyOutcome::BlockedByPerm) <==> error == Some(MaskError::NotPermitted),
        ends_in(s, ApplyOutcome::Failed) <==> error == Some(MaskError::Other),
        s.next is Done,
        s.record matches Some(e) && {
            &&& e.tid == tid && e.pkg@ == pkg
            &&& e.success <==> error is None
            &&& e.effective_cpus@ == topology::range_text(mask)
            &&& error is Some || !reduced ==> e.requested_cpus@ == topology::range_text(cpus)
            &&& error is None && reduced ==> lists_remaining(e.requested_cpus@, cpus, online)
            &&& error is None && !reduced ==> e.reason@ == "applied"@
            &&& error is None && reduced ==> e.reason@ == "downgraded"@
            &&& error == Some(MaskError::NoSuchThread) ==> e.reason@ == "esrch"@
            &&& error == Some(MaskError::Invalid) ==> e.reason@ == "einval"@
            &&& error == Some(MaskError::NotPermitted) ==> e.reason@ == "eperm"@
            &&& error == Some(MaskError::Other) ==> e.reason@ == "other"@
        },
        s.warning is None <==> error is None || error == Some(MaskError::NoSuchThread),
        s.warning == Some(AffinityWarning::Invalid) <==> error == Some(MaskError::Invalid),
        s.warning == Some(AffinityWarning::NotPermitted) <==> error == Some(
            MaskError::NotPermitted,
        ),
        s.warning == Some(AffinityWarning::SetFailed) <==> error == Some(MaskError::Other),
{
    lemma_listed(cpus, online);
}

/// Of the classes only `fifo` and `rr` are real-time ones. A number is brought
/// into its bounds by the nearest of them, and kept within.
pub proof fn law_bounds_are_kept(s: SchedPolicy, n: int, low: int, high: int)
    requires
        low <= high,
    ensures
        s.real_time() <==> s == SchedPolicy::Fifo || s == SchedPolicy::Rr,
        low <= policy::clamped(n, low, high) <= high,
        low <= n <= high ==> policy::clamped(n, low, high) == n,
        n < low ==> policy::clamped(n, low, high) == low,
        n > high ==> policy::clamped(n, low, high) == high,
{
}

/// The scheduling part of a policy: kept without a class; a real-time class
/// is refused where it is not permitted, and runs at a priority from 1 to 99
/// without a niceness; any other runs at priority 0, with a niceness from -20
/// to 19 if the policy has one. Values within these bounds are kept, and
/// values beyond them brought to the nearest.
pub proof fn law_scheduling_stays_in_bounds(p: PolicyView, rt_allowed: bool)
    ensures
        p.sched is None <==> policy::planned(p, rt_allowed) is Keep,
        policy::planned(p, rt_allowed) is NotPermitted <==> !rt_allowed && (p.sched == Some(
            SchedPolicy::Fifo,
        ) || p.sched == Some(SchedPolicy::Rr)),
        policy::planned(p, rt_allowed) matches SchedPlan::Apply { setting } ==> {
            let rt = setting.policy == SchedPolicy::Fifo || setting.policy == SchedPolicy::Rr;
            &&& p.sched == Some(setting.policy)
            &&& rt ==> rt_allowed && 1 <= setting.priority <= 99 && setting.nice is None
            &&& rt ==> match p.sched_prio {
                Some(n) => {
                    &&& 1 <= n <= 99 ==> setting.priority == n
                    &&& n < 1 ==> setting.priority == 1
                    &&& n > 99 ==> setting.priority == 99
                },
                None => setting.priority == 1,
            }
            &&& !rt ==> setting.priority == 0
            &&& !rt ==> match p.nice {
                Some(n) => setting.nice matches Some(m) && -20 <= m <= 19 && (-20 <= n <= 19 ==> m
                    == n) && (n < -20 ==> m == -20) && (n > 19 ==> m == 19),
                None => setting.nice is None,
            }
        },
{
}

/// The names of the scheduling classes: each name gives one class, and no
/// other text gives any.
pub proof fn law_classes_have_names(s: Seq<char>)
    ensures
        policy::sched_named("other"@) == Some(SchedPolicy::Other),
        policy::sched_named("normal"@) == Some(SchedPolicy::Other),
        policy::sched_named(Seq::empty()) == Some(SchedPolicy::Other),
        policy::sched_named("fifo"@) == Some(SchedPolicy::Fifo),
        policy::sched_named("rr"@) == Some(SchedPolicy::Rr),
        policy::sched_named("batch"@) == Some(SchedPolicy::Batch),
        policy::sched_named("idle"@) == Some(SchedPolicy::Idle),
        policy::sched_named(s) is Some ==> s.len() == 0 || s == "other"@ || s == "normal"@ || s
            == "fifo"@ || s == "rr"@ || s == "batch"@ || s == "idle"@,
{
    reveal_strlit("");
    reveal_strlit("other");
    reveal_strlit("normal");
    reveal_strlit("fifo");
    reveal_strlit("rr");
    reveal_strlit("batch");
    reveal_strlit("idle");
    assert(""@ =~= Seq::<char>::empty());
    assert("other"@[0] == 'o' && "normal"@[0] == 'n' && "fifo"@[0] == 'f' && "rr"@[0] == 'r'
        && "batch"@[0] == 'b' && "idle"@[0] == 'i');
}

/// The `tasks` file of a cpuset is the one below the directory of that name,
/// and of the root the one below the cpuset root itself.
pub proof fn law_cpusets_have_tasks(dir: Seq<char>)
    ensures
        dir.len() > 0 ==> policy::tasks_path_of(dir) == topology::BASE_CPUSET@ + "/"@ + dir
            + "/tasks"@,
        dir.len() == 0 ==> policy::tasks_path_of(dir) == topology::BASE_CPUSET@ + "/tasks"@,
{
}

/// A thread is warned of once: it is due for a warning the first time, and
/// not again, until more than 32768 threads are remembered, when all are
/// forgotten.
pub proof fn law_warnings_are_given_once(tids: Set<i32>, tid: i32)
    ensures
        tids.len() <= 32768 ==> policy::kept(tids) == tids,
        tids.len() > 32768 ==> policy::kept(tids) == Set::<i32>::empty(),
        tids.finite() && policy::kept(tids).insert(tid).len() <= 32768 ==> policy::kept(
            policy::kept(tids).insert(tid),
        ).contains(tid),
{
}

} // verus!
