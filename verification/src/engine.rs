//! From events to the threads that policies are to be applied to.
//!
//! Reading `/proc` and calling the kernel are for the caller: each function
//! here takes what was read, or what came of a call, and says what is to be
//! done next.

use vstd::prelude::*;

use crate::decision;
use crate::decision::{Decision, DecisionContext, DecisionEngine, TaskIntent};
use crate::event::{EventKind, ProcessEvent};
use crate::policy::ApplyOutcome;
use crate::ratio::Ratio;
use crate::ruleset;
use crate::ruleset::RuleSet;
use crate::system_context::PressureLevel;
use crate::tally;
use crate::text;
use crate::tracker;
use crate::tracker::{ProcView, StateTracker};

verus! {

/// A new thread leads to a look at all threads of its process when the last
/// one is this many seconds ago.
pub const THREAD_SCAN_TTL_SECS: i64 = 2;

// ---------------------------------------------------------------------
// Events
// ---------------------------------------------------------------------

/// What an event calls for.
#[derive(Debug, Clone, Copy, PartialEq, Eq, Structural)]
pub enum EventAction {
    /// Nothing.
    Nothing,
    /// Look at all threads of the process.
    Scan,
    /// Look at the thread of the event.
    Single,
}

/// What followed from an event.
#[derive(Debug)]
pub struct EventOutcome {
    pub action: EventAction,
    /// Cpuset directories that are to be removed.
    pub freed: Vec<String>,
}

/// Whether an event brings something new.
pub open spec fn is_arrival(kind: EventKind) -> bool {
    kind == EventKind::Fork || kind == EventKind::Exec || kind == EventKind::ThreadClone
}

/// Whether the package has to be read for an event that brings it or not.
pub open spec fn pkg_needed(kind: EventKind, given: bool) -> bool {
    is_arrival(kind) && !given
}

/// Whether the package of the process has to be read for an event.
pub fn needs_pkg(ev: &ProcessEvent) -> (r: bool)
    ensures
        r == pkg_needed(ev.kind, ev.pkg is Some),
{
    match ev.kind {
        EventKind::Fork | EventKind::Exec | EventKind::ThreadClone => ev.pkg.is_none(),
        _ => false,
    }
}

/// The package of the process of an event, empty when it is not known.
pub open spec fn pkg_for(given: Option<Seq<char>>, read: Option<Seq<char>>) -> Seq<char> {
    match given {
        Some(p) => p,
        None => match read {
            Some(c) => c,
            None => Seq::empty(),
        },
    }
}

/// The package of the process of an event: the one that the source has read,
/// else the one that was read now, else none.
pub fn event_pkg(ev: &ProcessEvent, cmdline: Option<&str>) -> (r: String)
    ensures
        r@ == pkg_for(
            text::opt_text(ev.pkg),
            match cmdline {
                Some(c) => Some(c@),
                None => None,
            },
        ),
{
    match &ev.pkg {
        Some(p) => p.clone(),
        None => match cmdline {
            Some(c) => c.to_owned(),
            None => String::new(),
        },
    }
}

/// Whether a new thread leads to a look at all threads of its process.
pub open spec fn scan_due(procs: Seq<ProcView>, pid: i32, now: i64) -> bool {
    if tracker::tracks(procs, pid) {
        let p = procs[tracker::proc_index(procs, pid)];
        !p.initial_scan_done || now - p.last_scan_time >= THREAD_SCAN_TTL_SECS
    } else {
        true
    }
}

/// The processes after an event. The end of a thread is noted, the end of a
/// process ends following it; so does an arrival in a process that no rule
/// applies to, and a new image is a new start. Other events change nothing.
pub open spec fn after_event(
    procs: Seq<ProcView>,
    pid: i32,
    tid: i32,
    kind: EventKind,
    pkg: Seq<char>,
    interested: bool,
) -> Seq<ProcView> {
    if kind == EventKind::Exit {
        if tid != pid {
            if tracker::tracks(procs, pid) {
                let p = procs[tracker::proc_index(procs, pid)];
                tracker::changed(procs, pid, ProcView { tids: p.tids.remove(tid), ..p })
            } else {
                procs
            }
        } else {
            tracker::without(procs, pid)
        }
    } else if is_arrival(kind) && pkg.len() > 0 && (!interested || kind == EventKind::Exec) {
        tracker::without(procs, pid)
    } else {
        procs
    }
}

/// What an event calls for.
pub open spec fn event_action(
    procs: Seq<ProcView>,
    pid: i32,
    kind: EventKind,
    pkg: Seq<char>,
    interested: bool,
    now: i64,
) -> EventAction {
    if !is_arrival(kind) || pkg.len() == 0 || !interested {
        EventAction::Nothing
    } else if kind != EventKind::ThreadClone || scan_due(procs, pid, now) {
        EventAction::Scan
    } else {
        EventAction::Single
    }
}

fn freed_or_none(r: Option<Vec<String>>) -> (v: Vec<String>)
    ensures
        match r {
            Some(f) => v@ == f@,
            None => v@.len() == 0,
        },
{
    match r {
        Some(f) => f,
        None => Vec::new(),
    }
}

fn drop_process(t: &mut StateTracker, pid: i32) -> (r: Vec<String>)
    requires
        old(t).wf(),
    ensures
        final(t).wf(),
        final(t)@ == tracker::without(old(t)@, pid),
        tracker::same_dirs(text::strings(r@), tracker::fell_free(old(t)@, final(t)@)),
{
    let freed = freed_or_none(t.remove(pid));
    proof {
        if !tracker::tracks(old(t)@, pid) {
            assert(text::strings(freed@) =~= Seq::<Seq<char>>::empty());
        } else {
            assert(text::strings(freed@) =~= text::strings(freed@));
        }
    }
    freed
}

/// Takes in an event. `pkg` is the package of its process, empty when it is
/// not known, and `hits` are the package patterns that match it.
pub fn handle_event(
    t: &mut StateTracker,
    ev: &ProcessEvent,
    pkg: &str,
    rules: &RuleSet,
    hits: &[String],
    now: i64,
) -> (r: EventOutcome)
    requires
        old(t).wf(),
    ensures
        final(t).wf(),
        ({
            let interested = ruleset::package_matches(rules@, pkg@, text::strings(hits@)).len() > 0;
            &&& final(t)@ == after_event(old(t)@, ev.pid, ev.tid, ev.kind, pkg@, interested)
            &&& r.action == event_action(old(t)@, ev.pid, ev.kind, pkg@, interested, now)
        }),
        tracker::same_dirs(text::strings(r.freed@), tracker::fell_free(old(t)@, final(t)@)),
{
    match ev.kind {
        EventKind::Exit => {
            if ev.tid != ev.pid {
                t.remove_tid(ev.pid, ev.tid);
                proof {
                    lemma_same_users(old(t)@, t@, ev.pid, ev.tid);
                }
                EventOutcome { action: EventAction::Nothing, freed: Vec::new() }
            } else {
                EventOutcome { action: EventAction::Nothing, freed: drop_process(t, ev.pid) }
            }
        },
        EventKind::CpuMigrate => EventOutcome { action: EventAction::Nothing, freed: Vec::new() },
        EventKind::Fork | EventKind::ThreadClone | EventKind::Exec => {
            if pkg.is_empty() {
                return EventOutcome { action: EventAction::Nothing, freed: Vec::new() };
            }
            if !rules.is_interested(pkg, hits) {
                return EventOutcome {
                    action: EventAction::Nothing,
                    freed: drop_process(t, ev.pid),
                };
            }
            match ev.kind {
                EventKind::Exec => EventOutcome {
                    action: EventAction::Scan,
                    freed: drop_process(t, ev.pid),
                },
                EventKind::Fork => EventOutcome { action: EventAction::Scan, freed: Vec::new() },
                _ => {
                    let due = match t.get(ev.pid) {
                        Some(p) => !p.initial_scan_done || now as i128 - p.last_scan_time as i128
                            >= THREAD_SCAN_TTL_SECS as i128,
                        None => true,
                    };
                    let action = if due {
                        EventAction::Scan
                    } else {
                        EventAction::Single
                    };
                    EventOutcome { action, freed: Vec::new() }
                },
            }
        },
    }
}

/// The end of a thread frees no directory.
proof fn lemma_same_users(before: Seq<ProcView>, after: Seq<ProcView>, pid: i32, tid: i32)
    requires
        after == if tracker::tracks(before, pid) {
            let p = before[tracker::proc_index(before, pid)];
            tracker::changed(before, pid, ProcView { tids: p.tids.remove(tid), ..p })
        } else {
            before
        },
    ensures
        forall|d: Seq<char>|
            #[trigger] tracker::users(after, d) == tracker::users(before, d),
{
    tracker::lemma_proc_index(before, pid);
    if tracker::tracks(before, pid) {
        let i = tracker::proc_index(before, pid);
        let p = before[i];
        let q = ProcView { tids: p.tids.remove(tid), ..p };
        assert forall|d: Seq<char>|
            #[trigger] tracker::users(after, d) == tracker::users(before, d) by {
            tally::lemma_tally_update(before, tracker::uses_dir(d), i, q);
        }
    }
}

// ---------------------------------------------------------------------
// Looking at all threads of a process
// ---------------------------------------------------------------------

/// The threads whose names are not known, in order.
pub open spec fn unnamed(tids: Seq<i32>, names: tracker::NamesView) -> Seq<i32>
    decreases tids.len(),
{
    if tids.len() == 0 {
        Seq::empty()
    } else {
        let before = unnamed(tids.drop_last(), names);
        if tracker::name_in(names, tids.last()) is None {
            before.push(tids.last())
        } else {
            before
        }
    }
}

/// The processes with the names of one of them that are not too old.
pub open spec fn with_fresh_names(procs: Seq<ProcView>, pid: i32, now: i64) -> Seq<ProcView> {
    if tracker::tracks(procs, pid) {
        let p = procs[tracker::proc_index(procs, pid)];
        tracker::changed(procs, pid, ProcView { names: tracker::names_at(p.names, now), ..p })
    } else {
        procs
    }
}

/// The start of a look at the threads of a process.
#[derive(Debug)]
pub struct ScanStart {
    /// Cpuset directories that are to be removed.
    pub freed: Vec<String>,
    /// Threads whose names are to be read.
    pub unnamed: Vec<i32>,
}

/// The processes when a look at the threads of one of them begins.
pub open spec fn scan_begun(
    procs: Seq<ProcView>,
    pid: i32,
    pkg: Seq<char>,
    now: i64,
    start_time: u64,
    by_name: bool,
) -> Seq<ProcView> {
    let entered = tracker::entered(procs, pid, pkg, now, start_time);
    if by_name {
        with_fresh_names(entered, pid, now)
    } else {
        entered
    }
}

/// The threads whose names are to be read, of those that a process has.
pub open spec fn names_wanted(
    procs: Seq<ProcView>,
    pid: i32,
    by_name: bool,
    tids: Seq<i32>,
) -> Seq<i32> {
    if by_name {
        unnamed(tids, procs[tracker::proc_index(procs, pid)].names)
    } else {
        Seq::empty()
    }
}

/// Begins to look at the threads of a process. Names matter only where there
/// are rules for thread names.
pub fn begin_scan(
    t: &mut StateTracker,
    pid: i32,
    pkg: &str,
    now: i64,
    start_time: u64,
    by_name: bool,
    tids: &[i32],
) -> (r: ScanStart)
    requires
        old(t).wf(),
    ensures
        final(t).wf(),
        ({
            let entered = tracker::entered(old(t)@, pid, pkg@, now, start_time);
            &&& tracker::same_dirs(
                text::strings(r.freed@),
                tracker::fell_free(old(t)@, entered),
            )
            &&& final(t)@ == scan_begun(old(t)@, pid, pkg@, now, start_time, by_name)
            &&& r.unnamed@ == names_wanted(final(t)@, pid, by_name, tids@)
        }),
        tracker::tracks(final(t)@, pid),
{
    let freed = t.enter(pid, pkg.to_owned(), now, start_time);
    let ghost entered = t@;
    let mut missing: Vec<i32> = Vec::new();
    if by_name {
        t.expire_names(pid, now);
        proof {
            tracker::lemma_proc_index(entered, pid);
            lemma_change_keeps_place(
                entered,
                pid,
                ProcView {
                    names: tracker::names_at(
                        entered[tracker::proc_index(entered, pid)].names,
                        now,
                    ),
                    ..entered[tracker::proc_index(entered, pid)]
                },
            );
        }
        match t.get(pid) {
            Some(p) => {
                let ghost names = p@.names;
                let mut i: usize = 0;
                proof {
                    assert(tids@.take(0) =~= Seq::<i32>::empty());
                }
                while i < tids.len()
                    invariant
                        0 <= i <= tids@.len(),
                        names == p@.names,
                        missing@ == unnamed(tids@.take(i as int), names),
                    decreases tids@.len() - i,
                {
                    proof {
                        assert(tids@.take(i + 1).drop_last() =~= tids@.take(i as int));
                        assert(tids@.take(i + 1).last() == tids@[i as int]);
                    }
                    if p.tid_names.get(tids[i]).is_none() {
                        missing.push(tids[i]);
                    }
                    i += 1;
                }
                proof {
                    assert(tids@.take(i as int) =~= tids@);
                }
            },
            None => {},
        }
    }
    ScanStart { freed, unnamed: missing }
}

/// A process keeps its place when what is known of it changes.
proof fn lemma_change_keeps_place(procs: Seq<ProcView>, pid: i32, p: ProcView)
    requires
        tracker::tracks(procs, pid),
        p.pid == pid,
    ensures
        tracker::tracks(tracker::changed(procs, pid, p), pid),
        tracker::proc_index(tracker::changed(procs, pid, p), pid) == tracker::proc_index(
            procs,
            pid,
        ),
{
    tracker::lemma_proc_index(procs, pid);
    let i = tracker::proc_index(procs, pid);
    let after = tracker::changed(procs, pid, p);
    tracker::lemma_proc_index(after, pid);
    let j = tracker::proc_index(after, pid);
    if j < i {
        assert(procs[j].pid != pid);
        assert(after[j] == procs[j]);
    } else if j > i {
        assert(after[i].pid != pid);
    }
}

/// The name by which rules are chosen for a thread.
pub open spec fn chosen_name(
    procs: Seq<ProcView>,
    pid: i32,
    tid: i32,
    by_name: bool,
) -> Seq<char> {
    if by_name && tracker::tracks(procs, pid) {
        match tracker::name_in(procs[tracker::proc_index(procs, pid)].names, tid) {
            Some(n) => n,
            None => Seq::empty(),
        }
    } else {
        Seq::empty()
    }
}

/// The name by which rules are chosen for a thread: its own where there are
/// rules for thread names, else none.
pub fn thread_name(t: &StateTracker, pid: i32, tid: i32, by_name: bool) -> (r: String)
    ensures
        r@ == chosen_name(t@, pid, tid, by_name),
{
    if !by_name {
        return String::new();
    }
    match t.get(pid) {
        Some(p) => match p.tid_names.get(tid) {
            Some(n) => n.clone(),
            None => String::new(),
        },
        None => String::new(),
    }
}

/// What came of applying a policy to one thread, and the cpuset directory of
/// the policy.
#[derive(Debug)]
pub struct ThreadResult {
    pub outcome: ApplyOutcome,
    pub dir: String,
}

/// Whether a policy counts as applied: its CPUs, or some of them, are in
/// force.
pub open spec fn counts(outcome: ApplyOutcome) -> bool {
    outcome == ApplyOutcome::Applied || outcome == ApplyOutcome::Downgraded
}

/// Whether the cpuset directory of a policy was used for a thread, whatever
/// came of it: not when the thread is gone, nor when there was no CPU to set.
pub open spec fn uses_cpuset(outcome: ApplyOutcome) -> bool {
    outcome != ApplyOutcome::Exited && outcome != ApplyOutcome::SkippedNoCpus
}

fn is_applied(outcome: ApplyOutcome) -> (r: bool)
    ensures
        r == counts(outcome),
{
    matches!(outcome, ApplyOutcome::Applied | ApplyOutcome::Downgraded)
}

/// The weight of a result in the count of applied policies.
pub open spec fn applied_weight() -> spec_fn(ThreadResult) -> nat {
    |x: ThreadResult|
        if counts(x.outcome) {
            1nat
        } else {
            0nat
        }
}

/// The directories that were used, each once.
pub open spec fn used_dirs(results: Seq<ThreadResult>) -> Seq<Seq<char>>
    decreases results.len(),
{
    if results.len() == 0 {
        Seq::empty()
    } else {
        let before = used_dirs(results.drop_last());
        let x = results.last();
        if uses_cpuset(x.outcome) && !before.contains(x.dir@) {
            before.push(x.dir@)
        } else {
            before
        }
    }
}

/// Sums up the results of a look at all threads: how many policies count as
/// applied, and the directories that were used.
pub fn sum_up(results: &[ThreadResult]) -> (r: (usize, Vec<String>))
    ensures
        r.0 == tally::tally(results@, applied_weight()),
        text::strings(r.1@) == used_dirs(results@),
{
    let mut applied: usize = 0;
    let mut dirs: Vec<String> = Vec::new();
    let mut i: usize = 0;
    proof {
        assert(results@.take(0) =~= Seq::<ThreadResult>::empty());
        assert(text::strings(dirs@) =~= used_dirs(results@.take(0)));
    }
    while i < results.len()
        invariant
            0 <= i <= results@.len(),
            applied <= i,
            applied == tally::tally(results@.take(i as int), applied_weight()),
            text::strings(dirs@) == used_dirs(results@.take(i as int)),
        decreases results@.len() - i,
    {
        let x = &results[i];
        let ghost dirs0 = text::strings(dirs@);
        proof {
            assert(results@.take(i + 1).drop_last() =~= results@.take(i as int));
            assert(results@.take(i + 1).last() == *x);
        }
        if is_applied(x.outcome) {
            applied += 1;
        }
        match x.outcome {
            ApplyOutcome::Exited | ApplyOutcome::SkippedNoCpus => {},
            _ => {
                if !text::holds_text(dirs.as_slice(), x.dir.as_str()) {
                    dirs.push(x.dir.clone());
                    proof {
                        assert(text::strings(dirs@) =~= dirs0.push(x.dir@));
                    }
                }
            },
        }
        i += 1;
    }
    proof {
        assert(results@.take(i as int) =~= results@);
    }
    (applied, dirs)
}

/// The processes with the threads that one of them has now.
pub open spec fn settled(procs: Seq<ProcView>, pid: i32, tids: Seq<i32>) -> Seq<ProcView> {
    if tracker::tracks(procs, pid) {
        let p = procs[tracker::proc_index(procs, pid)];
        tracker::changed(
            procs,
            pid,
            ProcView {
                tids: tracker::tid_set(tids),
                names: tracker::NamesView {
                    names: tracker::names_of(p.names.names, tracker::tid_set(tids)),
                    since: p.names.since,
                },
                ..p
            },
        )
    } else {
        procs
    }
}

/// The processes with directories that one of them uses besides.
pub open spec fn registered(
    procs: Seq<ProcView>,
    pid: i32,
    dirs: Seq<Seq<char>>,
) -> Seq<ProcView> {
    if tracker::tracks(procs, pid) {
        let p = procs[tracker::proc_index(procs, pid)];
        tracker::changed(
            procs,
            pid,
            ProcView { dirs: tracker::dirs_with(p.dirs, dirs), ..p },
        )
    } else {
        procs
    }
}

/// The end of a look at the threads of a process.
#[derive(Debug)]
pub struct ScanEnd {
    /// Number of policies that count as applied.
    pub applied: usize,
    /// Cpuset directories that are to be removed.
    pub freed: Vec<String>,
}

/// The processes when a look at the threads of one of them ends.
pub open spec fn scan_ended(
    procs: Seq<ProcView>,
    pid: i32,
    tids: Seq<i32>,
    results: Seq<ThreadResult>,
) -> Seq<ProcView> {
    registered(settled(procs, pid, tids), pid, used_dirs(results))
}

/// Ends a look at all threads of a process: its threads count as done, and it
/// uses the directories of the policies that were tried.
pub fn finish_scan(
    t: &mut StateTracker,
    pid: i32,
    pkg: &str,
    now: i64,
    start_time: u64,
    tids: &[i32],
    results: &[ThreadResult],
) -> (r: ScanEnd)
    requires
        old(t).wf(),
    ensures
        final(t).wf(),
        r.applied == tally::tally(results@, applied_weight()),
        ({
            let entered = tracker::entered(old(t)@, pid, pkg@, now, start_time);
            &&& tracker::same_dirs(
                text::strings(r.freed@),
                tracker::fell_free(old(t)@, entered),
            )
            &&& final(t)@ == scan_ended(entered, pid, tids@, results@)
        }),
{
    let freed = t.enter(pid, pkg.to_owned(), now, start_time);
    t.settle_tids(pid, tids);
    let (applied, dirs) = sum_up(results);
    t.register_dirs(pid, dirs.as_slice());
    ScanEnd { applied, freed }
}

// ---------------------------------------------------------------------
// Looking at one new thread
// ---------------------------------------------------------------------

/// The start of a look at one thread.
#[derive(Debug)]
pub struct SingleStart {
    /// Cpuset directories that are to be removed.
    pub freed: Vec<String>,
    /// Whether the thread has been dealt with before.
    pub done: bool,
    /// Whether the name of the thread is to be read.
    pub unnamed: bool,
}

/// Whether a thread of a process has been dealt with, and whether its name is
/// to be read.
pub open spec fn single_asked(p: ProcView, tid: i32, now: i64, by_name: bool) -> (bool, bool) {
    let done = p.tids.contains(tid);
    (
        done,
        !done && by_name && tracker::name_in(tracker::names_at(p.names, now), tid) is None,
    )
}

/// Begins to look at one thread. A thread that has been dealt with is left
/// alone.
pub fn begin_single(
    t: &mut StateTracker,
    pid: i32,
    pkg: &str,
    tid: i32,
    now: i64,
    start_time: u64,
    by_name: bool,
) -> (r: SingleStart)
    requires
        old(t).wf(),
    ensures
        final(t).wf(),
        ({
            let entered = tracker::entered(old(t)@, pid, pkg@, now, start_time);
            let p = entered[tracker::proc_index(entered, pid)];
            &&& tracker::same_dirs(
                text::strings(r.freed@),
                tracker::fell_free(old(t)@, entered),
            )
            &&& (r.done, r.unnamed) == single_asked(p, tid, now, by_name)
            &&& final(t)@ == if !r.done && by_name {
                with_fresh_names(entered, pid, now)
            } else {
                entered
            }
        }),
{
    broadcast use vstd::std_specs::hash::group_hash_axioms;

    let freed = t.enter(pid, pkg.to_owned(), now, start_time);
    let ghost entered = t@;
    let done = match t.get(pid) {
        Some(p) => p.applied_tids.contains(&tid),
        None => false,
    };
    let mut missing = false;
    if !done && by_name {
        t.expire_names(pid, now);
        proof {
            tracker::lemma_proc_index(entered, pid);
            lemma_change_keeps_place(
                entered,
                pid,
                ProcView {
                    names: tracker::names_at(
                        entered[tracker::proc_index(entered, pid)].names,
                        now,
                    ),
                    ..entered[tracker::proc_index(entered, pid)]
                },
            );
        }
        missing = match t.get(pid) {
            Some(p) => p.tid_names.get(tid).is_none(),
            None => true,
        };
    }
    SingleStart { freed, done, unnamed: missing }
}

/// The processes with one more thread that has been dealt with.
pub open spec fn noted(procs: Seq<ProcView>, pid: i32, tid: i32) -> Seq<ProcView> {
    if tracker::tracks(procs, pid) {
        let p = procs[tracker::proc_index(procs, pid)];
        tracker::changed(procs, pid, ProcView { tids: p.tids.insert(tid), ..p })
    } else {
        procs
    }
}

/// The processes after a look at one thread, by what came of it.
pub open spec fn single_done(
    procs: Seq<ProcView>,
    pid: i32,
    tid: i32,
    result: Option<ThreadResult>,
) -> Seq<ProcView> {
    match result {
        None => noted(procs, pid, tid),
        Some(x) => if x.outcome == ApplyOutcome::Exited {
            procs
        } else if x.outcome == ApplyOutcome::SkippedNoCpus {
            noted(procs, pid, tid)
        } else {
            registered(noted(procs, pid, tid), pid, seq![x.dir@])
        },
    }
}

/// Number of policies that count as applied after a look at one thread.
pub open spec fn single_count(result: Option<ThreadResult>) -> int {
    match result {
        Some(x) => if counts(x.outcome) {
            1
        } else {
            0
        },
        None => 0,
    }
}

/// Ends a look at one thread. Without a policy, or with one without CPUs, the
/// thread has been dealt with; a thread that is gone leaves nothing behind.
/// Returns the number of policies that count as applied.
pub fn finish_single(
    t: &mut StateTracker,
    pid: i32,
    tid: i32,
    result: Option<ThreadResult>,
) -> (r: usize)
    requires
        old(t).wf(),
    ensures
        final(t).wf(),
        final(t)@ == single_done(old(t)@, pid, tid, result),
        r == single_count(result),
{
    match result {
        None => {
            t.note_tid(pid, tid);
            0
        },
        Some(x) => {
            if x.outcome == ApplyOutcome::Exited {
                return 0;
            }
            t.note_tid(pid, tid);
            if x.outcome == ApplyOutcome::SkippedNoCpus {
                return 0;
            }
            let mut dirs: Vec<String> = Vec::new();
            let ghost dir = x.dir@;
            dirs.push(x.dir);
            proof {
                assert(text::strings(dirs@) =~= seq![dir]);
            }
            t.register_dirs(pid, dirs.as_slice());
            if is_applied(x.outcome) {
                1
            } else {
                0
            }
        },
    }
}

// ---------------------------------------------------------------------
// Applying policies anew
// ---------------------------------------------------------------------

/// What is known of the system when policies are to be applied anew.
#[derive(Debug, Clone, Copy, PartialEq, Eq, Structural)]
pub struct RelockContext {
    pub pressure: PressureLevel,
    /// Share of the cooling devices in use.
    pub thermal_pressure: Ratio,
    /// Share of recent applications that failed.
    pub audit_failure_rate: Ratio,
}

/// How often policies were applied anew, or not.
#[derive(Debug, Clone, Copy, PartialEq, Eq, Structural)]
pub struct RelockStats {
    pub allow: u64,
    pub skip: u64,
    pub degrade: u64,
}

impl Default for RelockStats {
    fn default() -> (r: RelockStats)
        ensures
            r == (RelockStats { allow: 0, skip: 0, degrade: 0 }),
    {
        RelockStats { allow: 0, skip: 0, degrade: 0 }
    }
}

/// What is to be done about a process when policies are applied anew.
#[derive(Debug)]
pub enum RelockStep {
    /// It is not followed.
    Unknown,
    /// It is gone; these cpuset directories are to be removed.
    Gone { freed: Vec<String> },
    /// It is left alone.
    Hold,
    /// All its threads are to be looked at; it has this package.
    Refresh { pkg: String },
}

/// The decision on a process, by its `oom_score_adj`.
pub open spec fn relock_decision(
    engine: DecisionEngine,
    ctx: RelockContext,
    oom_adj: i32,
) -> Decision {
    let intent = decision::intent_of_oom(oom_adj as int);
    decision::decision_of(
        engine,
        DecisionContext {
            intent,
            pressure: ctx.pressure,
            thermal_pressure: ctx.thermal_pressure,
            foreground: intent == TaskIntent::Interactive,
            audit_failure_rate: ctx.audit_failure_rate,
        },
    )
}

/// The statistics with one more decision.
pub open spec fn bumped(stats: RelockStats, d: Decision) -> RelockStats {
    match d {
        Decision::Allow { .. } => RelockStats { allow: (stats.allow + 1) as u64, ..stats },
        Decision::Skip { .. } => RelockStats { skip: (stats.skip + 1) as u64, ..stats },
        Decision::Degrade { .. } => RelockStats { degrade: (stats.degrade + 1) as u64, ..stats },
    }
}

/// Whether `r` is what is to be done about a process when policies are
/// applied anew: one that is not followed is unknown, one that is gone is
/// dropped, and the decision on any other is counted.
pub open spec fn relocked(
    before: Seq<ProcView>,
    after: Seq<ProcView>,
    pid: i32,
    alive: bool,
    decision: Decision,
    counted: RelockStats,
    now_counted: RelockStats,
    r: RelockStep,
) -> bool {
    if !tracker::tracks(before, pid) {
        &&& r is Unknown
        &&& after == before
        &&& now_counted == counted
    } else if !alive {
        &&& r matches RelockStep::Gone { freed } && tracker::same_dirs(
            text::strings(freed@),
            tracker::fell_free(before, after),
        )
        &&& after == tracker::without(before, pid)
        &&& now_counted == counted
    } else {
        &&& after == before
        &&& now_counted == bumped(counted, decision)
        &&& if decision is Allow {
            r matches RelockStep::Refresh { pkg } && pkg@ == before[tracker::proc_index(
                before,
                pid,
            )].pkg
        } else {
            r is Hold
        }
    }
}

/// Decides about one process when policies are applied anew.
pub fn relock_step(
    t: &mut StateTracker,
    pid: i32,
    alive: bool,
    oom_adj: i32,
    ctx: &RelockContext,
    engine: &DecisionEngine,
    stats: &mut RelockStats,
) -> (r: RelockStep)
    requires
        old(t).wf(),
        old(stats).allow < u64::MAX,
        old(stats).skip < u64::MAX,
        old(stats).degrade < u64::MAX,
    ensures
        final(t).wf(),
        relocked(
            old(t)@,
            final(t)@,
            pid,
            alive,
            relock_decision(*engine, *ctx, oom_adj),
            *old(stats),
            *final(stats),
            r,
        ),
{
    let pkg = match t.get(pid) {
        Some(p) => p.pkg.clone(),
        None => {
            return RelockStep::Unknown;
        },
    };
    if !alive {
        return RelockStep::Gone { freed: drop_process(t, pid) };
    }
    let intent = TaskIntent::from_oom_adj(oom_adj);
    let dctx = DecisionContext {
        intent,
        pressure: ctx.pressure,
        thermal_pressure: ctx.thermal_pressure,
        foreground: intent == TaskIntent::Interactive,
        audit_failure_rate: ctx.audit_failure_rate,
    };
    match engine.decide_ctx(&dctx) {
        Decision::Allow { .. } => {
            stats.allow = stats.allow + 1;
            RelockStep::Refresh { pkg }
        },
        Decision::Skip { .. } => {
            stats.skip = stats.skip + 1;
            RelockStep::Hold
        },
        Decision::Degrade { .. } => {
            stats.degrade = stats.degrade + 1;
            RelockStep::Hold
        },
    }
}

// ---------------------------------------------------------------------
// Housekeeping
// ---------------------------------------------------------------------

/// The processes without some of them.
pub open spec fn without_all(procs: Seq<ProcView>, pids: Seq<i32>) -> Seq<ProcView>
    decreases pids.len(),
{
    if pids.len() == 0 {
        procs
    } else {
        tracker::without(without_all(procs, pids.drop_last()), pids.last())
    }
}

/// Number of the given processes that are followed, each counted once.
pub open spec fn dropped_count(procs: Seq<ProcView>, pids: Seq<i32>) -> nat
    decreases pids.len(),
{
    if pids.len() == 0 {
        0
    } else {
        dropped_count(procs, pids.drop_last()) + if tracker::tracks(
            without_all(procs, pids.drop_last()),
            pids.last(),
        ) {
            1nat
        } else {
            0nat
        }
    }
}

/// Stops following processes that are gone. Returns how many were followed,
/// and the cpuset directories that are to be removed.
pub fn cleanup_dead(t: &mut StateTracker, dead: &[i32]) -> (r: (usize, Vec<String>))
    requires
        old(t).wf(),
    ensures
        final(t).wf(),
        final(t)@ == without_all(old(t)@, dead@),
        r.0 == dropped_count(old(t)@, dead@),
        tracker::same_dirs(text::strings(r.1@), tracker::fell_free(old(t)@, final(t)@)),
{
    let mut removed: usize = 0;
    let mut freed: Vec<String> = Vec::new();
    let ghost start = t@;
    let mut i: usize = 0;
    proof {
        assert(dead@.take(0) =~= Seq::<i32>::empty());
    }
    while i < dead.len()
        invariant
            0 <= i <= dead@.len(),
            t.wf(),
            start == old(t)@,
            removed <= i,
            t@ == without_all(start, dead@.take(i as int)),
            removed == dropped_count(start, dead@.take(i as int)),
            tracker::same_dirs(text::strings(freed@), tracker::fell_free(start, t@)),
            forall|d: Seq<char>| #[trigger] tracker::users(t@, d) <= tracker::users(start, d),
        decreases dead@.len() - i,
    {
        let pid: i32 = dead[i];
        let ghost here = t@;
        proof {
            assert(dead@.take(i + 1).drop_last() =~= dead@.take(i as int));
            assert(dead@.take(i + 1).last() == pid);
        }
        if t.contains(pid) {
            removed += 1;
        }
        let more = drop_process(t, pid);
        proof {
            let after = t@;
            tracker::lemma_proc_index(here, pid);
            assert forall|d: Seq<char>|
                #[trigger] tracker::users(after, d) <= tracker::users(here, d) by {
                if tracker::tracks(here, pid) {
                    tally::lemma_tally_remove(
                        here,
                        tracker::uses_dir(d),
                        tracker::proc_index(here, pid),
                    );
                }
            }
            assert forall|d: Seq<char>|
                #[trigger] tracker::users(after, d) <= tracker::users(start, d) by {
                assert(tracker::users(here, d) <= tracker::users(start, d));
                assert(tracker::users(after, d) <= tracker::users(here, d));
            }
            tracker::lemma_freed(
                text::strings(freed@),
                text::strings(more@),
                start,
                here,
                after,
            );
        }
        tracker::append_dirs(&mut freed, &more);
        i += 1;
    }
    proof {
        assert(dead@.take(i as int) =~= dead@);
    }
    (removed, freed)
}

/// A process in a summary.
#[derive(Debug)]
pub struct TrackedProcess {
    pub pid: i32,
    pub pkg: String,
    /// Number of threads that have been dealt with.
    pub threads: usize,
}

/// The processes that are followed, in short.
pub fn tracked_summary(t: &StateTracker) -> (r: Vec<TrackedProcess>)
    requires
        t.wf(),
    ensures
        r@.len() == t@.len(),
        forall|i: int|
            0 <= i < r@.len() ==> (#[trigger] r@[i]).pid == t@[i].pid && r@[i].pkg@ == t@[i].pkg
                && r@[i].threads == t@[i].tids.len(),
{
    broadcast use vstd::std_specs::hash::group_hash_axioms;

    let pids = t.pids();
    let mut out: Vec<TrackedProcess> = Vec::new();
    let mut i: usize = 0;
    proof {
        t.lemma_wf();
    }
    while i < pids.len()
        invariant
            0 <= i <= pids@.len(),
            t.wf(),
            tracker::proper_procs(t@),
            pids@ == Seq::new(t@.len(), |j: int| t@[j].pid),
            out@.len() == i,
            forall|j: int|
                0 <= j < i ==> (#[trigger] out@[j]).pid == t@[j].pid && out@[j].pkg@ == t@[j].pkg
                    && out@[j].threads == t@[j].tids.len(),
        decreases pids@.len() - i,
    {
        broadcast use vstd::std_specs::hash::group_hash_axioms;

        let pid: i32 = pids[i];
        proof {
            tracker::lemma_proc_index(t@, pid);
            let k = tracker::proc_index(t@, pid);
            if k < i {
                assert(t@[k].pid != t@[i as int].pid);
            } else if k > i {
                assert(t@[i as int].pid != pid);
            }
        }
        match t.get(pid) {
            Some(p) => {
                out.push(TrackedProcess { pid, pkg: p.pkg.clone(), threads: p.applied_tids.len() });
            },
            None => {},
        }
        i += 1;
    }
    out
}

// ---------------------------------------------------------------------
// Laws
// ---------------------------------------------------------------------

/// Only processes that rules apply to are touched: any other is neither
/// looked at nor followed after its next arrival.
pub proof fn law_only_configured_packages(
    procs: Seq<ProcView>,
    pid: i32,
    tid: i32,
    kind: EventKind,
    pkg: Seq<char>,
    now: i64,
)
    requires
        tracker::proper_procs(procs),
    ensures
        event_action(procs, pid, kind, pkg, false, now) == EventAction::Nothing,
        is_arrival(kind) && pkg.len() > 0 ==> !tracker::tracks(
            after_event(procs, pid, tid, kind, pkg, false),
            pid,
        ),
{
    if is_arrival(kind) && pkg.len() > 0 {
        let after = after_event(procs, pid, tid, kind, pkg, false);
        tracker::lemma_proc_index(procs, pid);
        tracker::lemma_proc_index(after, pid);
        if tracker::tracks(after, pid) {
            let i = tracker::proc_index(procs, pid);
            let k = tracker::proc_index(after, pid);
            if k < i {
                assert(after[k] == procs[k]);
            } else {
                assert(after[k] == procs[k + 1]);
            }
        }
    }
}

} // verus!
