//! Events from the process table.
//!
//! A round looks at the whole table when it must, and at the processes that
//! are followed otherwise. It finds new processes, new threads and processes
//! that are gone.

use std::collections::HashSet;

use vstd::prelude::*;

use crate::event::{EventKind, ProcessEvent};
use crate::pending;
use crate::pending::Pending;
use crate::ruleset;
use crate::ruleset::RuleSet;
use crate::text;
use crate::tracker;
use crate::tracker::StateTracker;

verus! {

/// Processes that may wait for their name.
pub const PENDING_MAX_PENDING: usize = 64;

/// New processes beyond which the whole table is looked at.
pub const FULL_SCAN_THRESHOLD: i32 = 5;

/// What was read of one process.
#[derive(Debug)]
pub struct ProcReading {
    pub pid: i32,
    pub alive: bool,
    /// The name of its package, where it has one.
    pub pkg: Option<String>,
    /// The package patterns that match the name.
    pub hits: Vec<String>,
    /// Its threads.
    pub tids: Vec<i32>,
}

/// The state between two rounds.
#[derive(Debug)]
pub struct ProcSource {
    /// Processes in the table at the last round, -1 when unknown.
    pub last_proc_total: i32,
    /// Whether the next round must look at the whole table.
    pub scan_all: bool,
    /// Processes that wait for their name.
    pub pending: Vec<Pending>,
}

// ---------------------------------------------------------------------
// Specifications
// ---------------------------------------------------------------------

/// Whether a round looks at the whole table: when it was asked to, when the
/// number of processes rose by more than the threshold, and when it is
/// unknown.
pub open spec fn need_full(s: ProcSource, total: i32) -> bool {
    ||| s.scan_all
    ||| total > s.last_proc_total + FULL_SCAN_THRESHOLD && s.last_proc_total >= 0
    ||| total == -1
}

/// Whether a process has a name.
pub open spec fn named(r: ProcReading) -> bool {
    r.pkg is Some && r.pkg.unwrap()@.len() > 0
}

/// Whether any rule applies to a process.
pub open spec fn interesting(rules: RuleSet, r: ProcReading) -> bool {
    r.pkg is Some && ruleset::package_matches(
        rules@,
        r.pkg.unwrap()@,
        text::strings(r.hits@),
    ).len() > 0
}

/// An event with the package of its process.
pub open spec fn named_event(pid: i32, tid: i32, kind: EventKind, r: ProcReading) -> ProcessEvent {
    ProcessEvent { pid, tid, kind, cpu: None, pkg: r.pkg }
}

/// The threads of a process that nothing was applied to yet, each once. A
/// process that was never scanned has none: its first scan sees them all.
pub open spec fn new_tids(p: tracker::ProcView, tids: Seq<i32>) -> Seq<i32>
    decreases tids.len(),
{
    if p.tids.len() == 0 || !p.initial_scan_done || tids.len() == 0 {
        Seq::empty()
    } else {
        let before = new_tids(p, tids.drop_last());
        if p.tids.contains(tids.last()) || before.contains(tids.last()) {
            before
        } else {
            before.push(tids.last())
        }
    }
}

/// The new threads of a process, if it is followed.
pub open spec fn new_threads(procs: Seq<tracker::ProcView>, r: ProcReading) -> Seq<i32> {
    if tracker::tracks(procs, r.pid) {
        new_tids(procs[tracker::proc_index(procs, r.pid)], r.tids@)
    } else {
        Seq::empty()
    }
}

/// The events of new threads.
pub open spec fn clones(r: ProcReading, tids: Seq<i32>) -> Seq<ProcessEvent> {
    Seq::new(tids.len(), |i: int| named_event(r.pid, tids[i], EventKind::ThreadClone, r))
}

/// What a round has found so far.
#[verifier::ext_equal]
pub struct Found {
    pub pending: Seq<Pending>,
    pub events: Seq<ProcessEvent>,
    /// The processes that are there.
    pub current: Set<i32>,
}

/// The round after one waiting process: a dead one is dropped, one that has
/// a name leaves the queue, and one without waits on.
pub open spec fn flush_step(
    f: Found,
    p: Pending,
    r: ProcReading,
    rules: RuleSet,
    now: u64,
) -> Found {
    if now < p.next {
        Found { pending: f.pending.push(p), ..f }
    } else if !r.alive {
        f
    } else if named(r) {
        if interesting(rules, r) {
            Found { events: f.events.push(named_event(p.pid, p.pid, EventKind::Fork, r)), ..f }
        } else {
            f
        }
    } else {
        Found { pending: pending::put_back(f.pending, pending::retried(p, now)), ..f }
    }
}

/// The round after the waiting processes.
pub open spec fn flushed(
    q: Seq<Pending>,
    rs: Seq<ProcReading>,
    rules: RuleSet,
    now: u64,
    n: int,
) -> Found
    decreases n,
{
    if n <= 0 {
        Found { pending: Seq::empty(), events: Seq::empty(), current: Set::empty() }
    } else {
        flush_step(flushed(q, rs, rules, now, n - 1), q[n - 1], rs[n - 1], rules, now)
    }
}

/// The round after one process of the table.
pub open spec fn full_step(
    f: Found,
    procs: Seq<tracker::ProcView>,
    rules: RuleSet,
    r: ProcReading,
    now: u64,
) -> Found {
    let current = f.current.insert(r.pid);
    if !named(r) {
        Found {
            pending: if tracker::tracks(procs, r.pid) {
                f.pending
            } else {
                pending::queued(f.pending, r.pid, now, PENDING_MAX_PENDING)
            },
            events: f.events,
            current,
        }
    } else if !interesting(rules, r) {
        Found { current, ..f }
    } else if !tracker::tracks(procs, r.pid) {
        Found {
            events: f.events.push(named_event(r.pid, r.pid, EventKind::Fork, r)),
            current,
            ..f
        }
    } else {
        Found { events: f.events + clones(r, new_threads(procs, r)), current, ..f }
    }
}

/// The round after one process that is followed.
pub open spec fn partial_step(
    f: Found,
    procs: Seq<tracker::ProcView>,
    rules: RuleSet,
    r: ProcReading,
) -> Found {
    if !r.alive {
        f
    } else if interesting(rules, r) {
        Found {
            events: f.events + clones(r, new_threads(procs, r)),
            current: f.current.insert(r.pid),
            ..f
        }
    } else {
        Found { current: f.current.insert(r.pid), ..f }
    }
}

/// The round after some processes.
pub open spec fn looked(
    f: Found,
    full: bool,
    procs: Seq<tracker::ProcView>,
    rules: RuleSet,
    rs: Seq<ProcReading>,
    now: u64,
) -> Found
    decreases rs.len(),
{
    if rs.len() == 0 {
        f
    } else {
        let before = looked(f, full, procs, rules, rs.drop_last(), now);
        if full {
            full_step(before, procs, rules, rs.last(), now)
        } else {
            partial_step(before, procs, rules, rs.last())
        }
    }
}

/// The exits of the processes that are followed but gone.
pub open spec fn exits(procs: Seq<tracker::ProcView>, current: Set<i32>) -> Seq<ProcessEvent>
    decreases procs.len(),
{
    if procs.len() == 0 {
        Seq::empty()
    } else {
        let before = exits(procs.drop_last(), current);
        let pid = procs.last().pid;
        if current.contains(pid) {
            before
        } else {
            before.push(ProcessEvent::plain(pid, pid, EventKind::Exit))
        }
    }
}

/// What a round finds: the waiting processes first, then the processes of
/// the table, then those that are gone.
pub open spec fn found(
    s: ProcSource,
    procs: Seq<tracker::ProcView>,
    rules: RuleSet,
    now: u64,
    total: i32,
    waiting: Seq<ProcReading>,
    listing: Option<Seq<ProcReading>>,
) -> Found {
    let f = flushed(s.pending@, waiting, rules, now, s.pending@.len() as int);
    match listing {
        Some(rs) => {
            let g = looked(f, need_full(s, total), procs, rules, rs, now);
            Found { events: g.events + exits(procs, g.current), ..g }
        },
        None => f,
    }
}

/// The numbers among the entries of the process table.
pub open spec fn digit_names(names: Seq<String>) -> nat
    decreases names.len(),
{
    if names.len() == 0 {
        0
    } else {
        digit_names(names.drop_last()) + if text::all_digits(names.last()@) {
            1nat
        } else {
            0
        }
    }
}

// ---------------------------------------------------------------------
// Executable functions
// ---------------------------------------------------------------------

/// Whether all characters of a name are digits.
fn is_number(name: &str) -> (r: bool)
    ensures
        r == text::all_digits(name@),
{
    let chars = text::chars_of(name);
    let mut i: usize = 0;
    while i < chars.len()
        invariant
            0 <= i <= chars@.len(),
            chars@ == name@,
            forall|j: int| 0 <= j < i ==> text::is_digit(#[trigger] chars@[j]),
        decreases chars@.len() - i,
    {
        let c = chars[i];
        if !('0' <= c && c <= '9') {
            assert(!text::is_digit(name@[i as int]));
            return false;
        }
        i += 1;
    }
    true
}

/// The number of processes in the table, -1 when it cannot be read.
pub fn count_processes(names: Option<&[String]>) -> (r: i32)
    requires
        names is Some ==> names.unwrap()@.len() <= i32::MAX,
    ensures
        r == match names {
            Some(v) => digit_names(v@) as int,
            None => -1int,
        },
{
    let Some(v) = names else {
        return -1;
    };
    let mut n: i32 = 0;
    let mut i: usize = 0;
    assert(v@.take(0) =~= Seq::<String>::empty());
    while i < v.len()
        invariant
            0 <= i <= v@.len() <= i32::MAX,
            0 <= n <= i,
            n == digit_names(v@.take(i as int)),
        decreases v@.len() - i,
    {
        assert(v@.take(i + 1).drop_last() =~= v@.take(i as int));
        if is_number(v[i].as_str()) {
            n = n + 1;
        }
        i += 1;
    }
    assert(v@.take(i as int) =~= v@);
    n
}

/// The threads of a process that nothing was applied to yet.
pub fn new_tids_for(t: &StateTracker, pid: i32, tids: &[i32]) -> (r: Vec<i32>)
    ensures
        r@ == if tracker::tracks(t@, pid) {
            new_tids(t@[tracker::proc_index(t@, pid)], tids@)
        } else {
            Seq::empty()
        },
{
    broadcast use vstd::std_specs::hash::group_hash_axioms;

    let mut out: Vec<i32> = Vec::new();
    let Some(p) = t.get(pid) else {
        return out;
    };
    let ghost view = p@;
    if p.applied_tids.len() == 0 || !p.initial_scan_done {
        return out;
    }
    assert(tids@.take(0) =~= Seq::<i32>::empty());
    let mut i: usize = 0;
    while i < tids.len()
        invariant
            0 <= i <= tids@.len(),
            view == p@,
            view.tids.len() > 0,
            view.initial_scan_done,
            out@ == new_tids(view, tids@.take(i as int)),
        decreases tids@.len() - i,
    {
        broadcast use vstd::std_specs::hash::group_hash_axioms;

        assert(tids@.take(i + 1).drop_last() =~= tids@.take(i as int));
        let tid: i32 = tids[i];
        if !p.applied_tids.contains(&tid) && !holds(&out, tid) {
            out.push(tid);
        }
        i += 1;
    }
    assert(tids@.take(i as int) =~= tids@);
    out
}

/// Whether a list holds a number.
fn holds(v: &Vec<i32>, n: i32) -> (r: bool)
    ensures
        r == v@.contains(n),
{
    let mut i: usize = 0;
    while i < v.len()
        invariant
            0 <= i <= v@.len(),
            forall|j: int| 0 <= j < i ==> (#[trigger] v@[j]) != n,
        decreases v@.len() - i,
    {
        if v[i] == n {
            return true;
        }
        i += 1;
    }
    false
}

/// Whether a process has a name.
fn is_named(r: &ProcReading) -> (b: bool)
    ensures
        b == named(*r),
{
    match &r.pkg {
        Some(p) => text::chars_of(p.as_str()).len() > 0,
        None => false,
    }
}

/// Whether any rule applies to a process.
fn is_interesting(rules: &RuleSet, r: &ProcReading) -> (b: bool)
    ensures
        b == interesting(*rules, *r),
{
    match &r.pkg {
        Some(p) => rules.is_interested(p.as_str(), r.hits.as_slice()),
        None => false,
    }
}

/// An event with the package of its process.
fn event_of(pid: i32, tid: i32, kind: EventKind, r: &ProcReading) -> (e: ProcessEvent)
    ensures
        e == named_event(pid, tid, kind, *r),
{
    let pkg = text::copy_opt(&r.pkg);
    ProcessEvent { pid, tid, kind, cpu: None, pkg }
}

/// Adds the events of the new threads of a process.
fn push_clones(events: &mut Vec<ProcessEvent>, t: &StateTracker, r: &ProcReading)
    ensures
        final(events)@ == old(events)@ + clones(*r, new_threads(t@, *r)),
{
    let tids = new_tids_for(t, r.pid, r.tids.as_slice());
    let ghost all = clones(*r, tids@);
    let mut i: usize = 0;
    assert(events@ + all.take(0) =~= events@);
    while i < tids.len()
        invariant
            0 <= i <= tids@.len(),
            all == clones(*r, tids@),
            events@ == old(events)@ + all.take(i as int),
        decreases tids@.len() - i,
    {
        let ghost before = events@;
        events.push(event_of(r.pid, tids[i], EventKind::ThreadClone, r));
        assert(events@ =~= old(events)@ + all.take(i + 1)) by {
            assert(all.take(i + 1) =~= all.take(i as int).push(all[i as int]));
        }
        i += 1;
    }
    assert(all.take(i as int) =~= all);
}

impl ProcSource {
    /// The queue is orderly.
    pub open spec fn wf(&self) -> bool {
        pending::orderly(self.pending@) && self.pending@.len() <= PENDING_MAX_PENDING
    }

    /// A source whose first round looks at the whole table.
    pub fn new() -> (r: ProcSource)
        ensures
            r.wf(),
            r.scan_all,
            r.last_proc_total == -1,
            r.pending@ == Seq::<Pending>::empty(),
    {
        ProcSource { last_proc_total: -1, scan_all: true, pending: Vec::new() }
    }

    /// The next round looks at the whole table.
    pub fn on_config_changed(&mut self)
        ensures
            final(self).scan_all,
            final(self).last_proc_total == -1,
            final(self).pending == old(self).pending,
    {
        self.scan_all = true;
        self.last_proc_total = -1;
    }

    /// Whether the next round looks at the whole table, given the number of
    /// processes.
    pub fn needs_full(&self, total: i32) -> (r: bool)
        ensures
            r == need_full(*self, total),
    {
        self.scan_all || (total as i64 > self.last_proc_total as i64 + FULL_SCAN_THRESHOLD as i64
            && self.last_proc_total >= 0) || total == -1
    }

    /// Looks at the waiting processes.
    fn flush_pending(&mut self, rules: &RuleSet, waiting: &[ProcReading], now: u64) -> (events: Vec<
        ProcessEvent,
    >)
        requires
            old(self).wf(),
            waiting@.len() == old(self).pending@.len(),
            now + 1000 <= u64::MAX,
        ensures
            ({
                let f = flushed(
                    old(self).pending@,
                    waiting@,
                    *rules,
                    now,
                    waiting@.len() as int,
                );
                &&& final(self).pending@ == f.pending
                &&& events@ == f.events
                &&& f.current == Set::<i32>::empty()
            }),
            final(self).wf(),
            final(self).scan_all == old(self).scan_all,
            final(self).last_proc_total == old(self).last_proc_total,
    {
        let ghost q = self.pending@;
        let mut kept: Vec<Pending> = Vec::new();
        let mut events: Vec<ProcessEvent> = Vec::new();
        let mut i: usize = 0;
        while i < self.pending.len()
            invariant
                0 <= i <= q.len(),
                q == self.pending@,
                *self == *old(self),
                self.wf(),
                waiting@.len() == q.len(),
                now + 1000 <= u64::MAX,
                kept@ == flushed(q, waiting@, *rules, now, i as int).pending,
                events@ == flushed(q, waiting@, *rules, now, i as int).events,
                flushed(q, waiting@, *rules, now, i as int).current == Set::<i32>::empty(),
                kept@.len() <= i,
                pending::orderly(kept@),
                forall|k: int|
                    0 <= k < kept@.len() ==> exists|m: int|
                        0 <= m < i && (#[trigger] q[m]).pid == (#[trigger] kept@[k]).pid,
            decreases q.len() - i,
        {
            let p: Pending = self.pending[i];
            let r = &waiting[i];
            let ghost before = kept@;
            assert forall|k: int| 0 <= k < kept@.len() implies (#[trigger] kept@[k]).pid
                != p.pid by {
                let m = choose|m: int| 0 <= m < i && (#[trigger] q[m]).pid == kept@[k].pid;
                assert(q[m].pid != q[i as int].pid);
            }
            if now < p.next {
                kept.push(p);
            } else if r.alive {
                if is_named(r) {
                    if is_interesting(rules, r) {
                        events.push(event_of(p.pid, p.pid, EventKind::Fork, r));
                    }
                } else if let Some(again) = pending::retry(&p, now) {
                    kept.push(again);
                }
            }
            assert forall|k: int| 0 <= k < kept@.len() implies exists|m: int|
                0 <= m < i + 1 && (#[trigger] q[m]).pid == (#[trigger] kept@[k]).pid by {
                if k < before.len() {
                    assert(kept@[k] == before[k]);
                    let m = choose|m: int| 0 <= m < i && (#[trigger] q[m]).pid == before[k].pid;
                    assert(q[m].pid == kept@[k].pid);
                } else {
                    assert(q[i as int].pid == kept@[k].pid);
                }
            }
            i += 1;
        }
        self.pending = kept;
        events
    }

    /// One round: what was read of the waiting processes, the number of
    /// processes, and what was read of the table or, where the whole of it
    /// is not needed, of the processes that are followed. Nothing was read
    /// of a table that could not be listed.
    pub fn collect(
        &mut self,
        t: &StateTracker,
        rules: &RuleSet,
        now: u64,
        total: i32,
        waiting: &[ProcReading],
        listing: Option<&[ProcReading]>,
    ) -> (events: Vec<ProcessEvent>)
        requires
            old(self).wf(),
            waiting@.len() == old(self).pending@.len(),
            now + 1000 <= u64::MAX,
        ensures
            final(self).wf(),
            !final(self).scan_all,
            final(self).last_proc_total == total,
            ({
                let f = found(
                    *old(self),
                    t@,
                    *rules,
                    now,
                    total,
                    waiting@,
                    match listing {
                        Some(rs) => Some(rs@),
                        None => None,
                    },
                );
                &&& final(self).pending@ == f.pending
                &&& events@ == f.events
            }),
    {
        broadcast use vstd::std_specs::hash::group_hash_axioms;

        let full = self.needs_full(total);
        let mut events = self.flush_pending(rules, waiting, now);
        let ghost f = flushed(
            old(self).pending@,
            waiting@,
            *rules,
            now,
            old(self).pending@.len() as int,
        );
        self.last_proc_total = total;
        self.scan_all = false;
        let Some(rs) = listing else {
            return events;
        };
        let mut current: HashSet<i32> = HashSet::new();
        let mut i: usize = 0;
        assert(rs@.take(0) =~= Seq::<ProcReading>::empty());
        while i < rs.len()
            invariant
                0 <= i <= rs@.len(),
                self.wf(),
                !self.scan_all,
                self.last_proc_total == total,
                ({
                    let g = looked(f, full, t@, *rules, rs@.take(i as int), now);
                    &&& self.pending@ == g.pending
                    &&& events@ == g.events
                    &&& current@ == g.current
                }),
            decreases rs@.len() - i,
        {
            broadcast use vstd::std_specs::hash::group_hash_axioms;

            assert(rs@.take(i + 1).drop_last() =~= rs@.take(i as int));
            let r = &rs[i];
            if full {
                let _ = current.insert(r.pid);
                if !is_named(r) {
                    if !t.contains(r.pid) {
                        pending::enqueue(&mut self.pending, r.pid, now, PENDING_MAX_PENDING);
                    }
                } else if is_interesting(rules, r) {
                    if !t.contains(r.pid) {
                        events.push(event_of(r.pid, r.pid, EventKind::Fork, r));
                    } else {
                        push_clones(&mut events, t, r);
                    }
                }
            } else if r.alive {
                let _ = current.insert(r.pid);
                if is_interesting(rules, r) {
                    push_clones(&mut events, t, r);
                }
            }
            i += 1;
        }
        assert(rs@.take(i as int) =~= rs@);
        let ghost g = looked(f, full, t@, *rules, rs@, now);
        let pids = t.pids();
        let mut k: usize = 0;
        assert(t@.take(0) =~= Seq::<tracker::ProcView>::empty());
        assert(events@ =~= g.events + exits(t@.take(0), current@));
        while k < pids.len()
            invariant
                0 <= k <= pids@.len(),
                pids@ == Seq::new(t@.len(), |j: int| t@[j].pid),
                events@ == g.events + exits(t@.take(k as int), current@),
            decreases pids@.len() - k,
        {
            broadcast use vstd::std_specs::hash::group_hash_axioms;

            assert(t@.take(k + 1).drop_last() =~= t@.take(k as int));
            let pid: i32 = pids[k];
            if !current.contains(&pid) {
                events.push(ProcessEvent::exit(pid, pid));
                assert(events@ =~= g.events + exits(t@.take(k + 1), current@));
            }
            k += 1;
        }
        assert(t@.take(k as int) =~= t@);
        events
    }
}

// ---------------------------------------------------------------------
// Laws
// ---------------------------------------------------------------------

/// A process that is followed is reported as gone exactly when the round
/// did not see it.
pub proof fn law_gone_processes_exit(procs: Seq<tracker::ProcView>, current: Set<i32>, pid: i32)
    ensures
        exits(procs, current).contains(ProcessEvent::plain(pid, pid, EventKind::Exit)) <==> (
        exists|i: int| 0 <= i < procs.len() && (#[trigger] procs[i]).pid == pid)
            && !current.contains(pid),
    decreases procs.len(),
{
    let e = ProcessEvent::plain(pid, pid, EventKind::Exit);
    if procs.len() > 0 {
        let rest = procs.drop_last();
        let before = exits(rest, current);
        law_gone_processes_exit(rest, current, pid);
        if before.contains(e) {
            let k = choose|k: int| 0 <= k < before.len() && before[k] == e;
            assert(exits(procs, current)[k] == e);
            let m = choose|m: int| 0 <= m < rest.len() && (#[trigger] rest[m]).pid == pid;
            assert(procs[m].pid == pid);
        }
        if procs.last().pid == pid && !current.contains(pid) {
            assert(exits(procs, current).last() == e);
            assert(procs[procs.len() - 1].pid == pid);
        }
        if exits(procs, current).contains(e) && !before.contains(e) {
            let k = choose|k: int|
                0 <= k < exits(procs, current).len() && exits(procs, current)[k] == e;
            if k < before.len() {
                assert(before[k] == e);
            }
            assert(procs[procs.len() - 1].pid == pid);
        }
        if (exists|i: int| 0 <= i < procs.len() && (#[trigger] procs[i]).pid == pid)
            && !current.contains(pid) {
            let m = choose|m: int| 0 <= m < procs.len() && (#[trigger] procs[m]).pid == pid;
            if m < rest.len() {
                assert(rest[m].pid == pid);
            }
        }
    }
}

/// Once a process was scanned, its new threads are exactly those that
/// nothing was applied to, and each is reported once.
pub proof fn law_new_threads_are_found(p: tracker::ProcView, tids: Seq<i32>)
    requires
        p.tids.len() > 0,
        p.initial_scan_done,
    ensures
        forall|tid: i32| #[trigger]
            new_tids(p, tids).contains(tid) <==> tids.contains(tid) && !p.tids.contains(tid),
        new_tids(p, tids).no_duplicates(),
    decreases tids.len(),
{
    if tids.len() > 0 {
        let rest = tids.drop_last();
        let before = new_tids(p, rest);
        let after = new_tids(p, tids);
        law_new_threads_are_found(p, rest);
        assert forall|tid: i32| #[trigger] after.contains(tid) <==> tids.contains(tid)
            && !p.tids.contains(tid) by {
            if after.contains(tid) {
                let k = choose|k: int| 0 <= k < after.len() && after[k] == tid;
                if k < before.len() {
                    assert(before[k] == tid);
                    assert(before.contains(tid));
                    let m = choose|m: int| 0 <= m < rest.len() && rest[m] == tid;
                    assert(tids[m] == tid);
                } else {
                    assert(tids[tids.len() - 1] == tid);
                }
            }
            if tids.contains(tid) && !p.tids.contains(tid) {
                let m = choose|m: int| 0 <= m < tids.len() && tids[m] == tid;
                if m < rest.len() {
                    assert(rest[m] == tid);
                    assert(before.contains(tid));
                }
                if before.contains(tid) {
                    let k = choose|k: int| 0 <= k < before.len() && before[k] == tid;
                    assert(after[k] == tid);
                } else {
                    assert(after.last() == tid);
                }
            }
        }
        assert(after.no_duplicates()) by {
            if !p.tids.contains(tids.last()) && !before.contains(tids.last()) {
                assert forall|i: int, j: int| 0 <= i < after.len() && 0 <= j < after.len() && i
                    != j implies after[i] != after[j] by {
                    if i < before.len() && j < before.len() {
                        assert(before[i] != before[j]);
                    } else if i < before.len() {
                        assert(before.contains(before[i]));
                    } else {
                        assert(before.contains(before[j]));
                    }
                }
            }
        }
    }
}

/// A look at the whole table reports every process that rules apply to and
/// that is not followed yet, and sees every process that it lists.
pub proof fn law_new_processes_are_reported(
    f: Found,
    procs: Seq<tracker::ProcView>,
    rules: RuleSet,
    rs: Seq<ProcReading>,
    now: u64,
    i: int,
)
    requires
        0 <= i < rs.len(),
    ensures
        looked(f, true, procs, rules, rs, now).current.contains(rs[i].pid),
        named(rs[i]) && interesting(rules, rs[i]) && !tracker::tracks(procs, rs[i].pid)
            ==> looked(f, true, procs, rules, rs, now).events.contains(
            named_event(rs[i].pid, rs[i].pid, EventKind::Fork, rs[i]),
        ),
    decreases rs.len(),
{
    let before = looked(f, true, procs, rules, rs.drop_last(), now);
    let after = looked(f, true, procs, rules, rs, now);
    let e = named_event(rs[i].pid, rs[i].pid, EventKind::Fork, rs[i]);
    if i < rs.len() - 1 {
        law_new_processes_are_reported(f, procs, rules, rs.drop_last(), now, i);
        if before.events.contains(e) {
            let k = choose|k: int| 0 <= k < before.events.len() && before.events[k] == e;
            assert(after.events[k] == e);
        }
    } else if named(rs[i]) && interesting(rules, rs[i]) && !tracker::tracks(procs, rs[i].pid) {
        assert(after.events.last() == e);
    }
}

/// A steady table is not looked at as a whole: without a request for it, and
/// while the number of processes does not rise by more than the threshold,
/// a round looks only at the processes that are followed.
pub proof fn law_steady_table_is_not_scanned(s: ProcSource, total: i32)
    requires
        !s.scan_all,
        0 <= total <= s.last_proc_total + FULL_SCAN_THRESHOLD,
    ensures
        !need_full(s, total),
{
}

} // verus!
