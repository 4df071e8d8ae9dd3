//! Which processes are followed, and what is known of them.

use vstd::prelude::*;

use crate::engine;
use crate::engine::{EventAction, ThreadResult};
use crate::event::EventKind;
use crate::policy::ApplyOutcome;
use crate::tally;
use crate::tracker;
use crate::tracker::{NamesView, ProcView};

verus! {

// ---------------------------------------------------------------------
// What the laws speak of
// ---------------------------------------------------------------------

/// Whether a process is followed, and this is what is known of it.
pub open spec fn follows(procs: Seq<ProcView>, pid: i32, p: ProcView) -> bool {
    p.pid == pid && procs.contains(p)
}

/// Whether a process is not followed.
pub open spec fn ignores(procs: Seq<ProcView>, pid: i32) -> bool {
    forall|i: int| 0 <= i < procs.len() ==> (#[trigger] procs[i]).pid != pid
}

/// Whether each process is listed once.
pub open spec fn listed_once(procs: Seq<ProcView>) -> bool {
    forall|i: int, j: int|
        0 <= i < j < procs.len() ==> (#[trigger] procs[i]).pid != (#[trigger] procs[j]).pid
}

/// Whether the processes other than one are followed just as before.
pub open spec fn others_stay(before: Seq<ProcView>, after: Seq<ProcView>, pid: i32) -> bool {
    forall|p: ProcView|
        p.pid != pid ==> (#[trigger] after.contains(p) <==> before.contains(p))
}

/// Whether a process uses a directory.
pub open spec fn in_use(procs: Seq<ProcView>, dir: Seq<char>) -> bool {
    exists|i: int| 0 <= i < procs.len() && (#[trigger] procs[i]).dirs.contains(dir)
}

/// Whether a cache has a name for a thread.
pub open spec fn knows(c: NamesView, tid: i32, name: Seq<char>) -> bool {
    exists|i: int|
        0 <= i < c.names.len() && #[trigger] c.names[i] == (tid, name) && forall|j: int|
            0 <= j < i ==> (#[trigger] c.names[j]).0 != tid
}

/// Whether a cache has no name for a thread.
pub open spec fn nameless(c: NamesView, tid: i32) -> bool {
    forall|i: int| 0 <= i < c.names.len() ==> (#[trigger] c.names[i]).0 != tid
}

// ---------------------------------------------------------------------
// Lists of processes
// ---------------------------------------------------------------------

pub proof fn lemma_found(procs: Seq<ProcView>, pid: i32)
    ensures
        ignores(procs, pid) <==> !tracker::tracks(procs, pid),
        tracker::tracks(procs, pid) ==> follows(
            procs,
            pid,
            procs[tracker::proc_index(procs, pid)],
        ),
{
    tracker::lemma_proc_index(procs, pid);
    let i = tracker::proc_index(procs, pid);
    if tracker::tracks(procs, pid) {
        assert(procs[i].pid == pid);
    }
}

pub proof fn lemma_place(procs: Seq<ProcView>, pid: i32, p: ProcView)
    requires
        listed_once(procs),
        follows(procs, pid, p),
    ensures
        tracker::tracks(procs, pid),
        procs[tracker::proc_index(procs, pid)] == p,
        !ignores(procs, pid),
{
    tracker::lemma_proc_index(procs, pid);
    let i = tracker::proc_index(procs, pid);
    let k = choose|k: int| 0 <= k < procs.len() && procs[k] == p;
    assert(procs[k].pid == pid);
    if k < i {
        assert(procs[k].pid != pid);
    } else if i < k {
        assert(procs[i].pid != procs[k].pid);
    }
}

proof fn lemma_without(procs: Seq<ProcView>, pid: i32)
    requires
        listed_once(procs),
    ensures
        listed_once(tracker::without(procs, pid)),
        ignores(tracker::without(procs, pid), pid),
        others_stay(procs, tracker::without(procs, pid), pid),
{
    let after = tracker::without(procs, pid);
    tracker::lemma_proc_index(procs, pid);
    lemma_found(procs, pid);
    let k = tracker::proc_index(procs, pid);
    if tracker::tracks(procs, pid) {
        assert forall|i: int| 0 <= i < after.len() implies #[trigger] after[i] == procs[if i < k {
            i
        } else {
            i + 1
        }] by {}
        assert forall|i: int| 0 <= i < after.len() implies (#[trigger] after[i]).pid != pid by {
            if i < k {
                assert(procs[i].pid != procs[k].pid);
            } else {
                assert(procs[k].pid != procs[i + 1].pid);
            }
        }
        assert forall|p: ProcView| p.pid != pid implies (#[trigger] after.contains(p)
            <==> procs.contains(p)) by {
            if after.contains(p) {
                let i = choose|i: int| 0 <= i < after.len() && after[i] == p;
                assert(procs[if i < k { i } else { i + 1 }] == p);
            }
            if procs.contains(p) {
                let i = choose|i: int| 0 <= i < procs.len() && procs[i] == p;
                assert(i != k);
                assert(after[if i < k { i } else { i - 1 }] == p);
            }
        }
    }
}

proof fn lemma_changed(procs: Seq<ProcView>, pid: i32, q: ProcView)
    requires
        listed_once(procs),
        tracker::tracks(procs, pid),
        q.pid == pid,
    ensures
        listed_once(tracker::changed(procs, pid, q)),
        follows(tracker::changed(procs, pid, q), pid, q),
        others_stay(procs, tracker::changed(procs, pid, q), pid),
{
    let after = tracker::changed(procs, pid, q);
    tracker::lemma_proc_index(procs, pid);
    let k = tracker::proc_index(procs, pid);
    assert(after[k] == q);
    assert forall|i: int, j: int| 0 <= i < j < after.len() implies (#[trigger] after[i]).pid != (
    #[trigger] after[j]).pid by {
        assert(after[i].pid == procs[i].pid && after[j].pid == procs[j].pid);
    }
    assert forall|p: ProcView| p.pid != pid implies (#[trigger] after.contains(p)
        <==> procs.contains(p)) by {
        if after.contains(p) {
            let i = choose|i: int| 0 <= i < after.len() && after[i] == p;
            assert(procs[i] == p);
        }
        if procs.contains(p) {
            let i = choose|i: int| 0 <= i < procs.len() && procs[i] == p;
            assert(after[i] == p);
        }
    }
}

proof fn lemma_pushed(procs: Seq<ProcView>, q: ProcView)
    requires
        listed_once(procs),
        ignores(procs, q.pid),
    ensures
        listed_once(procs.push(q)),
        follows(procs.push(q), q.pid, q),
        others_stay(procs, procs.push(q), q.pid),
{
    let after = procs.push(q);
    assert(after[procs.len() as int] == q);
    assert forall|i: int, j: int| 0 <= i < j < after.len() implies (#[trigger] after[i]).pid != (
    #[trigger] after[j]).pid by {
        if j < procs.len() {
            assert(procs[i].pid != procs[j].pid);
        } else {
            assert(procs[i].pid != q.pid);
        }
    }
    assert forall|p: ProcView| p.pid != q.pid implies (#[trigger] after.contains(p)
        <==> procs.contains(p)) by {
        if after.contains(p) {
            let i = choose|i: int| 0 <= i < after.len() && after[i] == p;
            assert(procs[i] == p);
        }
        if procs.contains(p) {
            let i = choose|i: int| 0 <= i < procs.len() && procs[i] == p;
            assert(after[i] == p);
        }
    }
}

// ---------------------------------------------------------------------
// Events
// ---------------------------------------------------------------------

/// When the process itself ends it is no longer followed; when one of its
/// threads ends, just that thread is forgotten. A process that gets a new
/// image, or that no rule applies to, is no longer followed once its package
/// is known. Nothing else changes, for no process.
pub proof fn law_events_change_one_process(
    procs: Seq<ProcView>,
    pid: i32,
    tid: i32,
    kind: EventKind,
    pkg: Seq<char>,
    interested: bool,
    p: ProcView,
)
    requires
        listed_once(procs),
    ensures
        ({
            let after = engine::after_event(procs, pid, tid, kind, pkg, interested);
            &&& listed_once(after)
            &&& others_stay(procs, after, pid)
            &&& kind == EventKind::Exit && tid == pid ==> ignores(after, pid)
            &&& kind == EventKind::Exit && tid != pid && follows(procs, pid, p) ==> exists|
                q: ProcView,
            |
                #[trigger] follows(after, pid, q) && q == (ProcView { tids: q.tids, ..p }) && (
                forall|t: i32| #[trigger]
                    q.tids.contains(t) <==> p.tids.contains(t) && t != tid)
            &&& kind == EventKind::Exit && ignores(procs, pid) ==> after == procs
            &&& kind == EventKind::Exec && pkg.len() > 0 ==> ignores(after, pid)
            &&& (kind == EventKind::Fork || kind == EventKind::ThreadClone) && pkg.len() > 0
                && !interested ==> ignores(after, pid)
            &&& (kind == EventKind::Fork || kind == EventKind::ThreadClone) && interested ==> after
                == procs
            &&& kind != EventKind::Exit && pkg.len() == 0 ==> after == procs
            &&& kind == EventKind::CpuMigrate ==> after == procs
        }),
{
    let after = engine::after_event(procs, pid, tid, kind, pkg, interested);
    lemma_found(procs, pid);
    lemma_without(procs, pid);
    if kind == EventKind::Exit && tid != pid && tracker::tracks(procs, pid) {
        let old_p = procs[tracker::proc_index(procs, pid)];
        let q = ProcView { tids: old_p.tids.remove(tid), ..old_p };
        lemma_changed(procs, pid, q);
        if follows(procs, pid, p) {
            lemma_place(procs, pid, p);
            assert(follows(after, pid, q));
        }
    }
}

/// Only a process that is new, has a new image or a new thread is looked at,
/// and only where its package is known and rules apply to it: wholly, but for
/// a new thread of a process that was looked at wholly less than two seconds
/// ago.
pub proof fn law_what_is_looked_at(
    procs: Seq<ProcView>,
    pid: i32,
    kind: EventKind,
    pkg: Seq<char>,
    interested: bool,
    now: i64,
    p: ProcView,
)
    requires
        listed_once(procs),
    ensures
        ({
            let action = engine::event_action(procs, pid, kind, pkg, interested, now);
            let known = pkg.len() > 0 && interested;
            &&& kind == EventKind::Exit || kind == EventKind::CpuMigrate || !known ==> action
                == EventAction::Nothing
            &&& known && (kind == EventKind::Fork || kind == EventKind::Exec) ==> action
                == EventAction::Scan
            &&& known && kind == EventKind::ThreadClone && ignores(procs, pid) ==> action
                == EventAction::Scan
            &&& known && kind == EventKind::ThreadClone && follows(procs, pid, p) ==> action == if
                p.initial_scan_done && now - p.last_scan_time < 2 {
                EventAction::Single
            } else {
                EventAction::Scan
            }
        }),
{
    lemma_found(procs, pid);
    if follows(procs, pid, p) {
        lemma_place(procs, pid, p);
    }
}

/// Once all threads of a process were looked at, a new thread of it is looked
/// at alone for two seconds, and nothing else of it, or of any other process,
/// has changed.
pub proof fn law_a_scan_lasts_two_seconds(
    procs: Seq<ProcView>,
    pid: i32,
    now: i64,
    later: i64,
    pkg: Seq<char>,
    p: ProcView,
)
    requires
        listed_once(procs),
        follows(procs, pid, p),
        pkg.len() > 0,
    ensures
        ({
            let after = tracker::scanned(procs, pid, now);
            &&& listed_once(after)
            &&& others_stay(procs, after, pid)
            &&& follows(
                after,
                pid,
                ProcView { initial_scan_done: true, last_scan_time: now, ..p },
            )
            &&& engine::event_action(after, pid, EventKind::ThreadClone, pkg, true, later)
                == EventAction::Single <==> later - now < 2
        }),
        ignores(procs, pid) ==> tracker::scanned(procs, pid, now) == procs,
{
    let q = ProcView { initial_scan_done: true, last_scan_time: now, ..p };
    let after = tracker::scanned(procs, pid, now);
    lemma_place(procs, pid, p);
    lemma_changed(procs, pid, q);
    lemma_place(after, pid, q);
}

// ---------------------------------------------------------------------
// Entering
// ---------------------------------------------------------------------

/// A process that was seen is followed. One that was not is new. One that was,
/// under the same package, stays as it is. Under another package it is new
/// when both start times are known and differ, and otherwise only its package
/// changes. A new process has no thread dealt with, no directory, no name and
/// has not been looked at.
pub proof fn law_seen_processes_are_followed(
    procs: Seq<ProcView>,
    pid: i32,
    pkg: Seq<char>,
    now: i64,
    start_time: u64,
    p: ProcView,
)
    requires
        listed_once(procs),
    ensures
        ({
            let after = tracker::entered(procs, pid, pkg, now, start_time);
            let another = p.start_time != 0 && start_time != 0 && p.start_time != start_time;
            &&& listed_once(after)
            &&& others_stay(procs, after, pid)
            &&& follows(procs, pid, p) && p.pkg == pkg ==> after == procs
            &&& follows(procs, pid, p) && p.pkg != pkg && !another ==> follows(
                after,
                pid,
                ProcView { pkg, ..p },
            )
            &&& (follows(procs, pid, p) && p.pkg != pkg && another) || ignores(procs, pid)
                ==> exists|q: ProcView| #[trigger]
                follows(after, pid, q) && q.pkg == pkg && q.start_time == start_time
                    && !q.initial_scan_done && (forall|t: i32| !q.tids.contains(t)) && q.dirs.len()
                    == 0 && q.names.names.len() == 0 && q.names.since == now
        }),
{
    let after = tracker::entered(procs, pid, pkg, now, start_time);
    let fresh = tracker::fresh_proc(pid, start_time, pkg, now);
    lemma_found(procs, pid);
    lemma_without(procs, pid);
    if tracker::tracks(procs, pid) {
        let old_p = procs[tracker::proc_index(procs, pid)];
        if old_p.pkg != pkg {
            if tracker::reused(old_p.start_time, start_time) {
                lemma_pushed(tracker::without(procs, pid), fresh);
                assert(follows(after, pid, fresh));
                assert forall|x: ProcView| x.pid != pid implies (#[trigger] after.contains(x)
                    <==> procs.contains(x)) by {
                    assert(tracker::without(procs, pid).contains(x) <==> procs.contains(x));
                }
            } else {
                lemma_changed(procs, pid, ProcView { pkg, ..old_p });
            }
        }
        if follows(procs, pid, p) {
            lemma_place(procs, pid, p);
        }
    } else {
        lemma_pushed(procs, fresh);
        assert(follows(after, pid, fresh));
    }
    if follows(procs, pid, p) {
        lemma_place(procs, pid, p);
    }
}

// ---------------------------------------------------------------------
// Threads
// ---------------------------------------------------------------------

/// After a look at all its threads, just the threads that a process has now
/// are dealt with; the names of these are kept and those of others forgotten.
/// Nothing else of it changes, and no other process.
pub proof fn law_settling_takes_the_present_threads(
    procs: Seq<ProcView>,
    pid: i32,
    tids: Seq<i32>,
    p: ProcView,
    tid: i32,
    name: Seq<char>,
)
    requires
        listed_once(procs),
        follows(procs, pid, p),
    ensures
        ({
            let after = engine::settled(procs, pid, tids);
            &&& listed_once(after)
            &&& others_stay(procs, after, pid)
            &&& exists|q: ProcView| #[trigger]
                follows(after, pid, q) && q == (ProcView { tids: q.tids, names: q.names, ..p }) && (
                forall|t: i32| #[trigger] q.tids.contains(t) <==> tids.contains(t))
                    && q.names.since == p.names.since && (tids.contains(tid) && knows(
                    p.names,
                    tid,
                    name,
                ) ==> knows(q.names, tid, name)) && (tids.contains(tid) && nameless(p.names, tid)
                    ==> nameless(q.names, tid)) && (!tids.contains(tid) ==> nameless(q.names, tid))
        }),
{
    let after = engine::settled(procs, pid, tids);
    let set = tracker::tid_set(tids);
    let q = ProcView {
        tids: set,
        names: NamesView {
            names: tracker::names_of(p.names.names, set),
            since: p.names.since,
        },
        ..p
    };
    lemma_place(procs, pid, p);
    lemma_changed(procs, pid, q);
    assert forall|t: i32| #[trigger] set.contains(t) <==> tids.contains(t) by {
    }
    lemma_names_of(p.names.names, set, tid, name, p.names.since);
    assert(follows(after, pid, q));
}

proof fn lemma_names_of(
    names: Seq<(i32, Seq<char>)>,
    tids: Set<i32>,
    tid: i32,
    name: Seq<char>,
    since: i64,
)
    ensures
        ({
            let c = NamesView { names, since };
            let d = NamesView { names: tracker::names_of(names, tids), since };
            &&& tids.contains(tid) && knows(c, tid, name) ==> knows(d, tid, name)
            &&& nameless(c, tid) ==> nameless(d, tid)
            &&& !tids.contains(tid) ==> nameless(d, tid)
        }),
    decreases names.len(),
{
    if names.len() > 0 {
        let front = names.drop_last();
        let n = names.len() - 1;
        let c = NamesView { names, since };
        let fc = NamesView { names: front, since };
        let fd = NamesView { names: tracker::names_of(front, tids), since };
        let d = NamesView { names: tracker::names_of(names, tids), since };
        lemma_names_of(front, tids, tid, name, since);
        assert forall|i: int| 0 <= i < n implies #[trigger] front[i] == names[i] by {}
        assert forall|i: int| 0 <= i < n implies #[trigger] names[i] == front[i] by {}
        assert forall|i: int| 0 <= i < fd.names.len() implies #[trigger] d.names[i]
            == fd.names[i] by {}
        if nameless(c, tid) {
            assert forall|j: int| 0 <= j < front.len() implies (#[trigger] fc.names[j]).0
                != tid by {
                assert(c.names[j].0 != tid);
            }
            assert(c.names[n].0 != tid);
        }
        if tids.contains(tid) && knows(c, tid, name) {
            let i = choose|i: int|
                0 <= i < names.len() && #[trigger] c.names[i] == (tid, name) && forall|j: int|
                    0 <= j < i ==> (#[trigger] c.names[j]).0 != tid;
            if i < n {
                assert(fc.names[i] == (tid, name));
                assert(forall|j: int| 0 <= j < i ==> (#[trigger] fc.names[j]).0 != tid);
                assert(knows(fc, tid, name));
                let k = choose|k: int|
                    0 <= k < fd.names.len() && #[trigger] fd.names[k] == (tid, name) && forall|
                        j: int,
                    |
                        0 <= j < k ==> (#[trigger] fd.names[j]).0 != tid;
                assert(d.names[k] == (tid, name));
            } else {
                assert(nameless(fc, tid)) by {
                    assert forall|j: int| 0 <= j < front.len() implies (#[trigger] fc.names[j]).0
                        != tid by {
                        assert(c.names[j].0 != tid);
                    }
                }
                assert(nameless(fd, tid));
                assert(d.names[fd.names.len() as int] == (tid, name));
            }
        }
    }
}

/// A process uses the directories that it used before, and besides each named
/// directory that is noted, once. Nothing else of it changes, and no other
/// process.
pub proof fn law_directories_are_noted(
    procs: Seq<ProcView>,
    pid: i32,
    dirs: Seq<Seq<char>>,
    p: ProcView,
)
    requires
        listed_once(procs),
        follows(procs, pid, p),
        tracker::proper_dirs(p.dirs),
    ensures
        ({
            let after = engine::registered(procs, pid, dirs);
            &&& listed_once(after)
            &&& others_stay(procs, after, pid)
            &&& exists|q: ProcView| #[trigger]
                follows(after, pid, q) && q == (ProcView { dirs: q.dirs, ..p })
                    && tracker::proper_dirs(q.dirs) && (forall|d: Seq<char>| #[trigger]
                    q.dirs.contains(d) <==> p.dirs.contains(d) || (dirs.contains(d) && d.len() > 0))
        }),
{
    let after = engine::registered(procs, pid, dirs);
    let q = ProcView { dirs: tracker::dirs_with(p.dirs, dirs), ..p };
    lemma_place(procs, pid, p);
    lemma_changed(procs, pid, q);
    lemma_dirs(p.dirs, dirs);
    assert(follows(after, pid, q));
}

proof fn lemma_dirs(dirs: Seq<Seq<char>>, more: Seq<Seq<char>>)
    requires
        tracker::proper_dirs(dirs),
    ensures
        ({
            let all = tracker::dirs_with(dirs, more);
            &&& tracker::proper_dirs(all)
            &&& forall|d: Seq<char>| #[trigger]
                all.contains(d) <==> dirs.contains(d) || (more.contains(d) && d.len() > 0)
        }),
    decreases more.len(),
{
    let all = tracker::dirs_with(dirs, more);
    if more.len() > 0 {
        let front = more.drop_last();
        let before = tracker::dirs_with(dirs, front);
        let last = more.last();
        lemma_dirs(dirs, front);
        assert forall|d: Seq<char>| #[trigger] all.contains(d) <==> dirs.contains(d) || (
        more.contains(d) && d.len() > 0) by {
            if more.contains(d) {
                let i = choose|i: int| 0 <= i < more.len() && more[i] == d;
                if i < front.len() {
                    assert(front[i] == d);
                }
            }
            if front.contains(d) {
                let i = choose|i: int| 0 <= i < front.len() && front[i] == d;
                assert(more[i] == d);
            }
            assert(more[more.len() - 1] == last);
            if before.contains(d) {
                let i = choose|i: int| 0 <= i < before.len() && before[i] == d;
                assert(all[i] == d);
            }
            if d == last && last.len() > 0 && !before.contains(last) {
                assert(all[before.len() as int] == d);
            }
            if all.contains(d) {
                let i = choose|i: int| 0 <= i < all.len() && all[i] == d;
                if i < before.len() {
                    assert(before[i] == d);
                }
            }
        }
        assert forall|i: int, j: int| 0 <= i < j < all.len() implies all[i] != all[j] by {
            if j < before.len() {
                assert(before[i] != before[j]);
            } else {
                assert(before.contains(before[i]));
            }
        }
        assert forall|i: int| 0 <= i < all.len() implies (#[trigger] all[i]).len() > 0 by {
            if i < before.len() {
                assert(before[i].len() > 0);
            }
        }
    }
}

/// A thread that was looked at alone is dealt with, unless it is gone; a gone
/// thread changes nothing. The process then uses the directory of its policy,
/// unless there was none or it had no CPU to set. Only CPUs that are in force
/// count as applied.
pub proof fn law_one_thread_is_dealt_with(
    procs: Seq<ProcView>,
    pid: i32,
    tid: i32,
    result: Option<ThreadResult>,
    p: ProcView,
)
    requires
        listed_once(procs),
        follows(procs, pid, p),
        tracker::proper_dirs(p.dirs),
    ensures
        ({
            let after = engine::single_done(procs, pid, tid, result);
            let gone = result matches Some(x) && x.outcome == ApplyOutcome::Exited;
            let skipped = match result {
                Some(x) => x.outcome == ApplyOutcome::SkippedNoCpus,
                None => true,
            };
            &&& gone ==> after == procs
            &&& listed_once(after)
            &&& others_stay(procs, after, pid)
            &&& !gone ==> exists|q: ProcView| #[trigger]
                follows(after, pid, q) && q == (ProcView { tids: q.tids, dirs: q.dirs, ..p }) && (
                forall|t: i32| #[trigger]
                    q.tids.contains(t) <==> p.tids.contains(t) || t == tid) && (skipped ==> q.dirs
                    == p.dirs) && (!skipped ==> (result matches Some(x) && forall|d: Seq<char>|
                    #[trigger]
                    q.dirs.contains(d) <==> p.dirs.contains(d) || (d == x.dir@ && d.len() > 0)))
            &&& engine::single_count(result) == if (result matches Some(x) && (x.outcome
                == ApplyOutcome::Applied || x.outcome == ApplyOutcome::Downgraded)) {
                1int
            } else {
                0
            }
        }),
{
    let after = engine::single_done(procs, pid, tid, result);
    let mid = engine::noted(procs, pid, tid);
    let m = ProcView { tids: p.tids.insert(tid), ..p };
    lemma_place(procs, pid, p);
    lemma_changed(procs, pid, m);
    assert(follows(mid, pid, m));
    if let Some(x) = result {
        if x.outcome != ApplyOutcome::Exited && x.outcome != ApplyOutcome::SkippedNoCpus {
            let dirs = seq![x.dir@];
            let q = ProcView { dirs: tracker::dirs_with(m.dirs, dirs), ..m };
            lemma_place(mid, pid, m);
            lemma_changed(mid, pid, q);
            lemma_dirs(m.dirs, dirs);
            assert(dirs[0] == x.dir@);
            assert forall|d: Seq<char>| dirs.contains(d) <==> d == x.dir@ by {
                if dirs.contains(d) {
                    let i = choose|i: int| 0 <= i < dirs.len() && dirs[i] == d;
                    assert(i == 0);
                }
            }
            assert(follows(after, pid, q));
            assert forall|y: ProcView| y.pid != pid implies (#[trigger] after.contains(y)
                <==> procs.contains(y)) by {
                assert(mid.contains(y) <==> procs.contains(y));
            }
        }
    }
}

/// The end of a thread is forgotten, and policies that were applied to threads
/// are remembered, for that process alone.
pub proof fn law_threads_come_and_go(
    procs: Seq<ProcView>,
    pid: i32,
    tid: i32,
    tids: Seq<i32>,
    p: ProcView,
)
    requires
        listed_once(procs),
        follows(procs, pid, p),
    ensures
        ({
            let after = tracker::tid_gone(procs, pid, tid);
            &&& others_stay(procs, after, pid)
            &&& exists|q: ProcView| #[trigger]
                follows(after, pid, q) && q == (ProcView { tids: q.tids, ..p }) && forall|t: i32|
                #[trigger]
                    q.tids.contains(t) <==> p.tids.contains(t) && t != tid
        }),
        ({
            let after = tracker::tids_done(procs, pid, tids);
            &&& others_stay(procs, after, pid)
            &&& exists|q: ProcView| #[trigger]
                follows(after, pid, q) && q == (ProcView { tids: q.tids, ..p }) && forall|t: i32|
                #[trigger]
                    q.tids.contains(t) <==> p.tids.contains(t) || tids.contains(t)
        }),
{
    let a = ProcView { tids: p.tids.remove(tid), ..p };
    let b = ProcView { tids: p.tids.union(tracker::tid_set(tids)), ..p };
    lemma_place(procs, pid, p);
    lemma_changed(procs, pid, a);
    lemma_changed(procs, pid, b);
    assert(follows(tracker::tid_gone(procs, pid, tid), pid, a));
    assert(follows(tracker::tids_done(procs, pid, tids), pid, b));
    assert forall|t: i32| #[trigger] b.tids.contains(t) <==> p.tids.contains(t) || tids.contains(
        t,
    ) by {}
}

// ---------------------------------------------------------------------
// Names
// ---------------------------------------------------------------------

proof fn lemma_name_index(names: Seq<(i32, Seq<char>)>, tid: i32)
    ensures
        ({
            let i = tracker::name_index(names, tid);
            &&& 0 <= i <= names.len()
            &&& i < names.len() ==> names[i].0 == tid
            &&& forall|j: int| 0 <= j < i ==> (#[trigger] names[j]).0 != tid
        }),
    decreases names.len(),
{
    if names.len() > 0 && names[0].0 != tid {
        let rest = names.skip(1);
        lemma_name_index(rest, tid);
        let i = tracker::name_index(rest, tid);
        assert forall|j: int| 0 <= j < i + 1 implies (#[trigger] names[j]).0 != tid by {
            if j > 0 {
                assert(rest[j - 1] == names[j]);
            }
        }
        if i < rest.len() {
            assert(rest[i] == names[i + 1]);
        }
    }
}

proof fn lemma_name_in(c: NamesView, tid: i32, name: Seq<char>)
    ensures
        knows(c, tid, name) <==> tracker::name_in(c, tid) == Some(name),
        nameless(c, tid) <==> tracker::name_in(c, tid) is None,
{
    lemma_name_index(c.names, tid);
    let i = tracker::name_index(c.names, tid);
    if knows(c, tid, name) {
        let k = choose|k: int|
            0 <= k < c.names.len() && #[trigger] c.names[k] == (tid, name) && forall|j: int|
                0 <= j < k ==> (#[trigger] c.names[j]).0 != tid;
        if k < i {
            assert(c.names[k].0 != tid);
        }
    }
    if i < c.names.len() {
        assert(c.names[i] == (tid, c.names[i].1));
    }
}

/// The name of a thread is the one that is known, for a minute; then, and
/// where none is known, it is the one that was read, and empty where none
/// could be read. It is known from then on, and the names of other threads
/// stay as they are, unless the minute is over, when all are forgotten.
pub proof fn law_names_are_kept_for_a_minute(
    c: NamesView,
    tid: i32,
    now: i64,
    read: Option<Seq<char>>,
    name: Seq<char>,
    other: i32,
)
    ensures
        ({
            let given = tracker::name_given(c, tid, now, read);
            let after = tracker::names_after(c, tid, now, read);
            let old_now = now - c.since >= 60;
            &&& !old_now && knows(c, tid, name) ==> given == name && after == c
            &&& old_now || nameless(c, tid) ==> given == match read {
                Some(n) => n,
                None => Seq::<char>::empty(),
            }
            &&& knows(after, tid, given)
            &&& after.since == if old_now {
                now
            } else {
                c.since
            }
            &&& other != tid && !old_now ==> (knows(after, other, name) <==> knows(c, other, name))
            &&& other != tid && old_now ==> nameless(after, other)
        }),
{
    let at = tracker::names_at(c, now);
    let given = tracker::name_given(c, tid, now, read);
    let after = tracker::names_after(c, tid, now, read);
    lemma_name_in(c, tid, name);
    lemma_name_in(at, tid, name);
    lemma_name_in(at, tid, given);
    lemma_pushed_name(at, tid, tracker::name_read(read), other, name);
}

proof fn lemma_pushed_name(
    c: NamesView,
    tid: i32,
    given: Seq<char>,
    other: i32,
    name: Seq<char>,
)
    ensures
        ({
            let d = NamesView { names: c.names.push((tid, given)), since: c.since };
            &&& nameless(c, tid) ==> knows(d, tid, given)
            &&& other != tid ==> (knows(d, other, name) <==> knows(c, other, name))
            &&& other != tid ==> (nameless(d, other) <==> nameless(c, other))
        }),
{
    let d = NamesView { names: c.names.push((tid, given)), since: c.since };
    let n = c.names.len() as int;
    assert(d.names[n] == (tid, given));
    assert forall|i: int| 0 <= i < n implies #[trigger] c.names[i] == d.names[i] by {}
    assert forall|i: int| 0 <= i < n implies #[trigger] d.names[i] == c.names[i] by {}
    if other != tid {
        if knows(c, other, name) {
            let i = choose|i: int|
                0 <= i < c.names.len() && #[trigger] c.names[i] == (other, name) && forall|j: int|
                    0 <= j < i ==> (#[trigger] c.names[j]).0 != other;
            assert(d.names[i] == (other, name));
        }
        if knows(d, other, name) {
            let i = choose|i: int|
                0 <= i < d.names.len() && #[trigger] d.names[i] == (other, name) && forall|j: int|
                    0 <= j < i ==> (#[trigger] d.names[j]).0 != other;
            assert(c.names[i] == (other, name));
        }
    }
}

/// The name by which rules are chosen for a thread is the one that is known
/// of it, and empty where none is known or names do not matter. A name that
/// was read and taken in is that name from then on; one that is known stays.
pub proof fn law_rules_go_by_the_name_that_was_read(
    procs: Seq<ProcView>,
    pid: i32,
    tid: i32,
    read: Option<Seq<char>>,
    p: ProcView,
    name: Seq<char>,
)
    requires
        listed_once(procs),
        follows(procs, pid, p),
    ensures
        knows(p.names, tid, name) ==> engine::chosen_name(procs, pid, tid, true) == name,
        nameless(p.names, tid) ==> engine::chosen_name(procs, pid, tid, true).len() == 0,
        engine::chosen_name(procs, pid, tid, false).len() == 0,
        ({
            let after = tracker::named(procs, pid, tid, read);
            &&& others_stay(procs, after, pid)
            &&& knows(p.names, tid, name) ==> after == procs
            &&& nameless(p.names, tid) ==> engine::chosen_name(after, pid, tid, true) == match read {
                Some(n) => n,
                None => Seq::<char>::empty(),
            }
        }),
{
    let after = tracker::named(procs, pid, tid, read);
    lemma_place(procs, pid, p);
    lemma_name_in(p.names, tid, name);
    if nameless(p.names, tid) {
        let given = tracker::name_read(read);
        let names = NamesView { names: p.names.names.push((tid, given)), since: p.names.since };
        let q = ProcView { names, ..p };
        lemma_changed(procs, pid, q);
        lemma_place(after, pid, q);
        lemma_pushed_name(p.names, tid, given, tid, given);
        lemma_name_in(names, tid, given);
    }
}

/// Of the threads of a process, just those without a name that is still young
/// enough are to be read, in their order.
pub proof fn law_only_nameless_threads_are_read(tids: Seq<i32>, c: NamesView, tid: i32)
    ensures
        engine::unnamed(tids, c).contains(tid) <==> tids.contains(tid) && nameless(c, tid),
    decreases tids.len(),
{
    lemma_name_in(c, tid, Seq::empty());
    if tids.len() > 0 {
        let front = tids.drop_last();
        let before = engine::unnamed(front, c);
        let all = engine::unnamed(tids, c);
        law_only_nameless_threads_are_read(front, c, tid);
        assert(tids =~= front.push(tids.last()));
        if before.contains(tid) {
            let i = choose|i: int| 0 <= i < before.len() && before[i] == tid;
            assert(all[i] == tid);
        }
        if front.contains(tid) {
            let i = choose|i: int| 0 <= i < front.len() && front[i] == tid;
            assert(tids[i] == tid);
        }
        if tids.contains(tid) {
            let i = choose|i: int| 0 <= i < tids.len() && tids[i] == tid;
            if i < front.len() {
                assert(front[i] == tid);
            } else if nameless(c, tid) {
                assert(all[before.len() as int] == tid);
            }
        }
        if all.contains(tid) {
            let i = choose|i: int| 0 <= i < all.len() && all[i] == tid;
            if i < before.len() {
                assert(before[i] == tid);
            } else {
                assert(tids[tids.len() - 1] == tid);
            }
        }
    } else {
        assert(engine::unnamed(tids, c) =~= Seq::<i32>::empty());
    }
}

/// The names that are looked at in a scan are dropped just when they are a
/// minute old; nothing else changes.
pub proof fn law_old_names_are_dropped(procs: Seq<ProcView>, pid: i32, now: i64, p: ProcView)
    requires
        listed_once(procs),
        follows(procs, pid, p),
    ensures
        ({
            let after = engine::with_fresh_names(procs, pid, now);
            &&& others_stay(procs, after, pid)
            &&& now - p.names.since < 60 ==> follows(after, pid, p)
            &&& now - p.names.since >= 60 ==> exists|q: ProcView| #[trigger]
                follows(after, pid, q) && q == (ProcView { names: q.names, ..p })
                    && q.names.names.len() == 0 && q.names.since == now
        }),
{
    let after = engine::with_fresh_names(procs, pid, now);
    let q = ProcView { names: tracker::names_at(p.names, now), ..p };
    lemma_place(procs, pid, p);
    lemma_changed(procs, pid, q);
    assert(follows(after, pid, q));
}

/// A look at the threads of a process takes the package that was seen. Where
/// rules go by names, it reads the name of each present thread that is not
/// known or was read a minute ago; where they do not, it reads none and drops
/// none.
pub proof fn law_scans_read_the_names_that_are_missing(
    procs: Seq<ProcView>,
    pid: i32,
    pkg: Seq<char>,
    now: i64,
    start_time: u64,
    by_name: bool,
    tids: Seq<i32>,
    tid: i32,
    p: ProcView,
)
    requires
        listed_once(procs),
        follows(tracker::entered(procs, pid, pkg, now, start_time), pid, p),
    ensures
        ({
            let after = engine::scan_begun(procs, pid, pkg, now, start_time, by_name);
            let wanted = engine::names_wanted(after, pid, by_name, tids);
            let stale = now - p.names.since >= 60;
            &&& p.pkg == pkg
            &&& others_stay(procs, after, pid)
            &&& wanted.contains(tid) <==> by_name && tids.contains(tid) && (stale || nameless(
                p.names,
                tid,
            ))
            &&& !by_name || !stale ==> follows(after, pid, p)
            &&& by_name && stale ==> exists|q: ProcView| #[trigger]
                follows(after, pid, q) && q == (ProcView { names: q.names, ..p })
                    && q.names.names.len() == 0 && q.names.since == now
        }),
{
    let entered = tracker::entered(procs, pid, pkg, now, start_time);
    let after = engine::scan_begun(procs, pid, pkg, now, start_time, by_name);
    law_seen_processes_are_followed(procs, pid, pkg, now, start_time, p);
    lemma_found(procs, pid);
    if tracker::tracks(procs, pid) {
        let old_p = procs[tracker::proc_index(procs, pid)];
        assert(follows(procs, pid, old_p));
        law_seen_processes_are_followed(procs, pid, pkg, now, start_time, old_p);
        lemma_place(procs, pid, old_p);
    } else {
        assert(ignores(procs, pid));
    }
    assert forall|a: ProcView, b: ProcView|
        #[trigger] follows(entered, pid, a) && #[trigger] follows(entered, pid, b) implies a
        == b by {
        lemma_place(entered, pid, a);
        lemma_place(entered, pid, b);
    }
    assert(p.pkg == pkg);
    lemma_place(entered, pid, p);
    if by_name {
        let q = ProcView { names: tracker::names_at(p.names, now), ..p };
        law_old_names_are_dropped(entered, pid, now, p);
        lemma_changed(entered, pid, q);
        assert(follows(after, pid, q));
        lemma_place(after, pid, q);
        law_only_nameless_threads_are_read(tids, q.names, tid);
    }
}

/// When a look at the threads of a process ends, all present threads have been
/// dealt with, and the process uses, besides what it used, the directories of
/// the threads that were there and had a CPU to set.
pub proof fn law_scans_end_with_all_threads(
    procs: Seq<ProcView>,
    pid: i32,
    tids: Seq<i32>,
    results: Seq<ThreadResult>,
    p: ProcView,
)
    requires
        listed_once(procs),
        follows(procs, pid, p),
        tracker::proper_dirs(p.dirs),
    ensures
        ({
            let after = engine::scan_ended(procs, pid, tids, results);
            &&& listed_once(after)
            &&& others_stay(procs, after, pid)
            &&& exists|q: ProcView| #[trigger]
                follows(after, pid, q) && q.pkg == p.pkg && q.start_time == p.start_time
                    && q.initial_scan_done == p.initial_scan_done && (forall|t: i32| #[trigger]
                    q.tids.contains(t) <==> tids.contains(t)) && (forall|d: Seq<char>| #[trigger]
                    q.dirs.contains(d) <==> p.dirs.contains(d) || (d.len() > 0 && exists|i: int|
                        0 <= i < results.len() && (#[trigger] results[i]).dir@ == d
                            && results[i].outcome != ApplyOutcome::Exited && results[i].outcome
                            != ApplyOutcome::SkippedNoCpus))
        }),
{
    let mid = engine::settled(procs, pid, tids);
    let dirs = engine::used_dirs(results);
    let after = engine::scan_ended(procs, pid, tids, results);
    law_settling_takes_the_present_threads(procs, pid, tids, p, 0, Seq::empty());
    let m = choose|q: ProcView| #[trigger]
        follows(mid, pid, q) && q == (ProcView { tids: q.tids, names: q.names, ..p }) && (forall|
            t: i32,
        | #[trigger]
            q.tids.contains(t) <==> tids.contains(t));
    law_directories_are_noted(mid, pid, dirs, m);
    let q = choose|q: ProcView| #[trigger]
        follows(after, pid, q) && q == (ProcView { dirs: q.dirs, ..m }) && tracker::proper_dirs(
            q.dirs,
        ) && (forall|d: Seq<char>| #[trigger]
            q.dirs.contains(d) <==> m.dirs.contains(d) || (dirs.contains(d) && d.len() > 0));
    assert forall|d: Seq<char>| #[trigger]
        q.dirs.contains(d) <==> p.dirs.contains(d) || (d.len() > 0 && exists|i: int|
            0 <= i < results.len() && (#[trigger] results[i]).dir@ == d && results[i].outcome
                != ApplyOutcome::Exited && results[i].outcome != ApplyOutcome::SkippedNoCpus) by {
        if results.len() > 0 {
            law_results_are_summed_up(results, results[0], d);
        } else {
            assert(dirs =~= Seq::<Seq<char>>::empty());
        }
    }
    assert(follows(after, pid, q));
}

/// A thread that was dealt with is left alone. The name of another is read
/// just when rules go by names and it is not known or was read a minute ago.
pub proof fn law_known_threads_are_left_alone(p: ProcView, tid: i32, now: i64, by_name: bool)
    ensures
        ({
            let (done, ask) = engine::single_asked(p, tid, now, by_name);
            &&& done <==> p.tids.contains(tid)
            &&& ask <==> by_name && !p.tids.contains(tid) && (now - p.names.since >= 60
                || nameless(p.names, tid))
        }),
{
    lemma_name_in(p.names, tid, Seq::empty());
    lemma_name_in(tracker::names_at(p.names, now), tid, Seq::empty());
}

/// The package is read for a process or thread that came up, where the event
/// does not bring it; not for one that moved or went.
pub proof fn law_which_events_need_a_package(kind: EventKind)
    ensures
        !engine::pkg_needed(kind, true),
        engine::pkg_needed(kind, false) <==> kind == EventKind::Fork || kind == EventKind::Exec
            || kind == EventKind::ThreadClone,
{
}

/// The package that comes with an event goes before the one that is read of
/// the process; where neither is there, it is empty.
pub proof fn law_events_bring_their_package(
    pkg: Seq<char>,
    given: Option<Seq<char>>,
    read: Option<Seq<char>>,
)
    ensures
        engine::pkg_for(Some(pkg), read) == pkg,
        engine::pkg_for(None, Some(pkg)) == pkg,
        given is None && read is None ==> engine::pkg_for(given, read).len() == 0,
{
}

// ---------------------------------------------------------------------
// Housekeeping
// ---------------------------------------------------------------------

/// Processes that are gone are no longer followed, and all others stay as they
/// are; those that were followed are counted, each once.
pub proof fn law_the_dead_are_dropped(procs: Seq<ProcView>, pids: Seq<i32>, p: ProcView)
    requires
        listed_once(procs),
    ensures
        ({
            let after = engine::without_all(procs, pids);
            &&& listed_once(after)
            &&& after.contains(p) <==> procs.contains(p) && !pids.contains(p.pid)
            &&& engine::dropped_count(procs, pids) == procs.len() - after.len()
        }),
    decreases pids.len(),
{
    if pids.len() > 0 {
        let front = pids.drop_last();
        let mid = engine::without_all(procs, front);
        let last = pids.last();
        let after = engine::without_all(procs, pids);
        law_the_dead_are_dropped(procs, front, p);
        lemma_without(mid, last);
        lemma_found(mid, last);
        tracker::lemma_proc_index(mid, last);
        assert(pids[pids.len() - 1] == last);
        if pids.contains(p.pid) {
            let i = choose|i: int| 0 <= i < pids.len() && pids[i] == p.pid;
            if i < front.len() {
                assert(front[i] == p.pid);
            }
        }
        if front.contains(p.pid) {
            let i = choose|i: int| 0 <= i < front.len() && front[i] == p.pid;
            assert(pids[i] == p.pid);
        }
        if p.pid == last && after.contains(p) {
            let i = choose|i: int| 0 <= i < after.len() && after[i] == p;
            assert(after[i].pid != last);
        }
        if p.pid != last {
            assert(after.contains(p) <==> mid.contains(p));
        }
    }
}

/// Just the processes whose packages are in the list stay, as they are and in
/// their order.
pub proof fn law_only_listed_packages_stay(
    procs: Seq<ProcView>,
    pkgs: Seq<Seq<char>>,
    p: ProcView,
)
    ensures
        tracker::only_of(procs, pkgs).contains(p) <==> procs.contains(p) && pkgs.contains(p.pkg),
        (forall|i: int| 0 <= i < procs.len() ==> pkgs.contains((#[trigger] procs[i]).pkg))
            ==> tracker::only_of(procs, pkgs) == procs,
    decreases procs.len(),
{
    let all = tracker::only_of(procs, pkgs);
    if procs.len() > 0 {
        let front = procs.drop_last();
        let before = tracker::only_of(front, pkgs);
        law_only_listed_packages_stay(front, pkgs, p);
        if before.contains(p) {
            let i = choose|i: int| 0 <= i < before.len() && before[i] == p;
            assert(all[i] == p);
        }
        if procs.contains(p) {
            let i = choose|i: int| 0 <= i < procs.len() && procs[i] == p;
            if i < front.len() {
                assert(front[i] == p);
            } else if pkgs.contains(p.pkg) {
                assert(all[before.len() as int] == p);
            }
        }
        if front.contains(p) {
            let i = choose|i: int| 0 <= i < front.len() && front[i] == p;
            assert(procs[i] == p);
        }
        if all.contains(p) {
            let i = choose|i: int| 0 <= i < all.len() && all[i] == p;
            if i < before.len() {
                assert(before[i] == p);
            } else {
                assert(procs[procs.len() - 1] == p);
            }
        }
        if forall|i: int| 0 <= i < procs.len() ==> pkgs.contains((#[trigger] procs[i]).pkg) {
            assert forall|i: int| 0 <= i < front.len() implies pkgs.contains(
                (#[trigger] front[i]).pkg,
            ) by {
                assert(front[i] == procs[i]);
            }
            assert(pkgs.contains(procs[procs.len() - 1].pkg));
            assert(all =~= procs);
        }
    } else {
        assert(all =~= procs);
    }
}

proof fn lemma_in_use(procs: Seq<ProcView>, d: Seq<char>)
    ensures
        tracker::users(procs, d) > 0 <==> in_use(procs, d),
    decreases procs.len(),
{
    if procs.len() > 0 {
        let front = procs.drop_last();
        lemma_in_use(front, d);
        if in_use(front, d) {
            let i = choose|i: int| 0 <= i < front.len() && (#[trigger] front[i]).dirs.contains(d);
            assert(procs[i].dirs.contains(d));
        }
        if in_use(procs, d) {
            let i = choose|i: int| 0 <= i < procs.len() && (#[trigger] procs[i]).dirs.contains(d);
            if i < front.len() {
                assert(front[i].dirs.contains(d));
            }
        }
        if procs.last().dirs.contains(d) {
            assert(procs[procs.len() - 1].dirs.contains(d));
        }
    }
}

/// The directories to remove are just those that a process used before and
/// none uses any more.
pub proof fn law_unused_directories_are_removed(
    before: Seq<ProcView>,
    after: Seq<ProcView>,
    freed: Seq<Seq<char>>,
    d: Seq<char>,
)
    requires
        tracker::same_dirs(freed, tracker::fell_free(before, after)),
    ensures
        freed.contains(d) <==> in_use(before, d) && !in_use(after, d),
        freed.no_duplicates(),
{
    lemma_in_use(before, d);
    lemma_in_use(after, d);
    assert(freed.contains(d) <==> tracker::fell_free(before, after)(d));
}

/// The number that is kept for a directory is that of the processes which use
/// it: one more process that uses it adds one.
pub proof fn law_uses_are_counted(procs: Seq<ProcView>, p: ProcView, d: Seq<char>)
    ensures
        tracker::users(Seq::empty(), d) == 0,
        tracker::users(procs.push(p), d) == tracker::users(procs, d) + if p.dirs.contains(d) {
            1int
        } else {
            0
        },
{
    tally::lemma_tally_push(procs, tracker::uses_dir(d), p);
}

/// The directories that a look at all threads used are those of the policies
/// of threads that were there and had a CPU to set, each once. A policy counts
/// as applied just when its CPUs, or some of them, are in force.
pub proof fn law_results_are_summed_up(results: Seq<ThreadResult>, x: ThreadResult, d: Seq<char>)
    ensures
        engine::used_dirs(results).contains(d) <==> exists|i: int|
            0 <= i < results.len() && (#[trigger] results[i]).dir@ == d && results[i].outcome
                != ApplyOutcome::Exited && results[i].outcome != ApplyOutcome::SkippedNoCpus,
        engine::used_dirs(results).no_duplicates(),
        tally::tally(results.push(x), engine::applied_weight()) == tally::tally(
            results,
            engine::applied_weight(),
        ) + if x.outcome == ApplyOutcome::Applied || x.outcome == ApplyOutcome::Downgraded {
            1int
        } else {
            0
        },
        tally::tally(Seq::<ThreadResult>::empty(), engine::applied_weight()) == 0,
    decreases results.len(),
{
    tally::lemma_tally_push(results, engine::applied_weight(), x);
    let all = engine::used_dirs(results);
    if results.len() > 0 {
        let front = results.drop_last();
        let n = results.len() - 1;
        let before = engine::used_dirs(front);
        law_results_are_summed_up(front, x, d);
        assert forall|i: int| 0 <= i < n implies #[trigger] front[i] == results[i] by {}
        assert(results[n] == results.last());
        if before.contains(d) {
            let i = choose|i: int| 0 <= i < before.len() && before[i] == d;
            assert(all[i] == d);
            let k = choose|k: int|
                0 <= k < front.len() && (#[trigger] front[k]).dir@ == d && front[k].outcome
                    != ApplyOutcome::Exited && front[k].outcome != ApplyOutcome::SkippedNoCpus;
            assert(results[k].dir@ == d);
        }
        if exists|i: int|
            0 <= i < results.len() && (#[trigger] results[i]).dir@ == d && results[i].outcome
                != ApplyOutcome::Exited && results[i].outcome != ApplyOutcome::SkippedNoCpus {
            let i = choose|i: int|
                0 <= i < results.len() && (#[trigger] results[i]).dir@ == d && results[i].outcome
                    != ApplyOutcome::Exited && results[i].outcome != ApplyOutcome::SkippedNoCpus;
            if i < n {
                assert(front[i].dir@ == d);
            } else if !before.contains(d) {
                assert(all[before.len() as int] == d);
            }
        }
        if all.contains(d) && !before.contains(d) {
            let i = choose|i: int| 0 <= i < all.len() && all[i] == d;
            if i < before.len() {
                assert(before[i] == d);
            } else {
                assert(results[n].dir@ == d);
            }
        }
        assert forall|i: int, j: int| 0 <= i < all.len() && 0 <= j < all.len() && i
            != j implies all[i] != all[j] by {
            if i < before.len() && j < before.len() {
                assert(before[i] != before[j]);
            } else if i < before.len() {
                assert(before.contains(before[i]));
            } else {
                assert(before.contains(before[j]));
            }
        }
    } else {
        assert(all =~= Seq::<Seq<char>>::empty());
    }
}

} // verus!
