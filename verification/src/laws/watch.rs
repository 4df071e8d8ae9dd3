//! What is reported of processes, and what waits.

use vstd::prelude::*;

use crate::ebpf_filter;
use crate::ebpf_filter::{DedupEntry, EbpfProcEvent};
use crate::ebpf_source;
use crate::ebpf_source::ForkReading;
use crate::event::{EventKind, ProcessEvent};
use crate::laws::follow;
use crate::laws::resolve;
use crate::pending;
use crate::pending::Pending;
use crate::proc_source;
use crate::proc_source::{ProcReading, ProcSource};
use crate::ruleset::RuleSet;
use crate::text;
use crate::tracker;
use crate::tracker::ProcView;

verus! {

// ---------------------------------------------------------------------
// What the laws speak of
// ---------------------------------------------------------------------

/// Whether there is a name.
pub open spec fn has_name(pkg: Option<String>) -> bool {
    pkg matches Some(p) && p@.len() > 0
}

/// Whether a rule applies to a package: one names it, or has a pattern that
/// matches it.
pub open spec fn ruled(rules: RuleSet, pkg: Option<String>, hits: Seq<String>) -> bool {
    pkg matches Some(p) && exists|k: int|
        0 <= k < rules@.len() && ((#[trigger] rules@[k]).pkg == p@ && resolve::literal(p@)
            || resolve::caught(rules@, k, p@, text::strings(hits)))
}

/// Whether one of the events is this one.
pub open spec fn told(
    events: Seq<ProcessEvent>,
    pid: i32,
    tid: i32,
    kind: EventKind,
    pkg: Option<String>,
) -> bool {
    exists|i: int| 0 <= i < events.len() && is_event(#[trigger] events[i], pid, tid, kind, pkg)
}

/// Whether an event is this one.
pub open spec fn is_event(
    e: ProcessEvent,
    pid: i32,
    tid: i32,
    kind: EventKind,
    pkg: Option<String>,
) -> bool {
    e.pid == pid && e.tid == tid && e.kind == kind && e.pkg == pkg && e.cpu is None
}

/// Whether a round looks at the whole table: it was asked to, or the number of
/// processes is unknown or rose by more than five since it was last known.
pub open spec fn whole(s: ProcSource, total: i32) -> bool {
    s.scan_all || total == -1 || (s.last_proc_total >= 0 && total - s.last_proc_total > 5)
}

proof fn lemma_ruled(rules: RuleSet, r: ProcReading)
    requires
        rules@.len() <= usize::MAX,
    ensures
        proc_source::interesting(rules, r) <==> ruled(rules, r.pkg, r.hits@),
        proc_source::named(r) <==> has_name(r.pkg),
{
    if let Some(p) = r.pkg {
        resolve::law_interest_needs_a_rule(rules@, p@, text::strings(r.hits@));
    }
}

proof fn lemma_told(a: Seq<ProcessEvent>, b: Seq<ProcessEvent>)
    requires
        forall|i: int| 0 <= i < a.len() ==> i < b.len() && #[trigger] a[i] == b[i],
    ensures
        forall|pid: i32, tid: i32, kind: EventKind, pkg: Option<String>|
            told(a, pid, tid, kind, pkg) ==> #[trigger] told(b, pid, tid, kind, pkg),
{
    assert forall|pid: i32, tid: i32, kind: EventKind, pkg: Option<String>|
        told(a, pid, tid, kind, pkg) implies #[trigger] told(b, pid, tid, kind, pkg) by {
        let i = choose|i: int|
            0 <= i < a.len() && is_event(#[trigger] a[i], pid, tid, kind, pkg);
        assert(is_event(b[i], pid, tid, kind, pkg));
    }
}

// ---------------------------------------------------------------------
// Waiting
// ---------------------------------------------------------------------

/// A process that still has no name is looked at again after 100, 300 and then
/// 1000 milliseconds, and given up after that.
pub proof fn law_waiting_grows_longer(p: Pending, now: u64)
    requires
        now + 1000 <= u64::MAX,
    ensures
        p.retries >= 3 ==> pending::retried(p, now) is None,
        p.retries < 3 ==> (pending::retried(p, now) matches Some(q) && q.pid == p.pid && q.retries
            == p.retries + 1 && q.next == now + if p.retries == 0 {
            100int
        } else if p.retries == 1 {
            300
        } else {
            1000
        }),
{
}

/// A process that is to wait does, from now on and once, while there is room.
pub proof fn law_queues_hold_each_process_once(
    q: Seq<Pending>,
    pid: i32,
    now: u64,
    max: usize,
    other: Pending,
)
    ensures
        ({
            let r = pending::queued(q, pid, now, max);
            let waits = exists|i: int| 0 <= i < q.len() && (#[trigger] q[i]).pid == pid;
            &&& waits || q.len() >= max ==> r == q
            &&& !waits && q.len() < max ==> r.len() == q.len() + 1 && r.last().pid == pid
                && r.last().next == now && r.last().retries == 0
            &&& q.contains(other) ==> r.contains(other)
            &&& r.contains(other) && other.pid != pid ==> q.contains(other)
        }),
{
    let r = pending::queued(q, pid, now, max);
    if q.contains(other) {
        let i = choose|i: int| 0 <= i < q.len() && q[i] == other;
        assert(r[i] == other);
    }
    if r.contains(other) && other.pid != pid {
        let i = choose|i: int| 0 <= i < r.len() && r[i] == other;
        assert(q[i] == other);
    }
}

/// The moment to wake is the deadline, or that at which the first of the
/// waiting processes wants to be looked at, whichever comes first.
pub proof fn law_who_wakes_first(q: Seq<Pending>, deadline: u64)
    ensures
        pending::wake_time(q, deadline) == deadline || exists|i: int|
            0 <= i < q.len() && (#[trigger] q[i]).next == pending::wake_time(q, deadline),
        pending::wake_time(q, deadline) <= deadline,
        forall|i: int|
            0 <= i < q.len() ==> pending::wake_time(q, deadline) <= (#[trigger] q[i]).next,
{
    lemma_first(q);
}

proof fn lemma_first(q: Seq<Pending>)
    ensures
        match pending::earliest(q) {
            Some(t) => {
                &&& exists|i: int| 0 <= i < q.len() && (#[trigger] q[i]).next == t
                &&& forall|i: int| 0 <= i < q.len() ==> t <= (#[trigger] q[i]).next
            },
            None => q.len() == 0,
        },
    decreases q.len(),
{
    if q.len() > 0 {
        let front = q.drop_last();
        lemma_first(front);
        assert forall|i: int| 0 <= i < front.len() implies front[i] == #[trigger] q[i] by {}
        assert(q[q.len() - 1] == q.last());
        if let Some(t) = pending::earliest(front) {
            let i = choose|i: int| 0 <= i < front.len() && (#[trigger] front[i]).next == t;
            assert(q[i].next == t);
        }
    }
}

// ---------------------------------------------------------------------
// Rounds of the process table
// ---------------------------------------------------------------------

/// A round looks at the whole table when it was asked to, when the number of
/// processes is unknown, and when it rose by more than five.
pub proof fn law_when_the_whole_table_is_read(s: ProcSource, total: i32)
    ensures
        proc_source::need_full(s, total) <==> whole(s, total),
{
}

proof fn lemma_flushed(
    q: Seq<Pending>,
    rs: Seq<ProcReading>,
    rules: RuleSet,
    now: u64,
    n: int,
    i: int,
)
    requires
        rules@.len() <= usize::MAX,
        0 <= i < n <= q.len(),
        q.len() == rs.len(),
    ensures
        ({
            let f = proc_source::flushed(q, rs, rules, now, n);
            &&& q[i].next <= now && rs[i].alive && has_name(rs[i].pkg) && ruled(
                rules,
                rs[i].pkg,
                rs[i].hits@,
            ) ==> told(f.events, q[i].pid, q[i].pid, EventKind::Fork, rs[i].pkg)
            &&& now < q[i].next ==> f.pending.contains(q[i])
            &&& q[i].next <= now && rs[i].alive && !has_name(rs[i].pkg) ==> (pending::retried(
                q[i],
                now,
            ) matches Some(p) ==> f.pending.contains(p))
        }),
    decreases n,
{
    let before = proc_source::flushed(q, rs, rules, now, n - 1);
    let f = proc_source::flushed(q, rs, rules, now, n);
    lemma_ruled(rules, rs[i]);
    lemma_ruled(rules, rs[n - 1]);
    assert forall|k: int| 0 <= k < before.events.len() implies k < f.events.len()
        && #[trigger] before.events[k] == f.events[k] by {}
    lemma_told(before.events, f.events);
    assert forall|p: Pending| before.pending.contains(p) implies #[trigger] f.pending.contains(
        p,
    ) by {
        let k = choose|k: int| 0 <= k < before.pending.len() && before.pending[k] == p;
        assert(f.pending[k] == p);
    }
    if i < n - 1 {
        lemma_flushed(q, rs, rules, now, n - 1, i);
    } else {
        if q[i].next <= now && rs[i].alive && has_name(rs[i].pkg) && ruled(
            rules,
            rs[i].pkg,
            rs[i].hits@,
        ) {
            assert(is_event(f.events.last(), q[i].pid, q[i].pid, EventKind::Fork, rs[i].pkg));
            assert(f.events[f.events.len() - 1] == f.events.last());
        }
        if now < q[i].next {
            assert(f.pending[f.pending.len() - 1] == q[i]);
        }
        if q[i].next <= now && rs[i].alive && !has_name(rs[i].pkg) {
            if let Some(p) = pending::retried(q[i], now) {
                assert(f.pending[f.pending.len() - 1] == p);
            }
        }
    }
}

/// A waiting process whose time has come is reported as new once it has a name
/// and a rule applies to it. One whose time has not come waits on as it is,
/// and one that lives and still has no name waits longer.
pub proof fn law_waiting_processes_are_looked_at(
    s: ProcSource,
    procs: Seq<ProcView>,
    rules: RuleSet,
    now: u64,
    total: i32,
    waiting: Seq<ProcReading>,
    listing: Option<Seq<ProcReading>>,
    i: int,
)
    requires
        rules@.len() <= usize::MAX,
        waiting.len() == s.pending@.len(),
        0 <= i < waiting.len(),
    ensures
        ({
            let f = proc_source::found(s, procs, rules, now, total, waiting, listing);
            let p = s.pending@[i];
            let r = waiting[i];
            &&& p.next <= now && r.alive && has_name(r.pkg) && ruled(rules, r.pkg, r.hits@)
                ==> told(f.events, p.pid, p.pid, EventKind::Fork, r.pkg)
            &&& now < p.next ==> f.pending.contains(p)
            &&& p.next <= now && r.alive && !has_name(r.pkg) ==> (pending::retried(
                p,
                now,
            ) matches Some(again) ==> f.pending.contains(again))
        }),
{
    let n = s.pending@.len() as int;
    lemma_flushed(s.pending@, waiting, rules, now, n, i);
    let f = proc_source::flushed(s.pending@, waiting, rules, now, n);
    if let Some(rs) = listing {
        let full = proc_source::need_full(s, total);
        let g = proc_source::looked(f, full, procs, rules, rs, now);
        lemma_looked_grows(f, full, procs, rules, rs, now);
        let all = proc_source::found(s, procs, rules, now, total, waiting, listing).events;
        assert forall|k: int| 0 <= k < f.events.len() implies k < all.len()
            && #[trigger] f.events[k] == all[k] by {
            assert(g.events[k] == f.events[k]);
        }
        lemma_told(f.events, all);
    }
}

proof fn lemma_looked_grows(
    f: proc_source::Found,
    full: bool,
    procs: Seq<ProcView>,
    rules: RuleSet,
    rs: Seq<ProcReading>,
    now: u64,
)
    ensures
        ({
            let g = proc_source::looked(f, full, procs, rules, rs, now);
            &&& g.events.len() >= f.events.len()
            &&& forall|k: int| 0 <= k < f.events.len() ==> #[trigger] g.events[k] == f.events[k]
            &&& forall|p: Pending| #[trigger]
                g.pending.contains(p) || !f.pending.contains(p)
        }),
    decreases rs.len(),
{
    if rs.len() > 0 {
        let before = proc_source::looked(f, full, procs, rules, rs.drop_last(), now);
        let g = proc_source::looked(f, full, procs, rules, rs, now);
        lemma_looked_grows(f, full, procs, rules, rs.drop_last(), now);
        assert forall|k: int| 0 <= k < f.events.len() implies #[trigger] g.events[k]
            == f.events[k] by {
            assert(before.events[k] == f.events[k]);
        }
        assert forall|p: Pending| #[trigger] g.pending.contains(p) || !f.pending.contains(p) by {
            if f.pending.contains(p) {
                assert(before.pending.contains(p));
                let k = choose|k: int| 0 <= k < before.pending.len() && before.pending[k] == p;
                assert(g.pending[k] == p);
            }
        }
    }
}

proof fn lemma_looked(
    f: proc_source::Found,
    full: bool,
    procs: Seq<ProcView>,
    rules: RuleSet,
    rs: Seq<ProcReading>,
    now: u64,
    i: int,
    p: ProcView,
    tid: i32,
)
    requires
        rules@.len() <= usize::MAX,
        0 <= i < rs.len(),
        follow::listed_once(procs),
    ensures
        ({
            let g = proc_source::looked(f, full, procs, rules, rs, now);
            let r = rs[i];
            &&& full || r.alive ==> g.current.contains(r.pid)
            &&& full && has_name(r.pkg) && ruled(rules, r.pkg, r.hits@) && follow::ignores(
                procs,
                r.pid,
            ) ==> told(g.events, r.pid, r.pid, EventKind::Fork, r.pkg)
            &&& (full || r.alive) && has_name(r.pkg) && ruled(rules, r.pkg, r.hits@)
                && follow::follows(procs, r.pid, p) && p.initial_scan_done && p.tids.len() > 0
                && r.tids@.contains(tid) && !p.tids.contains(tid) ==> told(
                g.events,
                r.pid,
                tid,
                EventKind::ThreadClone,
                r.pkg,
            )
        }),
    decreases rs.len(),
{
    let front = rs.drop_last();
    let before = proc_source::looked(f, full, procs, rules, front, now);
    let g = proc_source::looked(f, full, procs, rules, rs, now);
    let r = rs[i];
    lemma_ruled(rules, r);
    lemma_ruled(rules, rs.last());
    assert forall|k: int| 0 <= k < before.events.len() implies k < g.events.len()
        && #[trigger] before.events[k] == g.events[k] by {}
    lemma_told(before.events, g.events);
    if i < front.len() {
        assert(front[i] == r);
        lemma_looked(f, full, procs, rules, front, now, i, p, tid);
    } else {
        follow::lemma_found(procs, r.pid);
        if full && has_name(r.pkg) && ruled(rules, r.pkg, r.hits@) && follow::ignores(
            procs,
            r.pid,
        ) {
            assert(is_event(g.events.last(), r.pid, r.pid, EventKind::Fork, r.pkg));
            assert(g.events[g.events.len() - 1] == g.events.last());
        }
        if (full || r.alive) && has_name(r.pkg) && ruled(rules, r.pkg, r.hits@)
            && follow::follows(procs, r.pid, p) && p.initial_scan_done && p.tids.len() > 0
            && r.tids@.contains(tid) && !p.tids.contains(tid) {
            follow::lemma_place(procs, r.pid, p);
            let fresh = proc_source::new_threads(procs, r);
            proc_source::law_new_threads_are_found(p, r.tids@);
            assert(fresh.contains(tid));
            let k = choose|k: int| 0 <= k < fresh.len() && fresh[k] == tid;
            assert(is_event(
                g.events[before.events.len() + k],
                r.pid,
                tid,
                EventKind::ThreadClone,
                r.pkg,
            ));
        }
    }
}

/// What a round reports of the processes that it was given: each that rules
/// apply to and that is not followed as new, where the whole table is looked
/// at; each new thread of one that is followed and was looked at before; and
/// no end of one that is there.
pub proof fn law_rounds_report_what_is_there(
    s: ProcSource,
    procs: Seq<ProcView>,
    rules: RuleSet,
    now: u64,
    total: i32,
    waiting: Seq<ProcReading>,
    rs: Seq<ProcReading>,
    i: int,
    p: ProcView,
    tid: i32,
)
    requires
        rules@.len() <= usize::MAX,
        0 <= i < rs.len(),
        follow::listed_once(procs),
    ensures
        ({
            let events = proc_source::found(
                s,
                procs,
                rules,
                now,
                total,
                waiting,
                Some(rs),
            ).events;
            let r = rs[i];
            let full = whole(s, total);
            &&& full && has_name(r.pkg) && ruled(rules, r.pkg, r.hits@) && follow::ignores(
                procs,
                r.pid,
            ) ==> told(events, r.pid, r.pid, EventKind::Fork, r.pkg)
            &&& (full || r.alive) && has_name(r.pkg) && ruled(rules, r.pkg, r.hits@)
                && follow::follows(procs, r.pid, p) && p.initial_scan_done && p.tids.len() > 0
                && r.tids@.contains(tid) && !p.tids.contains(tid) ==> told(
                events,
                r.pid,
                tid,
                EventKind::ThreadClone,
                r.pkg,
            )
        }),
{
    let n = s.pending@.len() as int;
    let f = proc_source::flushed(s.pending@, waiting, rules, now, n);
    let full = proc_source::need_full(s, total);
    let g = proc_source::looked(f, full, procs, rules, rs, now);
    let events = proc_source::found(s, procs, rules, now, total, waiting, Some(rs)).events;
    lemma_looked(f, full, procs, rules, rs, now, i, p, tid);
    assert forall|k: int| 0 <= k < g.events.len() implies k < events.len() && #[trigger] g.events[k]
        == events[k] by {}
    lemma_told(g.events, events);
}

/// Whether a process is seen in a round.
pub open spec fn seen(rs: Seq<ProcReading>, full: bool, pid: i32) -> bool {
    exists|i: int| 0 <= i < rs.len() && (#[trigger] rs[i]).pid == pid && (full || rs[i].alive)
}

proof fn lemma_current(
    f: proc_source::Found,
    full: bool,
    procs: Seq<ProcView>,
    rules: RuleSet,
    rs: Seq<ProcReading>,
    now: u64,
    pid: i32,
)
    ensures
        proc_source::looked(f, full, procs, rules, rs, now).current.contains(pid)
            <==> f.current.contains(pid) || seen(rs, full, pid),
    decreases rs.len(),
{
    if rs.len() > 0 {
        let front = rs.drop_last();
        lemma_current(f, full, procs, rules, front, now, pid);
        if seen(front, full, pid) {
            let i = choose|i: int|
                0 <= i < front.len() && (#[trigger] front[i]).pid == pid && (full
                    || front[i].alive);
            assert(rs[i].pid == pid && (full || rs[i].alive));
        }
        if seen(rs, full, pid) {
            let i = choose|i: int|
                0 <= i < rs.len() && (#[trigger] rs[i]).pid == pid && (full || rs[i].alive);
            if i < front.len() {
                assert(front[i].pid == pid && (full || front[i].alive));
            }
        }
        if rs.last().pid == pid && (full || rs.last().alive) {
            assert(rs[rs.len() - 1].pid == pid);
        }
    }
}

proof fn lemma_flushed_current(
    q: Seq<Pending>,
    rs: Seq<ProcReading>,
    rules: RuleSet,
    now: u64,
    n: int,
    e: ProcessEvent,
)
    ensures
        ({
            let f = proc_source::flushed(q, rs, rules, now, n);
            &&& f.current == Set::<i32>::empty()
            &&& f.events.contains(e) ==> e.kind != EventKind::Exit
        }),
    decreases n,
{
    if n > 0 {
        lemma_flushed_current(q, rs, rules, now, n - 1, e);
        let before = proc_source::flushed(q, rs, rules, now, n - 1);
        let f = proc_source::flushed(q, rs, rules, now, n);
        if f.events.contains(e) {
            let k = choose|k: int| 0 <= k < f.events.len() && f.events[k] == e;
            if k < before.events.len() {
                assert(before.events[k] == e);
            }
        }
    }
}

proof fn lemma_looked_ends(
    f: proc_source::Found,
    full: bool,
    procs: Seq<ProcView>,
    rules: RuleSet,
    rs: Seq<ProcReading>,
    now: u64,
    e: ProcessEvent,
)
    requires
        f.events.contains(e) ==> e.kind != EventKind::Exit,
    ensures
        proc_source::looked(f, full, procs, rules, rs, now).events.contains(e) ==> e.kind
            != EventKind::Exit,
    decreases rs.len(),
{
    if rs.len() > 0 {
        let before = proc_source::looked(f, full, procs, rules, rs.drop_last(), now);
        let g = proc_source::looked(f, full, procs, rules, rs, now);
        lemma_looked_ends(f, full, procs, rules, rs.drop_last(), now, e);
        if g.events.contains(e) {
            let k = choose|k: int| 0 <= k < g.events.len() && g.events[k] == e;
            if k < before.events.len() {
                assert(before.events[k] == e);
            }
        }
    }
}

/// The end of a process is reported just when it is followed and was not seen
/// in a round that could read the table: not listed, or listed as dead where
/// only the processes that are followed were looked at. A round that could
/// not read the table reports no end.
pub proof fn law_rounds_report_who_is_gone(
    s: ProcSource,
    procs: Seq<ProcView>,
    rules: RuleSet,
    now: u64,
    total: i32,
    waiting: Seq<ProcReading>,
    listing: Option<Seq<ProcReading>>,
    pid: i32,
)
    ensures
        ({
            let events = proc_source::found(
                s,
                procs,
                rules,
                now,
                total,
                waiting,
                listing,
            ).events;
            let ended = exists|i: int|
                0 <= i < events.len() && (#[trigger] events[i]).pid == pid && events[i].kind
                    == EventKind::Exit;
            match listing {
                Some(rs) => ended <==> !follow::ignores(procs, pid) && !seen(
                    rs,
                    whole(s, total),
                    pid,
                ),
                None => !ended,
            }
        }),
{
    let n = s.pending@.len() as int;
    let f = proc_source::flushed(s.pending@, waiting, rules, now, n);
    let events = proc_source::found(s, procs, rules, now, total, waiting, listing).events;
    match listing {
        Some(rs) => {
            let full = proc_source::need_full(s, total);
            let g = proc_source::looked(f, full, procs, rules, rs, now);
            let tail = proc_source::exits(procs, g.current);
            let end = ProcessEvent::plain(pid, pid, EventKind::Exit);
            lemma_flushed_current(s.pending@, waiting, rules, now, n, end);
            lemma_current(f, full, procs, rules, rs, now, pid);
            proc_source::law_gone_processes_exit(procs, g.current, pid);
            if !follow::ignores(procs, pid) && !seen(rs, full, pid) {
                assert(tail.contains(end));
                let k = choose|k: int| 0 <= k < tail.len() && tail[k] == end;
                assert(events[g.events.len() + k].pid == pid);
            }
            if exists|i: int|
                0 <= i < events.len() && (#[trigger] events[i]).pid == pid && events[i].kind
                    == EventKind::Exit {
                let i = choose|i: int|
                    0 <= i < events.len() && (#[trigger] events[i]).pid == pid && events[i].kind
                        == EventKind::Exit;
                if i < g.events.len() {
                    let e = g.events[i];
                    assert(g.events.contains(e));
                    lemma_flushed_current(s.pending@, waiting, rules, now, n, e);
                    lemma_looked_ends(f, full, procs, rules, rs, now, e);
                } else {
                    lemma_exits(procs, g.current, i - g.events.len());
                    assert(tail[i - g.events.len()] == end);
                    assert(tail.contains(end));
                }
            }
        },
        None => {
            if exists|i: int|
                0 <= i < events.len() && (#[trigger] events[i]).pid == pid && events[i].kind
                    == EventKind::Exit {
                let i = choose|i: int|
                    0 <= i < events.len() && (#[trigger] events[i]).pid == pid && events[i].kind
                        == EventKind::Exit;
                lemma_flushed_current(s.pending@, waiting, rules, now, n, events[i]);
                assert(f.events.contains(events[i]));
            }
        },
    }
}

proof fn lemma_exits(procs: Seq<ProcView>, current: Set<i32>, k: int)
    requires
        0 <= k < proc_source::exits(procs, current).len(),
    ensures
        ({
            let e = proc_source::exits(procs, current)[k];
            e == ProcessEvent::plain(e.pid, e.pid, EventKind::Exit)
        }),
    decreases procs.len(),
{
    let before = proc_source::exits(procs.drop_last(), current);
    if k < before.len() {
        lemma_exits(procs.drop_last(), current, k);
    }
}

/// Whether an event is about a process that was read, and that rules apply to.
pub open spec fn warranted(e: ProcessEvent, rs: Seq<ProcReading>, rules: RuleSet) -> bool {
    exists|i: int|
        0 <= i < rs.len() && (#[trigger] rs[i]).pkg == e.pkg && ruled(rules, rs[i].pkg, rs[i].hits@)
}

proof fn lemma_flushed_warranted(
    q: Seq<Pending>,
    rs: Seq<ProcReading>,
    rules: RuleSet,
    now: u64,
    n: int,
    e: ProcessEvent,
)
    requires
        rules@.len() <= usize::MAX,
        0 <= n <= q.len(),
        q.len() == rs.len(),
    ensures
        proc_source::flushed(q, rs, rules, now, n).events.contains(e) ==> warranted(e, rs, rules)
            && e.kind == EventKind::Fork,
    decreases n,
{
    if n > 0 {
        let before = proc_source::flushed(q, rs, rules, now, n - 1);
        let f = proc_source::flushed(q, rs, rules, now, n);
        lemma_flushed_warranted(q, rs, rules, now, n - 1, e);
        lemma_ruled(rules, rs[n - 1]);
        if f.events.contains(e) {
            let k = choose|k: int| 0 <= k < f.events.len() && f.events[k] == e;
            if k < before.events.len() {
                assert(before.events[k] == e);
            } else {
                assert(rs[n - 1].pkg == e.pkg);
            }
        }
    }
}

proof fn lemma_looked_warranted(
    f: proc_source::Found,
    full: bool,
    procs: Seq<ProcView>,
    rules: RuleSet,
    rs: Seq<ProcReading>,
    now: u64,
    e: ProcessEvent,
)
    requires
        rules@.len() <= usize::MAX,
        follow::listed_once(procs),
    ensures
        proc_source::looked(f, full, procs, rules, rs, now).events.contains(e)
            ==> f.events.contains(e) || (warranted(e, rs, rules) && {
            ||| full && e.kind == EventKind::Fork && follow::ignores(procs, e.pid)
            ||| e.kind == EventKind::ThreadClone && exists|p: ProcView| #[trigger]
                follow::follows(procs, e.pid, p) && !p.tids.contains(e.tid)
        }),
    decreases rs.len(),
{
    if rs.len() > 0 {
        let front = rs.drop_last();
        let r = rs.last();
        let before = proc_source::looked(f, full, procs, rules, front, now);
        let g = proc_source::looked(f, full, procs, rules, rs, now);
        lemma_looked_warranted(f, full, procs, rules, front, now, e);
        lemma_ruled(rules, r);
        follow::lemma_found(procs, r.pid);
        if warranted(e, front, rules) {
            let i = choose|i: int|
                0 <= i < front.len() && (#[trigger] front[i]).pkg == e.pkg && ruled(
                    rules,
                    front[i].pkg,
                    front[i].hits@,
                );
            assert(rs[i].pkg == e.pkg);
        }
        if g.events.contains(e) {
            let k = choose|k: int| 0 <= k < g.events.len() && g.events[k] == e;
            if k < before.events.len() {
                assert(before.events[k] == e);
                assert(before.events.contains(e));
            } else {
                assert(rs[rs.len() - 1] == r);
                assert(rs[rs.len() - 1].pkg == e.pkg);
                assert(warranted(e, rs, rules));
                if tracker::tracks(procs, r.pid) {
                    let p = procs[tracker::proc_index(procs, r.pid)];
                    let fresh = proc_source::new_threads(procs, r);
                    let m = k - before.events.len();
                    assert(e.tid == fresh[m]);
                    if p.tids.len() > 0 && p.initial_scan_done {
                        proc_source::law_new_threads_are_found(p, r.tids@);
                        assert(fresh.contains(e.tid));
                    }
                    assert(follow::follows(procs, e.pid, p));
                }
            }
        }
    }
}

/// Nothing is reported as new of a process that no rule applies to, nor of a
/// process that is followed already, nor of a thread that is dealt with.
pub proof fn law_only_ruled_processes_are_reported(
    s: ProcSource,
    procs: Seq<ProcView>,
    rules: RuleSet,
    now: u64,
    total: i32,
    waiting: Seq<ProcReading>,
    rs: Seq<ProcReading>,
    e: ProcessEvent,
)
    requires
        rules@.len() <= usize::MAX,
        waiting.len() == s.pending@.len(),
        follow::listed_once(procs),
        proc_source::found(s, procs, rules, now, total, waiting, Some(rs)).events.contains(e),
    ensures
        e.kind == EventKind::Exit || (e.kind == EventKind::Fork && warranted(e, waiting, rules)) || (
        warranted(e, rs, rules) && {
            ||| e.kind == EventKind::Fork && follow::ignores(procs, e.pid)
            ||| e.kind == EventKind::ThreadClone && exists|p: ProcView| #[trigger]
                follow::follows(procs, e.pid, p) && !p.tids.contains(e.tid)
        }),
{
    let n = s.pending@.len() as int;
    let f = proc_source::flushed(s.pending@, waiting, rules, now, n);
    let full = proc_source::need_full(s, total);
    let g = proc_source::looked(f, full, procs, rules, rs, now);
    let tail = proc_source::exits(procs, g.current);
    let events = proc_source::found(s, procs, rules, now, total, waiting, Some(rs)).events;
    let k = choose|k: int| 0 <= k < events.len() && events[k] == e;
    lemma_flushed_warranted(s.pending@, waiting, rules, now, n, e);
    lemma_looked_warranted(f, full, procs, rules, rs, now, e);
    if k < g.events.len() {
        assert(g.events[k] == e);
        assert(g.events.contains(e));
    } else {
        lemma_exits(procs, g.current, k - g.events.len());
    }
}

/// A process of the table that has no name yet and is not followed waits for
/// one, unless 64 wait already.
pub proof fn law_nameless_processes_wait(
    f: proc_source::Found,
    procs: Seq<ProcView>,
    rules: RuleSet,
    rs: Seq<ProcReading>,
    now: u64,
    i: int,
)
    requires
        0 <= i < rs.len(),
        !has_name(rs[i].pkg),
        follow::ignores(procs, rs[i].pid),
    ensures
        ({
            let q = proc_source::looked(f, true, procs, rules, rs, now).pending;
            q.len() >= 64 || exists|k: int| 0 <= k < q.len() && (#[trigger] q[k]).pid == rs[i].pid
        }),
    decreases rs.len(),
{
    let front = rs.drop_last();
    let before = proc_source::looked(f, true, procs, rules, front, now);
    let q = proc_source::looked(f, true, procs, rules, rs, now).pending;
    assert forall|k: int| 0 <= k < before.pending.len() implies k < q.len()
        && #[trigger] before.pending[k] == q[k] by {}
    if i < front.len() {
        assert(front[i] == rs[i]);
        law_nameless_processes_wait(f, procs, rules, front, now, i);
        if before.pending.len() < 64 {
            let k = choose|k: int|
                0 <= k < before.pending.len() && (#[trigger] before.pending[k]).pid == rs[i].pid;
            assert(q[k].pid == rs[i].pid);
        }
    } else {
        follow::lemma_found(procs, rs[i].pid);
        assert(!proc_source::named(rs[i]));
        if before.pending.len() < 64 {
            if pending::waits(before.pending, rs[i].pid) {
                let k = choose|k: int|
                    0 <= k < before.pending.len() && (#[trigger] before.pending[k]).pid
                        == rs[i].pid;
                assert(q[k].pid == rs[i].pid);
            } else {
                assert(q[q.len() - 1].pid == rs[i].pid);
            }
        }
    }
}

/// The number of processes is that of the entries that are numbers.
pub proof fn law_processes_are_numbers(names: Seq<String>, more: String)
    ensures
        proc_source::digit_names(Seq::empty()) == 0,
        proc_source::digit_names(names.push(more)) == proc_source::digit_names(names) + if forall|
            i: int,
        |
            0 <= i < more@.len() ==> '0' <= #[trigger] more@[i] && more@[i] <= '9' {
            1int
        } else {
            0
        },
{
    assert(names.push(more).drop_last() =~= names);
    if forall|i: int| 0 <= i < more@.len() ==> '0' <= #[trigger] more@[i] && more@[i] <= '9' {
        assert forall|i: int| 0 <= i < more@.len() implies text::is_digit(#[trigger] more@[i]) by {}
    } else {
        let i = choose|i: int|
            0 <= i < more@.len() && !('0' <= #[trigger] more@[i] && more@[i] <= '9');
        assert(!text::is_digit(more@[i]));
    }
}

// ---------------------------------------------------------------------
// Reports of the kernel
// ---------------------------------------------------------------------

/// A name passes the filter just when eight bytes in a row of it are those of
/// a target.
pub proof fn law_names_pass_by_eight_bytes(comm: Seq<u8>, targets: Seq<[u8; 8]>)
    requires
        comm.len() == 16,
    ensures
        ebpf_filter::name_passes(comm, targets) <==> exists|i: int, pos: int|
            0 <= i < targets.len() && 0 <= pos <= 8 && #[trigger] fits(comm, targets[i]@, pos),
{
    if ebpf_filter::name_passes(comm, targets) {
        let pos = choose|pos: int|
            0 <= pos <= 8 && ebpf_filter::holds_key(
                targets,
                #[trigger] ebpf_filter::key_at(comm, pos),
            );
        let key = ebpf_filter::key_at(comm, pos);
        let i = choose|i: int| 0 <= i < targets.len() && (#[trigger] targets[i])@ == key;
        assert forall|k: int| 0 <= k < 8 implies #[trigger] targets[i]@[k] == comm[pos + k] by {
            assert(key[k] == comm[pos + k]);
        }
        assert(fits(comm, targets[i]@, pos));
    }
    if exists|i: int, pos: int|
        0 <= i < targets.len() && 0 <= pos <= 8 && #[trigger] fits(comm, targets[i]@, pos) {
        let (i, pos) = choose|i: int, pos: int|
            0 <= i < targets.len() && 0 <= pos <= 8 && #[trigger] fits(comm, targets[i]@, pos);
        assert(ebpf_filter::key_at(comm, pos) =~= targets[i]@);
        assert(ebpf_filter::holds_key(targets, ebpf_filter::key_at(comm, pos)));
    }
}

/// A process of a package passes the filter under the name that the kernel
/// keeps for it: the first fifteen bytes of the package, or the last fifteen
/// where it is longer, filled up with zeros.
pub proof fn law_packages_pass_the_filter(
    targets: Seq<[u8; 8]>,
    pkgs: Seq<String>,
    i: int,
    comm: Seq<u8>,
    start: int,
)
    requires
        forall|k: Seq<u8>| #[trigger]
            ebpf_filter::holds_key(targets, k) <==> ebpf_source::is_key(pkgs, k),
        0 <= i < pkgs.len(),
        comm.len() == 16,
        ({
            let b = vstd::utf8::encode_utf8(pkgs[i]@);
            &&& b.len() > 0
            &&& start == 0 || (b.len() > 15 && start == b.len() - 15)
            &&& forall|k: int|
                0 <= k < 15 ==> #[trigger] comm[k] == if start + k < b.len() {
                    b[start + k]
                } else {
                    0u8
                }
        }),
    ensures
        ebpf_filter::name_passes(comm, targets),
{
    let b = vstd::utf8::encode_utf8(pkgs[i]@);
    let pos: int = if start == 0 {
        0
    } else {
        7
    };
    let key = ebpf_filter::key_at(comm, pos);
    assert forall|k: int| 0 <= k < 8 implies #[trigger] key[k] == comm[pos + k] by {}
    if start == 0 {
        assert(key =~= ebpf_source::first_key(b));
    } else {
        assert(key =~= b.skip(b.len() - 8));
    }
    assert(ebpf_source::gives_key(pkgs[i]@, key));
    assert(ebpf_source::is_key(pkgs, key));
    assert(ebpf_filter::holds_key(targets, key));
}

/// The highest byte of a signed number.
pub open spec fn top(b: u8) -> int {
    if b < 128 {
        b as int
    } else {
        b - 256
    }
}

/// A report holds the process, the thread and the child, each in four bytes
/// with the lowest first, then sixteen bytes of the name, then the kind.
pub proof fn law_reports_are_read_where_they_stand(b: Seq<u8>, e: EbpfProcEvent, k: int)
    requires
        b.len() >= 32,
        ebpf_source::decodes(b, e),
    ensures
        e.pid == b[0] + 256 * b[1] + 65536 * b[2] + 16777216 * top(b[3]),
        e.tid == b[4] + 256 * b[5] + 65536 * b[6] + 16777216 * top(b[7]),
        e.child_pid == b[8] + 256 * b[9] + 65536 * b[10] + 16777216 * top(b[11]),
        e.event_type == b[28] + 256 * b[29] + 65536 * b[30] + 16777216 * b[31],
        0 <= k < 16 ==> e.comm@[k] == b[12 + k],
{
    if 0 <= k < 16 {
        assert(b.subrange(12, 28)[k] == b[12 + k]);
    }
}

/// Whether eight bytes stand in a name at a place.
pub open spec fn fits(comm: Seq<u8>, key: Seq<u8>, pos: int) -> bool {
    key.len() == 8 && forall|k: int| 0 <= k < 8 ==> #[trigger] key[k] == comm[pos + k]
}

/// A report is one too many when two were counted less than a tenth of a
/// second ago. Otherwise it is counted: with those before it, where the window
/// is still open, or as the first of a new one.
pub proof fn law_reports_are_counted_by_window(e: DedupEntry, now_ns: u64)
    requires
        e.last_ns <= now_ns,
        e.count < u32::MAX,
    ensures
        ({
            let open = now_ns - e.last_ns < 100_000_000;
            let next = ebpf_filter::remembered(Some(e), now_ns);
            &&& ebpf_filter::too_many(Some(e), now_ns) <==> open && e.count >= 2
            &&& open ==> next.last_ns == e.last_ns && next.count == e.count + 1
            &&& !open ==> next.last_ns == now_ns && next.count == 1
        }),
        !ebpf_filter::too_many(None, now_ns),
        ebpf_filter::remembered(None, now_ns).count == 1,
{
}

/// The end of a task is always reported; anything else just when its name
/// passes and it is not one too many. What is counted for a fork is the child.
pub proof fn law_what_is_reported(
    ev: EbpfProcEvent,
    targets: Seq<[u8; 8]>,
    prev: Option<DedupEntry>,
    now_ns: u64,
)
    ensures
        ev.event_type == 3 ==> ebpf_filter::reported(ev, targets, prev, now_ns),
        ev.event_type != 3 ==> (ebpf_filter::reported(ev, targets, prev, now_ns) <==> (exists|
            i: int,
            pos: int,
        |
            0 <= i < targets.len() && 0 <= pos <= 8 && #[trigger] fits(ev.comm@, targets[i]@, pos))
            && !ebpf_filter::too_many(prev, now_ns)),
        ebpf_filter::dedup_key(ev) == if ev.event_type == 1 {
            ev.child_pid
        } else {
            ev.pid
        },
{
    law_names_pass_by_eight_bytes(ev.comm@, targets);
}

/// A number is read from its four bytes, the lowest first, and the upper half
/// of the numbers as negative ones.
pub proof fn law_numbers_are_read_lowest_byte_first(b: Seq<u8>, pos: int, n: int)
    requires
        0 <= pos,
        pos + 4 <= b.len(),
        0 <= n < 0x1_0000_0000,
        b[pos] == n % 256,
        b[pos + 1] == n / 256 % 256,
        b[pos + 2] == n / 65536 % 256,
        b[pos + 3] == n / 16777216,
    ensures
        ebpf_source::word_at(b, pos) == n,
        n < 0x8000_0000 ==> ebpf_source::as_signed(n) == n,
        n >= 0x8000_0000 ==> ebpf_source::as_signed(n) == n - 0x1_0000_0000,
{
}

/// A new image is reported at once, and the end of a task of a process that is
/// followed. A fork waits for its name, unless it was reported before. A
/// process is taken off the kernel's table when it ends itself.
pub proof fn law_what_a_report_leads_to(
    ev: EbpfProcEvent,
    procs: Seq<ProcView>,
    q: Seq<Pending>,
    scanned: Set<i32>,
    now: u64,
)
    ensures
        ({
            let event = ebpf_source::raw_event(ev, procs);
            let after = ebpf_source::raw_pending(ev, q, scanned, now);
            let waits = exists|i: int| 0 <= i < q.len() && (#[trigger] q[i]).pid == ev.pid;
            &&& ev.event_type == 2 ==> (event matches Some(e) && is_event(
                e,
                ev.pid,
                ev.pid,
                EventKind::Exec,
                None,
            ))
            &&& ev.event_type == 3 && !follow::ignores(procs, ev.pid) ==> (event matches Some(e)
                && is_event(e, ev.pid, ev.tid, EventKind::Exit, None))
            &&& ev.event_type == 3 && follow::ignores(procs, ev.pid) ==> event is None
            &&& ev.event_type != 2 && ev.event_type != 3 ==> event is None
            &&& ev.event_type == 1 && !scanned.contains(ev.pid) && !waits && q.len() < 128
                ==> after.len() == q.len() + 1 && after.last() == (Pending {
                pid: ev.pid,
                retries: 0,
                next: now,
            })
            &&& ev.event_type != 1 || scanned.contains(ev.pid) || waits || q.len() >= 128
                ==> after == q
            &&& ebpf_source::raw_forget(ev) == if ev.event_type == 3 && ev.tid == ev.pid {
                Some(ev.pid)
            } else {
                None
            }
        }),
{
    follow::lemma_found(procs, ev.pid);
}

/// A fork whose time has come and that has a name is a new process where it
/// belongs to itself, and a new thread of the process it belongs to
/// otherwise; it is reported, and that process put on the kernel's table,
/// where a rule applies to the package of that process. One whose time has
/// not come waits on, and one that lives and has no name waits longer.
pub proof fn law_forks_are_processes_or_threads(
    q: Seq<Pending>,
    rs: Seq<ForkReading>,
    rules: RuleSet,
    now: u64,
    n: int,
    i: int,
)
    requires
        rules@.len() <= usize::MAX,
        0 <= i < n <= q.len(),
        q.len() == rs.len(),
    ensures
        ({
            let f = ebpf_source::flushed(q, rs, rules, now, n);
            let p = q[i];
            let r = rs[i];
            let owner = match r.tgid {
                Some(t) => t,
                None => p.pid,
            };
            let due = p.next <= now && r.alive && has_name(r.pkg);
            &&& due && owner == p.pid && ruled(rules, r.pkg, r.hits@) ==> told(
                f.events,
                p.pid,
                p.pid,
                EventKind::Fork,
                r.pkg,
            ) && f.follow.contains(p.pid)
            &&& due && owner != p.pid && ruled(rules, r.owner, r.owner_hits@) ==> told(
                f.events,
                owner,
                p.pid,
                EventKind::ThreadClone,
                r.owner,
            ) && f.follow.contains(owner)
            &&& now < p.next ==> f.pending.contains(p)
            &&& p.next <= now && r.alive && !has_name(r.pkg) ==> (pending::retried(
                p,
                now,
            ) matches Some(again) ==> f.pending.contains(again))
        }),
    decreases n,
{
    let before = ebpf_source::flushed(q, rs, rules, now, n - 1);
    let f = ebpf_source::flushed(q, rs, rules, now, n);
    assert forall|k: int| 0 <= k < before.events.len() implies k < f.events.len()
        && #[trigger] before.events[k] == f.events[k] by {}
    lemma_told(before.events, f.events);
    assert forall|p: Pending| before.pending.contains(p) implies #[trigger] f.pending.contains(
        p,
    ) by {
        let k = choose|k: int| 0 <= k < before.pending.len() && before.pending[k] == p;
        assert(f.pending[k] == p);
    }
    assert forall|x: i32| before.follow.contains(x) implies #[trigger] f.follow.contains(x) by {
        let k = choose|k: int| 0 <= k < before.follow.len() && before.follow[k] == x;
        assert(f.follow[k] == x);
    }
    if i < n - 1 {
        law_forks_are_processes_or_threads(q, rs, rules, now, n - 1, i);
    } else {
        let p = q[i];
        let r = rs[i];
        let owner = ebpf_source::owner_of(p, r);
        lemma_applies(rules, r.pkg, r.hits@);
        lemma_applies(rules, r.owner, r.owner_hits@);
        let last = f.events.len() - 1;
        if p.next <= now && r.alive && has_name(r.pkg) {
            if owner == p.pid && ruled(rules, r.pkg, r.hits@) {
                assert(is_event(f.events[last], p.pid, p.pid, EventKind::Fork, r.pkg));
                assert(f.follow[f.follow.len() - 1] == p.pid);
            }
            if owner != p.pid && ruled(rules, r.owner, r.owner_hits@) {
                assert(is_event(f.events[last], owner, p.pid, EventKind::ThreadClone, r.owner));
                assert(f.follow[f.follow.len() - 1] == owner);
            }
        }
        if now < p.next {
            assert(f.pending[f.pending.len() - 1] == p);
        }
        if p.next <= now && r.alive && !has_name(r.pkg) {
            if let Some(again) = pending::retried(p, now) {
                assert(f.pending[f.pending.len() - 1] == again);
            }
        }
    }
}

proof fn lemma_applies(rules: RuleSet, pkg: Option<String>, hits: Seq<String>)
    requires
        rules@.len() <= usize::MAX,
    ensures
        ebpf_source::applies(rules, pkg, hits) <==> ruled(rules, pkg, hits),
{
    if let Some(p) = pkg {
        resolve::law_interest_needs_a_rule(rules@, p@, text::strings(hits));
    }
}

/// Nothing is reported of a fork but that of a process or thread that rules
/// apply to, and whose time had come.
pub proof fn law_only_ruled_forks_are_reported(
    q: Seq<Pending>,
    rs: Seq<ForkReading>,
    rules: RuleSet,
    now: u64,
    n: int,
    e: ProcessEvent,
)
    requires
        rules@.len() <= usize::MAX,
        0 <= n <= q.len(),
        q.len() == rs.len(),
        ebpf_source::flushed(q, rs, rules, now, n).events.contains(e),
    ensures
        exists|i: int|
            0 <= i < n && (#[trigger] q[i]).next <= now && rs[i].alive && e.tid == q[i].pid && (
            ruled(rules, rs[i].pkg, rs[i].hits@) || ruled(rules, rs[i].owner, rs[i].owner_hits@)),
    decreases n,
{
    if n > 0 {
        let before = ebpf_source::flushed(q, rs, rules, now, n - 1);
        let f = ebpf_source::flushed(q, rs, rules, now, n);
        let k = choose|k: int| 0 <= k < f.events.len() && f.events[k] == e;
        lemma_applies(rules, rs[n - 1].pkg, rs[n - 1].hits@);
        lemma_applies(rules, rs[n - 1].owner, rs[n - 1].owner_hits@);
        if k < before.events.len() {
            assert(before.events[k] == e);
            law_only_ruled_forks_are_reported(q, rs, rules, now, n - 1, e);
        } else {
            assert(q[n - 1].next <= now);
        }
    }
}

/// The first look reports just the processes that have a name and that rules
/// apply to.
pub proof fn law_first_look_reports_the_ruled(
    rules: RuleSet,
    rs: Seq<ProcReading>,
    i: int,
    e: ProcessEvent,
)
    requires
        rules@.len() <= usize::MAX,
    ensures
        0 <= i < rs.len() && has_name(rs[i].pkg) && ruled(rules, rs[i].pkg, rs[i].hits@) ==> told(
            ebpf_source::first_look(rules, rs),
            rs[i].pid,
            rs[i].pid,
            EventKind::Fork,
            rs[i].pkg,
        ),
        ebpf_source::first_look(rules, rs).contains(e) ==> exists|k: int|
            0 <= k < rs.len() && is_event(
                e,
                (#[trigger] rs[k]).pid,
                rs[k].pid,
                EventKind::Fork,
                rs[k].pkg,
            ) && has_name(rs[k].pkg) && ruled(rules, rs[k].pkg, rs[k].hits@),
    decreases rs.len(),
{
    let all = ebpf_source::first_look(rules, rs);
    if rs.len() > 0 {
        let front = rs.drop_last();
        let n = rs.len() - 1;
        let before = ebpf_source::first_look(rules, front);
        law_first_look_reports_the_ruled(rules, front, i, e);
        lemma_ruled(rules, rs[n]);
        assert forall|k: int| 0 <= k < before.len() implies k < all.len() && #[trigger] before[k]
            == all[k] by {}
        lemma_told(before, all);
        if 0 <= i < rs.len() && has_name(rs[i].pkg) && ruled(rules, rs[i].pkg, rs[i].hits@) {
            if i < n {
                assert(front[i] == rs[i]);
            } else {
                assert(is_event(
                    all[all.len() - 1],
                    rs[i].pid,
                    rs[i].pid,
                    EventKind::Fork,
                    rs[i].pkg,
                ));
            }
        }
        if all.contains(e) {
            let k = choose|k: int| 0 <= k < all.len() && all[k] == e;
            if k < before.len() {
                assert(before[k] == e);
                let m = choose|m: int|
                    0 <= m < front.len() && is_event(
                        e,
                        (#[trigger] front[m]).pid,
                        front[m].pid,
                        EventKind::Fork,
                        front[m].pkg,
                    ) && has_name(front[m].pkg) && ruled(rules, front[m].pkg, front[m].hits@);
                assert(rs[m] == front[m]);
            } else {
                assert(rs[n] == rs.last());
            }
        }
    }
}

} // verus!
