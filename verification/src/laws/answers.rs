//! What the answers to requests show.

use vstd::prelude::*;

use crate::audit::AuditSummary;
use crate::engine::RelockStats;
use crate::ipc;
use crate::ipc::{ReloadDone, SceneOutcome, TuneTarget};
use crate::laws::follow;
use crate::observe;
use crate::observe::RecordView;
use crate::text;
use crate::topology;
use crate::topology::CpuSet;
use crate::tracker::ProcView;

verus! {

/// Whether a part stands somewhere in a text.
pub open spec fn shows(t: Seq<char>, part: Seq<char>) -> bool {
    exists|a: Seq<char>, b: Seq<char>| t == #[trigger] (a + part + b)
}

proof fn lemma_shown(part: Seq<char>)
    ensures
        shows(part, part),
        forall|x: Seq<char>, y: Seq<char>| shows(x, part) ==> #[trigger] shows(x + y, part),
        forall|x: Seq<char>, y: Seq<char>| shows(y, part) ==> #[trigger] shows(x + y, part),
{
    let none = Seq::<char>::empty();
    assert(none + part + none =~= part);
    assert forall|x: Seq<char>, y: Seq<char>| shows(x, part) implies #[trigger] shows(
        x + y,
        part,
    ) by {
        let (a, b) = choose|a: Seq<char>, b: Seq<char>| x == #[trigger] (a + part + b);
        assert(x + y =~= a + part + (b + y));
    }
    assert forall|x: Seq<char>, y: Seq<char>| shows(y, part) implies #[trigger] shows(
        x + y,
        part,
    ) by {
        let (a, b) = choose|a: Seq<char>, b: Seq<char>| y == #[trigger] (a + part + b);
        assert(x + y =~= (x + a) + part + b);
    }
}

// ---------------------------------------------------------------------
// Status
// ---------------------------------------------------------------------

/// Whether a text has a line end and shows the number, the package and the
/// number of threads of a process.
pub open spec fn tells_of(row: Seq<char>, p: ProcView) -> bool {
    &&& row.len() > 0 && row.last() == '\n'
    &&& shows(row, text::signed_decimal(p.pid as int))
    &&& shows(row, p.pkg)
    &&& shows(row, text::decimal(p.tids.len()) + " threads"@)
}

proof fn lemma_rows(procs: Seq<ProcView>, n: int, i: int)
    requires
        0 <= i < n <= procs.len(),
    ensures
        exists|row: Seq<char>| #[trigger]
            shows(ipc::process_rows(procs, n), row) && tells_of(row, procs[i]),
    decreases n,
{
    if i < n - 1 {
        lemma_rows(procs, n - 1, i);
        let row = choose|row: Seq<char>| #[trigger]
            shows(ipc::process_rows(procs, n - 1), row) && tells_of(row, procs[i]);
        lemma_shown(row);
        assert(shows(ipc::process_rows(procs, n), row));
    } else {
        let p = procs[i];
        let row = ipc::process_row(p.pid as int, p.pkg, p.tids.len());
        let number = text::signed_decimal(p.pid as int);
        let count = text::decimal(p.tids.len()) + " threads"@;
        lemma_shown(row);
        lemma_shown(number);
        lemma_shown(p.pkg);
        lemma_shown(count);
        reveal_strlit("\n");
        let head = "  "@ + text::right_aligned(number, 7) + "  "@ + text::left_aligned(p.pkg, 24)
            + " "@;
        assert(head + text::decimal(p.tids.len()) + " threads"@ =~= head + count);
        assert(shows(head + count, count));
        assert(tells_of(row, p));
        assert(shows(ipc::process_rows(procs, n), row));
    }
}

/// A status shows each of the first twenty processes with its package and the
/// number of its threads, the version of the configuration, how many packages
/// it names, how many processes and threads are followed, and what became of
/// applications.
pub proof fn law_status_shows_what_is_followed(
    version: Seq<char>,
    config: nat,
    pkgs: nat,
    procs: Seq<ProcView>,
    a: AuditSummary,
    r: RelockStats,
    i: int,
)
    ensures
        ({
            let t = ipc::status_text(version, config, pkgs, procs, a, r);
            &&& shows(t, version)
            &&& shows(t, "v"@ + text::decimal(config))
            &&& shows(t, text::decimal(pkgs) + " pkgs"@)
            &&& shows(t, text::decimal(procs.len()) + " processes"@)
            &&& shows(t, text::decimal(ipc::thread_total(procs)) + " threads"@)
            &&& shows(t, "total="@ + text::decimal(a.total_attempts as nat))
            &&& shows(t, "success="@ + text::decimal(a.success as nat))
            &&& shows(t, "cgroup_blocked="@ + text::decimal(a.blocked_by_cgroup as nat))
            &&& shows(t, "downgraded="@ + text::decimal(a.downgraded as nat))
            &&& shows(t, "allow="@ + text::decimal(r.allow as nat))
            &&& shows(t, "skip="@ + text::decimal(r.skip as nat))
            &&& shows(t, "degrade="@ + text::decimal(r.degrade as nat))
            &&& 0 <= i < procs.len() && i < 20 ==> exists|row: Seq<char>| #[trigger]
                shows(t, row) && tells_of(row, procs[i])
        }),
{
    let t = ipc::status_text(version, config, pkgs, procs, a, r);
    lemma_shown(version);
    lemma_config_line(config, pkgs);
    lemma_tracked_line(procs);
    lemma_audit_line(a);
    lemma_relock_line(r);
    lemma_shown("v"@ + text::decimal(config));
    lemma_shown(text::decimal(pkgs) + " pkgs"@);
    lemma_shown(text::decimal(procs.len()) + " processes"@);
    lemma_shown(text::decimal(ipc::thread_total(procs)) + " threads"@);
    lemma_shown("total="@ + text::decimal(a.total_attempts as nat));
    lemma_shown("success="@ + text::decimal(a.success as nat));
    lemma_shown("cgroup_blocked="@ + text::decimal(a.blocked_by_cgroup as nat));
    lemma_shown("downgraded="@ + text::decimal(a.downgraded as nat));
    lemma_shown("allow="@ + text::decimal(r.allow as nat));
    lemma_shown("skip="@ + text::decimal(r.skip as nat));
    lemma_shown("degrade="@ + text::decimal(r.degrade as nat));
    if 0 <= i < procs.len() && i < 20 {
        lemma_rows(procs, ipc::shown(procs), i);
        let row = choose|row: Seq<char>| #[trigger]
            shows(ipc::process_rows(procs, ipc::shown(procs)), row) && tells_of(row, procs[i]);
        lemma_shown(row);
        assert(shows(t, row));
    }
}

proof fn lemma_config_line(config: nat, pkgs: nat)
    ensures
        shows(ipc::config_line(config, pkgs), "v"@ + text::decimal(config)),
        shows(ipc::config_line(config, pkgs), text::decimal(pkgs) + " pkgs"@),
{
    reveal_strlit("config       : v");
    reveal_strlit("config       : ");
    reveal_strlit("v");
    reveal_strlit(" pkgs)");
    reveal_strlit(" pkgs");
    reveal_strlit(")");
    reveal_strlit(" (");
    let one = "v"@ + text::decimal(config);
    let two = text::decimal(pkgs) + " pkgs"@;
    lemma_shown(one);
    lemma_shown(two);
    let line = "config       : v"@ + text::decimal(config) + " ("@ + text::decimal(pkgs)
        + " pkgs)"@;
    assert(line =~= "config       : "@ + one + (" ("@ + text::decimal(pkgs) + " pkgs)"@));
    assert(line =~= ("config       : v"@ + text::decimal(config) + " ("@) + two + ")"@);
}

proof fn lemma_tracked_line(procs: Seq<ProcView>)
    ensures
        shows(ipc::tracked_line(procs), text::decimal(procs.len()) + " processes"@),
        shows(ipc::tracked_line(procs), text::decimal(ipc::thread_total(procs)) + " threads"@),
{
    reveal_strlit("tracked      : ");
    reveal_strlit(" processes / ");
    reveal_strlit(" processes");
    reveal_strlit(" / ");
    reveal_strlit(" threads");
    let n = text::decimal(procs.len());
    let m = text::decimal(ipc::thread_total(procs));
    lemma_shown(n + " processes"@);
    lemma_shown(m + " threads"@);
    let line = "tracked      : "@ + n + " processes / "@ + m + " threads"@;
    assert(line =~= "tracked      : "@ + (n + " processes"@) + (" / "@ + m + " threads"@));
    assert(line =~= ("tracked      : "@ + n + " processes / "@) + (m + " threads"@));
}

proof fn lemma_audit_line(a: AuditSummary)
    ensures
        shows(ipc::audit_line(a), "total="@ + text::decimal(a.total_attempts as nat)),
        shows(ipc::audit_line(a), "success="@ + text::decimal(a.success as nat)),
        shows(ipc::audit_line(a), "cgroup_blocked="@ + text::decimal(a.blocked_by_cgroup as nat)),
        shows(ipc::audit_line(a), "downgraded="@ + text::decimal(a.downgraded as nat)),
{
    reveal_strlit("audit(60s)   : total=");
    reveal_strlit("audit(60s)   : ");
    reveal_strlit("total=");
    reveal_strlit(" success=");
    reveal_strlit("success=");
    reveal_strlit(" cgroup_blocked=");
    reveal_strlit("cgroup_blocked=");
    reveal_strlit(" downgraded=");
    reveal_strlit("downgraded=");
    reveal_strlit(" ");
    let n = text::decimal(a.total_attempts as nat);
    let s = text::decimal(a.success as nat);
    let c = text::decimal(a.blocked_by_cgroup as nat);
    let d = text::decimal(a.downgraded as nat);
    lemma_shown("total="@ + n);
    lemma_shown("success="@ + s);
    lemma_shown("cgroup_blocked="@ + c);
    lemma_shown("downgraded="@ + d);
    let line = "audit(60s)   : total="@ + n + " success="@ + s + " cgroup_blocked="@ + c
        + " downgraded="@ + d;
    assert(line =~= "audit(60s)   : "@ + ("total="@ + n) + (" success="@ + s + " cgroup_blocked="@
        + c + " downgraded="@ + d));
    assert(line =~= ("audit(60s)   : total="@ + n + " "@) + ("success="@ + s) + (
    " cgroup_blocked="@ + c + " downgraded="@ + d));
    assert(line =~= ("audit(60s)   : total="@ + n + " success="@ + s + " "@) + ("cgroup_blocked="@
        + c) + (" downgraded="@ + d));
    assert(line =~= ("audit(60s)   : total="@ + n + " success="@ + s + " cgroup_blocked="@ + c
        + " "@) + ("downgraded="@ + d));
}

proof fn lemma_relock_line(r: RelockStats)
    ensures
        shows(ipc::relock_line(r), "allow="@ + text::decimal(r.allow as nat)),
        shows(ipc::relock_line(r), "skip="@ + text::decimal(r.skip as nat)),
        shows(ipc::relock_line(r), "degrade="@ + text::decimal(r.degrade as nat)),
{
    reveal_strlit("relock       : allow=");
    reveal_strlit("relock       : ");
    reveal_strlit("allow=");
    reveal_strlit(" skip=");
    reveal_strlit("skip=");
    reveal_strlit(" degrade=");
    reveal_strlit("degrade=");
    reveal_strlit(" ");
    let a = text::decimal(r.allow as nat);
    let s = text::decimal(r.skip as nat);
    let d = text::decimal(r.degrade as nat);
    lemma_shown("allow="@ + a);
    lemma_shown("skip="@ + s);
    lemma_shown("degrade="@ + d);
    let line = "relock       : allow="@ + a + " skip="@ + s + " degrade="@ + d;
    assert(line =~= "relock       : "@ + ("allow="@ + a) + (" skip="@ + s + " degrade="@ + d));
    assert(line =~= ("relock       : allow="@ + a + " "@) + ("skip="@ + s) + (" degrade="@ + d));
    assert(line =~= ("relock       : allow="@ + a + " skip="@ + s + " "@) + ("degrade="@ + d));
}

// ---------------------------------------------------------------------
// One process
// ---------------------------------------------------------------------

/// A request about a process that is followed is answered with its number, its
/// package, how many of its threads were dealt with, the CPUs that it may use
/// and its cpuset, where these were read, and whether it lives; about any
/// other, with its number alone.
pub proof fn law_dumps_show_the_process(
    procs: Seq<ProcView>,
    pid: i32,
    p: ProcView,
    allowed: Option<CpuSet>,
    cpuset: Option<Seq<char>>,
    alive: bool,
)
    requires
        follow::listed_once(procs),
    ensures
        ({
            let t = ipc::dump_answer(procs, pid, allowed, cpuset, alive);
            &&& shows(t, text::signed_decimal(pid as int))
            &&& follow::follows(procs, pid, p) ==> {
                &&& shows(t, p.pkg)
                &&& shows(t, text::decimal(p.tids.len()))
                &&& allowed matches Some(m) ==> shows(t, topology::range_text(m@))
                &&& cpuset matches Some(c) ==> shows(t, c)
                &&& alive ==> shows(t, "true"@)
                &&& !alive ==> shows(t, "false"@)
            }
            &&& follow::ignores(procs, pid) ==> t == ipc::dump_answer(
                procs,
                pid,
                None,
                None,
                false,
            )
        }),
{
    follow::lemma_found(procs, pid);
    if follow::follows(procs, pid, p) {
        follow::lemma_place(procs, pid, p);
    }
    lemma_shown(text::signed_decimal(pid as int));
    lemma_shown(p.pkg);
    lemma_shown(text::decimal(p.tids.len()));
    if let Some(m) = allowed {
        lemma_shown(topology::range_text(m@));
    }
    if let Some(c) = cpuset {
        lemma_shown(c);
    }
    lemma_shown("true"@);
    lemma_shown("false"@);
}

/// Whether a line shows what is known of a thread: its number, its name or
/// the first twenty characters of it, its CPUs at last, its loads in percent,
/// how often it moved and how often its CPUs changed.
pub open spec fn tells_of_thread(row: Seq<char>, r: RecordView) -> bool {
    &&& row.len() > 0 && row.last() == '\n'
    &&& shows(row, text::signed_decimal(r.stats.tid as int))
    &&& r.stats.name.len() <= 20 ==> shows(row, r.stats.name)
    &&& r.stats.name.len() > 20 ==> shows(row, r.stats.name.take(20))
    &&& shows(row, r.recent.last().affinity)
    &&& r.recent.last().cpu matches Some(c) ==> shows(row, text::decimal(c as nat))
    &&& shows(row, text::decimal(r.stats.avg as nat))
    &&& shows(row, text::decimal(r.stats.max as nat))
    &&& shows(row, text::decimal(r.stats.migrations as nat))
    &&& shows(row, text::decimal(r.stats.affinity_changes as nat))
    &&& r.stats.primary matches Some(c) ==> shows(row, text::decimal(c as nat))
}

proof fn lemma_thread_row(r: RecordView)
    ensures
        tells_of_thread(ipc::stats_row(ipc::columns(r)), r),
{
    let c = ipc::columns(r);
    lemma_shown(c.tid);
    lemma_shown(c.name);
    lemma_shown(c.affinity);
    lemma_shown(c.current);
    lemma_shown(c.average);
    lemma_shown(c.peak);
    lemma_shown(c.moves);
    lemma_shown(c.changes);
    lemma_shown(c.primary);
    reveal_strlit("\n");
}

proof fn lemma_thread_rows(
    rs: Seq<RecordView>,
    procs: Seq<ProcView>,
    filter: Option<i32>,
    tids: Seq<i32>,
    n: int,
    i: int,
)
    requires
        0 <= i < n,
        ipc::asked(procs, filter, tids[i]),
    ensures
        exists|row: Seq<char>| #[trigger]
            shows(ipc::stats_rows(rs, procs, filter, tids, n), row) && tells_of_thread(
                row,
                rs[observe::index_of(rs, tids[i])],
            ),
    decreases n,
{
    let r = rs[observe::index_of(rs, tids[i])];
    if i < n - 1 {
        lemma_thread_rows(rs, procs, filter, tids, n - 1, i);
        let row = choose|row: Seq<char>| #[trigger]
            shows(ipc::stats_rows(rs, procs, filter, tids, n - 1), row) && tells_of_thread(row, r);
        lemma_shown(row);
        assert(shows(ipc::stats_rows(rs, procs, filter, tids, n), row));
    } else {
        let row = ipc::stats_row(ipc::columns(r));
        lemma_thread_row(r);
        lemma_shown(row);
        assert(shows(ipc::stats_rows(rs, procs, filter, tids, n), row));
    }
}

/// A snapshot of all shows what is known of each thread that was seen; one of
/// a process shows that of each of its threads.
pub proof fn law_snapshots_tell_of_each_thread(
    rs: Seq<RecordView>,
    procs: Seq<ProcView>,
    pid: i32,
    p: ProcView,
    tids: Seq<i32>,
    i: int,
)
    requires
        ipc::in_order(tids, rs),
        follow::listed_once(procs),
        0 <= i < rs.len(),
        forall|j: int| 0 <= j < i ==> (#[trigger] rs[j]).stats.tid != rs[i].stats.tid,
    ensures
        exists|row: Seq<char>| #[trigger]
            shows(ipc::snapshot_text(rs, procs, None, tids), row) && tells_of_thread(row, rs[i]),
        follow::follows(procs, pid, p) && p.tids.contains(rs[i].stats.tid) ==> exists|
            row: Seq<char>,
        | #[trigger]
            shows(ipc::snapshot_text(rs, procs, Some(pid), tids), row) && tells_of_thread(
                row,
                rs[i],
            ),
{
    let tid = rs[i].stats.tid;
    lemma_record_index(rs, i);
    assert(tids.contains(tid));
    let k = choose|k: int| 0 <= k < tids.len() && tids[k] == tid;
    lemma_snapshot(rs, procs, None, tids, k);
    if follow::follows(procs, pid, p) && p.tids.contains(tid) {
        follow::lemma_place(procs, pid, p);
        follow::lemma_found(procs, pid);
        assert(ipc::asked(procs, Some(pid), tid));
        lemma_snapshot(rs, procs, Some(pid), tids, k);
    }
}

proof fn lemma_snapshot(
    rs: Seq<RecordView>,
    procs: Seq<ProcView>,
    filter: Option<i32>,
    tids: Seq<i32>,
    k: int,
)
    requires
        0 <= k < tids.len(),
        ipc::asked(procs, filter, tids[k]),
    ensures
        exists|row: Seq<char>| #[trigger]
            shows(ipc::snapshot_text(rs, procs, filter, tids), row) && tells_of_thread(
                row,
                rs[observe::index_of(rs, tids[k])],
            ),
{
    let n = tids.len() as int;
    lemma_thread_rows(rs, procs, filter, tids, n, k);
    let row = choose|row: Seq<char>| #[trigger]
        shows(ipc::stats_rows(rs, procs, filter, tids, n), row) && tells_of_thread(
            row,
            rs[observe::index_of(rs, tids[k])],
        );
    lemma_shown(row);
    assert(shows(ipc::snapshot_text(rs, procs, filter, tids), row));
}

proof fn lemma_record_index(rs: Seq<RecordView>, i: int)
    requires
        0 <= i < rs.len(),
        forall|j: int| 0 <= j < i ==> (#[trigger] rs[j]).stats.tid != rs[i].stats.tid,
    ensures
        observe::index_of(rs, rs[i].stats.tid) == i,
    decreases i,
{
    if i > 0 {
        let rest = rs.skip(1);
        assert(rs[0].stats.tid != rs[i].stats.tid);
        assert(rest[i - 1] == rs[i]);
        assert forall|j: int| 0 <= j < i - 1 implies (#[trigger] rest[j]).stats.tid
            != rest[i - 1].stats.tid by {
            assert(rest[j] == rs[j + 1]);
        }
        lemma_record_index(rest, i - 1);
    }
}

// ---------------------------------------------------------------------
// What was done
// ---------------------------------------------------------------------

/// A reload is answered with the version that is in force then and the number
/// of threads that policies were applied to, or with what went wrong.
pub proof fn law_reloads_are_answered(d: ReloadDone, e: Seq<char>, pid: int, threads: nat)
    ensures
        shows(ipc::reload_text(Ok(d)), "version "@ + text::decimal(d.version as nat)),
        shows(ipc::reload_text(Ok(d)), "applied "@ + text::decimal(d.threads as nat)),
        shows(ipc::reload_text(Err(e)), e),
        shows(ipc::apply_text(pid, threads), text::signed_decimal(pid)),
        shows(ipc::apply_text(pid, threads), text::decimal(threads)),
{
    reveal_strlit("reload: 配置已重载 (version ");
    reveal_strlit("reload: 配置已重载 (");
    reveal_strlit("version ");
    reveal_strlit("reload: applied ");
    reveal_strlit("reload: ");
    reveal_strlit("applied ");
    let v = text::decimal(d.version as nat);
    let n = text::decimal(d.threads as nat);
    lemma_shown("version "@ + v);
    lemma_shown("applied "@ + n);
    lemma_shown(e);
    lemma_shown(text::signed_decimal(pid));
    lemma_shown(text::decimal(threads));
    assert("reload: 配置已重载 (version "@ + v + ")"@ =~= "reload: 配置已重载 ("@ + (
    "version "@ + v) + ")"@);
    assert("reload: applied "@ + n + " threads"@ =~= "reload: "@ + ("applied "@ + n) + " threads"@);
}

/// A request for a scene is answered with the scene, the version and the
/// number of threads, or with what went wrong, in either language.
pub proof fn law_scenes_are_answered(name: Seq<char>, o: SceneOutcome)
    ensures
        ({
            let zh = ipc::scene_zh(name, o);
            let en = ipc::scene_en(name, o);
            match o {
                SceneOutcome::Applied { done } => {
                    &&& shows(zh, name) && shows(en, name)
                    &&& shows(zh, text::decimal(done.version as nat))
                    &&& shows(en, text::decimal(done.version as nat))
                    &&& shows(zh, text::decimal(done.threads as nat))
                    &&& shows(en, text::decimal(done.threads as nat))
                },
                SceneOutcome::ReadFailed { error } => shows(zh, error@) && shows(en, error@),
                SceneOutcome::Rejected { error } => shows(zh, error@) && shows(en, error@),
                SceneOutcome::WriteFailed { error } => shows(zh, error@) && shows(en, error@),
                SceneOutcome::ReloadFailed { error } => shows(zh, error@) && shows(en, error@),
            }
        }),
{
    match o {
        SceneOutcome::Applied { done } => {
            lemma_shown(name);
            lemma_shown(text::decimal(done.version as nat));
            lemma_shown(text::decimal(done.threads as nat));
        },
        SceneOutcome::ReadFailed { error } => lemma_shown(error@),
        SceneOutcome::Rejected { error } => lemma_shown(error@),
        SceneOutcome::WriteFailed { error } => lemma_shown(error@),
        SceneOutcome::ReloadFailed { error } => lemma_shown(error@),
    }
}

/// Tuning is about governors or schedulers, as its first word says, and needs
/// a second. It is answered with both words and how much was tuned, or with
/// why nothing was.
pub proof fn law_tuning_is_answered(
    is_zh: bool,
    kind: Seq<char>,
    value: Seq<char>,
    result: Result<usize, String>,
)
    ensures
        ({
            let target = ipc::target_of(kind, value);
            let t = ipc::tune_text(is_zh, kind, value, ipc::tune_detail(target, result));
            &&& target == Some(TuneTarget::Governor) <==> kind == "governor"@ && value.len() > 0
            &&& target == Some(TuneTarget::IoScheduler) <==> kind == "iosched"@ && value.len() > 0
            &&& target is Some ==> match result {
                Ok(n) => shows(t, kind) && shows(t, value) && shows(t, text::decimal(n as nat)),
                Err(e) => shows(t, e@),
            }
            &&& target is None ==> shows(t, "governor"@) && shows(t, "iosched"@)
        }),
{
    reveal_strlit("governor");
    reveal_strlit("iosched");
    reveal_strlit("tune 用法: tune governor <name> | tune iosched <name>");
    assert("governor"@[0] == 'g' && "iosched"@[0] == 'i');
    lemma_shown(kind);
    lemma_shown(value);
    match result {
        Ok(n) => lemma_shown(text::decimal(n as nat)),
        Err(e) => lemma_shown(e@),
    }
    let usage = "tune 用法: tune governor <name> | tune iosched <name>"@;
    lemma_shown("governor"@);
    lemma_shown("iosched"@);
    assert(usage =~= usage.take(14) + "governor"@ + usage.skip(22));
    assert(usage =~= usage.take(37) + "iosched"@ + usage.skip(44));
}

} // verus!
