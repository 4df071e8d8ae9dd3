//! What is asked for, and what is warned of.

use vstd::prelude::*;

use crate::config;
use crate::config::{AppView, PolicyModelView};
use crate::daemon;
use crate::daemon::{InvocationView, OptionsView};
use crate::ipc;
use crate::ipc::RequestView;
use crate::laws::expand;
use crate::laws::follow;
use crate::laws::resolve;
use crate::profile;
use crate::text;
use crate::topology::CpuCluster;
use crate::tracker;
use crate::tracker::ProcView;
use crate::warning;
use crate::warning::WarningView;

verus! {

// ---------------------------------------------------------------------
// Requests
// ---------------------------------------------------------------------

proof fn lemma_commands()
    ensures
        "dump"@ != "reload"@,
        "dump"@ != "apply"@,
        "dump"@ != "snapshot"@,
        "dump"@ != "apply-scene"@,
        "dump"@ != "tune"@,
        "reload"@ != "apply"@,
        "reload"@ != "snapshot"@,
        "reload"@ != "apply-scene"@,
        "reload"@ != "tune"@,
        "apply"@ != "snapshot"@,
        "apply"@ != "apply-scene"@,
        "apply"@ != "tune"@,
        "snapshot"@ != "apply-scene"@,
        "snapshot"@ != "tune"@,
        "apply-scene"@ != "tune"@,
{
    reveal_strlit("dump");
    reveal_strlit("reload");
    reveal_strlit("apply");
    reveal_strlit("snapshot");
    reveal_strlit("apply-scene");
    reveal_strlit("tune");
    assert("dump"@[0] == 'd' && "reload"@[0] == 'r' && "apply"@[0] == 'a' && "snapshot"@[0] == 's'
        && "apply-scene"@[0] == 'a' && "tune"@[0] == 't');
    assert("apply"@.len() == 5 && "apply-scene"@.len() == 11);
}

/// A request is its first word, with the words behind it: a process to dump or
/// to apply policies to needs a number, a scene a name; a snapshot is of one
/// process where a number is given; and to tune takes what and how. Whatever
/// is none of these asks for the status.
pub proof fn law_requests_are_their_words(line: Seq<char>)
    ensures
        ({
            let ws = text::words(line);
            let r = ipc::request(line);
            let n = if ws.len() > 1 {
                text::i32_of(ws[1])
            } else {
                None
            };
            &&& ws.len() == 0 ==> r == RequestView::Status
            &&& ws.len() > 0 && ws[0] == "reload"@ ==> r == RequestView::Reload
            &&& ws.len() > 0 && ws[0] == "dump"@ ==> (n matches Some(pid) ==> r
                == RequestView::Dump(pid))
            &&& ws.len() > 0 && ws[0] == "apply"@ ==> (n matches Some(pid) ==> r
                == RequestView::Apply(pid))
            &&& ws.len() > 0 && (ws[0] == "dump"@ || ws[0] == "apply"@) && n is None ==> r
                == RequestView::Status
            &&& ws.len() > 0 && ws[0] == "snapshot"@ ==> r == RequestView::Snapshot(n)
            &&& ws.len() > 1 && ws[0] == "apply-scene"@ ==> r == RequestView::ApplyScene(ws[1])
            &&& ws.len() == 1 && ws[0] == "apply-scene"@ ==> r == RequestView::Status
            &&& ws.len() > 2 && ws[0] == "tune"@ ==> r == RequestView::Tune(ws[1], ws[2])
            &&& ws.len() > 0 && ws[0] != "reload"@ && ws[0] != "dump"@ && ws[0] != "apply"@ && ws[0]
                != "snapshot"@ && ws[0] != "apply-scene"@ && ws[0] != "tune"@ ==> r
                == RequestView::Status
        }),
{
    lemma_commands();
    let none = Seq::<char>::empty();
    assert(text::i32_of(none) is None);
}

/// A snapshot of one process shows the threads that are dealt with there, and
/// one of all shows every thread.
pub proof fn law_snapshots_show_what_is_asked_for(
    procs: Seq<ProcView>,
    pid: i32,
    p: ProcView,
    tid: i32,
)
    requires
        follow::listed_once(procs),
    ensures
        ipc::asked(procs, None, tid),
        follow::ignores(procs, pid) ==> !ipc::asked(procs, Some(pid), tid),
        follow::follows(procs, pid, p) ==> (ipc::asked(procs, Some(pid), tid) <==> p.tids.contains(
            tid,
        )),
{
    follow::lemma_found(procs, pid);
    if follow::follows(procs, pid, p) {
        follow::lemma_place(procs, pid, p);
    }
}

/// A status counts all threads that are dealt with, and shows twenty processes
/// at most.
pub proof fn law_status_counts_all_threads(procs: Seq<ProcView>, p: ProcView)
    ensures
        ipc::thread_total(procs.push(p)) == ipc::thread_total(procs) + p.tids.len(),
        ipc::thread_total(Seq::empty()) == 0,
        ipc::shown(procs) == if procs.len() <= 20 {
            procs.len() as int
        } else {
            20
        },
{
    assert(procs.push(p).drop_last() =~= procs);
}

// ---------------------------------------------------------------------
// The command line
// ---------------------------------------------------------------------

proof fn lemma_options()
    ensures
        "-c"@ != "-s"@,
        "-c"@ != "-t"@,
        "-c"@ != "--dry-run"@,
        "-c"@ != "-v"@,
        "-c"@ != "--debug"@,
        "-c"@ != "-h"@,
        "-s"@ != "-t"@,
        "-s"@ != "--dry-run"@,
        "-s"@ != "-v"@,
        "-s"@ != "--debug"@,
        "-s"@ != "-h"@,
        "-t"@ != "-v"@,
        "-t"@ != "--debug"@,
        "-t"@ != "-h"@,
        "--dry-run"@ != "-v"@,
        "--dry-run"@ != "--debug"@,
        "--dry-run"@ != "-h"@,
        "-v"@ != "--debug"@,
        "-v"@ != "-h"@,
        "--debug"@ != "-h"@,
{
    reveal_strlit("-c");
    reveal_strlit("-s");
    reveal_strlit("-t");
    reveal_strlit("--dry-run");
    reveal_strlit("-v");
    reveal_strlit("--debug");
    reveal_strlit("-h");
    assert("-c"@[1] == 'c' && "-s"@[1] == 's' && "-t"@[1] == 't' && "-v"@[1] == 'v' && "-h"@[1]
        == 'h' && "--dry-run"@[1] == '-' && "--debug"@[1] == '-');
    assert("--dry-run"@.len() == 9 && "--debug"@.len() == 7);
}

/// Each option sets what it is for and nothing else, whatever stands behind
/// it: `-c` the file, `-s` the interval, which is one second at least, `-t`
/// and `--dry-run` the trial run, and `--debug` that. `-v` and `-h` end the
/// reading, and so does anything else, as an error.
pub proof fn law_options_set_one_thing(args: Seq<Seq<char>>, i: int, o: OptionsView)
    requires
        0 <= i < args.len(),
    ensures
        ({
            let r = daemon::options_from(args, i, o);
            let a = args[i];
            let more = i + 1 < args.len();
            &&& a == "-c"@ && more ==> r == daemon::options_from(
                args,
                i + 2,
                OptionsView { config_file: args[i + 1], ..o },
            )
            &&& a == "-c"@ && !more ==> r == InvocationView::MissingConfig
            &&& a == "-s"@ && more ==> match text::unsigned(args[i + 1], u64::MAX as nat) {
                Some(n) => if n >= 1 {
                    r == daemon::options_from(
                        args,
                        i + 2,
                        OptionsView { scan_interval: n as int, ..o },
                    )
                } else {
                    r == InvocationView::BadInterval
                },
                None => r == InvocationView::BadInterval,
            }
            &&& a == "-s"@ && !more ==> r == InvocationView::BadInterval
            &&& a == "-t"@ || a == "--dry-run"@ ==> r == daemon::options_from(
                args,
                i + 1,
                OptionsView { dry_run: true, ..o },
            )
            &&& a == "--debug"@ ==> r == daemon::options_from(
                args,
                i + 1,
                OptionsView { debug: true, ..o },
            )
            &&& a == "-v"@ ==> r == InvocationView::Version
            &&& a == "-h"@ ==> r == InvocationView::Help
            &&& a != "-c"@ && a != "-s"@ && a != "-t"@ && a != "--dry-run"@ && a != "--debug"@ && a
                != "-v"@ && a != "-h"@ ==> r == (InvocationView::Unknown { option: a })
        }),
        daemon::options_from(args, args.len() as int, o) == (InvocationView::Run { options: o }),
{
    lemma_options();
}

/// A command of the daemon's as the first argument goes there with all that
/// follows it.
pub proof fn law_commands_go_to_the_daemon(args: Seq<Seq<char>>)
    ensures
        args.len() >= 2 && (args[1] == "status"@ || args[1] == "dump"@ || args[1] == "reload"@
            || args[1] == "apply"@ || args[1] == "snapshot"@ || args[1] == "apply-scene"@ || args[1]
            == "tune"@) ==> daemon::invocation(args) == (InvocationView::Client {
            command: text::join(args.skip(1), " "@),
        }),
        daemon::invocation(args) is Client ==> args.len() >= 2,
        args.len() < 2 ==> daemon::invocation(args) is Run,
{
}

// ---------------------------------------------------------------------
// Warnings
// ---------------------------------------------------------------------

/// Whether a policy names a cluster that a machine does not have.
pub open spec fn strays(p: PolicyModelView, clusters: Seq<CpuCluster>, name: Seq<char>) -> bool {
    p.cpus is None && p.cluster == Some(name) && expand::no_kind(clusters, text::lowercase_of(name))
        && !expand::numeric(name)
}

/// Whether a warning on an app has a cause.
pub open spec fn caused(w: WarningView, app: AppView, clusters: Seq<CpuCluster>) -> bool {
    match w {
        WarningView::UnknownProfile { pkg, profile } => pkg == app.pkg && app.profile == Some(
            profile,
        ) && profile::builtin(profile) is None,
        WarningView::MissingCluster { pkg, cluster } => pkg == app.pkg && {
            let a = config::filled_in(app);
            ||| strays(a.default_policy, clusters, cluster)
            ||| exists|k: int|
                0 <= k < a.threads.len() && strays((#[trigger] a.threads[k]).1, clusters, cluster)
            ||| exists|k: int|
                0 <= k < a.thread_types.len() && strays(
                    (#[trigger] a.thread_types[k]).1,
                    clusters,
                    cluster,
                )
        },
        WarningView::LongThread { .. } => false,
    }
}

proof fn lemma_policy_warnings(
    pkg: Seq<char>,
    p: PolicyModelView,
    clusters: Seq<CpuCluster>,
    uses: nat,
    i: int,
)
    requires
        0 <= i < warning::policy_warnings(pkg, p, clusters, uses).len(),
    ensures
        warning::policy_warnings(pkg, p, clusters, uses)[i] matches WarningView::MissingCluster {
            pkg: q,
            cluster,
        } && q == pkg && strays(p, clusters, cluster),
{
    if let Some(name) = p.cluster {
        expand::law_clusters_have_a_place(name, clusters);
    }
}

proof fn lemma_thread_warnings(
    pkg: Seq<char>,
    t: Seq<(Seq<char>, PolicyModelView)>,
    clusters: Seq<CpuCluster>,
    i: int,
)
    requires
        0 <= i < warning::thread_warnings(pkg, t, clusters).len(),
    ensures
        warning::thread_warnings(pkg, t, clusters)[i] matches WarningView::MissingCluster {
            pkg: q,
            cluster,
        } && q == pkg && exists|k: int|
            0 <= k < t.len() && strays((#[trigger] t[k]).1, clusters, cluster),
    decreases t.len(),
{
    let front = t.drop_last();
    let before = warning::thread_warnings(pkg, front, clusters);
    if i < before.len() {
        lemma_thread_warnings(pkg, front, clusters, i);
        if let WarningView::MissingCluster { pkg: q, cluster } = before[i] {
            let k = choose|k: int|
                0 <= k < front.len() && strays((#[trigger] front[k]).1, clusters, cluster);
            assert(strays(t[k].1, clusters, cluster));
        }
    } else {
        lemma_policy_warnings(pkg, t.last().1, clusters, 1, i - before.len());
        assert(t[t.len() - 1] == t.last());
    }
}

proof fn lemma_type_warnings(
    pkg: Seq<char>,
    t: Seq<(Seq<char>, PolicyModelView)>,
    clusters: Seq<CpuCluster>,
    i: int,
)
    requires
        0 <= i < warning::type_warnings(pkg, t, clusters).len(),
    ensures
        warning::type_warnings(pkg, t, clusters)[i] matches WarningView::MissingCluster {
            pkg: q,
            cluster,
        } && q == pkg && exists|k: int|
            0 <= k < t.len() && strays((#[trigger] t[k]).1, clusters, cluster),
    decreases t.len(),
{
    let front = t.drop_last();
    let before = warning::type_warnings(pkg, front, clusters);
    if i < before.len() {
        lemma_type_warnings(pkg, front, clusters, i);
        if let WarningView::MissingCluster { pkg: q, cluster } = before[i] {
            let k = choose|k: int|
                0 <= k < front.len() && strays((#[trigger] front[k]).1, clusters, cluster);
            assert(strays(t[k].1, clusters, cluster));
        }
    } else {
        lemma_policy_warnings(
            pkg,
            t.last().1,
            clusters,
            warning::pattern_count(t.last().0),
            i - before.len(),
        );
        assert(t[t.len() - 1] == t.last());
    }
}

/// Every warning on an app has its cause there: a profile that is not built
/// in, or a cluster that the machine does not have.
pub proof fn law_warnings_have_a_cause(app: AppView, clusters: Seq<CpuCluster>, i: int)
    requires
        0 <= i < warning::app_warnings(app, clusters).len(),
    ensures
        caused(warning::app_warnings(app, clusters)[i], app, clusters),
{
    let a = config::filled_in(app);
    let p = warning::profile_warnings(app);
    let d = warning::policy_warnings(a.pkg, a.default_policy, clusters, 1);
    let t = warning::thread_warnings(a.pkg, a.threads, clusters);
    let y = warning::type_warnings(a.pkg, a.thread_types, clusters);
    let all = warning::app_warnings(app, clusters);
    if i < p.len() {
        assert(all[i] == p[i]);
    } else if i < p.len() + d.len() {
        assert(all[i] == d[i - p.len()]);
        lemma_policy_warnings(a.pkg, a.default_policy, clusters, 1, i - p.len());
    } else if i < p.len() + d.len() + t.len() {
        assert(all[i] == t[i - p.len() - d.len()]);
        lemma_thread_warnings(a.pkg, a.threads, clusters, i - p.len() - d.len());
    } else {
        assert(all[i] == y[i - p.len() - d.len() - t.len()]);
        lemma_type_warnings(a.pkg, a.thread_types, clusters, i - p.len() - d.len() - t.len());
    }
}

/// A thread name is warned of just when it is spelled in full and longer than
/// the fifteen bytes that the kernel keeps.
pub proof fn law_which_names_are_too_long(thread: Seq<char>)
    ensures
        warning::kept_name(thread) is Some <==> text::bytes(thread) > 15 && resolve::literal(thread),
        warning::kept_name(thread) matches Some(k) ==> k.len() <= 15 && (thread.len() >= k.len()
            && thread.take(k.len() as int) == k) && (k.len() == 15 || k == thread),
{
    resolve::lemma_literal(thread);
    assert(thread.take(thread.len() as int) =~= thread);
}

} // verus!
