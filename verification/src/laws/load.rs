//! What a configuration file comes to.

use vstd::prelude::*;

use crate::config;
use crate::config::{AppView, PolicyModelView, RuleConfigView};
use crate::kdl_parser;
use crate::kdl_parser::StateView;
use crate::laws::expand;
use crate::ruleset;
use crate::ruleset::CompiledView;
use crate::store;
use crate::store::{ConfigSnapshot, Loaded, Reloaded};
use crate::text;
use crate::topology;
use crate::topology::CpuTopology;

verus! {

// ---------------------------------------------------------------------
// What the laws speak of
// ---------------------------------------------------------------------

/// Whether a list of CPUs has one that is there.
pub open spec fn some_present(list: Seq<char>, present: Set<int>) -> bool {
    exists|c: int| #[trigger]
        present.contains(c) && topology::range_cpus(list).contains(c)
}

/// Whether a rule can be put in force: it has a package and names that are
/// short enough, and where it lists CPUs, one of them is there.
pub open spec fn sound(rc: RuleConfigView, present: Set<int>) -> bool {
    &&& rc.pkg.len() > 0
    &&& text::bytes(rc.pkg) < 128
    &&& text::bytes(rc.thread) < 32
    &&& rc.cpus.len() == 0 || some_present(rc.cpus, present)
}

/// Whether a compiled rule does what a policy of an app states.
pub open spec fn enforces(
    r: CompiledView,
    pkg: Seq<char>,
    thread: Seq<char>,
    p: PolicyModelView,
    clusters: Seq<topology::CpuCluster>,
    present: Set<int>,
) -> bool {
    &&& r.pkg == pkg
    &&& r.thread == thread
    &&& r.policy.nice == p.nice
    &&& r.policy.uclamp_min == p.uclamp_min
    &&& r.policy.uclamp_max == p.uclamp_max
    &&& exists|list: Seq<char>|
        {
            &&& #[trigger] listed(list, p, clusters)
            &&& forall|c: int| #[trigger]
                r.policy.cpus.contains(c) <==> present.contains(c) && topology::range_cpus(
                    list,
                ).contains(c)
        }
}

/// Whether these are the CPUs that a policy states: its own list, or that of
/// its cluster, or none.
pub open spec fn listed(
    list: Seq<char>,
    p: PolicyModelView,
    clusters: Seq<topology::CpuCluster>,
) -> bool {
    match (p.cpus, p.cluster) {
        (Some(c), _) => list == c,
        (None, Some(name)) => expand::placed(list, name, text::lowercase_of(name), clusters),
        (None, None) => list.len() == 0,
    }
}

// ---------------------------------------------------------------------
// Rules
// ---------------------------------------------------------------------

/// Each rule is either compiled or reported with its place, never both: it is
/// compiled just when it is sound.
pub proof fn law_each_rule_is_compiled_or_reported(
    configs: Seq<RuleConfigView>,
    present: Set<int>,
    i: int,
)
    requires
        0 <= i < configs.len(),
    ensures
        ({
            let kept = ruleset::accepted(configs, present);
            let left = ruleset::rejected(configs, present);
            &&& kept.len() + left.len() == configs.len()
            &&& sound(configs[i], present) ==> exists|j: int|
                0 <= j < kept.len() && #[trigger] kept[j] == ruleset::compiled(configs[i], present)
            &&& (exists|j: int| 0 <= j < left.len() && (#[trigger] left[j]).0 == i) <==> !sound(
                configs[i],
                present,
            )
        }),
    decreases configs.len(),
{
    let kept = ruleset::accepted(configs, present);
    let left = ruleset::rejected(configs, present);
    let front = configs.drop_last();
    let n = configs.len() - 1;
    let fk = ruleset::accepted(front, present);
    let fl = ruleset::rejected(front, present);
    lemma_places(configs, present);
    lemma_places(front, present);
    lemma_sound(configs.last(), present);
    if n > 0 {
        law_each_rule_is_compiled_or_reported(front, present, if i < n { i } else { 0 });
    }
    if i < n {
        assert(front[i] == configs[i]);
        if sound(configs[i], present) {
            let j = choose|j: int|
                0 <= j < fk.len() && #[trigger] fk[j] == ruleset::compiled(configs[i], present);
            assert(kept[j] == fk[j]);
        } else {
            let j = choose|j: int| 0 <= j < fl.len() && (#[trigger] fl[j]).0 == i;
            assert(left[j] == fl[j]);
        }
        if exists|j: int| 0 <= j < left.len() && (#[trigger] left[j]).0 == i {
            let j = choose|j: int| 0 <= j < left.len() && (#[trigger] left[j]).0 == i;
            assert(j < fl.len());
            assert(fl[j] == left[j]);
        }
    } else {
        if sound(configs[i], present) {
            assert(kept[fk.len() as int] == ruleset::compiled(configs[i], present));
            assert(left == fl);
        } else {
            assert(left[fl.len() as int].0 == i);
        }
    }
}

proof fn lemma_sound(rc: RuleConfigView, present: Set<int>)
    ensures
        ruleset::rejection(rc, present) is None <==> sound(rc, present),
{
    let both = topology::range_cpus(rc.cpus).intersect(present);
    if some_present(rc.cpus, present) {
        let c = choose|c: int| #[trigger]
            present.contains(c) && topology::range_cpus(rc.cpus).contains(c);
        assert(both.contains(c));
    } else {
        assert(both =~= Set::<int>::empty());
    }
}

proof fn lemma_places(configs: Seq<RuleConfigView>, present: Set<int>)
    ensures
        forall|j: int|
            0 <= j < ruleset::rejected(configs, present).len() ==> 0 <= (
            #[trigger] ruleset::rejected(configs, present)[j]).0 < configs.len(),
        ruleset::accepted(configs, present).len() + ruleset::rejected(configs, present).len()
            == configs.len(),
    decreases configs.len(),
{
    if configs.len() > 0 {
        lemma_places(configs.drop_last(), present);
    }
}

/// A rule is compiled only if a rule of the list says the same.
pub proof fn law_every_compiled_rule_was_listed(
    configs: Seq<RuleConfigView>,
    present: Set<int>,
    j: int,
)
    requires
        0 <= j < ruleset::accepted(configs, present).len(),
    ensures
        exists|i: int|
            0 <= i < configs.len() && sound(#[trigger] configs[i], present) && ruleset::accepted(
                configs,
                present,
            )[j] == ruleset::compiled(configs[i], present),
    decreases configs.len(),
{
    let kept = ruleset::accepted(configs, present);
    let front = configs.drop_last();
    let fk = ruleset::accepted(front, present);
    lemma_sound(configs.last(), present);
    if j < fk.len() {
        law_every_compiled_rule_was_listed(front, present, j);
        let i = choose|i: int|
            0 <= i < front.len() && sound(#[trigger] front[i], present) && fk[j]
                == ruleset::compiled(front[i], present);
        assert(configs[i] == front[i]);
    } else {
        assert(configs[configs.len() - 1] == configs.last());
    }
}

// ---------------------------------------------------------------------
// Loading
// ---------------------------------------------------------------------

/// What an app of a loaded configuration states, by itself or by its profile,
/// is in force, in each policy that says anything: a rule of its package does
/// it on the CPUs that are there, or it is reported.
pub proof fn law_stated_policies_are_loaded(
    l: Loaded,
    st: StateView,
    file: Seq<char>,
    topo: CpuTopology,
    version: u64,
    k: int,
    thread: Seq<char>,
    p: PolicyModelView,
)
    requires
        store::loaded_as(l, st, file, topo, version),
        0 <= k < st.apps.len(),
        expand::states(config::filled_in(st.apps[k]), thread, p),
        !expand::silent(p),
    ensures
        ({
            let app = st.apps[k];
            let clusters = topo.clusters@;
            let present = topo.present_cpus@;
            let names = app.pkg.len() > 0 && text::bytes(app.pkg) < 128 && text::bytes(thread)
                < 32;
            &&& names && p.cpus is None && p.cluster is None ==> exists|i: int|
                0 <= i < l.snapshot.rules@.len() && enforces(
                    #[trigger] l.snapshot.rules@[i],
                    app.pkg,
                    thread,
                    p,
                    clusters,
                    present,
                )
            &&& names && (forall|list: Seq<char>| #[trigger]
                listed(list, p, clusters) ==> some_present(list, present)) ==> exists|i: int|
                0 <= i < l.snapshot.rules@.len() && enforces(
                    #[trigger] l.snapshot.rules@[i],
                    app.pkg,
                    thread,
                    p,
                    clusters,
                    present,
                )
            &&& !names ==> l.errors@.len() > 0
        }),
{
    let app = st.apps[k];
    let clusters = topo.clusters@;
    let present = topo.present_cpus@;
    let own = config::app_rules(app, clusters);
    let all = config::all_rules(st.apps, clusters);
    let kept = ruleset::accepted(all, present);
    expand::law_whatever_is_stated_becomes_a_rule(app, clusters, thread, p);
    let i = choose|i: int|
        0 <= i < own.len() && expand::says(#[trigger] own[i], app.pkg, thread, p, clusters);
    let at = expand::law_all_apps_contribute(st.apps, clusters, k, i);
    law_each_rule_is_compiled_or_reported(all, present, at);
    let rc = all[at];
    assert(listed(rc.cpus, p, clusters));
    if sound(rc, present) {
        let j = choose|j: int|
            0 <= j < kept.len() && #[trigger] kept[j] == ruleset::compiled(rc, present);
        let r = l.snapshot.rules@[j];
        assert(forall|c: int| #[trigger]
            r.policy.cpus.contains(c) <==> present.contains(c) && topology::range_cpus(
                rc.cpus,
            ).contains(c));
        assert(enforces(r, app.pkg, thread, p, clusters, present));
    } else {
        let left = ruleset::rejected(all, present);
        let j = choose|j: int| 0 <= j < left.len() && (#[trigger] left[j]).0 == at;
        assert(ruleset::error_views(l.errors@).len() == left.len());
    }
}

/// A rule in force comes of an app with its package, and either does what that
/// app states, by itself or by its profile, or the app states nothing.
pub proof fn law_nothing_else_is_loaded(
    l: Loaded,
    st: StateView,
    file: Seq<char>,
    topo: CpuTopology,
    version: u64,
    j: int,
)
    requires
        store::loaded_as(l, st, file, topo, version),
        0 <= j < l.snapshot.rules@.len(),
    ensures
        ({
            let r = l.snapshot.rules@[j];
            exists|k: int|
                0 <= k < st.apps.len() && (#[trigger] st.apps[k]).pkg == r.pkg && {
                    let a = config::filled_in(st.apps[k]);
                    ||| exists|p: PolicyModelView| #[trigger]
                        expand::states(a, r.thread, p) && !expand::silent(p) && enforces(
                            r,
                            r.pkg,
                            r.thread,
                            p,
                            topo.clusters@,
                            topo.present_cpus@,
                        )
                    ||| r.thread.len() == 0 && forall|t: Seq<char>, p: PolicyModelView| #[trigger]
                        expand::states(a, t, p) ==> expand::silent(p)
                }
        }),
{
    let clusters = topo.clusters@;
    let present = topo.present_cpus@;
    let all = config::all_rules(st.apps, clusters);
    let r = l.snapshot.rules@[j];
    law_every_compiled_rule_was_listed(all, present, j);
    let i = choose|i: int|
        0 <= i < all.len() && sound(#[trigger] all[i], present) && r == ruleset::compiled(
            all[i],
            present,
        );
    let rc = all[i];
    let (k, m) = lemma_origin(st.apps, clusters, i);
    let a = config::filled_in(st.apps[k]);
    expand::law_every_rule_was_stated(st.apps[k], clusters, m);
    if exists|p: PolicyModelView|
        !expand::silent(p) && expand::says(rc, st.apps[k].pkg, rc.thread, p, clusters)
            && #[trigger] expand::states(a, rc.thread, p) {
        let p = choose|p: PolicyModelView|
            !expand::silent(p) && expand::says(rc, st.apps[k].pkg, rc.thread, p, clusters)
                && #[trigger] expand::states(a, rc.thread, p);
        assert(listed(rc.cpus, p, clusters));
        assert(forall|c: int| #[trigger]
            r.policy.cpus.contains(c) <==> present.contains(c) && topology::range_cpus(
                rc.cpus,
            ).contains(c));
        assert(enforces(r, r.pkg, r.thread, p, clusters, present));
        assert(expand::states(a, r.thread, p));
    }
    assert(st.apps[k].pkg == r.pkg);
}

proof fn lemma_origin(apps: Seq<AppView>, clusters: Seq<topology::CpuCluster>, i: int) -> (r: (
    int,
    int,
))
    requires
        0 <= i < config::all_rules(apps, clusters).len(),
    ensures
        0 <= r.0 < apps.len(),
        0 <= r.1 < config::app_rules(apps[r.0], clusters).len(),
        config::all_rules(apps, clusters)[i] == config::app_rules(apps[r.0], clusters)[r.1],
    decreases apps.len(),
{
    let front = apps.drop_last();
    let before = config::all_rules(front, clusters);
    if i < before.len() {
        let (k, m) = lemma_origin(front, clusters, i);
        (k, m)
    } else {
        (apps.len() - 1, i - before.len())
    }
}

/// A configuration is taken just when its file could be read, is named as a
/// KDL file and holds one that says what can be understood. It is then taken
/// as it stands, and otherwise the answer tells what is wrong.
pub proof fn law_which_files_are_taken(file: Seq<char>, read: &str, failure: &str)
    ensures
        store::file_state(file, Err(failure)) is Err,
        store::file_state(file, Ok(read)) is Ok <==> file.len() >= 4 && file[file.len() - 4] == '.'
            && file[file.len() - 3] == 'k' && file[file.len() - 2] == 'd' && file[file.len() - 1]
            == 'l' && kdl_parser::text_state(read@) is Ok,
        store::file_state(file, Ok(read)) is Ok ==> store::file_state(file, Ok(read))
            == kdl_parser::text_state(read@),
        store::file_state(file, Err(failure)) matches Err(m) && exists|front: Seq<char>|
            m == #[trigger] (front + failure@),
{
    reveal_strlit(".kdl");
    let e = ".kdl"@;
    if file.len() >= 4 {
        let tail = file.skip(file.len() - 4);
        assert(tail[0] == file[file.len() - 4] && tail[1] == file[file.len() - 3] && tail[2]
            == file[file.len() - 2] && tail[3] == file[file.len() - 1]);
        if file[file.len() - 4] == '.' && file[file.len() - 3] == 'k' && file[file.len() - 2] == 'd'
            && file[file.len() - 1] == 'l' {
            assert(tail =~= e);
        }
    }
    assert("config read failed: "@ + failure@ == "config read failed: "@ + failure@);
}

/// A reload that fails leaves the configuration in force as it is. One that
/// succeeds puts the next version in force, with the settings that the file
/// states, and reports each rule that cannot be put in force.
pub proof fn law_failed_reloads_change_nothing(
    before: ConfigSnapshot,
    after: ConfigSnapshot,
    r: Result<Reloaded, String>,
    file: Seq<char>,
    topo: CpuTopology,
    read: &str,
    failure: &str,
    i: int,
)
    ensures
        store::reloaded(before, after, r, file, topo, Err(failure)) ==> r is Err && after == before,
        store::reloaded(before, after, r, file, topo, Ok(read)) ==> {
            &&& r is Err ==> after == before
            &&& r is Ok ==> (kdl_parser::text_state(read@) matches Ok(st) && {
                let rules = config::all_rules(st.apps, topo.clusters@);
                &&& after.version == before.version + 1
                &&& r->Ok_0.version == after.version
                &&& after.config_file@ == file
                &&& after.daemon@ == st.daemon
                &&& after.engine == st.engine
                &&& 0 <= i < rules.len() ==> (sound(rules[i], topo.present_cpus@) <==> !(exists|
                    j: int,
                |
                    0 <= j < r->Ok_0.errors@.len() && (
                    #[trigger] r->Ok_0.errors@[j]).index as int == i))
            })
        },
{
    if store::reloaded(before, after, r, file, topo, Ok(read)) && r is Ok {
        law_which_files_are_taken(file, read, failure);
        let st = kdl_parser::text_state(read@)->Ok_0;
        let rules = config::all_rules(st.apps, topo.clusters@);
        let errors = r->Ok_0.errors@;
        let left = ruleset::rejected(rules, topo.present_cpus@);
        assert(ruleset::error_views(errors) == left);
        assert forall|j: int| 0 <= j < errors.len() implies left[j].0 == (
        #[trigger] errors[j]).index as int by {
            assert(ruleset::error_views(errors)[j] == left[j]);
        }
        if 0 <= i < rules.len() {
            law_each_rule_is_compiled_or_reported(rules, topo.present_cpus@, i);
            if exists|j: int| 0 <= j < left.len() && (#[trigger] left[j]).0 == i {
                let j = choose|j: int| 0 <= j < left.len() && (#[trigger] left[j]).0 == i;
                assert(errors[j].index as int == i);
            }
        }
    }
}

} // verus!
