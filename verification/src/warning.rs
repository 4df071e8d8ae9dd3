//! What a configuration says that cannot have the effect that was meant.

use vstd::prelude::*;

use crate::config;
use crate::config::{AppModel, AppView, ConfigModel, NamedPolicy, PolicyModel, PolicyModelView, RuleConfig,
    RuleConfigView};
use crate::profile;
use crate::ruleset;
use crate::text;
use crate::topology::{CpuCluster, MAX_PKG_LEN, MAX_THREAD_LEN};

verus! {

// ---------------------------------------------------------------------
// Warnings
// ---------------------------------------------------------------------

/// A remark on a configuration that is used all the same.
#[derive(Debug, Clone, PartialEq, Eq)]
pub enum Warning {
    /// An app names a profile that is not built in and starts from nothing.
    UnknownProfile { pkg: String, profile: String },
    /// A policy names a cluster that the machine does not have; another one
    /// takes its place.
    MissingCluster { pkg: String, cluster: String },
    /// A rule, counted from one, spells a thread name that is longer than
    /// what the kernel keeps of it, and so never matches.
    LongThread { rule: usize, thread: String, kept: String },
}

/// The contents of a warning.
pub enum WarningView {
    UnknownProfile { pkg: Seq<char>, profile: Seq<char> },
    MissingCluster { pkg: Seq<char>, cluster: Seq<char> },
    LongThread { rule: int, thread: Seq<char>, kept: Seq<char> },
}

impl View for Warning {
    type V = WarningView;

    open spec fn view(&self) -> WarningView {
        match *self {
            Warning::UnknownProfile { pkg, profile } => WarningView::UnknownProfile {
                pkg: pkg@,
                profile: profile@,
            },
            Warning::MissingCluster { pkg, cluster } => WarningView::MissingCluster {
                pkg: pkg@,
                cluster: cluster@,
            },
            Warning::LongThread { rule, thread, kept } => WarningView::LongThread {
                rule: rule as int,
                thread: thread@,
                kept: kept@,
            },
        }
    }
}

/// The contents of several warnings.
pub open spec fn warning_views(v: Seq<Warning>) -> Seq<WarningView> {
    Seq::new(v.len(), |i: int| v[i]@)
}

proof fn lemma_pushed(v: Seq<Warning>, w: Warning)
    ensures
        warning_views(v.push(w)) == warning_views(v).push(w@),
{
    assert(warning_views(v.push(w)) =~= warning_views(v).push(w@));
}

// ---------------------------------------------------------------------
// Apps
// ---------------------------------------------------------------------

/// The warning on the cluster of a policy, as often as the policy is used.
pub open spec fn policy_warnings(
    pkg: Seq<char>,
    pol: PolicyModelView,
    clusters: Seq<CpuCluster>,
    uses: nat,
) -> Seq<WarningView> {
    match pol.cluster {
        Some(name) => if pol.cpus is None && config::missing_cluster(name, clusters) {
            Seq::new(uses, |i: int| WarningView::MissingCluster { pkg, cluster: name })
        } else {
            Seq::empty()
        },
        None => Seq::empty(),
    }
}

/// The warnings on policies of threads, by name.
pub open spec fn thread_warnings(
    pkg: Seq<char>,
    t: Seq<(Seq<char>, PolicyModelView)>,
    clusters: Seq<CpuCluster>,
) -> Seq<WarningView>
    decreases t.len(),
{
    if t.len() == 0 {
        Seq::empty()
    } else {
        thread_warnings(pkg, t.drop_last(), clusters) + policy_warnings(
            pkg,
            t.last().1,
            clusters,
            1,
        )
    }
}

/// How many thread-name patterns a thread type stands for.
pub open spec fn pattern_count(ttype: Seq<char>) -> nat {
    match config::type_patterns(ttype) {
        Some(ps) => ps.len(),
        None => 0,
    }
}

/// The warnings on policies of thread types, once for each pattern.
pub open spec fn type_warnings(
    pkg: Seq<char>,
    t: Seq<(Seq<char>, PolicyModelView)>,
    clusters: Seq<CpuCluster>,
) -> Seq<WarningView>
    decreases t.len(),
{
    if t.len() == 0 {
        Seq::empty()
    } else {
        type_warnings(pkg, t.drop_last(), clusters) + policy_warnings(
            pkg,
            t.last().1,
            clusters,
            pattern_count(t.last().0),
        )
    }
}

/// The warning on the profile of an app.
pub open spec fn profile_warnings(app: AppView) -> Seq<WarningView> {
    match app.profile {
        Some(name) => if profile::builtin(name) is None {
            seq![WarningView::UnknownProfile { pkg: app.pkg, profile: name }]
        } else {
            Seq::empty()
        },
        None => Seq::empty(),
    }
}

/// The warnings on an app: on its profile, then on the clusters that it names
/// itself or through the profile.
pub open spec fn app_warnings(app: AppView, clusters: Seq<CpuCluster>) -> Seq<WarningView> {
    let a = config::filled_in(app);
    profile_warnings(app) + policy_warnings(a.pkg, a.default_policy, clusters, 1) + thread_warnings(
        a.pkg,
        a.threads,
        clusters,
    ) + type_warnings(a.pkg, a.thread_types, clusters)
}

/// The warnings on several apps.
pub open spec fn model_warnings(apps: Seq<AppView>, clusters: Seq<CpuCluster>) -> Seq<WarningView>
    decreases apps.len(),
{
    if apps.len() == 0 {
        Seq::empty()
    } else {
        model_warnings(apps.drop_last(), clusters) + app_warnings(apps.last(), clusters)
    }
}

fn note_policy(
    out: &mut Vec<Warning>,
    pkg: &str,
    pol: &PolicyModel,
    clusters: &[CpuCluster],
    uses: usize,
)
    ensures
        warning_views(final(out)@) == warning_views(old(out)@) + policy_warnings(
            pkg@,
            pol@,
            clusters@,
            uses as nat,
        ),
{
    let ghost before = warning_views(out@);
    if let (None, Some(name)) = (&pol.cpus, &pol.cluster) {
        if config::cluster_missing(name.as_str(), clusters) {
            let ghost w = WarningView::MissingCluster { pkg: pkg@, cluster: name@ };
            let mut i: usize = 0;
            while i < uses
                invariant
                    0 <= i <= uses,
                    w == (WarningView::MissingCluster { pkg: pkg@, cluster: name@ }),
                    warning_views(out@) == before + Seq::new(i as nat, |k: int| w),
                decreases uses - i,
            {
                let ghost v = out@;
                let m = Warning::MissingCluster { pkg: pkg.to_owned(), cluster: name.clone() };
                out.push(m);
                proof {
                    lemma_pushed(v, m);
                    assert(warning_views(out@) =~= before + Seq::new((i + 1) as nat, |k: int| w));
                }
                i += 1;
            }
            proof {
                assert(policy_warnings(pkg@, pol@, clusters@, uses as nat) =~= Seq::new(
                    uses as nat,
                    |k: int| w,
                ));
            }
            return;
        }
    }
    proof {
        assert(before + policy_warnings(pkg@, pol@, clusters@, uses as nat) =~= before);
    }
}

fn note_threads(
    out: &mut Vec<Warning>,
    pkg: &str,
    t: &Vec<NamedPolicy>,
    clusters: &[CpuCluster],
)
    ensures
        warning_views(final(out)@) == warning_views(old(out)@) + thread_warnings(
            pkg@,
            config::table(t@),
            clusters@,
        ),
{
    let ghost all = config::table(t@);
    let ghost before = warning_views(out@);
    let mut i: usize = 0;
    proof {
        assert(before + thread_warnings(pkg@, all.take(0), clusters@) =~= before);
    }
    while i < t.len()
        invariant
            0 <= i <= t@.len(),
            all == config::table(t@),
            warning_views(out@) == before + thread_warnings(pkg@, all.take(i as int), clusters@),
        decreases t@.len() - i,
    {
        proof {
            assert(all.take(i + 1).drop_last() =~= all.take(i as int));
        }
        note_policy(out, pkg, &t[i].policy, clusters, 1);
        proof {
            assert(warning_views(out@) =~= before + thread_warnings(
                pkg@,
                all.take(i + 1),
                clusters@,
            ));
        }
        i += 1;
    }
    proof {
        assert(all.take(i as int) =~= all);
    }
}

fn note_types(out: &mut Vec<Warning>, pkg: &str, t: &Vec<NamedPolicy>, clusters: &[CpuCluster])
    ensures
        warning_views(final(out)@) == warning_views(old(out)@) + type_warnings(
            pkg@,
            config::table(t@),
            clusters@,
        ),
{
    let ghost all = config::table(t@);
    let ghost before = warning_views(out@);
    let mut i: usize = 0;
    proof {
        assert(before + type_warnings(pkg@, all.take(0), clusters@) =~= before);
    }
    while i < t.len()
        invariant
            0 <= i <= t@.len(),
            all == config::table(t@),
            warning_views(out@) == before + type_warnings(pkg@, all.take(i as int), clusters@),
        decreases t@.len() - i,
    {
        proof {
            assert(all.take(i + 1).drop_last() =~= all.take(i as int));
        }
        let uses: usize = match config::thread_type_patterns(t[i].name.as_str()) {
            Some(patterns) => patterns.len(),
            None => 0,
        };
        note_policy(out, pkg, &t[i].policy, clusters, uses);
        proof {
            assert(warning_views(out@) =~= before + type_warnings(
                pkg@,
                all.take(i + 1),
                clusters@,
            ));
        }
        i += 1;
    }
    proof {
        assert(all.take(i as int) =~= all);
    }
}

fn note_app(out: &mut Vec<Warning>, app: &AppModel, clusters: &[CpuCluster])
    ensures
        warning_views(final(out)@) == warning_views(old(out)@) + app_warnings(app@, clusters@),
{
    let ghost before = warning_views(out@);
    if let Some(name) = &app.profile {
        if !profile::is_valid_profile(name.as_str()) {
            let ghost v = out@;
            let w = Warning::UnknownProfile { pkg: app.pkg.clone(), profile: name.clone() };
            out.push(w);
            proof {
                lemma_pushed(v, w);
            }
        }
    }
    proof {
        assert(warning_views(out@) =~= before + profile_warnings(app@));
    }
    let full = config::fill_in(app);
    note_policy(out, full.pkg.as_str(), &full.default_policy, clusters, 1);
    note_threads(out, full.pkg.as_str(), &full.threads, clusters);
    note_types(out, full.pkg.as_str(), &full.thread_types, clusters);
    proof {
        assert(warning_views(out@) =~= before + app_warnings(app@, clusters@));
    }
}

// ---------------------------------------------------------------------
// Rules
// ---------------------------------------------------------------------

/// What the kernel keeps of a thread name that a rule spells in full, when
/// that is less than all of it.
pub open spec fn kept_name(thread: Seq<char>) -> Option<Seq<char>> {
    if text::bytes(thread) > 15 && !ruleset::is_pattern(thread) {
        Some(
            if thread.len() > 15 {
                thread.take(15)
            } else {
                thread
            },
        )
    } else {
        None
    }
}

/// The warning on the thread name of a rule. A rule whose names are refused
/// gets none.
pub open spec fn rule_warning(rc: RuleConfigView, number: int) -> Option<WarningView> {
    if rc.pkg.len() == 0 || text::bytes(rc.pkg) >= MAX_PKG_LEN || text::bytes(rc.thread)
        >= MAX_THREAD_LEN {
        None
    } else {
        match kept_name(rc.thread) {
            Some(kept) => Some(
                WarningView::LongThread { rule: number, thread: rc.thread, kept },
            ),
            None => None,
        }
    }
}

/// The warnings on the thread names of rules.
pub open spec fn rule_warnings(rules: Seq<RuleConfigView>) -> Seq<WarningView>
    decreases rules.len(),
{
    if rules.len() == 0 {
        Seq::empty()
    } else {
        match rule_warning(rules.last(), rules.len() as int) {
            Some(w) => rule_warnings(rules.drop_last()).push(w),
            None => rule_warnings(rules.drop_last()),
        }
    }
}

/// What the kernel keeps of a thread name that a rule spells in full, when
/// that is less than all of it: fifteen characters.
pub fn truncated_name(thread: &str) -> (r: Option<String>)
    ensures
        text::opt_text(r) == kept_name(thread@),
{
    if text::byte_len(thread) > 15 && !ruleset::contains_wildcard(thread) {
        let chars = text::chars_of(thread);
        if chars.len() > 15 {
            proof {
                assert(chars@.subrange(0, 15) =~= thread@.take(15));
            }
            Some(text::string_of(vstd::slice::slice_subrange(chars.as_slice(), 0, 15)))
        } else {
            Some(text::string_of(chars.as_slice()))
        }
    } else {
        None
    }
}

fn note_rules(out: &mut Vec<Warning>, rules: &Vec<RuleConfig>)
    ensures
        warning_views(final(out)@) == warning_views(old(out)@) + rule_warnings(
            config::rule_views(rules@),
        ),
{
    let ghost all = config::rule_views(rules@);
    let ghost before = warning_views(out@);
    let mut i: usize = 0;
    proof {
        assert(before + rule_warnings(all.take(0)) =~= before);
    }
    while i < rules.len()
        invariant
            0 <= i <= rules@.len(),
            all == config::rule_views(rules@),
            warning_views(out@) == before + rule_warnings(all.take(i as int)),
        decreases rules@.len() - i,
    {
        proof {
            assert(all.take(i + 1).drop_last() =~= all.take(i as int));
            assert(all.take(i + 1).last() == rules@[i as int]@);
        }
        let rc = &rules[i];
        if !(rc.pkg.as_str().is_empty() || text::byte_len(rc.pkg.as_str()) >= MAX_PKG_LEN
            || text::byte_len(rc.thread.as_str()) >= MAX_THREAD_LEN) {
            if let Some(kept) = truncated_name(rc.thread.as_str()) {
                let ghost v = out@;
                let w = Warning::LongThread { rule: i + 1, thread: rc.thread.clone(), kept };
                out.push(w);
                proof {
                    lemma_pushed(v, w);
                }
            }
        }
        proof {
            assert(warning_views(out@) =~= before + rule_warnings(all.take(i + 1)));
        }
        i += 1;
    }
    proof {
        assert(all.take(i as int) =~= all);
    }
}

/// The warnings on a configuration: on its apps, then on the rules that they
/// come to.
pub open spec fn warnings_on(apps: Seq<AppView>, clusters: Seq<CpuCluster>) -> Seq<WarningView> {
    model_warnings(apps, clusters) + rule_warnings(config::all_rules(apps, clusters))
}

/// The warnings on a configuration.
pub fn warnings(model: &ConfigModel, clusters: &[CpuCluster]) -> (r: Vec<Warning>)
    ensures
        warning_views(r@) == warnings_on(config::app_views(model.apps@), clusters@),
{
    let mut out: Vec<Warning> = Vec::new();
    let ghost all = config::app_views(model.apps@);
    let mut i: usize = 0;
    proof {
        assert(warning_views(out@) =~= model_warnings(all.take(0), clusters@));
    }
    while i < model.apps.len()
        invariant
            0 <= i <= model.apps@.len(),
            all == config::app_views(model.apps@),
            warning_views(out@) == model_warnings(all.take(i as int), clusters@),
        decreases model.apps@.len() - i,
    {
        proof {
            assert(all.take(i + 1).drop_last() =~= all.take(i as int));
            assert(all.take(i + 1).last() == model.apps@[i as int]@);
        }
        note_app(&mut out, &model.apps[i], clusters);
        i += 1;
    }
    proof {
        assert(all.take(i as int) =~= all);
    }
    let rules = model.to_rules_with_clusters(clusters);
    note_rules(&mut out, &rules);
    out
}

// ---------------------------------------------------------------------
// Laws
// ---------------------------------------------------------------------

/// Whether a policy names a cluster that a machine does not have.
pub open spec fn names_missing(pol: PolicyModelView, clusters: Seq<CpuCluster>) -> bool {
    pol.cpus is None && pol.cluster is Some && config::missing_cluster(pol.cluster->0, clusters)
}

/// The warning on the cluster of a policy.
pub open spec fn cluster_warning(pkg: Seq<char>, pol: PolicyModelView) -> WarningView {
    WarningView::MissingCluster { pkg, cluster: pol.cluster->0 }
}

proof fn lemma_in_either(a: Seq<WarningView>, b: Seq<WarningView>, w: WarningView)
    ensures
        (a + b).contains(w) == (a.contains(w) || b.contains(w)),
{
    if a.contains(w) {
        let i = choose|i: int| 0 <= i < a.len() && a[i] == w;
        assert((a + b)[i] == w);
    }
    if b.contains(w) {
        let i = choose|i: int| 0 <= i < b.len() && b[i] == w;
        assert((a + b)[a.len() + i] == w);
    }
}

proof fn lemma_policy_noted(
    pkg: Seq<char>,
    pol: PolicyModelView,
    clusters: Seq<CpuCluster>,
    uses: nat,
)
    requires
        names_missing(pol, clusters),
        uses > 0,
    ensures
        policy_warnings(pkg, pol, clusters, uses).contains(cluster_warning(pkg, pol)),
{
    assert(policy_warnings(pkg, pol, clusters, uses)[0] == cluster_warning(pkg, pol));
}

proof fn lemma_thread_noted(
    pkg: Seq<char>,
    t: Seq<(Seq<char>, PolicyModelView)>,
    clusters: Seq<CpuCluster>,
    j: int,
)
    requires
        0 <= j < t.len(),
        names_missing(t[j].1, clusters),
    ensures
        thread_warnings(pkg, t, clusters).contains(cluster_warning(pkg, t[j].1)),
    decreases t.len(),
{
    let w = cluster_warning(pkg, t[j].1);
    lemma_in_either(
        thread_warnings(pkg, t.drop_last(), clusters),
        policy_warnings(pkg, t.last().1, clusters, 1),
        w,
    );
    if j < t.len() - 1 {
        lemma_thread_noted(pkg, t.drop_last(), clusters, j);
    } else {
        lemma_policy_noted(pkg, t.last().1, clusters, 1);
    }
}

proof fn lemma_type_noted(
    pkg: Seq<char>,
    t: Seq<(Seq<char>, PolicyModelView)>,
    clusters: Seq<CpuCluster>,
    j: int,
)
    requires
        0 <= j < t.len(),
        names_missing(t[j].1, clusters),
        pattern_count(t[j].0) > 0,
    ensures
        type_warnings(pkg, t, clusters).contains(cluster_warning(pkg, t[j].1)),
    decreases t.len(),
{
    let w = cluster_warning(pkg, t[j].1);
    lemma_in_either(
        type_warnings(pkg, t.drop_last(), clusters),
        policy_warnings(pkg, t.last().1, clusters, pattern_count(t.last().0)),
        w,
    );
    if j < t.len() - 1 {
        lemma_type_noted(pkg, t.drop_last(), clusters, j);
    } else {
        lemma_policy_noted(pkg, t.last().1, clusters, pattern_count(t.last().0));
    }
}

proof fn lemma_app_noted(apps: Seq<AppView>, clusters: Seq<CpuCluster>, a: int, w: WarningView)
    requires
        0 <= a < apps.len(),
        app_warnings(apps[a], clusters).contains(w),
    ensures
        warnings_on(apps, clusters).contains(w),
        model_warnings(apps, clusters).contains(w),
    decreases apps.len(),
{
    lemma_in_either(
        model_warnings(apps.drop_last(), clusters),
        app_warnings(apps.last(), clusters),
        w,
    );
    if a < apps.len() - 1 {
        lemma_app_noted(apps.drop_last(), clusters, a, w);
    }
    lemma_in_either(
        model_warnings(apps, clusters),
        rule_warnings(config::all_rules(apps, clusters)),
        w,
    );
}

/// Whatever policy of an app names a cluster that the machine does not have,
/// itself or through its profile, there is a warning on it.
pub proof fn law_missing_clusters_are_reported(
    apps: Seq<AppView>,
    clusters: Seq<CpuCluster>,
    a: int,
)
    requires
        0 <= a < apps.len(),
    ensures
        ({
            let app = config::filled_in(apps[a]);
            let ws = warnings_on(apps, clusters);
            &&& names_missing(app.default_policy, clusters) ==> ws.contains(
                cluster_warning(app.pkg, app.default_policy),
            )
            &&& forall|j: int|
                0 <= j < app.threads.len() && names_missing((#[trigger] app.threads[j]).1, clusters)
                    ==> ws.contains(cluster_warning(app.pkg, app.threads[j].1))
            &&& forall|j: int|
                0 <= j < app.thread_types.len() && names_missing(
                    (#[trigger] app.thread_types[j]).1,
                    clusters,
                ) && pattern_count(app.thread_types[j].0) > 0 ==> ws.contains(
                    cluster_warning(app.pkg, app.thread_types[j].1),
                )
        }),
{
    let app = config::filled_in(apps[a]);
    let first = profile_warnings(apps[a]);
    let second = policy_warnings(app.pkg, app.default_policy, clusters, 1);
    let third = thread_warnings(app.pkg, app.threads, clusters);
    let fourth = type_warnings(app.pkg, app.thread_types, clusters);
    assert forall|w: WarningView|
        second.contains(w) || third.contains(w) || fourth.contains(w) implies warnings_on(
        apps,
        clusters,
    ).contains(w) by {
        lemma_in_either(first, second, w);
        lemma_in_either(first + second, third, w);
        lemma_in_either(first + second + third, fourth, w);
        lemma_app_noted(apps, clusters, a, w);
    }
    if names_missing(app.default_policy, clusters) {
        lemma_policy_noted(app.pkg, app.default_policy, clusters, 1);
    }
    assert forall|j: int|
        0 <= j < app.threads.len() && names_missing(
            (#[trigger] app.threads[j]).1,
            clusters,
        ) implies third.contains(cluster_warning(app.pkg, app.threads[j].1)) by {
        lemma_thread_noted(app.pkg, app.threads, clusters, j);
    }
    assert forall|j: int|
        0 <= j < app.thread_types.len() && names_missing(
            (#[trigger] app.thread_types[j]).1,
            clusters,
        ) && pattern_count(app.thread_types[j].0) > 0 implies fourth.contains(
        cluster_warning(app.pkg, app.thread_types[j].1),
    ) by {
        lemma_type_noted(app.pkg, app.thread_types, clusters, j);
    }
}

/// An app whose profile is not built in gets a warning.
pub proof fn law_unknown_profiles_are_reported(
    apps: Seq<AppView>,
    clusters: Seq<CpuCluster>,
    a: int,
)
    requires
        0 <= a < apps.len(),
        apps[a].profile is Some,
        profile::builtin(apps[a].profile->0) is None,
    ensures
        warnings_on(apps, clusters).contains(
            WarningView::UnknownProfile { pkg: apps[a].pkg, profile: apps[a].profile->0 },
        ),
{
    let w = WarningView::UnknownProfile { pkg: apps[a].pkg, profile: apps[a].profile->0 };
    let app = config::filled_in(apps[a]);
    let first = profile_warnings(apps[a]);
    let second = policy_warnings(app.pkg, app.default_policy, clusters, 1);
    let third = thread_warnings(app.pkg, app.threads, clusters);
    assert(first[0] == w);
    lemma_in_either(first, second, w);
    lemma_in_either(first + second, third, w);
    lemma_in_either(
        first + second + third,
        type_warnings(app.pkg, app.thread_types, clusters),
        w,
    );
    lemma_app_noted(apps, clusters, a, w);
}

/// A rule that spells a thread name longer than what the kernel keeps is
/// never passed over in silence: it is refused with an error, or there is a
/// warning on it.
pub proof fn law_long_names_are_reported(
    rules: Seq<RuleConfigView>,
    present: Set<int>,
    i: int,
)
    requires
        0 <= i < rules.len(),
        kept_name(rules[i].thread) is Some,
    ensures
        ruleset::rejection(rules[i], present) is Some || rule_warnings(rules).contains(
            WarningView::LongThread {
                rule: i + 1,
                thread: rules[i].thread,
                kept: kept_name(rules[i].thread)->0,
            },
        ),
    decreases rules.len(),
{
    let w = WarningView::LongThread {
        rule: i + 1,
        thread: rules[i].thread,
        kept: kept_name(rules[i].thread)->0,
    };
    let before = rule_warnings(rules.drop_last());
    if i < rules.len() - 1 {
        law_long_names_are_reported(rules.drop_last(), present, i);
        if before.contains(w) {
            let k = choose|k: int| 0 <= k < before.len() && before[k] == w;
            assert(rule_warnings(rules)[k] == w);
        }
    } else if ruleset::rejection(rules[i], present) is None {
        assert(rule_warning(rules[i], i + 1) == Some(w));
        assert(rule_warnings(rules).last() == w);
    }
}

} // verus!
