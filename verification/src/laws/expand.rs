//! What a configuration expands to.

use vstd::prelude::*;

use crate::config;
use crate::config::{AppView, PolicyModelView, RuleConfigView};
use crate::profile;
use crate::profile::ProfileView;
use crate::text;
use crate::topology::{CpuCluster, CpuClusterKind};

verus! {

// ---------------------------------------------------------------------
// What the laws speak of
// ---------------------------------------------------------------------

/// Whether a policy says nothing.
pub open spec fn silent(p: PolicyModelView) -> bool {
    p.cluster is None && p.cpus is None && p.uclamp_min is None && p.uclamp_max is None && p.sched
        is None && p.nice is None
}

/// Whether a table has just this policy under a name.
pub open spec fn holds(
    t: Seq<(Seq<char>, PolicyModelView)>,
    name: Seq<char>,
    p: PolicyModelView,
) -> bool {
    &&& exists|i: int| 0 <= i < t.len() && #[trigger] t[i] == (name, p)
    &&& forall|i: int| 0 <= i < t.len() && (#[trigger] t[i]).0 == name ==> t[i].1 == p
}

/// Whether a table has nothing under a name.
pub open spec fn lacks(t: Seq<(Seq<char>, PolicyModelView)>, name: Seq<char>) -> bool {
    forall|i: int| 0 <= i < t.len() ==> (#[trigger] t[i]).0 != name
}

/// Whether a table has each name once.
pub open spec fn distinct(t: Seq<(Seq<char>, PolicyModelView)>) -> bool {
    forall|i: int, j: int|
        0 <= i < j < t.len() ==> (#[trigger] t[i]).0 != (#[trigger] t[j]).0
}

/// Whether `m` is what `base` says, but for what `user` says. CPUs and a
/// cluster exclude each other, and CPUs go first.
pub open spec fn laid_over(
    m: PolicyModelView,
    base: PolicyModelView,
    user: PolicyModelView,
) -> bool {
    &&& user.sched is Some ==> m.sched == user.sched
    &&& user.sched is None ==> m.sched == base.sched
    &&& user.nice is Some ==> m.nice == user.nice
    &&& user.nice is None ==> m.nice == base.nice
    &&& user.uclamp_min is Some ==> m.uclamp_min == user.uclamp_min
    &&& user.uclamp_min is None ==> m.uclamp_min == base.uclamp_min
    &&& user.uclamp_max is Some ==> m.uclamp_max == user.uclamp_max
    &&& user.uclamp_max is None ==> m.uclamp_max == base.uclamp_max
    &&& user.cpus is Some ==> m.cpus == user.cpus && m.cluster is None
    &&& user.cpus is None && user.cluster is Some ==> m.cluster == user.cluster && m.cpus is None
    &&& user.cpus is None && user.cluster is None ==> m.cluster == base.cluster && m.cpus
        == base.cpus
}

// ---------------------------------------------------------------------
// Tables
// ---------------------------------------------------------------------

proof fn lemma_index(t: Seq<(Seq<char>, PolicyModelView)>, name: Seq<char>)
    ensures
        ({
            let i = config::table_index(t, name);
            &&& 0 <= i <= t.len()
            &&& i < t.len() ==> t[i].0 == name
            &&& i == t.len() <==> lacks(t, name)
        }),
    decreases t.len(),
{
    if t.len() > 0 {
        if t[0].0 != name {
            let rest = t.skip(1);
            lemma_index(rest, name);
            let i = config::table_index(rest, name);
            if i < rest.len() {
                assert(t[i + 1] == rest[i]);
            } else {
                assert forall|k: int| 0 <= k < t.len() implies (#[trigger] t[k]).0 != name by {
                    if k > 0 {
                        assert(rest[k - 1] == t[k]);
                    }
                }
            }
        }
    }
}

/// What stands in a table after a policy was put under a name.
pub proof fn lemma_put(
    t: Seq<(Seq<char>, PolicyModelView)>,
    name: Seq<char>,
    p: PolicyModelView,
    other: Seq<char>,
    q: PolicyModelView,
)
    requires
        distinct(t),
    ensures
        ({
            let u = config::table_put(t, name, p);
            &&& distinct(u)
            &&& holds(u, name, p)
            &&& other != name ==> (holds(u, other, q) <==> holds(t, other, q))
            &&& other != name ==> (lacks(u, other) <==> lacks(t, other))
        }),
{
    let u = config::table_put(t, name, p);
    let k = config::table_index(t, name);
    lemma_index(t, name);
    assert forall|i: int, j: int| 0 <= i < j < u.len() implies (#[trigger] u[i]).0 != (
    #[trigger] u[j]).0 by {
        assert(i < t.len() ==> t[i].0 == u[i].0);
        assert(j < t.len() ==> t[j].0 == u[j].0);
    }
    assert(u[k] == (name, p));
    assert forall|i: int| 0 <= i < u.len() && (#[trigger] u[i]).0 == name implies u[i].1 == p by {}
    if other != name {
        assert forall|i: int| 0 <= i < t.len() && (#[trigger] t[i]).0 == other implies u[i]
            == t[i] by {}
        assert forall|i: int| 0 <= i < u.len() && (#[trigger] u[i]).0 == other implies i < t.len()
            && t[i] == u[i] by {}
        if holds(t, other, q) {
            let i = choose|i: int| 0 <= i < t.len() && #[trigger] t[i] == (other, q);
            assert(u[i] == (other, q));
        }
        if holds(u, other, q) {
            let i = choose|i: int| 0 <= i < u.len() && #[trigger] u[i] == (other, q);
            assert(t[i] == (other, q));
            assert forall|j: int| 0 <= j < t.len() && (#[trigger] t[j]).0 == other implies t[j].1
                == q by {
                assert(u[j] == t[j]);
            }
        }
        if lacks(u, other) {
            assert forall|i: int| 0 <= i < t.len() implies (#[trigger] t[i]).0 != other by {
                assert(u[i].0 == t[i].0);
            }
        }
    }
}

/// What a table of the user's makes of another, name by name.
proof fn lemma_overridden(
    base: Seq<(Seq<char>, PolicyModelView)>,
    user: Seq<(Seq<char>, PolicyModelView)>,
    name: Seq<char>,
    b: PolicyModelView,
    u: PolicyModelView,
)
    requires
        distinct(base),
        distinct(user),
    ensures
        ({
            let t = config::table_overridden(base, user);
            &&& distinct(t)
            &&& lacks(user, name) ==> (holds(base, name, b) <==> holds(t, name, b))
            &&& lacks(user, name) ==> (lacks(base, name) <==> lacks(t, name))
            &&& holds(user, name, u) && holds(base, name, b) ==> holds(
                t,
                name,
                config::overridden(b, u),
            )
            &&& holds(user, name, u) && lacks(base, name) ==> holds(
                t,
                name,
                config::overridden(config::unset_policy(), u),
            )
        }),
    decreases user.len(),
{
    if user.len() > 0 {
        let front = user.drop_last();
        let t = config::table_overridden(base, front);
        let n = user.len() - 1;
        let (last, p) = user.last();
        assert(user[n] == (last, p));
        assert(distinct(front)) by {
            assert forall|i: int, j: int| 0 <= i < j < front.len() implies (#[trigger] front[i]).0
                != (#[trigger] front[j]).0 by {
                assert(user[i] == front[i] && user[j] == front[j]);
            }
        }
        assert forall|i: int| 0 <= i < n implies #[trigger] front[i] == user[i] by {}
        lemma_overridden(base, front, name, b, u);
        let made = config::overridden(config::table_get(t, last), p);
        lemma_put(t, last, made, name, b);
        lemma_put(t, last, made, name, config::overridden(b, u));
        lemma_put(t, last, made, name, config::overridden(config::unset_policy(), u));
        if last == name {
            assert(lacks(front, name)) by {
                assert forall|i: int| 0 <= i < front.len() implies (#[trigger] front[i]).0
                    != name by {
                    assert(user[i].0 != user[n].0);
                }
            }
            lemma_index(t, name);
            let i = config::table_index(t, name);
            if holds(user, name, u) {
                assert(user[n].0 == name);
                assert(p == u);
                if holds(base, name, b) {
                    assert(holds(t, name, b));
                    let k = choose|k: int| 0 <= k < t.len() && #[trigger] t[k] == (name, b);
                    assert(t[k].0 == name);
                    assert(t[i].1 == b);
                }
            }
            if lacks(user, name) {
                assert(user[n].0 != name);
            }
        } else {
            if lacks(user, name) {
                assert forall|i: int| 0 <= i < front.len() implies (#[trigger] front[i]).0
                    != name by {
                    assert(user[i].0 != name);
                }
            }
            if holds(user, name, u) {
                let i = choose|i: int| 0 <= i < user.len() && #[trigger] user[i] == (name, u);
                assert(front[i] == (name, u));
                assert forall|j: int| 0 <= j < front.len() && (#[trigger] front[j]).0
                    == name implies front[j].1 == u by {
                    assert(user[j] == front[j]);
                }
            }
        }
    }
}

proof fn lemma_laid_over(base: PolicyModelView, user: PolicyModelView)
    ensures
        laid_over(config::overridden(base, user), base, user),
{
}

proof fn lemma_silent(p: PolicyModelView)
    ensures
        silent(p) <==> p == config::unset_policy(),
{
}

// ---------------------------------------------------------------------
// Profiles
// ---------------------------------------------------------------------

/// An app that names a built-in profile and states nothing itself has just
/// what the profile states.
pub proof fn law_profile_alone_is_what_it_says(app: AppView, name: Seq<char>, p: ProfileView)
    requires
        app.profile == Some(name),
        profile::builtin(name) == Some(p),
        silent(app.default_policy),
        app.threads.len() == 0,
        app.thread_types.len() == 0,
    ensures
        config::filled_in(app).pkg == app.pkg,
        config::filled_in(app).default_policy == p.default,
        config::filled_in(app).threads == p.threads,
        config::filled_in(app).thread_types == p.thread_types,
{
}

/// An app whose profile is none of the built-in ones, or which has none, has
/// just what it states itself, whatever it states for all threads, for a
/// thread name or for a thread type.
pub proof fn law_no_profile_adds_nothing(app: AppView, name: Seq<char>, u: PolicyModelView)
    requires
        app.profile matches Some(n) ==> profile::builtin(n) is None,
        distinct(app.threads),
        distinct(app.thread_types),
    ensures
        laid_over(
            config::filled_in(app).default_policy,
            config::unset_policy(),
            app.default_policy,
        ),
        holds(app.threads, name, u) ==> exists|m: PolicyModelView|
            laid_over(m, config::unset_policy(), u) && #[trigger] holds(
                config::filled_in(app).threads,
                name,
                m,
            ),
        lacks(app.threads, name) ==> lacks(config::filled_in(app).threads, name),
        holds(app.thread_types, name, u) ==> exists|m: PolicyModelView|
            laid_over(m, config::unset_policy(), u) && #[trigger] holds(
                config::filled_in(app).thread_types,
                name,
                m,
            ),
        lacks(app.thread_types, name) ==> lacks(config::filled_in(app).thread_types, name),
{
    let none = Seq::<(Seq<char>, PolicyModelView)>::empty();
    let m = config::overridden(config::unset_policy(), u);
    lemma_overridden(none, app.threads, name, u, u);
    lemma_overridden(none, app.thread_types, name, u, u);
    assert(laid_over(m, config::unset_policy(), u));
    assert(lacks(none, name));
    assert(holds(app.threads, name, u) ==> holds(config::filled_in(app).threads, name, m));
    assert(holds(app.thread_types, name, u) ==> holds(
        config::filled_in(app).thread_types,
        name,
        m,
    ));
}

/// What an app states goes before what its profile states, field by field:
/// for all threads, and under each thread name and thread type. What only one
/// of the two states stands as it is.
pub proof fn law_own_words_go_before_the_profile(
    app: AppView,
    profile: Seq<char>,
    p: ProfileView,
    name: Seq<char>,
    b: PolicyModelView,
    u: PolicyModelView,
)
    requires
        app.profile == Some(profile),
        profile::builtin(profile) == Some(p),
        distinct(app.threads),
        distinct(app.thread_types),
    ensures
        ({
            let a = config::filled_in(app);
            &&& laid_over(a.default_policy, p.default, app.default_policy)
            &&& lacks(app.threads, name) && holds(p.threads, name, b) ==> holds(a.threads, name, b)
            &&& lacks(app.thread_types, name) && holds(p.thread_types, name, b) ==> holds(
                a.thread_types,
                name,
                b,
            )
            &&& holds(app.threads, name, u) && holds(p.threads, name, b) ==> exists|
                m: PolicyModelView,
            |
                laid_over(m, b, u) && #[trigger] holds(a.threads, name, m)
            &&& holds(app.thread_types, name, u) && holds(p.thread_types, name, b) ==> exists|
                m: PolicyModelView,
            |
                laid_over(m, b, u) && #[trigger] holds(a.thread_types, name, m)
            &&& holds(app.threads, name, u) && lacks(p.threads, name) ==> exists|
                m: PolicyModelView,
            |
                laid_over(m, config::unset_policy(), u) && #[trigger] holds(a.threads, name, m)
            &&& holds(app.thread_types, name, u) && lacks(p.thread_types, name) ==> exists|
                m: PolicyModelView,
            |
                laid_over(m, config::unset_policy(), u) && #[trigger] holds(a.thread_types, name, m)
            &&& lacks(app.threads, name) && lacks(p.threads, name) ==> lacks(a.threads, name)
            &&& lacks(app.thread_types, name) && lacks(p.thread_types, name) ==> lacks(
                a.thread_types,
                name,
            )
        }),
{
    let a = config::filled_in(app);
    lemma_profiles_are_distinct(profile, p);
    lemma_overridden(p.threads, app.threads, name, b, u);
    lemma_overridden(p.thread_types, app.thread_types, name, b, u);
    let both = config::overridden(b, u);
    let alone = config::overridden(config::unset_policy(), u);
    assert(laid_over(both, b, u));
    assert(laid_over(alone, config::unset_policy(), u));
    assert(holds(app.threads, name, u) && holds(p.threads, name, b) ==> holds(
        a.threads,
        name,
        both,
    ));
    assert(holds(app.thread_types, name, u) && holds(p.thread_types, name, b) ==> holds(
        a.thread_types,
        name,
        both,
    ));
    assert(holds(app.threads, name, u) && lacks(p.threads, name) ==> holds(
        a.threads,
        name,
        alone,
    ));
    assert(holds(app.thread_types, name, u) && lacks(p.thread_types, name) ==> holds(
        a.thread_types,
        name,
        alone,
    ));
}

proof fn lemma_profiles_are_distinct(name: Seq<char>, p: ProfileView)
    requires
        profile::builtin(name) == Some(p),
    ensures
        distinct(p.threads),
        distinct(p.thread_types),
{
    reveal_strlit("render");
    reveal_strlit("audio");
    assert("render"@.len() == 6 && "audio"@.len() == 5);
}

// ---------------------------------------------------------------------
// Clusters
// ---------------------------------------------------------------------

/// The name of a kind of cluster.
pub open spec fn kind_word(k: CpuClusterKind) -> Seq<char> {
    match k {
        CpuClusterKind::Prime => "prime"@,
        CpuClusterKind::Big => "big"@,
        CpuClusterKind::Mid => "mid"@,
        CpuClusterKind::Little => "little"@,
        CpuClusterKind::Unknown => "unknown"@,
    }
}

/// Whether a cluster is the first one of its kind.
pub open spec fn leads(clusters: Seq<CpuCluster>, i: int) -> bool {
    0 <= i < clusters.len() && forall|j: int|
        0 <= j < i ==> (#[trigger] clusters[j]).kind != clusters[i].kind
}

/// Whether no cluster is of the kind with a name.
pub open spec fn no_kind(clusters: Seq<CpuCluster>, word: Seq<char>) -> bool {
    forall|i: int| 0 <= i < clusters.len() ==> kind_word((#[trigger] clusters[i]).kind) != word
}

/// Whether each character of a text can stand in a CPU list.
pub open spec fn numeric(s: Seq<char>) -> bool {
    forall|i: int|
        0 <= i < s.len() ==> ('0' <= #[trigger] s[i] && s[i] <= '9') || s[i] == '-' || s[i] == ','
}

/// Whether `list` is the CPU list that a cluster name stands for: that of the
/// first cluster of that kind; the name itself where it is a CPU list; that
/// of the first big cluster; or that of a cluster which none exceeds in
/// capacity.
pub open spec fn placed(
    list: Seq<char>,
    name: Seq<char>,
    lower: Seq<char>,
    clusters: Seq<CpuCluster>,
) -> bool {
    &&& forall|i: int| #[trigger]
        leads(clusters, i) && kind_word(clusters[i].kind) == lower ==> list
            == clusters[i].range_str@
    &&& no_kind(clusters, lower) && numeric(name) ==> list == name
    &&& no_kind(clusters, lower) && !numeric(name) ==> forall|i: int| #[trigger]
        leads(clusters, i) && clusters[i].kind == CpuClusterKind::Big ==> list
            == clusters[i].range_str@
    &&& no_kind(clusters, lower) && !numeric(name) && no_kind(clusters, "big"@) && clusters.len()
        > 0 ==> exists|i: int|
        0 <= i < clusters.len() && list == (#[trigger] clusters[i]).range_str@ && forall|j: int|
            0 <= j < clusters.len() ==> (#[trigger] clusters[j]).capacity < clusters[i].capacity || (
            clusters[j].capacity == clusters[i].capacity && j <= i)
    &&& clusters.len() == 0 && !numeric(name) ==> list.len() == 0
}

proof fn lemma_kinds_differ(a: CpuClusterKind, b: CpuClusterKind)
    ensures
        kind_word(a) == kind_word(b) ==> a == b,
        kind_word(a) == a.name(),
{
    reveal_strlit("prime");
    reveal_strlit("big");
    reveal_strlit("mid");
    reveal_strlit("little");
    reveal_strlit("unknown");
    assert("prime"@[0] == 'p' && "big"@[0] == 'b' && "mid"@[0] == 'm' && "little"@[0] == 'l'
        && "unknown"@[0] == 'u');
}

proof fn lemma_first_cluster(clusters: Seq<CpuCluster>, word: Seq<char>)
    ensures
        ({
            let i = config::first_cluster(clusters, config::kind_called(word));
            &&& 0 <= i <= clusters.len()
            &&& i < clusters.len() ==> leads(clusters, i) && kind_word(clusters[i].kind) == word
            &&& i == clusters.len() <==> no_kind(clusters, word)
        }),
    decreases clusters.len(),
{
    if clusters.len() > 0 {
        let rest = clusters.skip(1);
        let k = clusters[0].kind;
        lemma_kinds_differ(k, k);
        if k.name() != word {
            lemma_first_cluster(rest, word);
            let i = config::first_cluster(rest, config::kind_called(word));
            if i < rest.len() {
                assert(clusters[i + 1] == rest[i]);
                assert forall|j: int| 0 <= j < i + 1 implies (#[trigger] clusters[j]).kind
                    != clusters[i + 1].kind by {
                    if j > 0 {
                        assert(rest[j - 1] == clusters[j]);
                    }
                }
            } else {
                assert forall|j: int| 0 <= j < clusters.len() implies kind_word(
                    (#[trigger] clusters[j]).kind,
                ) != word by {
                    if j > 0 {
                        assert(rest[j - 1] == clusters[j]);
                    }
                }
            }
        }
    }
}

proof fn lemma_first_big(clusters: Seq<CpuCluster>)
    ensures
        config::first_cluster(clusters, config::kind_big()) == config::first_cluster(
            clusters,
            config::kind_called("big"@),
        ),
    decreases clusters.len(),
{
    if clusters.len() > 0 {
        lemma_first_big(clusters.skip(1));
        lemma_kinds_differ(clusters[0].kind, CpuClusterKind::Big);
    }
}

proof fn lemma_largest(clusters: Seq<CpuCluster>)
    requires
        clusters.len() > 0,
    ensures
        ({
            let i = config::largest_cluster(clusters);
            0 <= i < clusters.len() && forall|j: int|
                0 <= j < clusters.len() ==> (#[trigger] clusters[j]).capacity
                    < clusters[i].capacity || (clusters[j].capacity == clusters[i].capacity && j
                    <= i)
        }),
    decreases clusters.len(),
{
    if clusters.len() > 1 {
        let front = clusters.drop_last();
        lemma_largest(front);
        assert forall|j: int| 0 <= j < front.len() implies front[j] == #[trigger] clusters[j] by {}
    }
}

/// The CPU list of a policy that names a cluster.
pub proof fn law_clusters_have_a_place(name: Seq<char>, clusters: Seq<CpuCluster>)
    ensures
        ({
            let list = match config::cluster_range(name, text::lowercase_of(name), clusters) {
                Some(c) => c,
                None => Seq::empty(),
            };
            placed(list, name, text::lowercase_of(name), clusters)
        }),
        config::missing_cluster(name, clusters) <==> no_kind(clusters, text::lowercase_of(name))
            && !numeric(name),
{
    let lower = text::lowercase_of(name);
    lemma_first_cluster(clusters, lower);
    lemma_first_cluster(clusters, "big"@);
    lemma_first_big(clusters);
    assert(numeric(name) == config::range_like(name)) by {
        if numeric(name) {
            assert forall|i: int| 0 <= i < name.len() implies (text::is_digit(#[trigger] name[i])
                || name[i] == '-' || name[i] == ',') by {}
        }
        if config::range_like(name) {
            assert forall|i: int| 0 <= i < name.len() implies ('0' <= #[trigger] name[i] && name[i]
                <= '9') || name[i] == '-' || name[i] == ',' by {}
        }
    }
    if clusters.len() > 0 {
        lemma_largest(clusters);
    }
    let list = match config::cluster_range(name, lower, clusters) {
        Some(c) => c,
        None => Seq::empty(),
    };
    assert forall|i: int| #[trigger]
        leads(clusters, i) && kind_word(clusters[i].kind) == lower implies list
        == clusters[i].range_str@ by {
        let f = config::first_cluster(clusters, config::kind_called(lower));
        lemma_kinds_differ(clusters[i].kind, clusters[f].kind);
        assert(f < clusters.len());
        assert(i == f);
    }
    if no_kind(clusters, lower) && !numeric(name) {
        assert forall|i: int| #[trigger]
            leads(clusters, i) && clusters[i].kind == CpuClusterKind::Big implies list
            == clusters[i].range_str@ by {
            let f = config::first_cluster(clusters, config::kind_big());
            assert(kind_word(clusters[i].kind) == "big"@);
            assert(f < clusters.len());
            lemma_kinds_differ(clusters[i].kind, clusters[f].kind);
            assert(i == f);
        }
    }
}

// ---------------------------------------------------------------------
// Rules
// ---------------------------------------------------------------------

/// Whether a rule says of a thread pattern of a package what a policy says.
pub open spec fn says(
    r: RuleConfigView,
    pkg: Seq<char>,
    thread: Seq<char>,
    p: PolicyModelView,
    clusters: Seq<CpuCluster>,
) -> bool {
    &&& r.pkg == pkg
    &&& r.thread == thread
    &&& r.sched == p.sched
    &&& r.nice == p.nice
    &&& r.uclamp_min == p.uclamp_min
    &&& r.uclamp_max == p.uclamp_max
    &&& match (p.cpus, p.cluster) {
        (Some(c), _) => r.cpus == c,
        (None, Some(name)) => placed(r.cpus, name, text::lowercase_of(name), clusters),
        (None, None) => r.cpus.len() == 0,
    }
}

/// Whether one of the rules says of a thread pattern what a policy says.
pub open spec fn said(
    rules: Seq<RuleConfigView>,
    pkg: Seq<char>,
    thread: Seq<char>,
    p: PolicyModelView,
    clusters: Seq<CpuCluster>,
) -> bool {
    exists|i: int| 0 <= i < rules.len() && says(#[trigger] rules[i], pkg, thread, p, clusters)
}

/// Whether a pattern is one of those that a thread type stands for.
pub open spec fn covers(ttype: Seq<char>, pattern: Seq<char>) -> bool {
    ||| ttype == "render"@ && (pattern == "*RenderThread*"@ || pattern == "*GL*"@ || pattern
        == "*Vk*"@)
    ||| ttype == "audio"@ && (pattern == "*Audio*"@ || pattern == "*Sound*"@)
    ||| ttype == "binder"@ && pattern == "*Binder:*"@
    ||| ttype == "main"@ && pattern == "*main*"@
}

proof fn lemma_policy_rules(
    pkg: Seq<char>,
    thread: Seq<char>,
    p: PolicyModelView,
    clusters: Seq<CpuCluster>,
)
    ensures
        ({
            let rules = config::policy_rules(pkg, thread, p, clusters);
            &&& silent(p) ==> rules.len() == 0
            &&& !silent(p) ==> rules.len() == 1 && says(rules[0], pkg, thread, p, clusters)
        }),
{
    if let Some(name) = p.cluster {
        law_clusters_have_a_place(name, clusters);
    }
}

proof fn lemma_said_in(
    a: Seq<RuleConfigView>,
    b: Seq<RuleConfigView>,
    pkg: Seq<char>,
    thread: Seq<char>,
    p: PolicyModelView,
    clusters: Seq<CpuCluster>,
)
    ensures
        said(a + b, pkg, thread, p, clusters) <==> said(a, pkg, thread, p, clusters) || said(
            b,
            pkg,
            thread,
            p,
            clusters,
        ),
{
    let c = a + b;
    if said(a, pkg, thread, p, clusters) {
        let i = choose|i: int| 0 <= i < a.len() && says(#[trigger] a[i], pkg, thread, p, clusters);
        assert(c[i] == a[i]);
    }
    if said(b, pkg, thread, p, clusters) {
        let i = choose|i: int| 0 <= i < b.len() && says(#[trigger] b[i], pkg, thread, p, clusters);
        assert(c[a.len() + i] == b[i]);
    }
    if said(c, pkg, thread, p, clusters) {
        let i = choose|i: int| 0 <= i < c.len() && says(#[trigger] c[i], pkg, thread, p, clusters);
        if i < a.len() {
            assert(a[i] == c[i]);
        } else {
            assert(b[i - a.len()] == c[i]);
        }
    }
}

proof fn lemma_thread_rules(
    pkg: Seq<char>,
    t: Seq<(Seq<char>, PolicyModelView)>,
    clusters: Seq<CpuCluster>,
    k: int,
)
    requires
        0 <= k < t.len(),
        !silent(t[k].1),
    ensures
        said(config::thread_rules(pkg, t, clusters), pkg, t[k].0, t[k].1, clusters),
    decreases t.len(),
{
    let front = t.drop_last();
    let a = config::thread_rules(pkg, front, clusters);
    let b = config::policy_rules(pkg, t.last().0, t.last().1, clusters);
    lemma_said_in(a, b, pkg, t[k].0, t[k].1, clusters);
    if k < front.len() {
        assert(front[k] == t[k]);
        lemma_thread_rules(pkg, front, clusters, k);
    } else {
        lemma_policy_rules(pkg, t[k].0, t[k].1, clusters);
        assert(says(b[0], pkg, t[k].0, t[k].1, clusters));
    }
}

proof fn lemma_pattern_rules(
    pkg: Seq<char>,
    patterns: Seq<Seq<char>>,
    p: PolicyModelView,
    clusters: Seq<CpuCluster>,
    k: int,
)
    requires
        0 <= k < patterns.len(),
        !silent(p),
    ensures
        said(config::pattern_rules(pkg, patterns, p, clusters), pkg, patterns[k], p, clusters),
    decreases patterns.len(),
{
    let front = patterns.drop_last();
    let a = config::pattern_rules(pkg, front, p, clusters);
    let b = config::policy_rules(pkg, patterns.last(), p, clusters);
    lemma_said_in(a, b, pkg, patterns[k], p, clusters);
    if k < front.len() {
        assert(front[k] == patterns[k]);
        lemma_pattern_rules(pkg, front, p, clusters, k);
    } else {
        lemma_policy_rules(pkg, patterns[k], p, clusters);
        assert(says(b[0], pkg, patterns[k], p, clusters));
    }
}

proof fn lemma_type_words()
    ensures
        "render"@ != "audio"@,
        "render"@ != "binder"@,
        "render"@ != "main"@,
        "audio"@ != "binder"@,
        "audio"@ != "main"@,
        "binder"@ != "main"@,
{
    reveal_strlit("render");
    reveal_strlit("audio");
    reveal_strlit("binder");
    reveal_strlit("main");
    assert("render"@[0] == 'r' && "audio"@[0] == 'a' && "binder"@[0] == 'b' && "main"@[0] == 'm');
}

proof fn lemma_covers(ttype: Seq<char>, pattern: Seq<char>)
    ensures
        covers(ttype, pattern) <==> (config::type_patterns(ttype) matches Some(ps) && exists|k: int|
            0 <= k < ps.len() && #[trigger] ps[k] == pattern),
{
    lemma_type_words();
    if covers(ttype, pattern) {
        let ps = config::type_patterns(ttype)->Some_0;
        if ttype == "render"@ {
            assert(ps[0] == "*RenderThread*"@ && ps[1] == "*GL*"@ && ps[2] == "*Vk*"@);
        } else if ttype == "audio"@ {
            assert(ps[0] == "*Audio*"@ && ps[1] == "*Sound*"@);
        } else if ttype == "binder"@ {
            assert(ps[0] == "*Binder:*"@);
        } else {
            assert(ps[0] == "*main*"@);
        }
    }
}

proof fn lemma_type_rules(
    pkg: Seq<char>,
    t: Seq<(Seq<char>, PolicyModelView)>,
    clusters: Seq<CpuCluster>,
    k: int,
    pattern: Seq<char>,
)
    requires
        0 <= k < t.len(),
        !silent(t[k].1),
        covers(t[k].0, pattern),
    ensures
        said(config::type_rules(pkg, t, clusters), pkg, pattern, t[k].1, clusters),
    decreases t.len(),
{
    let front = t.drop_last();
    let a = config::type_rules(pkg, front, clusters);
    let b = match config::type_patterns(t.last().0) {
        Some(ps) => config::pattern_rules(pkg, ps, t.last().1, clusters),
        None => Seq::empty(),
    };
    lemma_said_in(a, b, pkg, pattern, t[k].1, clusters);
    if k < front.len() {
        assert(front[k] == t[k]);
        lemma_type_rules(pkg, front, clusters, k, pattern);
    } else {
        lemma_covers(t[k].0, pattern);
        let ps = config::type_patterns(t[k].0)->Some_0;
        let i = choose|i: int| 0 <= i < ps.len() && #[trigger] ps[i] == pattern;
        lemma_pattern_rules(pkg, ps, t[k].1, clusters, i);
    }
}

/// Whether an app, with its profile filled in, states a policy for a thread
/// pattern: for all threads, for the thread of that name, or for a type that
/// covers it.
pub open spec fn states(a: AppView, thread: Seq<char>, p: PolicyModelView) -> bool {
    ||| thread.len() == 0 && p == a.default_policy
    ||| exists|k: int| 0 <= k < a.threads.len() && #[trigger] a.threads[k] == (thread, p)
    ||| exists|k: int|
        0 <= k < a.thread_types.len() && (#[trigger] a.thread_types[k]).1 == p && covers(
            a.thread_types[k].0,
            thread,
        )
}

/// Whatever an app states, by itself or by its profile, becomes a rule of its
/// package that says the same.
pub proof fn law_whatever_is_stated_becomes_a_rule(
    app: AppView,
    clusters: Seq<CpuCluster>,
    thread: Seq<char>,
    p: PolicyModelView,
)
    requires
        states(config::filled_in(app), thread, p),
        !silent(p),
    ensures
        said(config::app_rules(app, clusters), app.pkg, thread, p, clusters),
{
    let a = config::filled_in(app);
    let none = Seq::<char>::empty();
    let d = config::policy_rules(a.pkg, none, a.default_policy, clusters);
    let t = config::thread_rules(a.pkg, a.threads, clusters);
    let y = config::type_rules(a.pkg, a.thread_types, clusters);
    lemma_said_in(d, t, a.pkg, thread, p, clusters);
    lemma_said_in(d + t, y, a.pkg, thread, p, clusters);
    if thread.len() == 0 && p == a.default_policy {
        assert(thread =~= none);
        lemma_policy_rules(a.pkg, none, p, clusters);
        assert(says(d[0], a.pkg, thread, p, clusters));
    } else if exists|k: int| 0 <= k < a.threads.len() && #[trigger] a.threads[k] == (thread, p) {
        let k = choose|k: int| 0 <= k < a.threads.len() && #[trigger] a.threads[k] == (thread, p);
        lemma_thread_rules(a.pkg, a.threads, clusters, k);
    } else {
        let k = choose|k: int|
            0 <= k < a.thread_types.len() && (#[trigger] a.thread_types[k]).1 == p && covers(
                a.thread_types[k].0,
                thread,
            );
        lemma_type_rules(a.pkg, a.thread_types, clusters, k, thread);
    }
}

proof fn lemma_from_threads(
    pkg: Seq<char>,
    t: Seq<(Seq<char>, PolicyModelView)>,
    clusters: Seq<CpuCluster>,
    i: int,
) -> (k: int)
    requires
        0 <= i < config::thread_rules(pkg, t, clusters).len(),
    ensures
        0 <= k < t.len(),
        !silent(t[k].1),
        says(config::thread_rules(pkg, t, clusters)[i], pkg, t[k].0, t[k].1, clusters),
    decreases t.len(),
{
    let front = t.drop_last();
    let a = config::thread_rules(pkg, front, clusters);
    if i < a.len() {
        let k = lemma_from_threads(pkg, front, clusters, i);
        assert(front[k] == t[k]);
        k
    } else {
        lemma_policy_rules(pkg, t.last().0, t.last().1, clusters);
        t.len() - 1
    }
}

proof fn lemma_from_patterns(
    pkg: Seq<char>,
    patterns: Seq<Seq<char>>,
    p: PolicyModelView,
    clusters: Seq<CpuCluster>,
    i: int,
) -> (k: int)
    requires
        0 <= i < config::pattern_rules(pkg, patterns, p, clusters).len(),
    ensures
        0 <= k < patterns.len(),
        !silent(p),
        says(config::pattern_rules(pkg, patterns, p, clusters)[i], pkg, patterns[k], p, clusters),
    decreases patterns.len(),
{
    let front = patterns.drop_last();
    let a = config::pattern_rules(pkg, front, p, clusters);
    if i < a.len() {
        let k = lemma_from_patterns(pkg, front, p, clusters, i);
        assert(front[k] == patterns[k]);
        k
    } else {
        lemma_policy_rules(pkg, patterns.last(), p, clusters);
        patterns.len() - 1
    }
}

proof fn lemma_from_types(
    pkg: Seq<char>,
    t: Seq<(Seq<char>, PolicyModelView)>,
    clusters: Seq<CpuCluster>,
    i: int,
) -> (k: int)
    requires
        0 <= i < config::type_rules(pkg, t, clusters).len(),
    ensures
        0 <= k < t.len(),
        !silent(t[k].1),
        covers(t[k].0, config::type_rules(pkg, t, clusters)[i].thread),
        says(
            config::type_rules(pkg, t, clusters)[i],
            pkg,
            config::type_rules(pkg, t, clusters)[i].thread,
            t[k].1,
            clusters,
        ),
    decreases t.len(),
{
    let front = t.drop_last();
    let a = config::type_rules(pkg, front, clusters);
    if i < a.len() {
        let k = lemma_from_types(pkg, front, clusters, i);
        assert(front[k] == t[k]);
        k
    } else {
        let ps = config::type_patterns(t.last().0)->Some_0;
        let k = lemma_from_patterns(pkg, ps, t.last().1, clusters, i - a.len());
        lemma_covers(t.last().0, ps[k]);
        t.len() - 1
    }
}

/// Every rule of an app says what the app states, by itself or by its
/// profile, for the threads of the rule. Only where nothing is stated is there
/// another rule, which says nothing.
pub proof fn law_every_rule_was_stated(app: AppView, clusters: Seq<CpuCluster>, i: int)
    requires
        0 <= i < config::app_rules(app, clusters).len(),
    ensures
        ({
            let r = config::app_rules(app, clusters)[i];
            let a = config::filled_in(app);
            ||| exists|p: PolicyModelView|
                !silent(p) && says(r, app.pkg, r.thread, p, clusters) && #[trigger] states(
                    a,
                    r.thread,
                    p,
                )
            ||| {
                &&& config::app_rules(app, clusters).len() == 1
                &&& says(r, app.pkg, Seq::empty(), config::unset_policy(), clusters)
                &&& forall|t: Seq<char>, p: PolicyModelView| #[trigger]
                    states(a, t, p) ==> silent(p)
            }
        }),
{
    let a = config::filled_in(app);
    let none = Seq::<char>::empty();
    let d = config::policy_rules(a.pkg, none, a.default_policy, clusters);
    let t = config::thread_rules(a.pkg, a.threads, clusters);
    let y = config::type_rules(a.pkg, a.thread_types, clusters);
    let rules = config::app_rules(app, clusters);
    let r = rules[i];
    if d.len() + t.len() + y.len() > 0 {
        if i < d.len() {
            lemma_policy_rules(a.pkg, none, a.default_policy, clusters);
            assert(r == d[i]);
            assert(states(a, r.thread, a.default_policy));
        } else if i < d.len() + t.len() {
            let k = lemma_from_threads(a.pkg, a.threads, clusters, i - d.len());
            assert(r == t[i - d.len()]);
            assert(a.threads[k] == (r.thread, a.threads[k].1));
            assert(states(a, r.thread, a.threads[k].1));
        } else {
            let k = lemma_from_types(a.pkg, a.thread_types, clusters, i - d.len() - t.len());
            assert(r == y[i - d.len() - t.len()]);
            assert(states(a, r.thread, a.thread_types[k].1));
        }
    } else {
        assert(r == config::placeholder(a.pkg));
        assert(r.thread =~= none);
        assert forall|th: Seq<char>, p: PolicyModelView| #[trigger] states(a, th, p) implies silent(
            p,
        ) by {
            if !silent(p) {
                law_whatever_is_stated_becomes_a_rule(app, clusters, th, p);
                let j = choose|j: int|
                    0 <= j < rules.len() && says(#[trigger] rules[j], app.pkg, th, p, clusters);
                assert(j == 0);
                if thread_is_default(a, th, p) {
                    lemma_policy_rules(a.pkg, none, p, clusters);
                } else if exists|k: int|
                    0 <= k < a.threads.len() && #[trigger] a.threads[k] == (th, p) {
                    let k = choose|k: int|
                        0 <= k < a.threads.len() && #[trigger] a.threads[k] == (th, p);
                    lemma_thread_rules(a.pkg, a.threads, clusters, k);
                } else {
                    let k = choose|k: int|
                        0 <= k < a.thread_types.len() && (#[trigger] a.thread_types[k]).1 == p
                            && covers(a.thread_types[k].0, th);
                    lemma_type_rules(a.pkg, a.thread_types, clusters, k, th);
                }
            }
        }
    }
}

spec fn thread_is_default(a: AppView, thread: Seq<char>, p: PolicyModelView) -> bool {
    thread.len() == 0 && p == a.default_policy
}

/// The rules of a configuration are those of its apps, each of them, and no
/// others; those of an earlier app come first.
pub proof fn law_all_apps_contribute(
    apps: Seq<AppView>,
    clusters: Seq<CpuCluster>,
    k: int,
    i: int,
) -> (at: int)
    requires
        0 <= k < apps.len(),
        0 <= i < config::app_rules(apps[k], clusters).len(),
    ensures
        0 <= at < config::all_rules(apps, clusters).len(),
        config::all_rules(apps, clusters)[at] == config::app_rules(apps[k], clusters)[i],
        at == config::all_rules(apps.take(k), clusters).len() + i,
    decreases apps.len(),
{
    let front = apps.drop_last();
    if k < front.len() {
        assert(front[k] == apps[k]);
        assert(front.take(k) =~= apps.take(k));
        law_all_apps_contribute(front, clusters, k, i)
    } else {
        assert(apps.take(k) =~= front);
        config::all_rules(front, clusters).len() + i
    }
}

/// Every rule of a configuration is one of an app of it.
pub proof fn law_every_rule_is_of_an_app(
    apps: Seq<AppView>,
    clusters: Seq<CpuCluster>,
    at: int,
)
    requires
        0 <= at < config::all_rules(apps, clusters).len(),
    ensures
        exists|k: int|
            0 <= k < apps.len() && config::app_rules(#[trigger] apps[k], clusters).contains(
                config::all_rules(apps, clusters)[at],
            ),
    decreases apps.len(),
{
    let front = apps.drop_last();
    let before = config::all_rules(front, clusters);
    let r = config::all_rules(apps, clusters)[at];
    if at < before.len() {
        law_every_rule_is_of_an_app(front, clusters, at);
        let k = choose|k: int|
            0 <= k < front.len() && config::app_rules(#[trigger] front[k], clusters).contains(r);
        assert(config::app_rules(apps[k], clusters).contains(r));
    } else {
        let k = apps.len() - 1;
        assert(config::app_rules(apps[k], clusters)[at - before.len()] == r);
    }
}

/// An app with a profile alone has a rule for whatever the profile states of
/// a thread name, and for each pattern of a thread type.
pub proof fn law_profiles_become_rules(
    app: AppView,
    clusters: Seq<CpuCluster>,
    name: Seq<char>,
    p: ProfileView,
    thread: Seq<char>,
    q: PolicyModelView,
)
    requires
        app.profile == Some(name),
        profile::builtin(name) == Some(p),
        silent(app.default_policy),
        app.threads.len() == 0,
        app.thread_types.len() == 0,
        !silent(q),
        (thread.len() == 0 && q == p.default) || (exists|k: int|
            0 <= k < p.threads.len() && #[trigger] p.threads[k] == (thread, q)) || (exists|k: int|
            0 <= k < p.thread_types.len() && (#[trigger] p.thread_types[k]).1 == q && covers(
                p.thread_types[k].0,
                thread,
            )),
    ensures
        said(config::app_rules(app, clusters), app.pkg, thread, q, clusters),
{
    law_profile_alone_is_what_it_says(app, name, p);
    law_whatever_is_stated_becomes_a_rule(app, clusters, thread, q);
}

/// Every built-in profile puts the threads of an app on a cluster. A game
/// renders on the prime cluster with a floor of 700, whatever its package and
/// the machine, and plays its sound on the little one.
pub proof fn law_games_render_on_the_prime_cluster(app: AppView, clusters: Seq<CpuCluster>)
    requires
        app.profile == Some("game"@),
        silent(app.default_policy),
        app.threads.len() == 0,
        app.thread_types.len() == 0,
    ensures
        ({
            let rules = config::app_rules(app, clusters);
            let fast = PolicyModelView {
                cluster: Some("prime"@),
                uclamp_min: Some(700),
                ..config::unset_policy()
            };
            let slow = PolicyModelView { cluster: Some("little"@), ..config::unset_policy() };
            let rest = PolicyModelView { cluster: Some("big"@), ..config::unset_policy() };
            &&& said(rules, app.pkg, "*RenderThread*"@, fast, clusters)
            &&& said(rules, app.pkg, "*GL*"@, fast, clusters)
            &&& said(rules, app.pkg, "*Vk*"@, fast, clusters)
            &&& said(rules, app.pkg, "*Audio*"@, slow, clusters)
            &&& said(rules, app.pkg, "*Sound*"@, slow, clusters)
            &&& said(rules, app.pkg, Seq::empty(), rest, clusters)
        }),
{
    let p = profile::builtin("game"@)->Some_0;
    let fast = PolicyModelView {
        cluster: Some("prime"@),
        uclamp_min: Some(700),
        ..config::unset_policy()
    };
    let slow = PolicyModelView { cluster: Some("little"@), ..config::unset_policy() };
    let rest = PolicyModelView { cluster: Some("big"@), ..config::unset_policy() };
    assert(p.thread_types[0] == ("render"@, fast));
    assert(p.thread_types[1] == ("audio"@, slow));
    assert(p.default == rest);
    law_profiles_become_rules(app, clusters, "game"@, p, "*RenderThread*"@, fast);
    law_profiles_become_rules(app, clusters, "game"@, p, "*GL*"@, fast);
    law_profiles_become_rules(app, clusters, "game"@, p, "*Vk*"@, fast);
    law_profiles_become_rules(app, clusters, "game"@, p, "*Audio*"@, slow);
    law_profiles_become_rules(app, clusters, "game"@, p, "*Sound*"@, slow);
    law_profiles_become_rules(app, clusters, "game"@, p, Seq::empty(), rest);
}

/// A policy says something just when it is not silent, and something of CPUs
/// just when it lists some or names a cluster.
pub proof fn law_what_counts_as_said(p: PolicyModelView)
    ensures
        config::sets_any(p) <==> !silent(p),
        config::sets_cpus(p) <==> p.cpus is Some || p.cluster is Some,
{
}

/// What the built-in profiles say of rendering, of audio and of the rest. No
/// other name is a profile.
pub proof fn law_what_the_profiles_say(name: Seq<char>)
    ensures
        ({
            let big = PolicyModelView { cluster: Some("big"@), ..config::unset_policy() };
            let little = PolicyModelView { cluster: Some("little"@), ..config::unset_policy() };
            let prime = PolicyModelView { cluster: Some("prime"@), ..config::unset_policy() };
            let urgent = PolicyModelView { sched: Some("rr:30"@), ..big };
            let p = profile::builtin(name)->Some_0;
            &&& profile::builtin(name) is Some <==> name == "game"@ || name == "audio"@ || name
                == "launcher"@ || name == "balanced"@ || name == "power-save"@ || name == "chat"@
                || name == "video"@
            &&& profile::builtin(name) is Some <==> profile::builtin_names().contains(name)
            &&& name == "game"@ || name == "launcher"@ || name == "balanced"@ || name == "chat"@
                ==> p.default == big
            &&& name == "audio"@ || name == "power-save"@ || name == "video"@ ==> p.default
                == little
            &&& name == "game"@ ==> p.threads.len() == 0 && holds(
                p.thread_types,
                "render"@,
                PolicyModelView { uclamp_min: Some(700), ..prime },
            ) && holds(p.thread_types, "audio"@, little)
            &&& name == "audio"@ ==> p.threads.len() == 0 && holds(
                p.thread_types,
                "audio"@,
                urgent,
            )
            &&& name == "launcher"@ ==> p.thread_types.len() == 0 && holds(
                p.threads,
                "RenderThread"@,
                PolicyModelView { sched: Some("fifo:60"@), ..prime },
            )
            &&& name == "balanced"@ || name == "power-save"@ ==> p.threads.len() == 0
                && p.thread_types.len() == 0
            &&& name == "chat"@ ==> holds(p.threads, "RenderThread"@, prime) && holds(
                p.thread_types,
                "audio"@,
                urgent,
            )
            &&& name == "video"@ ==> holds(p.threads, "RenderThread"@, big) && holds(
                p.thread_types,
                "audio"@,
                big,
            )
        }),
{
    reveal_strlit("game");
    reveal_strlit("audio");
    reveal_strlit("launcher");
    reveal_strlit("balanced");
    reveal_strlit("power-save");
    reveal_strlit("chat");
    reveal_strlit("video");
    reveal_strlit("render");
    let names = profile::builtin_names();
    assert(names[0] == "game"@ && names[1] == "audio"@ && names[2] == "launcher"@ && names[3]
        == "balanced"@ && names[4] == "power-save"@ && names[5] == "chat"@ && names[6] == "video"@);
    assert("game"@[0] == 'g' && "audio"@[0] == 'a' && "launcher"@[0] == 'l' && "balanced"@[0] == 'b'
        && "power-save"@[0] == 'p' && "chat"@[0] == 'c' && "video"@[0] == 'v' && "render"@[0]
        == 'r');
    if let Some(p) = profile::builtin(name) {
        let (t, first, second) = (p.threads[0], p.thread_types[0], p.thread_types[1]);
    }
}

/// Every built-in profile states a cluster for the threads of an app at
/// large, and a cluster for each thread that it states anything of.
pub proof fn law_profiles_place_every_thread(name: Seq<char>, p: ProfileView, k: int)
    requires
        profile::builtin(name) == Some(p),
    ensures
        profile::builtin_names().contains(name),
        p.default.cluster == Some("big"@) || p.default.cluster == Some("little"@),
        0 <= k < p.threads.len() ==> p.threads[k].1.cluster is Some,
        0 <= k < p.thread_types.len() ==> p.thread_types[k].1.cluster is Some && (exists|
            pattern: Seq<char>,
        |
            covers(p.thread_types[k].0, pattern)),
{
    let names = profile::builtin_names();
    assert(names[0] == "game"@ && names[1] == "audio"@ && names[2] == "launcher"@ && names[3]
        == "balanced"@ && names[4] == "power-save"@ && names[5] == "chat"@ && names[6] == "video"@);
    if 0 <= k < p.thread_types.len() {
        let w = p.thread_types[k].0;
        assert(w == "render"@ || w == "audio"@);
        assert(covers(w, "*GL*"@) || covers(w, "*Audio*"@));
    }
}

} // verus!
