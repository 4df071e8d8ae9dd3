//! The configuration model and its expansion into rules.
//!
//! A configuration names apps; each app has a policy for its threads at
//! large, policies for threads by name and by type, and may start from a
//! built-in profile. Expansion turns all of it into plain rules, in the order
//! in which the configuration first names things.

use vstd::prelude::*;
use vstd::slice::slice_subrange;

use crate::decision::MigrateAction;
use crate::policy;
use crate::policy::SchedPolicy;
use crate::profile;
use crate::profile::ProfileModel;
use crate::text;
use crate::topology::{CpuCluster, CpuClusterKind};

verus! {

// ---------------------------------------------------------------------
// Daemon and engine settings
// ---------------------------------------------------------------------

/// Where events come from.
#[derive(Debug, Clone, Copy, PartialEq, Eq, Structural)]
pub enum EngineMode {
    /// eBPF if it can be had, else `/proc`.
    Auto,
    /// eBPF alone.
    Ebpf,
    /// `/proc` alone.
    Proc,
    /// eBPF, with `/proc` for what it misses.
    Hybrid,
}

impl Default for EngineMode {
    fn default() -> (r: EngineMode)
        ensures
            r == EngineMode::Auto,
    {
        EngineMode::Auto
    }
}

/// Settings of the daemon.
#[derive(Debug)]
pub struct DaemonConfig {
    pub pid_file: String,
    pub ipc_socket: String,
    pub log_level: String,
}

/// The contents of the daemon settings.
#[verifier::ext_equal]
pub struct DaemonView {
    pub pid_file: Seq<char>,
    pub ipc_socket: Seq<char>,
    pub log_level: Seq<char>,
}

impl View for DaemonConfig {
    type V = DaemonView;

    open spec fn view(&self) -> DaemonView {
        DaemonView {
            pid_file: self.pid_file@,
            ipc_socket: self.ipc_socket@,
            log_level: self.log_level@,
        }
    }
}

/// The daemon settings of an empty configuration.
pub open spec fn default_daemon() -> DaemonView {
    DaemonView {
        pid_file: "./run/threadctl.pid"@,
        ipc_socket: "./run/threadctl.sock"@,
        log_level: "info"@,
    }
}

impl Default for DaemonConfig {
    fn default() -> (r: DaemonConfig)
        ensures
            r@ == default_daemon(),
    {
        DaemonConfig {
            pid_file: "./run/threadctl.pid".to_owned(),
            ipc_socket: "./run/threadctl.sock".to_owned(),
            log_level: "info".to_owned(),
        }
    }
}

impl Clone for DaemonConfig {
    fn clone(&self) -> (r: DaemonConfig)
        ensures
            r == *self,
    {
        DaemonConfig {
            pid_file: self.pid_file.clone(),
            ipc_socket: self.ipc_socket.clone(),
            log_level: self.log_level.clone(),
        }
    }
}

/// Settings of the engine; intervals are seconds.
#[derive(Debug, Clone, Copy, PartialEq, Eq, Structural)]
pub struct EngineConfig {
    pub mode: EngineMode,
    pub scan_interval: u64,
    /// How often policies are applied anew.
    pub lock_interval: u64,
    pub dead_cleanup_interval: u64,
    pub migrate_action: MigrateAction,
    /// Whether memory pressure weakens interventions.
    pub pressure_sensitive: bool,
}

/// The engine settings of an empty configuration.
pub open spec fn default_engine() -> EngineConfig {
    EngineConfig {
        mode: EngineMode::Auto,
        scan_interval: 2,
        lock_interval: 60,
        dead_cleanup_interval: 15,
        migrate_action: MigrateAction::Observe,
        pressure_sensitive: true,
    }
}

impl Default for EngineConfig {
    fn default() -> (r: EngineConfig)
        ensures
            r == default_engine(),
    {
        EngineConfig {
            mode: EngineMode::Auto,
            scan_interval: 2,
            lock_interval: 60,
            dead_cleanup_interval: 15,
            migrate_action: MigrateAction::Observe,
            pressure_sensitive: true,
        }
    }
}

// ---------------------------------------------------------------------
// Rules
// ---------------------------------------------------------------------

/// A scheduling class and its priority.
#[derive(Debug, Clone, Copy, PartialEq, Eq, Structural)]
pub struct SchedSpec {
    pub policy: SchedPolicy,
    pub prio: Option<i32>,
}

/// One rule: the policy of some threads of some packages, as text.
#[derive(Debug)]
pub struct RuleConfig {
    pub pkg: String,
    /// Pattern for the thread name; empty for all threads.
    pub thread: String,
    /// CPU list; empty for no restriction.
    pub cpus: String,
    pub sched: Option<String>,
    pub nice: Option<i32>,
    pub uclamp_min: Option<u32>,
    pub uclamp_max: Option<u32>,
}

/// The contents of a rule.
#[verifier::ext_equal]
pub struct RuleConfigView {
    pub pkg: Seq<char>,
    pub thread: Seq<char>,
    pub cpus: Seq<char>,
    pub sched: Option<Seq<char>>,
    pub nice: Option<i32>,
    pub uclamp_min: Option<u32>,
    pub uclamp_max: Option<u32>,
}

impl View for RuleConfig {
    type V = RuleConfigView;

    open spec fn view(&self) -> RuleConfigView {
        RuleConfigView {
            pkg: self.pkg@,
            thread: self.thread@,
            cpus: self.cpus@,
            sched: text::opt_text(self.sched),
            nice: self.nice,
            uclamp_min: self.uclamp_min,
            uclamp_max: self.uclamp_max,
        }
    }
}

/// The contents of some rules.
pub open spec fn rule_views(rules: Seq<RuleConfig>) -> Seq<RuleConfigView> {
    Seq::new(rules.len(), |i: int| rules[i]@)
}

impl Clone for RuleConfig {
    fn clone(&self) -> (r: RuleConfig)
        ensures
            r == *self,
    {
        RuleConfig {
            pkg: self.pkg.clone(),
            thread: self.thread.clone(),
            cpus: self.cpus.clone(),
            sched: text::copy_opt(&self.sched),
            nice: self.nice,
            uclamp_min: self.uclamp_min,
            uclamp_max: self.uclamp_max,
        }
    }
}

/// The class and the priority that a text such as `fifo:60` or `batch` names;
/// a priority that is no number is left out.
pub open spec fn sched_spec_of(sched: Option<Seq<char>>) -> Option<(SchedPolicy, Option<int>)> {
    match sched {
        None => None,
        Some(s) => {
            let d = text::find(s, ':');
            let name = if d < s.len() {
                s.take(d)
            } else {
                s
            };
            let prio = if d < s.len() {
                text::i32_of(s.skip(d + 1))
            } else {
                None
            };
            match policy::sched_named(name) {
                Some(p) => Some((p, prio)),
                None => None,
            }
        },
    }
}

/// Whether `r` is the class and priority that `want` states.
pub open spec fn is_sched_spec(
    r: Option<SchedSpec>,
    want: Option<(SchedPolicy, Option<int>)>,
) -> bool {
    match r {
        Some(s) => want == Some(
            (
                s.policy,
                match s.prio {
                    Some(p) => Some(p as int),
                    None => None,
                },
            ),
        ),
        None => want is None,
    }
}

impl RuleConfig {
    /// The scheduling class of the rule, with its priority.
    pub fn sched_spec(&self) -> (r: Option<SchedSpec>)
        ensures
            is_sched_spec(r, sched_spec_of(self@.sched)),
    {
        let s = match &self.sched {
            Some(s) => text::chars_of(s.as_str()),
            None => {
                return None;
            },
        };
        let d = text::find_char(s.as_slice(), ':');
        let mut prio: Option<i32> = None;
        let name = if d < s.len() {
            proof {
                assert(s@.subrange(0, d as int) =~= s@.take(d as int));
                assert(s@.subrange(d + 1, s@.len() as int) =~= s@.skip(d + 1));
            }
            prio = text::parse_i32(slice_subrange(s.as_slice(), d + 1, s.len()));
            text::string_of(slice_subrange(s.as_slice(), 0, d))
        } else {
            text::string_of(s.as_slice())
        };
        match SchedPolicy::from_str(name.as_str()) {
            Some(policy) => Some(SchedSpec { policy, prio }),
            None => None,
        }
    }
}

// ---------------------------------------------------------------------
// The model
// ---------------------------------------------------------------------

/// A policy as the configuration states it.
#[derive(Debug)]
pub struct PolicyModel {
    pub cluster: Option<String>,
    pub cpus: Option<String>,
    pub uclamp_min: Option<u32>,
    pub uclamp_max: Option<u32>,
    pub sched: Option<String>,
    pub nice: Option<i32>,
}

/// The contents of a policy.
#[verifier::ext_equal]
pub struct PolicyModelView {
    pub cluster: Option<Seq<char>>,
    pub cpus: Option<Seq<char>>,
    pub uclamp_min: Option<u32>,
    pub uclamp_max: Option<u32>,
    pub sched: Option<Seq<char>>,
    pub nice: Option<i32>,
}

impl View for PolicyModel {
    type V = PolicyModelView;

    open spec fn view(&self) -> PolicyModelView {
        PolicyModelView {
            cluster: text::opt_text(self.cluster),
            cpus: text::opt_text(self.cpus),
            uclamp_min: self.uclamp_min,
            uclamp_max: self.uclamp_max,
            sched: text::opt_text(self.sched),
            nice: self.nice,
        }
    }
}

/// The policy that says nothing.
pub open spec fn unset_policy() -> PolicyModelView {
    PolicyModelView {
        cluster: None,
        cpus: None,
        uclamp_min: None,
        uclamp_max: None,
        sched: None,
        nice: None,
    }
}

impl Default for PolicyModel {
    fn default() -> (r: PolicyModel)
        ensures
            r@ == unset_policy(),
    {
        PolicyModel {
            cluster: None,
            cpus: None,
            uclamp_min: None,
            uclamp_max: None,
            sched: None,
            nice: None,
        }
    }
}

impl Clone for PolicyModel {
    fn clone(&self) -> (r: PolicyModel)
        ensures
            r == *self,
    {
        PolicyModel {
            cluster: text::copy_opt(&self.cluster),
            cpus: text::copy_opt(&self.cpus),
            uclamp_min: self.uclamp_min,
            uclamp_max: self.uclamp_max,
            sched: text::copy_opt(&self.sched),
            nice: self.nice,
        }
    }
}

/// A policy under a name.
#[derive(Debug)]
pub struct NamedPolicy {
    pub name: String,
    pub policy: PolicyModel,
}

impl Clone for NamedPolicy {
    fn clone(&self) -> (r: NamedPolicy)
        ensures
            r == *self,
    {
        NamedPolicy { name: self.name.clone(), policy: self.policy.clone() }
    }
}

/// The contents of a list of named policies.
pub open spec fn table(t: Seq<NamedPolicy>) -> Seq<(Seq<char>, PolicyModelView)> {
    Seq::new(t.len(), |i: int| (t[i].name@, t[i].policy@))
}

/// Index of the first entry of that name, or the length when there is none.
pub open spec fn table_index(t: Seq<(Seq<char>, PolicyModelView)>, name: Seq<char>) -> int
    decreases t.len(),
{
    if t.len() == 0 || t[0].0 == name {
        0
    } else {
        1 + table_index(t.skip(1), name)
    }
}

/// The table with this policy under that name.
pub open spec fn table_put(
    t: Seq<(Seq<char>, PolicyModelView)>,
    name: Seq<char>,
    p: PolicyModelView,
) -> Seq<(Seq<char>, PolicyModelView)> {
    let i = table_index(t, name);
    if i < t.len() {
        t.update(i, (name, p))
    } else {
        t.push((name, p))
    }
}

/// The policy of that name; without one, the policy that says nothing.
pub open spec fn table_get(
    t: Seq<(Seq<char>, PolicyModelView)>,
    name: Seq<char>,
) -> PolicyModelView {
    let i = table_index(t, name);
    if i < t.len() {
        t[i].1
    } else {
        unset_policy()
    }
}

/// `base` with the fields that `user` sets. CPUs and cluster exclude each
/// other: setting one clears the other, and CPUs go before a cluster.
pub open spec fn overridden(base: PolicyModelView, user: PolicyModelView) -> PolicyModelView {
    PolicyModelView {
        cpus: if user.cpus is Some {
            user.cpus
        } else if user.cluster is Some {
            None
        } else {
            base.cpus
        },
        cluster: if user.cpus is Some {
            None
        } else if user.cluster is Some {
            user.cluster
        } else {
            base.cluster
        },
        sched: if user.sched is Some {
            user.sched
        } else {
            base.sched
        },
        nice: if user.nice is Some {
            user.nice
        } else {
            base.nice
        },
        uclamp_min: if user.uclamp_min is Some {
            user.uclamp_min
        } else {
            base.uclamp_min
        },
        uclamp_max: if user.uclamp_max is Some {
            user.uclamp_max
        } else {
            base.uclamp_max
        },
    }
}

/// The table with the fields that each entry of `user` sets.
pub open spec fn table_overridden(
    base: Seq<(Seq<char>, PolicyModelView)>,
    user: Seq<(Seq<char>, PolicyModelView)>,
) -> Seq<(Seq<char>, PolicyModelView)>
    decreases user.len(),
{
    if user.len() == 0 {
        base
    } else {
        let t = table_overridden(base, user.drop_last());
        let (name, p) = user.last();
        table_put(t, name, overridden(table_get(t, name), p))
    }
}

/// Index of the entry of that name, or the length.
pub fn find_policy(t: &Vec<NamedPolicy>, name: &str) -> (r: usize)
    ensures
        r == table_index(table(t@), name@),
        r <= t@.len(),
        r < t@.len() ==> t@[r as int].name@ == name@,
{
    let mut i: usize = 0;
    proof {
        assert(table(t@).skip(0) =~= table(t@));
    }
    while i < t.len()
        invariant
            0 <= i <= t@.len(),
            table_index(table(t@), name@) == i + table_index(table(t@).skip(i as int), name@),
        decreases t@.len() - i,
    {
        proof {
            assert(table(t@).skip(i as int)[0] == table(t@)[i as int]);
            assert(table(t@).skip(i as int).skip(1) =~= table(t@).skip(i + 1));
        }
        if text::same_text(t[i].name.as_str(), name) {
            return i;
        }
        i += 1;
    }
    i
}

/// Puts a policy under a name.
pub fn put_policy(t: &mut Vec<NamedPolicy>, name: &str, policy: PolicyModel)
    ensures
        table(final(t)@) == table_put(table(old(t)@), name@, policy@),
{
    let i = find_policy(t, name);
    let ghost before = table(t@);
    if i < t.len() {
        t.set(i, NamedPolicy { name: name.to_owned(), policy });
        proof {
            assert(table(t@) =~= before.update(i as int, (name@, policy@)));
        }
    } else {
        t.push(NamedPolicy { name: name.to_owned(), policy });
        proof {
            assert(table(t@) =~= before.push((name@, policy@)));
        }
    }
}

/// Copies the set fields of `user` over those of `base`.
pub fn override_policy(base: &mut PolicyModel, user: &PolicyModel)
    ensures
        final(base)@ == overridden(old(base)@, user@),
{
    if user.cluster.is_some() {
        base.cluster = text::copy_opt(&user.cluster);
        base.cpus = None;
    }
    if user.cpus.is_some() {
        base.cpus = text::copy_opt(&user.cpus);
        base.cluster = None;
    }
    if user.sched.is_some() {
        base.sched = text::copy_opt(&user.sched);
    }
    if user.nice.is_some() {
        base.nice = user.nice;
    }
    if user.uclamp_min.is_some() {
        base.uclamp_min = user.uclamp_min;
    }
    if user.uclamp_max.is_some() {
        base.uclamp_max = user.uclamp_max;
    }
}

fn override_table(base: &mut Vec<NamedPolicy>, user: &Vec<NamedPolicy>)
    ensures
        table(final(base)@) == table_overridden(table(old(base)@), table(user@)),
{
    let mut k: usize = 0;
    let ghost all = table(user@);
    proof {
        assert(all.take(0) =~= Seq::<(Seq<char>, PolicyModelView)>::empty());
    }
    while k < user.len()
        invariant
            0 <= k <= user@.len(),
            all == table(user@),
            table(base@) == table_overridden(table(old(base)@), all.take(k as int)),
        decreases user@.len() - k,
    {
        let entry = &user[k];
        proof {
            assert(all.take(k + 1).drop_last() =~= all.take(k as int));
            assert(all.take(k + 1).last() == (entry.name@, entry.policy@));
        }
        let i = find_policy(base, entry.name.as_str());
        let mut p = if i < base.len() {
            base[i].policy.clone()
        } else {
            PolicyModel::default()
        };
        override_policy(&mut p, &entry.policy);
        put_policy(base, entry.name.as_str(), p);
        k += 1;
    }
    proof {
        assert(all.take(k as int) =~= all);
    }
}

/// One app of the configuration.
#[derive(Debug)]
pub struct AppModel {
    pub pkg: String,
    /// Name of the built-in profile to start from.
    pub profile: Option<String>,
    pub default_policy: PolicyModel,
    pub threads: Vec<NamedPolicy>,
    pub thread_types: Vec<NamedPolicy>,
}

/// The contents of an app.
#[verifier::ext_equal]
pub struct AppView {
    pub pkg: Seq<char>,
    pub profile: Option<Seq<char>>,
    pub default_policy: PolicyModelView,
    pub threads: Seq<(Seq<char>, PolicyModelView)>,
    pub thread_types: Seq<(Seq<char>, PolicyModelView)>,
}

impl View for AppModel {
    type V = AppView;

    open spec fn view(&self) -> AppView {
        AppView {
            pkg: self.pkg@,
            profile: text::opt_text(self.profile),
            default_policy: self.default_policy@,
            threads: table(self.threads@),
            thread_types: table(self.thread_types@),
        }
    }
}

impl AppModel {
    /// The policy of a thread name.
    pub fn thread(&self, name: &str) -> (r: Option<&PolicyModel>)
        ensures
            match r {
                Some(p) => exists|i: int|
                    0 <= i < self.threads@.len() && i == table_index(
                        table(self.threads@),
                        name@,
                    ) && *p == (#[trigger] self.threads@[i]).policy,
                None => table_index(table(self.threads@), name@) >= self.threads@.len(),
            },
    {
        let i = find_policy(&self.threads, name);
        if i < self.threads.len() {
            Some(&self.threads[i].policy)
        } else {
            None
        }
    }
}

/// The apps of a configuration.
#[derive(Debug)]
pub struct ConfigModel {
    pub apps: Vec<AppModel>,
}

/// The contents of some apps.
pub open spec fn app_views(apps: Seq<AppModel>) -> Seq<AppView> {
    Seq::new(apps.len(), |i: int| apps[i]@)
}

/// Index of the app with that package, or the length when there is none.
pub open spec fn app_index(apps: Seq<AppView>, pkg: Seq<char>) -> int
    decreases apps.len(),
{
    if apps.len() == 0 || apps[0].pkg == pkg {
        0
    } else {
        1 + app_index(apps.skip(1), pkg)
    }
}

impl ConfigModel {
    /// Index of the app with that package, or the number of apps.
    pub fn find_app(&self, pkg: &str) -> (r: usize)
        ensures
            r == app_index(app_views(self.apps@), pkg@),
            r <= self.apps@.len(),
            r < self.apps@.len() ==> self.apps@[r as int].pkg@ == pkg@,
    {
        let mut i: usize = 0;
        let ghost all = app_views(self.apps@);
        proof {
            assert(all.skip(0) =~= all);
        }
        while i < self.apps.len()
            invariant
                0 <= i <= self.apps@.len(),
                all == app_views(self.apps@),
                app_index(all, pkg@) == i + app_index(all.skip(i as int), pkg@),
            decreases self.apps@.len() - i,
        {
            proof {
                assert(all.skip(i as int)[0] == all[i as int]);
                assert(all.skip(i as int).skip(1) =~= all.skip(i + 1));
            }
            if text::same_text(self.apps[i].pkg.as_str(), pkg) {
                return i;
            }
            i += 1;
        }
        i
    }

    /// The app with that package.
    pub fn get(&self, pkg: &str) -> (r: Option<&AppModel>)
        ensures
            match r {
                Some(a) => exists|i: int|
                    0 <= i < self.apps@.len() && i == app_index(app_views(self.apps@), pkg@) && *a
                        == #[trigger] self.apps@[i],
                None => app_index(app_views(self.apps@), pkg@) >= self.apps@.len(),
            },
    {
        let i = self.find_app(pkg);
        if i < self.apps.len() {
            Some(&self.apps[i])
        } else {
            None
        }
    }
}

// ---------------------------------------------------------------------
// Expansion into rules
// ---------------------------------------------------------------------

/// The thread-name patterns that a thread type stands for.
pub open spec fn type_patterns(ttype: Seq<char>) -> Option<Seq<Seq<char>>> {
    if ttype == "render"@ {
        Some(seq!["*RenderThread*"@, "*GL*"@, "*Vk*"@])
    } else if ttype == "audio"@ {
        Some(seq!["*Audio*"@, "*Sound*"@])
    } else if ttype == "binder"@ {
        Some(seq!["*Binder:*"@])
    } else if ttype == "main"@ {
        Some(seq!["*main*"@])
    } else {
        None
    }
}

/// The contents of some string slices.
pub open spec fn str_views(v: Seq<&'static str>) -> Seq<Seq<char>> {
    Seq::new(v.len(), |i: int| v[i]@)
}

/// The thread-name patterns that a thread type stands for.
pub fn thread_type_patterns(ttype: &str) -> (r: Option<Vec<&'static str>>)
    ensures
        match r {
            Some(v) => type_patterns(ttype@) == Some(str_views(v@)),
            None => type_patterns(ttype@) is None,
        },
{
    if text::same_text(ttype, "render") {
        let v: Vec<&'static str> = vec!["*RenderThread*", "*GL*", "*Vk*"];
        proof {
            assert(str_views(v@) =~= seq!["*RenderThread*"@, "*GL*"@, "*Vk*"@]);
        }
        Some(v)
    } else if text::same_text(ttype, "audio") {
        let v: Vec<&'static str> = vec!["*Audio*", "*Sound*"];
        proof {
            assert(str_views(v@) =~= seq!["*Audio*"@, "*Sound*"@]);
        }
        Some(v)
    } else if text::same_text(ttype, "binder") {
        let v: Vec<&'static str> = vec!["*Binder:*"];
        proof {
            assert(str_views(v@) =~= seq!["*Binder:*"@]);
        }
        Some(v)
    } else if text::same_text(ttype, "main") {
        let v: Vec<&'static str> = vec!["*main*"];
        proof {
            assert(str_views(v@) =~= seq!["*main*"@]);
        }
        Some(v)
    } else {
        None
    }
}

/// Whether a policy says anything of CPUs.
pub open spec fn sets_cpus(p: PolicyModelView) -> bool {
    p.cpus is Some || p.cluster is Some
}

/// Whether a policy says anything.
pub open spec fn sets_any(p: PolicyModelView) -> bool {
    sets_cpus(p) || p.sched is Some || p.nice is Some || p.uclamp_min is Some || p.uclamp_max
        is Some
}

/// Whether a policy says anything of CPUs.
pub fn has_cpus(p: &PolicyModel) -> (r: bool)
    ensures
        r == sets_cpus(p@),
{
    p.cpus.is_some() || p.cluster.is_some()
}

/// Whether a policy says anything.
pub fn has_any_policy(p: &PolicyModel) -> (r: bool)
    ensures
        r == sets_any(p@),
{
    has_cpus(p) || p.sched.is_some() || p.nice.is_some() || p.uclamp_min.is_some()
        || p.uclamp_max.is_some()
}

/// Index of the first cluster whose kind satisfies `p`, or the length.
pub open spec fn first_cluster(
    clusters: Seq<CpuCluster>,
    p: spec_fn(CpuClusterKind) -> bool,
) -> int
    decreases clusters.len(),
{
    if clusters.len() == 0 || p(clusters[0].kind) {
        0
    } else {
        1 + first_cluster(clusters.skip(1), p)
    }
}

/// The test for the kind with that name.
pub open spec fn kind_called(name: Seq<char>) -> spec_fn(CpuClusterKind) -> bool {
    |k: CpuClusterKind| k.name() == name
}

/// The test for the big kind.
pub open spec fn kind_big() -> spec_fn(CpuClusterKind) -> bool {
    |k: CpuClusterKind| k == CpuClusterKind::Big
}

/// Index of the cluster of highest capacity, the last one of several.
pub open spec fn largest_cluster(clusters: Seq<CpuCluster>) -> int
    decreases clusters.len(),
{
    if clusters.len() <= 1 {
        0
    } else {
        let m = largest_cluster(clusters.drop_last());
        if clusters.last().capacity >= clusters[m].capacity {
            clusters.len() - 1
        } else {
            m
        }
    }
}

/// Whether a text is made of digits, dashes and commas only.
pub open spec fn range_like(s: Seq<char>) -> bool {
    forall|i: int|
        0 <= i < s.len() ==> (text::is_digit(#[trigger] s[i]) || s[i] == '-' || s[i] == ',')
}

/// The CPU list of a cluster that is known by this name, given as it stands
/// and in lower case: the cluster of that name; a text that looks like a CPU
/// list stands for itself; else the big cluster or, without one, the cluster
/// of highest capacity takes its place.
pub open spec fn cluster_range(
    name: Seq<char>,
    lower: Seq<char>,
    clusters: Seq<CpuCluster>,
) -> Option<Seq<char>> {
    let i = first_cluster(clusters, kind_called(lower));
    let b = first_cluster(clusters, kind_big());
    if i < clusters.len() {
        Some(clusters[i].range_str@)
    } else if range_like(name) {
        Some(name)
    } else if b < clusters.len() {
        Some(clusters[b].range_str@)
    } else if clusters.len() > 0 {
        Some(clusters[largest_cluster(clusters)].range_str@)
    } else {
        None
    }
}

/// The CPU list of a policy, empty when it has none.
pub open spec fn cpu_list(pol: PolicyModelView, clusters: Seq<CpuCluster>) -> Seq<char> {
    match pol.cpus {
        Some(c) => c,
        None => match pol.cluster {
            Some(name) => match cluster_range(name, text::lowercase_of(name), clusters) {
                Some(c) => c,
                None => Seq::empty(),
            },
            None => Seq::empty(),
        },
    }
}

/// The rules of one policy: one, or none when the policy says nothing.
pub open spec fn policy_rules(
    pkg: Seq<char>,
    thread: Seq<char>,
    pol: PolicyModelView,
    clusters: Seq<CpuCluster>,
) -> Seq<RuleConfigView> {
    if sets_any(pol) {
        seq![
            RuleConfigView {
                pkg,
                thread,
                cpus: cpu_list(pol, clusters),
                sched: pol.sched,
                nice: pol.nice,
                uclamp_min: pol.uclamp_min,
                uclamp_max: pol.uclamp_max,
            },
        ]
    } else {
        Seq::empty()
    }
}

fn is_range_like(s: &[char]) -> (r: bool)
    ensures
        r == range_like(s@),
{
    let mut i: usize = 0;
    while i < s.len()
        invariant
            0 <= i <= s@.len(),
            forall|j: int|
                0 <= j < i ==> (text::is_digit(#[trigger] s@[j]) || s@[j] == '-' || s@[j] == ','),
        decreases s@.len() - i,
    {
        let c = s[i];
        if !('0' <= c && c <= '9') && c != '-' && c != ',' {
            return false;
        }
        i += 1;
    }
    true
}

/// Index of the cluster whose kind has that name, or the number of clusters.
pub fn find_cluster(clusters: &[CpuCluster], name: &str) -> (r: usize)
    ensures
        r == first_cluster(clusters@, kind_called(name@)),
        r <= clusters@.len(),
{
    let mut i: usize = 0;
    proof {
        assert(clusters@.skip(0) =~= clusters@);
    }
    while i < clusters.len()
        invariant
            0 <= i <= clusters@.len(),
            first_cluster(clusters@, kind_called(name@)) == i + first_cluster(
                clusters@.skip(i as int),
                kind_called(name@),
            ),
        decreases clusters@.len() - i,
    {
        proof {
            assert(clusters@.skip(i as int)[0] == clusters@[i as int]);
            assert(clusters@.skip(i as int).skip(1) =~= clusters@.skip(i + 1));
        }
        if text::same_text(clusters[i].kind.config_name(), name) {
            return i;
        }
        i += 1;
    }
    i
}

fn find_big(clusters: &[CpuCluster]) -> (r: usize)
    ensures
        r == first_cluster(clusters@, kind_big()),
        r <= clusters@.len(),
{
    let mut i: usize = 0;
    proof {
        assert(clusters@.skip(0) =~= clusters@);
    }
    while i < clusters.len()
        invariant
            0 <= i <= clusters@.len(),
            first_cluster(clusters@, kind_big()) == i + first_cluster(
                clusters@.skip(i as int),
                kind_big(),
            ),
        decreases clusters@.len() - i,
    {
        proof {
            assert(clusters@.skip(i as int)[0] == clusters@[i as int]);
            assert(clusters@.skip(i as int).skip(1) =~= clusters@.skip(i + 1));
        }
        if clusters[i].kind == CpuClusterKind::Big {
            return i;
        }
        i += 1;
    }
    i
}

fn find_largest(clusters: &[CpuCluster]) -> (r: usize)
    requires
        clusters@.len() > 0,
    ensures
        r == largest_cluster(clusters@),
        r < clusters@.len(),
{
    let mut m: usize = 0;
    let mut i: usize = 1;
    while i < clusters.len()
        invariant
            1 <= i <= clusters@.len(),
            m < i,
            m == largest_cluster(clusters@.take(i as int)),
        decreases clusters@.len() - i,
    {
        proof {
            assert(clusters@.take(i + 1).drop_last() =~= clusters@.take(i as int));
        }
        if clusters[i].capacity >= clusters[m].capacity {
            m = i;
        }
        i += 1;
    }
    proof {
        assert(clusters@.take(i as int) =~= clusters@);
    }
    m
}

/// The CPU list of a cluster, by its name and its name in lower case.
pub fn cluster_cpus(name: &str, lower: &str, clusters: &[CpuCluster]) -> (r: Option<String>)
    ensures
        text::opt_text(r) == cluster_range(name@, lower@, clusters@),
{
    let i = find_cluster(clusters, lower);
    if i < clusters.len() {
        return Some(clusters[i].range_str.clone());
    }
    let chars = text::chars_of(name);
    if is_range_like(chars.as_slice()) {
        return Some(name.to_owned());
    }
    let b = find_big(clusters);
    if b < clusters.len() {
        return Some(clusters[b].range_str.clone());
    }
    if clusters.len() > 0 {
        let m = find_largest(clusters);
        return Some(clusters[m].range_str.clone());
    }
    None
}

/// Whether a cluster name is neither the name of one of the clusters nor a
/// CPU list, so that another cluster takes its place.
pub open spec fn missing_cluster(name: Seq<char>, clusters: Seq<CpuCluster>) -> bool {
    first_cluster(clusters, kind_called(text::lowercase_of(name))) >= clusters.len() && !range_like(
        name,
    )
}

/// Whether a cluster name is neither the name of one of the clusters nor a
/// CPU list.
pub fn cluster_missing(name: &str, clusters: &[CpuCluster]) -> (r: bool)
    ensures
        r == missing_cluster(name@, clusters@),
{
    let lower = text::lowercase(name);
    let chars = text::chars_of(name);
    find_cluster(clusters, lower.as_str()) >= clusters.len() && !is_range_like(chars.as_slice())
}

/// The rules of one policy.
pub fn policy_to_rules(
    pkg: &str,
    thread: &str,
    pol: &PolicyModel,
    clusters: &[CpuCluster],
) -> (r: Vec<RuleConfig>)
    ensures
        rule_views(r@) == policy_rules(pkg@, thread@, pol@, clusters@),
{
    let mut out: Vec<RuleConfig> = Vec::new();
    if !has_any_policy(pol) {
        proof {
            assert(rule_views(out@) =~= Seq::<RuleConfigView>::empty());
        }
        return out;
    }
    let cpus = match &pol.cpus {
        Some(c) => c.clone(),
        None => match &pol.cluster {
            Some(name) => {
                let lower = text::lowercase(name.as_str());
                match cluster_cpus(name.as_str(), lower.as_str(), clusters) {
                    Some(c) => c,
                    None => String::new(),
                }
            },
            None => String::new(),
        },
    };
    let rule = RuleConfig {
        pkg: pkg.to_owned(),
        thread: thread.to_owned(),
        cpus,
        sched: text::copy_opt(&pol.sched),
        nice: pol.nice,
        uclamp_min: pol.uclamp_min,
        uclamp_max: pol.uclamp_max,
    };
    proof {
        assert(rule@.cpus =~= cpu_list(pol@, clusters@));
    }
    out.push(rule);
    proof {
        assert(rule_views(out@) =~= policy_rules(pkg@, thread@, pol@, clusters@));
    }
    out
}

/// The rules of thread policies, by name.
pub open spec fn thread_rules(
    pkg: Seq<char>,
    t: Seq<(Seq<char>, PolicyModelView)>,
    clusters: Seq<CpuCluster>,
) -> Seq<RuleConfigView>
    decreases t.len(),
{
    if t.len() == 0 {
        Seq::empty()
    } else {
        thread_rules(pkg, t.drop_last(), clusters) + policy_rules(
            pkg,
            t.last().0,
            t.last().1,
            clusters,
        )
    }
}

/// The rules of one policy for several thread patterns.
pub open spec fn pattern_rules(
    pkg: Seq<char>,
    patterns: Seq<Seq<char>>,
    pol: PolicyModelView,
    clusters: Seq<CpuCluster>,
) -> Seq<RuleConfigView>
    decreases patterns.len(),
{
    if patterns.len() == 0 {
        Seq::empty()
    } else {
        pattern_rules(pkg, patterns.drop_last(), pol, clusters) + policy_rules(
            pkg,
            patterns.last(),
            pol,
            clusters,
        )
    }
}

/// The rules of thread policies, by type; an unknown type has none.
pub open spec fn type_rules(
    pkg: Seq<char>,
    t: Seq<(Seq<char>, PolicyModelView)>,
    clusters: Seq<CpuCluster>,
) -> Seq<RuleConfigView>
    decreases t.len(),
{
    if t.len() == 0 {
        Seq::empty()
    } else {
        type_rules(pkg, t.drop_last(), clusters) + match type_patterns(t.last().0) {
            Some(ps) => pattern_rules(pkg, ps, t.last().1, clusters),
            None => Seq::empty(),
        }
    }
}

/// The profile that says nothing.
pub open spec fn empty_profile() -> profile::ProfileView {
    profile::ProfileView {
        default: unset_policy(),
        threads: Seq::empty(),
        thread_types: Seq::empty(),
    }
}

/// What an app starts from: its profile, or nothing when it has none or one
/// that is not known.
pub open spec fn template_of(name: Option<Seq<char>>) -> profile::ProfileView {
    match name {
        Some(n) => match profile::builtin(n) {
            Some(p) => p,
            None => empty_profile(),
        },
        None => empty_profile(),
    }
}

/// An app with its profile filled in: what the app states goes before what
/// the profile states.
pub open spec fn filled_in(app: AppView) -> AppView {
    let t = template_of(app.profile);
    AppView {
        default_policy: overridden(t.default, app.default_policy),
        threads: table_overridden(t.threads, app.threads),
        thread_types: table_overridden(t.thread_types, app.thread_types),
        ..app
    }
}

/// The rule that only makes a package known.
pub open spec fn placeholder(pkg: Seq<char>) -> RuleConfigView {
    RuleConfigView {
        pkg,
        thread: Seq::empty(),
        cpus: Seq::empty(),
        sched: None,
        nice: None,
        uclamp_min: None,
        uclamp_max: None,
    }
}

/// The rules of an app: those of its default policy, of its thread names and
/// of its thread types. An app for which these are none gets a placeholder.
pub open spec fn app_rules(app: AppView, clusters: Seq<CpuCluster>) -> Seq<RuleConfigView> {
    let a = filled_in(app);
    let default_rules = policy_rules(a.pkg, Seq::empty(), a.default_policy, clusters);
    let rules = default_rules + thread_rules(a.pkg, a.threads, clusters) + type_rules(
        a.pkg,
        a.thread_types,
        clusters,
    );
    if rules.len() > 0 {
        rules
    } else {
        seq![placeholder(a.pkg)]
    }
}

/// The rules of several apps.
pub open spec fn all_rules(apps: Seq<AppView>, clusters: Seq<CpuCluster>) -> Seq<RuleConfigView>
    decreases apps.len(),
{
    if apps.len() == 0 {
        Seq::empty()
    } else {
        all_rules(apps.drop_last(), clusters) + app_rules(apps.last(), clusters)
    }
}

fn extend(rules: &mut Vec<RuleConfig>, more: Vec<RuleConfig>)
    ensures
        rule_views(final(rules)@) == rule_views(old(rules)@) + rule_views(more@),
{
    let mut i: usize = 0;
    while i < more.len()
        invariant
            0 <= i <= more@.len(),
            rules@ == old(rules)@ + more@.take(i as int),
        decreases more@.len() - i,
    {
        rules.push(more[i].clone());
        proof {
            assert(rules@ =~= old(rules)@ + more@.take(i + 1));
        }
        i += 1;
    }
    proof {
        assert(more@.take(i as int) =~= more@);
        assert(rule_views(rules@) =~= rule_views(old(rules)@) + rule_views(more@));
    }
}

fn expand_threads(pkg: &str, t: &Vec<NamedPolicy>, clusters: &[CpuCluster]) -> (r: Vec<RuleConfig>)
    ensures
        rule_views(r@) == thread_rules(pkg@, table(t@), clusters@),
{
    let mut out: Vec<RuleConfig> = Vec::new();
    let mut i: usize = 0;
    let ghost all = table(t@);
    proof {
        assert(all.take(0) =~= Seq::<(Seq<char>, PolicyModelView)>::empty());
        assert(rule_views(out@) =~= thread_rules(pkg@, all.take(0), clusters@));
    }
    while i < t.len()
        invariant
            0 <= i <= t@.len(),
            all == table(t@),
            rule_views(out@) == thread_rules(pkg@, all.take(i as int), clusters@),
        decreases t@.len() - i,
    {
        proof {
            assert(all.take(i + 1).drop_last() =~= all.take(i as int));
            assert(all.take(i + 1).last() == all[i as int]);
        }
        let more = policy_to_rules(pkg, t[i].name.as_str(), &t[i].policy, clusters);
        extend(&mut out, more);
        i += 1;
    }
    proof {
        assert(all.take(i as int) =~= all);
    }
    out
}

fn expand_patterns(
    pkg: &str,
    patterns: &Vec<&'static str>,
    pol: &PolicyModel,
    clusters: &[CpuCluster],
) -> (r: Vec<RuleConfig>)
    ensures
        rule_views(r@) == pattern_rules(pkg@, str_views(patterns@), pol@, clusters@),
{
    let mut out: Vec<RuleConfig> = Vec::new();
    let mut i: usize = 0;
    let ghost all = str_views(patterns@);
    proof {
        assert(all.take(0) =~= Seq::<Seq<char>>::empty());
        assert(rule_views(out@) =~= pattern_rules(pkg@, all.take(0), pol@, clusters@));
    }
    while i < patterns.len()
        invariant
            0 <= i <= patterns@.len(),
            all == str_views(patterns@),
            rule_views(out@) == pattern_rules(pkg@, all.take(i as int), pol@, clusters@),
        decreases patterns@.len() - i,
    {
        proof {
            assert(all.take(i + 1).drop_last() =~= all.take(i as int));
            assert(all.take(i + 1).last() == all[i as int]);
        }
        let more = policy_to_rules(pkg, patterns[i], pol, clusters);
        extend(&mut out, more);
        i += 1;
    }
    proof {
        assert(all.take(i as int) =~= all);
    }
    out
}

fn expand_types(pkg: &str, t: &Vec<NamedPolicy>, clusters: &[CpuCluster]) -> (r: Vec<RuleConfig>)
    ensures
        rule_views(r@) == type_rules(pkg@, table(t@), clusters@),
{
    let mut out: Vec<RuleConfig> = Vec::new();
    let mut i: usize = 0;
    let ghost all = table(t@);
    proof {
        assert(all.take(0) =~= Seq::<(Seq<char>, PolicyModelView)>::empty());
        assert(rule_views(out@) =~= type_rules(pkg@, all.take(0), clusters@));
    }
    while i < t.len()
        invariant
            0 <= i <= t@.len(),
            all == table(t@),
            rule_views(out@) == type_rules(pkg@, all.take(i as int), clusters@),
        decreases t@.len() - i,
    {
        proof {
            assert(all.take(i + 1).drop_last() =~= all.take(i as int));
            assert(all.take(i + 1).last() == all[i as int]);
        }
        match thread_type_patterns(t[i].name.as_str()) {
            Some(patterns) => {
                let more = expand_patterns(pkg, &patterns, &t[i].policy, clusters);
                extend(&mut out, more);
            },
            None => {
                proof {
                    assert(rule_views(out@) + Seq::<RuleConfigView>::empty() =~= rule_views(out@));
                }
            },
        }
        i += 1;
    }
    proof {
        assert(all.take(i as int) =~= all);
    }
    out
}

fn starting_point(name: &Option<String>) -> (r: ProfileModel)
    ensures
        r@ == template_of(text::opt_text(*name)),
{
    match name {
        Some(n) => match profile::builtin_profile(n.as_str()) {
            Some(p) => p,
            None => empty_model(),
        },
        None => empty_model(),
    }
}

fn empty_model() -> (r: ProfileModel)
    ensures
        r@ == empty_profile(),
{
    let r = ProfileModel {
        default: PolicyModel::default(),
        threads: Vec::new(),
        thread_types: Vec::new(),
    };
    proof {
        assert(r@.threads =~= empty_profile().threads);
        assert(r@.thread_types =~= empty_profile().thread_types);
    }
    r
}

/// An app with its profile filled in.
pub fn fill_in(app: &AppModel) -> (r: AppModel)
    ensures
        r@ == filled_in(app@),
{
    let start = starting_point(&app.profile);
    let mut default_policy = start.default;
    let mut threads = start.threads;
    let mut thread_types = start.thread_types;
    override_policy(&mut default_policy, &app.default_policy);
    override_table(&mut threads, &app.threads);
    override_table(&mut thread_types, &app.thread_types);
    let r = AppModel {
        pkg: app.pkg.clone(),
        profile: text::copy_opt(&app.profile),
        default_policy,
        threads,
        thread_types,
    };
    proof {
        assert(r@ =~= filled_in(app@));
    }
    r
}

fn expand_app(app: &AppModel, clusters: &[CpuCluster]) -> (r: Vec<RuleConfig>)
    ensures
        rule_views(r@) == app_rules(app@, clusters@),
{
    let AppModel { pkg, profile: _, default_policy, threads, thread_types } = fill_in(app);
    proof {
        reveal_strlit("");
        assert(""@ =~= Seq::<char>::empty());
    }
    let mut rules = policy_to_rules(pkg.as_str(), "", &default_policy, clusters);
    let by_name = expand_threads(pkg.as_str(), &threads, clusters);
    extend(&mut rules, by_name);
    let by_type = expand_types(pkg.as_str(), &thread_types, clusters);
    extend(&mut rules, by_type);
    if rules.len() == 0 {
        rules.push(
            RuleConfig {
                pkg: pkg.clone(),
                thread: String::new(),
                cpus: String::new(),
                sched: None,
                nice: None,
                uclamp_min: None,
                uclamp_max: None,
            },
        );
        proof {
            assert(rules@.last()@ =~= placeholder(pkg@));
            assert(rule_views(rules@) =~= seq![placeholder(pkg@)]);
        }
    }
    rules
}

impl ConfigModel {
    /// The rules of all apps on a machine whose clusters are not known.
    pub fn to_rules(&self) -> (r: Vec<RuleConfig>)
        ensures
            rule_views(r@) == all_rules(app_views(self.apps@), Seq::empty()),
    {
        let none: Vec<CpuCluster> = Vec::new();
        proof {
            assert(none@ =~= Seq::<CpuCluster>::empty());
        }
        self.to_rules_with_clusters(none.as_slice())
    }

    /// The rules of all apps, with cluster names turned into CPU lists.
    pub fn to_rules_with_clusters(&self, clusters: &[CpuCluster]) -> (r: Vec<RuleConfig>)
        ensures
            rule_views(r@) == all_rules(app_views(self.apps@), clusters@),
    {
        let mut out: Vec<RuleConfig> = Vec::new();
        let mut i: usize = 0;
        let ghost all = app_views(self.apps@);
        proof {
            assert(all.take(0) =~= Seq::<AppView>::empty());
            assert(rule_views(out@) =~= all_rules(all.take(0), clusters@));
        }
        while i < self.apps.len()
            invariant
                0 <= i <= self.apps@.len(),
                all == app_views(self.apps@),
                rule_views(out@) == all_rules(all.take(i as int), clusters@),
            decreases self.apps@.len() - i,
        {
            proof {
                assert(all.take(i + 1).drop_last() =~= all.take(i as int));
                assert(all.take(i + 1).last() == all[i as int]);
            }
            let more = expand_app(&self.apps[i], clusters);
            extend(&mut out, more);
            i += 1;
        }
        proof {
            assert(all.take(i as int) =~= all);
        }
        out
    }
}

// ---------------------------------------------------------------------
// Laws
// ---------------------------------------------------------------------

/// What the user states goes before what a profile states, field by field;
/// CPUs and a cluster never stand side by side because of it.
pub proof fn law_user_goes_before_profile(base: PolicyModelView, user: PolicyModelView)
    ensures
        user.cpus is Some ==> overridden(base, user).cpus == user.cpus && overridden(
            base,
            user,
        ).cluster is None,
        user.cpus is None && user.cluster is Some ==> overridden(base, user).cluster == user.cluster
            && overridden(base, user).cpus is None,
        user.sched is Some ==> overridden(base, user).sched == user.sched,
        user.nice is Some ==> overridden(base, user).nice == user.nice,
        user.uclamp_min is Some ==> overridden(base, user).uclamp_min == user.uclamp_min,
        user.uclamp_max is Some ==> overridden(base, user).uclamp_max == user.uclamp_max,
        user == unset_policy() ==> overridden(base, user) == base,
        overridden(overridden(base, user), user) == overridden(base, user),
{
}

proof fn lemma_policy_rules_pkg(
    pkg: Seq<char>,
    thread: Seq<char>,
    pol: PolicyModelView,
    clusters: Seq<CpuCluster>,
)
    ensures
        all_of(policy_rules(pkg, thread, pol, clusters), pkg),
{
}

/// Whether all rules are of one package.
pub open spec fn all_of(rules: Seq<RuleConfigView>, pkg: Seq<char>) -> bool {
    forall|i: int| 0 <= i < rules.len() ==> (#[trigger] rules[i]).pkg == pkg
}

proof fn lemma_all_of_concat(a: Seq<RuleConfigView>, b: Seq<RuleConfigView>, pkg: Seq<char>)
    requires
        all_of(a, pkg),
        all_of(b, pkg),
    ensures
        all_of(a + b, pkg),
{
    assert forall|i: int| 0 <= i < (a + b).len() implies (#[trigger] (a + b)[i]).pkg == pkg by {
        if i < a.len() {
            assert((a + b)[i] == a[i]);
        } else {
            assert((a + b)[i] == b[i - a.len()]);
        }
    }
}

proof fn lemma_thread_rules(
    pkg: Seq<char>,
    t: Seq<(Seq<char>, PolicyModelView)>,
    clusters: Seq<CpuCluster>,
)
    ensures
        all_of(thread_rules(pkg, t, clusters), pkg),
    decreases t.len(),
{
    if t.len() > 0 {
        let front = t.drop_last();
        lemma_thread_rules(pkg, front, clusters);
        lemma_policy_rules_pkg(pkg, t.last().0, t.last().1, clusters);
        lemma_all_of_concat(
            thread_rules(pkg, front, clusters),
            policy_rules(pkg, t.last().0, t.last().1, clusters),
            pkg,
        );
    }
}

proof fn lemma_pattern_rules(
    pkg: Seq<char>,
    patterns: Seq<Seq<char>>,
    pol: PolicyModelView,
    clusters: Seq<CpuCluster>,
)
    ensures
        all_of(pattern_rules(pkg, patterns, pol, clusters), pkg),
    decreases patterns.len(),
{
    if patterns.len() > 0 {
        lemma_pattern_rules(pkg, patterns.drop_last(), pol, clusters);
        lemma_policy_rules_pkg(pkg, patterns.last(), pol, clusters);
        lemma_all_of_concat(
            pattern_rules(pkg, patterns.drop_last(), pol, clusters),
            policy_rules(pkg, patterns.last(), pol, clusters),
            pkg,
        );
    }
}

proof fn lemma_type_rules(
    pkg: Seq<char>,
    t: Seq<(Seq<char>, PolicyModelView)>,
    clusters: Seq<CpuCluster>,
)
    ensures
        all_of(type_rules(pkg, t, clusters), pkg),
    decreases t.len(),
{
    if t.len() > 0 {
        let front = t.drop_last();
        lemma_type_rules(pkg, front, clusters);
        let more = match type_patterns(t.last().0) {
            Some(ps) => pattern_rules(pkg, ps, t.last().1, clusters),
            None => Seq::empty(),
        };
        match type_patterns(t.last().0) {
            Some(ps) => {
                lemma_pattern_rules(pkg, ps, t.last().1, clusters);
            },
            None => {},
        }
        lemma_all_of_concat(type_rules(pkg, front, clusters), more, pkg);
    }
}

/// Every rule of an app is a rule of its package.
pub proof fn law_rules_belong_to_their_app(app: AppView, clusters: Seq<CpuCluster>)
    ensures
        all_of(app_rules(app, clusters), app.pkg),
{
    let a = filled_in(app);
    let d = policy_rules(a.pkg, Seq::empty(), a.default_policy, clusters);
    lemma_policy_rules_pkg(a.pkg, Seq::empty(), a.default_policy, clusters);
    lemma_thread_rules(a.pkg, a.threads, clusters);
    lemma_type_rules(a.pkg, a.thread_types, clusters);
    let t = thread_rules(a.pkg, a.threads, clusters);
    lemma_all_of_concat(d, t, a.pkg);
    lemma_all_of_concat(d + t, type_rules(a.pkg, a.thread_types, clusters), a.pkg);
}

/// Every app has a rule, so that its package is known; where it states
/// nothing that makes one, that is the placeholder.
pub proof fn law_every_app_has_a_rule(app: AppView, clusters: Seq<CpuCluster>)
    ensures
        app_rules(app, clusters).len() > 0,
        ({
            let a = filled_in(app);
            policy_rules(a.pkg, Seq::empty(), a.default_policy, clusters).len() == 0
                && thread_rules(a.pkg, a.threads, clusters).len() == 0 && type_rules(
                a.pkg,
                a.thread_types,
                clusters,
            ).len() == 0 ==> app_rules(app, clusters) == seq![placeholder(app.pkg)]
        }),
{
}

/// Whether one of the rules is for a package.
pub open spec fn has_rule(rules: Seq<RuleConfigView>, pkg: Seq<char>) -> bool {
    exists|i: int| 0 <= i < rules.len() && (#[trigger] rules[i]).pkg == pkg
}

/// Whether one of the apps has a package.
pub open spec fn has_app(apps: Seq<AppView>, pkg: Seq<char>) -> bool {
    exists|i: int| 0 <= i < apps.len() && (#[trigger] apps[i]).pkg == pkg
}

/// The packages of the rules are those of the apps, no more and no fewer.
pub proof fn law_rules_name_the_apps(
    apps: Seq<AppView>,
    clusters: Seq<CpuCluster>,
    pkg: Seq<char>,
)
    ensures
        has_rule(all_rules(apps, clusters), pkg) <==> has_app(apps, pkg),
    decreases apps.len(),
{
    if apps.len() > 0 {
        let front = apps.drop_last();
        let before = all_rules(front, clusters);
        let more = app_rules(apps.last(), clusters);
        let all = all_rules(apps, clusters);
        law_rules_name_the_apps(front, clusters, pkg);
        law_rules_belong_to_their_app(apps.last(), clusters);
        law_every_app_has_a_rule(apps.last(), clusters);
        if has_rule(all, pkg) {
            let i = choose|i: int| 0 <= i < all.len() && (#[trigger] all[i]).pkg == pkg;
            if i < before.len() {
                assert(before[i] == all[i]);
                let k = choose|k: int| 0 <= k < front.len() && (#[trigger] front[k]).pkg == pkg;
                assert(apps[k] == front[k]);
            } else {
                assert(more[i - before.len()] == all[i]);
                assert(apps[apps.len() - 1] == apps.last());
            }
        }
        if has_app(apps, pkg) {
            let k = choose|k: int| 0 <= k < apps.len() && (#[trigger] apps[k]).pkg == pkg;
            if k < front.len() {
                assert(front[k] == apps[k]);
                let i = choose|i: int| 0 <= i < before.len() && (#[trigger] before[i]).pkg == pkg;
                assert(all[i] == before[i]);
            } else {
                assert(all[before.len() as int] == more[0]);
            }
        }
    }
}

/// No kind of cluster is called like a CPU list.
proof fn lemma_no_kind_is_a_range(clusters: Seq<CpuCluster>, name: Seq<char>)
    requires
        range_like(name),
    ensures
        first_cluster(clusters, kind_called(name)) == clusters.len(),
    decreases clusters.len(),
{
    if clusters.len() > 0 {
        reveal_strlit("prime");
        reveal_strlit("big");
        reveal_strlit("mid");
        reveal_strlit("little");
        reveal_strlit("unknown");
        let k = clusters[0].kind;
        assert(k.name().len() > 0 && !text::is_digit(k.name()[0]) && k.name()[0] != '-'
            && k.name()[0] != ',');
        if k.name() == name {
            assert(text::is_digit(name[0]) || name[0] == '-' || name[0] == ',');
        }
        assert(!kind_called(name)(k));
        lemma_no_kind_is_a_range(clusters.skip(1), name);
    }
}

/// A cluster that is given as a CPU list stands for that list, on every
/// machine: its lower case is the list itself, and no cluster has its name.
pub proof fn law_number_ranges_are_cpus(name: Seq<char>, clusters: Seq<CpuCluster>)
    requires
        range_like(name),
    ensures
        cluster_range(name, name, clusters) == Some(name),
{
    lemma_no_kind_is_a_range(clusters, name);
}

} // verus!
