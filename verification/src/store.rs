//! Configuration snapshots: loading, replacing, and when to load again.

use std::sync::Arc;

use vstd::prelude::*;

use crate::config;
use crate::config::{ConfigModel, DaemonConfig, EngineConfig, RuleConfigView};
use crate::kdl_parser;
use crate::ruleset;
use crate::ruleset::{RuleError, RuleSet};
use crate::text;
use crate::topology::CpuTopology;
use crate::warning;
use crate::warning::Warning;

verus! {

// ---------------------------------------------------------------------
// Snapshots
// ---------------------------------------------------------------------

/// A configuration that is in force.
pub struct ConfigSnapshot {
    /// Counts the configurations that were loaded.
    pub version: u64,
    pub config_file: String,
    pub daemon: DaemonConfig,
    pub engine: EngineConfig,
    pub rules: RuleSet,
    /// What the configuration says to no effect.
    pub warnings: Vec<Warning>,
}

/// A configuration that was just loaded, and the rules of it that cannot be
/// used.
pub struct Loaded {
    pub snapshot: ConfigSnapshot,
    pub errors: Vec<RuleError>,
}

/// The message on a file that is no KDL file.
pub open spec fn not_kdl(config_file: Seq<char>) -> Seq<char> {
    "仅支持 KDL 配置（"@ + config_file
        + " 不是 .kdl）；TOML 格式已移除，请使用 threadctl.kdl"@
}

/// What a configuration file states, by its name and its text, which is the
/// words of an error when the file could not be read; or what is wrong.
pub open spec fn file_state(
    config_file: Seq<char>,
    content: Result<&str, &str>,
) -> Result<kdl_parser::StateView, Seq<char>> {
    match content {
        Err(e) => Err("config read failed: "@ + e@),
        Ok(c) => if !text::ends_with(config_file, ".kdl"@) {
            Err(not_kdl(config_file))
        } else {
            match kdl_parser::text_state(c@) {
                Ok(st) => Ok(st),
                Err(m) => Err("KDL parse failed: "@ + m),
            }
        },
    }
}

/// The rules of a configuration on a machine.
pub open spec fn state_rules(
    st: kdl_parser::StateView,
    topo: CpuTopology,
) -> Seq<RuleConfigView> {
    config::all_rules(st.apps, topo.clusters@)
}

/// Whether a snapshot, and the errors beside it, are what a configuration
/// states.
pub open spec fn loaded_as(
    l: Loaded,
    st: kdl_parser::StateView,
    config_file: Seq<char>,
    topo: CpuTopology,
    version: u64,
) -> bool {
    let rules = state_rules(st, topo);
    &&& l.snapshot.version == version
    &&& l.snapshot.config_file@ == config_file
    &&& l.snapshot.daemon@ == st.daemon
    &&& l.snapshot.engine == st.engine
    &&& l.snapshot.rules@ == ruleset::accepted(rules, topo.present_cpus@)
    &&& l.snapshot.rules.wf()
    &&& warning::warning_views(l.snapshot.warnings@) == warning::warnings_on(
        st.apps,
        topo.clusters@,
    )
    &&& ruleset::error_views(l.errors@) == ruleset::rejected(rules, topo.present_cpus@)
}

impl ConfigSnapshot {
    /// The snapshot of a configuration that was read.
    pub fn build(
        model: &ConfigModel,
        daemon: DaemonConfig,
        engine: EngineConfig,
        config_file: &str,
        topo: &CpuTopology,
        version: u64,
    ) -> (r: Loaded)
        ensures
            loaded_as(
                r,
                kdl_parser::StateView {
                    apps: config::app_views(model.apps@),
                    daemon: daemon@,
                    engine,
                },
                config_file@,
                *topo,
                version,
            ),
    {
        let rules = model.to_rules_with_clusters(topo.clusters.as_slice());
        let compiled = RuleSet::compile(rules.as_slice(), topo);
        let warnings = warning::warnings(model, topo.clusters.as_slice());
        Loaded {
            snapshot: ConfigSnapshot {
                version,
                config_file: config_file.to_owned(),
                daemon,
                engine,
                rules: compiled.rules,
                warnings,
            },
            errors: compiled.errors,
        }
    }

    /// Loads a configuration file, by its name and its text, which is the
    /// words of an error when the file could not be read.
    pub fn load(
        config_file: &str,
        content: Result<&str, &str>,
        topo: &CpuTopology,
        version: u64,
    ) -> (r: Result<Loaded, String>)
        ensures
            match r {
                Ok(l) => file_state(config_file@, content) matches Ok(st) && loaded_as(
                    l,
                    st,
                    config_file@,
                    *topo,
                    version,
                ),
                Err(m) => file_state(config_file@, content) == Err::<
                    kdl_parser::StateView,
                    Seq<char>,
                >(m@),
            },
    {
        let c = match content {
            Err(e) => {
                let mut m = "config read failed: ".to_owned();
                m.append(e);
                return Err(m);
            },
            Ok(c) => c,
        };
        let name = text::chars_of(config_file);
        if !text::finishes(name.as_slice(), ".kdl") {
            let mut m = "仅支持 KDL 配置（".to_owned();
            m.append(config_file);
            m.append(" 不是 .kdl）；TOML 格式已移除，请使用 threadctl.kdl");
            return Err(m);
        }
        match kdl_parser::parse_kdl(c) {
            Err(e) => {
                let mut m = "KDL parse failed: ".to_owned();
                m.append(e.as_str());
                Err(m)
            },
            Ok((model, daemon, engine)) => Ok(
                ConfigSnapshot::build(&model, daemon, engine, config_file, topo, version),
            ),
        }
    }
}

// ---------------------------------------------------------------------
// The store
// ---------------------------------------------------------------------

/// Holds the configuration in force.
pub struct ConfigStore {
    snapshot: Arc<ConfigSnapshot>,
    config_file: String,
    topo: CpuTopology,
}

/// What came of loading a configuration anew.
pub struct Reloaded {
    pub version: u64,
    /// The rules that cannot be used.
    pub errors: Vec<RuleError>,
}

/// What loading a configuration anew comes to, from the configuration in force
/// before to the one after.
pub open spec fn reloaded(
    before: ConfigSnapshot,
    after: ConfigSnapshot,
    r: Result<Reloaded, String>,
    config_file: Seq<char>,
    topo: CpuTopology,
    content: Result<&str, &str>,
) -> bool {
    let state = file_state(config_file, content);
    &&& r is Ok <==> state is Ok
    &&& match r {
        Ok(n) => {
            &&& n.version == before.version + 1
            &&& after.version == n.version
            &&& state matches Ok(st) && loaded_as(
                Loaded { snapshot: after, errors: n.errors },
                st,
                config_file,
                topo,
                n.version,
            )
        },
        Err(m) => {
            &&& after == before
            &&& state == Err::<kdl_parser::StateView, Seq<char>>(m@)
        },
    }
}

impl ConfigStore {
    /// The configuration in force.
    pub closed spec fn in_force(&self) -> ConfigSnapshot {
        *self.snapshot
    }

    /// Name of the configuration file.
    pub closed spec fn file(&self) -> Seq<char> {
        self.config_file@
    }

    /// The machine.
    pub closed spec fn machine(&self) -> CpuTopology {
        self.topo
    }

    /// Loads the first configuration.
    pub fn new(
        config_file: &str,
        content: Result<&str, &str>,
        topo: CpuTopology,
    ) -> (r: Result<(ConfigStore, Vec<RuleError>), String>)
        ensures
            match r {
                Ok((s, errors)) => {
                    &&& file_state(config_file@, content) matches Ok(st) && loaded_as(
                        Loaded { snapshot: s.in_force(), errors },
                        st,
                        config_file@,
                        topo,
                        1,
                    )
                    &&& s.file() == config_file@
                    &&& s.machine() == topo
                },
                Err(m) => file_state(config_file@, content) == Err::<
                    kdl_parser::StateView,
                    Seq<char>,
                >(m@),
            },
    {
        match ConfigSnapshot::load(config_file, content, &topo, 1) {
            Err(m) => Err(m),
            Ok(l) => {
                let s = ConfigStore {
                    snapshot: Arc::new(l.snapshot),
                    config_file: config_file.to_owned(),
                    topo,
                };
                Ok((s, l.errors))
            },
        }
    }

    /// The configuration in force.
    pub fn current(&self) -> (r: Arc<ConfigSnapshot>)
        ensures
            *r == self.in_force(),
    {
        self.snapshot.clone()
    }

    /// Loads the configuration anew. The new one has the next version and
    /// takes the place of the old one, which stays in force when the file
    /// cannot be read or parsed. A rule that cannot be used is reported and
    /// does not stand in the way.
    pub fn reload(&mut self, content: Result<&str, &str>) -> (r: Result<Reloaded, String>)
        requires
            old(self).in_force().version < u64::MAX,
        ensures
            final(self).file() == old(self).file(),
            final(self).machine() == old(self).machine(),
            reloaded(
                old(self).in_force(),
                final(self).in_force(),
                r,
                old(self).file(),
                old(self).machine(),
                content,
            ),
    {
        let version: u64 = self.snapshot.version + 1;
        match ConfigSnapshot::load(self.config_file.as_str(), content, &self.topo, version) {
            Err(m) => Err(m),
            Ok(l) => {
                self.snapshot = Arc::new(l.snapshot);
                Ok(Reloaded { version, errors: l.errors })
            },
        }
    }

    /// Name of the configuration file.
    pub fn config_file(&self) -> (r: &str)
        ensures
            r@ == self.file(),
    {
        self.config_file.as_str()
    }
}

// ---------------------------------------------------------------------
// When to load again
// ---------------------------------------------------------------------

/// What waiting for a change of the file came to.
#[derive(Debug, Clone, Copy, PartialEq, Eq, Structural)]
pub enum WatchEvent {
    /// The file has changed.
    Changed,
    /// Nothing has happened.
    Quiet,
    /// The watch is gone and could not be set up again.
    Lost,
}

/// What `poll` on the watch came to.
#[derive(Debug, Clone, Copy, PartialEq, Eq, Structural)]
pub enum PollResult {
    Interrupted,
    Failed,
    Timeout,
    Ready,
}

/// What `poll` tells; None when there is something to read.
pub open spec fn poll_verdict(p: PollResult) -> Option<WatchEvent> {
    match p {
        PollResult::Interrupted => Some(WatchEvent::Quiet),
        PollResult::Failed => Some(WatchEvent::Lost),
        PollResult::Timeout => Some(WatchEvent::Quiet),
        PollResult::Ready => None,
    }
}

/// What follows from `poll`; None when there is something to read.
pub fn after_poll(p: PollResult) -> (r: Option<WatchEvent>)
    ensures
        r == poll_verdict(p),
{
    match p {
        PollResult::Interrupted => Some(WatchEvent::Quiet),
        PollResult::Failed => Some(WatchEvent::Lost),
        PollResult::Timeout => Some(WatchEvent::Quiet),
        PollResult::Ready => None,
    }
}

/// One record of the watch.
#[derive(Debug, Clone, Copy, PartialEq, Eq, Structural)]
pub struct WatchRecord {
    /// The file was written and closed.
    pub written: bool,
    /// The file was moved or deleted, and the watch with it.
    pub replaced: bool,
    /// Whether a watch that went could be set up again.
    pub restored: bool,
}

/// Whether a record tells that the watch is lost for good.
pub open spec fn is_lost(w: WatchRecord) -> bool {
    w.replaced && !w.restored
}

/// Whether a record tells that the file has changed.
pub open spec fn tells_change(w: WatchRecord) -> bool {
    w.written || w.replaced
}

/// What some records tell: the loss of the watch goes before a change.
pub open spec fn verdict(records: Seq<WatchRecord>) -> WatchEvent {
    if exists|i: int| 0 <= i < records.len() && is_lost(#[trigger] records[i]) {
        WatchEvent::Lost
    } else if exists|i: int| 0 <= i < records.len() && tells_change(#[trigger] records[i]) {
        WatchEvent::Changed
    } else {
        WatchEvent::Quiet
    }
}

/// What a reloader does about an event of the watch, and whether it reads the
/// file again.
pub open spec fn watched(h: HotReload, e: WatchEvent) -> (HotReload, bool) {
    (
        if e == WatchEvent::Lost {
            HotReload { watching: false, last_mtime: (-1) as i64 }
        } else {
            h
        },
        e == WatchEvent::Changed,
    )
}

/// Whether a reloader reads the file again after it saw this time of change.
pub open spec fn touched(h: HotReload, mtime: i64) -> bool {
    mtime != h.last_mtime && mtime != -1
}

/// What the records of a watch come to.
pub fn after_records(records: &[WatchRecord]) -> (r: WatchEvent)
    ensures
        r == verdict(records@),
{
    let mut change = false;
    let mut i: usize = 0;
    while i < records.len()
        invariant
            0 <= i <= records@.len(),
            forall|j: int| 0 <= j < i ==> !is_lost(#[trigger] records@[j]),
            change == exists|j: int| 0 <= j < i && tells_change(#[trigger] records@[j]),
        decreases records@.len() - i,
    {
        let w = records[i];
        proof {
            assert(records@[i as int] == w);
        }
        if w.replaced && !w.restored {
            return WatchEvent::Lost;
        }
        if w.written || w.replaced {
            change = true;
        }
        i += 1;
    }
    if change {
        WatchEvent::Changed
    } else {
        WatchEvent::Quiet
    }
}

/// Decides when the configuration is loaded again: by a watch on the file, or
/// by its time of change where there is no watch.
#[derive(Debug, Clone, Copy, PartialEq, Eq, Structural)]
pub struct HotReload {
    pub watching: bool,
    /// Time of change at the last look, in nanoseconds; -1 for no file.
    pub last_mtime: i64,
}

impl HotReload {
    /// Starts with or without a watch.
    pub fn new(watching: bool, mtime: i64) -> (r: HotReload)
        ensures
            r == (HotReload { watching, last_mtime: mtime }),
    {
        HotReload { watching, last_mtime: mtime }
    }

    /// Takes in what the watch came to; whether to load again. A watch that
    /// is lost is given up for looking at the time of change, and the next
    /// look finds a change if there is a file.
    pub fn on_watch(&mut self, e: WatchEvent) -> (r: bool)
        ensures
            (*final(self), r) == watched(*old(self), e),
    {
        match e {
            WatchEvent::Changed => true,
            WatchEvent::Quiet => false,
            WatchEvent::Lost => {
                self.watching = false;
                self.last_mtime = -1;
                false
            },
        }
    }

    /// Takes in the time of change of the file; whether to load again. A file
    /// that is missing is waited for.
    pub fn on_mtime(&mut self, mtime: i64) -> (r: bool)
        ensures
            r == touched(*old(self), mtime),
            *final(self) == (HotReload { watching: old(self).watching, last_mtime: mtime }),
    {
        if mtime != self.last_mtime {
            self.last_mtime = mtime;
            mtime != -1
        } else {
            false
        }
    }
}

} // verus!
