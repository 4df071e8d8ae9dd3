//! The daemon's command line, and what its main loop does when.

use vstd::prelude::*;

use crate::config::{EngineConfig, EngineMode};
use crate::decision::{DecisionEngine, MigrateAction};
use crate::engine::RelockContext;
use crate::event::ProcessEvent;
use crate::ipc;
use crate::ratio::Ratio;
use crate::relock;
use crate::relock::{AdaptiveRelock, RelockGuard};
use crate::system_context::{PressureLevel, SystemContext};
use crate::text;

verus! {

/// Seconds between two observations of the threads.
pub const OBSERVE_SECS: u64 = 5;

/// Seconds between two looks at the foreground.
pub const FOREGROUND_SECS: u64 = 30;

/// Seconds between two audit lines.
pub const AUDIT_SECS: u64 = 60;

/// Seconds between two looks at the process table for what the kernel's
/// reports have missed.
pub const FILL_IN_SECS: u64 = 30;

/// The longest nap between two rounds, in milliseconds.
pub const NAP_MS: u64 = 100;

// ---------------------------------------------------------------------
// Command line
// ---------------------------------------------------------------------

/// How the daemon runs.
#[derive(Debug)]
pub struct Options {
    pub config_file: String,
    /// Seconds between two rounds.
    pub scan_interval: u64,
    /// Whether the configuration is only checked.
    pub dry_run: bool,
    pub debug: bool,
}

/// What the command line asks for.
#[derive(Debug)]
pub enum Invocation {
    /// Sends a command to the running daemon.
    Client { command: String },
    Run { options: Options },
    Version,
    Help,
    /// The option for the configuration lacks its file.
    MissingConfig,
    /// The option for the interval lacks a whole number of seconds.
    BadInterval,
    Unknown { option: String },
}

/// Options as plain values.
pub struct OptionsView {
    pub config_file: Seq<char>,
    pub scan_interval: int,
    pub dry_run: bool,
    pub debug: bool,
}

/// An invocation as plain values.
pub enum InvocationView {
    Client { command: Seq<char> },
    Run { options: OptionsView },
    Version,
    Help,
    MissingConfig,
    BadInterval,
    Unknown { option: Seq<char> },
}

impl View for Options {
    type V = OptionsView;

    open spec fn view(&self) -> OptionsView {
        OptionsView {
            config_file: self.config_file@,
            scan_interval: self.scan_interval as int,
            dry_run: self.dry_run,
            debug: self.debug,
        }
    }
}

impl View for Invocation {
    type V = InvocationView;

    open spec fn view(&self) -> InvocationView {
        match *self {
            Invocation::Client { command } => InvocationView::Client { command: command@ },
            Invocation::Run { options } => InvocationView::Run { options: options@ },
            Invocation::Version => InvocationView::Version,
            Invocation::Help => InvocationView::Help,
            Invocation::MissingConfig => InvocationView::MissingConfig,
            Invocation::BadInterval => InvocationView::BadInterval,
            Invocation::Unknown { option } => InvocationView::Unknown { option: option@ },
        }
    }
}

/// The options of an empty command line.
pub open spec fn default_options() -> OptionsView {
    OptionsView {
        config_file: "./threadctl.kdl"@,
        scan_interval: 2,
        dry_run: false,
        debug: false,
    }
}

/// The interval in an argument: a whole number of seconds, one at least.
pub open spec fn interval_of(arg: Seq<char>) -> Option<nat> {
    match text::unsigned(arg, u64::MAX as nat) {
        Some(n) => if n >= 1 {
            Some(n)
        } else {
            None
        },
        None => None,
    }
}

/// What the arguments from `i` on ask for.
pub open spec fn options_from(args: Seq<Seq<char>>, i: int, o: OptionsView) -> InvocationView
    decreases args.len() - i,
{
    if i >= args.len() {
        InvocationView::Run { options: o }
    } else if args[i] == "-c"@ {
        if i + 1 < args.len() {
            options_from(args, i + 2, OptionsView { config_file: args[i + 1], ..o })
        } else {
            InvocationView::MissingConfig
        }
    } else if args[i] == "-s"@ {
        if i + 1 < args.len() && interval_of(args[i + 1]) is Some {
            options_from(
                args,
                i + 2,
                OptionsView { scan_interval: interval_of(args[i + 1]).unwrap() as int, ..o },
            )
        } else {
            InvocationView::BadInterval
        }
    } else if args[i] == "-t"@ || args[i] == "--dry-run"@ {
        options_from(args, i + 1, OptionsView { dry_run: true, ..o })
    } else if args[i] == "-v"@ {
        InvocationView::Version
    } else if args[i] == "--debug"@ {
        options_from(args, i + 1, OptionsView { debug: true, ..o })
    } else if args[i] == "-h"@ {
        InvocationView::Help
    } else {
        InvocationView::Unknown { option: args[i] }
    }
}

/// What a command line asks for; its first argument is the program. A known
/// command as the second one goes to the running daemon.
pub open spec fn invocation(args: Seq<Seq<char>>) -> InvocationView {
    if args.len() >= 2 && ipc::known_command(args[1]) {
        InvocationView::Client { command: text::join(args.skip(1), " "@) }
    } else {
        options_from(args, 1, default_options())
    }
}

/// What a command line asks for.
pub fn parse_args(args: &[String]) -> (r: Invocation)
    ensures
        r@ == invocation(text::strings(args@)),
{
    let ghost all = text::strings(args@);
    let n: usize = args.len();
    assert(all.len() == n);
    if n >= 2 {
        assert(all[1] == args@[1]@);
        if ipc::is_command(args[1].as_str()) {
            let rest = vstd::slice::slice_subrange(args, 1, n);
            assert(text::strings(rest@) =~= all.skip(1));
            return Invocation::Client { command: text::join_strings(rest, " ") };
        }
    }
    let mut o = Options {
        config_file: "./threadctl.kdl".to_owned(),
        scan_interval: 2,
        dry_run: false,
        debug: false,
    };
    let mut i: usize = 1;
    while i < n
        invariant
            1 <= i,
            n == args@.len(),
            all == text::strings(args@),
            options_from(all, i as int, o@) == invocation(all),
        decreases n - i,
    {
        assert(all[i as int] == args@[i as int]@);
        let arg: &str = args[i].as_str();
        if text::same_text(arg, "-c") {
            if i + 1 >= n {
                return Invocation::MissingConfig;
            }
            assert(all[i + 1] == args@[i + 1]@);
            o.config_file = args[i + 1].clone();
            i += 2;
        } else if text::same_text(arg, "-s") {
            if i + 1 >= n {
                return Invocation::BadInterval;
            }
            assert(all[i + 1] == args@[i + 1]@);
            let chars = text::chars_of(args[i + 1].as_str());
            match text::parse_unsigned(chars.as_slice(), u64::MAX) {
                Some(v) => {
                    if v < 1 {
                        return Invocation::BadInterval;
                    }
                    o.scan_interval = v;
                    i += 2;
                },
                None => {
                    return Invocation::BadInterval;
                },
            }
        } else if text::same_text(arg, "-t") || text::same_text(arg, "--dry-run") {
            o.dry_run = true;
            i += 1;
        } else if text::same_text(arg, "-v") {
            return Invocation::Version;
        } else if text::same_text(arg, "--debug") {
            o.debug = true;
            i += 1;
        } else if text::same_text(arg, "-h") {
            return Invocation::Help;
        } else {
            return Invocation::Unknown { option: args[i].clone() };
        }
    }
    Invocation::Run { options: o }
}

// ---------------------------------------------------------------------
// Event sources
// ---------------------------------------------------------------------

/// Where the daemon gets its events from.
#[derive(Debug, Clone, Copy, PartialEq, Eq, Structural)]
pub enum Sources {
    /// From eBPF alone.
    Ebpf,
    /// From the process table alone.
    Proc,
    /// From eBPF, with an occasional look at the process table.
    Both,
    /// From nowhere: eBPF alone was asked for and cannot be had.
    Nowhere,
}

/// The sources that a mode asks for, by whether eBPF can be had. The process
/// table takes the place of eBPF, unless eBPF alone was asked for; where the
/// process table alone was asked for, eBPF does not matter.
pub open spec fn sources_of(mode: EngineMode, ebpf: bool) -> Sources {
    match mode {
        EngineMode::Auto => if ebpf {
            Sources::Ebpf
        } else {
            Sources::Proc
        },
        EngineMode::Ebpf => if ebpf {
            Sources::Ebpf
        } else {
            Sources::Nowhere
        },
        EngineMode::Proc => Sources::Proc,
        EngineMode::Hybrid => if ebpf {
            Sources::Both
        } else {
            Sources::Proc
        },
    }
}

/// Whether eBPF is to be tried: where it could make a difference.
pub fn wants_ebpf(mode: EngineMode) -> (r: bool)
    ensures
        r == (sources_of(mode, true) != sources_of(mode, false)),
{
    mode != EngineMode::Proc
}

/// The sources that a mode asks for, by whether eBPF can be had.
pub fn choose_sources(mode: EngineMode, ebpf: bool) -> (r: Sources)
    ensures
        r == sources_of(mode, ebpf),
{
    match (mode, ebpf) {
        (EngineMode::Proc, _) => Sources::Proc,
        (EngineMode::Hybrid, true) => Sources::Both,
        (_, true) => Sources::Ebpf,
        (EngineMode::Ebpf, false) => Sources::Nowhere,
        (_, false) => Sources::Proc,
    }
}

/// Without eBPF the daemon goes on with the process table in every mode but
/// the one that asks for eBPF alone, and only that one can leave it without
/// events; the process table alone is what one gets where one asked for it.
pub proof fn law_modes_fall_back(mode: EngineMode, ebpf: bool)
    ensures
        sources_of(mode, ebpf) == Sources::Nowhere <==> mode == EngineMode::Ebpf && !ebpf,
        !ebpf && mode != EngineMode::Ebpf ==> sources_of(mode, ebpf) == Sources::Proc,
        ebpf && mode != EngineMode::Proc ==> sources_of(mode, ebpf) != Sources::Proc,
        mode == EngineMode::Proc ==> sources_of(mode, ebpf) == Sources::Proc,
{
}

// ---------------------------------------------------------------------
// Rounds
// ---------------------------------------------------------------------

/// When each part of the main loop last ran, in seconds.
#[derive(Debug, Clone, Copy, PartialEq, Eq, Structural)]
pub struct Rounds {
    pub last_lock: i64,
    pub last_cleanup: i64,
    pub last_fg_refresh: i64,
    pub last_coverage_sample: i64,
    pub last_observe: i64,
    pub last_audit: i64,
}

/// Whether something that last ran at `last` is due.
pub open spec fn due(last: i64, now: i64, every: u64) -> bool {
    now - last >= every
}

/// Whether a sample of who was moved out is due; none is where policies are
/// never applied anew.
pub open spec fn sample_asked(r: Rounds, now: i64, lock_interval: u64) -> bool {
    lock_interval > 0 && due(r.last_coverage_sample, now, relock::SAMPLE_INTERVAL_SECS)
}

/// Whether policies are applied anew at once after a sample.
pub open spec fn relock_at_once(ratio: Ratio, guard: RelockGuard, now_ms: u64) -> bool {
    ratio.num > 0 && relock::passes(guard, now_ms)
}

/// Whether policies are applied anew because it is time.
pub open spec fn relock_in_time(
    r: Rounds,
    lock_interval: u64,
    rank: int,
    guard: RelockGuard,
    now: i64,
    now_ms: u64,
) -> bool {
    lock_interval > 0 && due(r.last_lock, now, relock::interval_at(rank)) && relock::passes(
        guard,
        now_ms,
    )
}

/// The longer of two intervals.
pub open spec fn longer(a: u64, b: u64) -> u64 {
    if a >= b {
        a
    } else {
        b
    }
}

/// How long to sleep before the next look at what is to be done.
pub open spec fn nap_of(now_ms: u64, deadline_ms: u64) -> int {
    if now_ms >= deadline_ms {
        0
    } else if deadline_ms - now_ms < NAP_MS {
        deadline_ms - now_ms
    } else {
        NAP_MS as int
    }
}

/// At least one second.
pub open spec fn one_at_least(secs: u64) -> u64 {
    if secs >= 1 {
        secs
    } else {
        1
    }
}

/// Whether something that last ran at `last` is due.
fn is_due(last: i64, now: i64, every: u64) -> (r: bool)
    ensures
        r == due(last, now, every),
{
    now as i128 - last as i128 >= every as i128
}

impl Rounds {
    /// Everything ran just now.
    pub fn new(now: i64) -> (r: Rounds)
        ensures
            r == (Rounds {
                last_lock: now,
                last_cleanup: now,
                last_fg_refresh: now,
                last_coverage_sample: now,
                last_observe: now,
                last_audit: now,
            }),
    {
        Rounds {
            last_lock: now,
            last_cleanup: now,
            last_fg_refresh: now,
            last_coverage_sample: now,
            last_observe: now,
            last_audit: now,
        }
    }

    /// Whether the coverage is sampled in this round: never while repeated
    /// application is off.
    pub fn coverage_due(&mut self, now: i64, lock_interval: u64) -> (r: bool)
        ensures
            r == sample_asked(*old(self), now, lock_interval),
            *final(self) == if r {
                (Rounds { last_coverage_sample: now, ..*old(self) })
            } else {
                *old(self)
            },
    {
        if lock_interval > 0 && is_due(
            self.last_coverage_sample,
            now,
            relock::SAMPLE_INTERVAL_SECS,
        ) {
            self.last_coverage_sample = now;
            true
        } else {
            false
        }
    }

    /// Whether policies are applied at once: another process was found to
    /// have overridden them, and the guard lets it pass.
    pub fn immediate_relock(
        &mut self,
        ratio: Ratio,
        guard: &mut RelockGuard,
        now: i64,
        now_ms: u64,
    ) -> (r: bool)
        ensures
            r == relock_at_once(ratio, *old(guard), now_ms),
            *final(self) == if r {
                (Rounds { last_lock: now, ..*old(self) })
            } else {
                *old(self)
            },
            *final(guard) == if r {
                (RelockGuard { last_at: now_ms as i128, cooldown_ms: old(guard).cooldown_ms })
            } else {
                *old(guard)
            },
    {
        if ratio.num > 0 && guard.try_lock(now_ms) {
            self.last_lock = now;
            true
        } else {
            false
        }
    }

    /// Whether policies are applied as every so often, and the guard lets it
    /// pass.
    pub fn periodic_relock(
        &mut self,
        lock_interval: u64,
        adaptive: &AdaptiveRelock,
        guard: &mut RelockGuard,
        now: i64,
        now_ms: u64,
    ) -> (r: bool)
        requires
            adaptive.wf(),
        ensures
            r == relock_in_time(*old(self), lock_interval, adaptive@.rank, *old(guard), now, now_ms),
            *final(self) == if r {
                (Rounds { last_lock: now, ..*old(self) })
            } else {
                *old(self)
            },
            *final(guard) == if r {
                (RelockGuard { last_at: now_ms as i128, cooldown_ms: old(guard).cooldown_ms })
            } else {
                *old(guard)
            },
    {
        if lock_interval > 0 && is_due(self.last_lock, now, adaptive.interval_secs())
            && guard.try_lock(now_ms) {
            self.last_lock = now;
            true
        } else {
            false
        }
    }

    /// Whether the threads are observed in this round.
    pub fn observe_due(&mut self, now: i64) -> (r: bool)
        ensures
            r == due(old(self).last_observe, now, OBSERVE_SECS),
            *final(self) == if r {
                (Rounds { last_observe: now, ..*old(self) })
            } else {
                *old(self)
            },
    {
        if is_due(self.last_observe, now, OBSERVE_SECS) {
            self.last_observe = now;
            true
        } else {
            false
        }
    }

    /// Whether dead processes are forgotten in this round.
    pub fn cleanup_due(&mut self, now: i64, interval: u64) -> (r: bool)
        ensures
            r == due(old(self).last_cleanup, now, one_at_least(interval)),
            *final(self) == if r {
                (Rounds { last_cleanup: now, ..*old(self) })
            } else {
                *old(self)
            },
    {
        let every: u64 = if interval >= 1 {
            interval
        } else {
            1
        };
        if is_due(self.last_cleanup, now, every) {
            self.last_cleanup = now;
            true
        } else {
            false
        }
    }

    /// Whether the foreground is looked at in this round.
    pub fn foreground_due(&mut self, now: i64) -> (r: bool)
        ensures
            r == due(old(self).last_fg_refresh, now, FOREGROUND_SECS),
            *final(self) == if r {
                (Rounds { last_fg_refresh: now, ..*old(self) })
            } else {
                *old(self)
            },
    {
        if is_due(self.last_fg_refresh, now, FOREGROUND_SECS) {
            self.last_fg_refresh = now;
            true
        } else {
            false
        }
    }

    /// Whether the audit line is written in this round.
    pub fn audit_due(&mut self, now: i64) -> (r: bool)
        ensures
            r == due(old(self).last_audit, now, AUDIT_SECS),
            *final(self) == if r {
                (Rounds { last_audit: now, ..*old(self) })
            } else {
                *old(self)
            },
    {
        if is_due(self.last_audit, now, AUDIT_SECS) {
            self.last_audit = now;
            true
        } else {
            false
        }
    }
}

/// Seconds between two rounds: the longer of the command line's and the
/// configuration's.
pub fn poll_interval(scan_interval: u64, engine: &EngineConfig) -> (r: u64)
    ensures
        r == longer(scan_interval, engine.scan_interval),
{
    if scan_interval >= engine.scan_interval {
        scan_interval
    } else {
        engine.scan_interval
    }
}

/// How long to nap after a round, in milliseconds: to the deadline, but not
/// long.
pub fn nap_ms(now_ms: u64, deadline_ms: u64) -> (r: u64)
    ensures
        r == nap_of(now_ms, deadline_ms),
{
    if now_ms >= deadline_ms {
        0
    } else if deadline_ms - now_ms < NAP_MS {
        deadline_ms - now_ms
    } else {
        NAP_MS
    }
}

/// The engine that a configuration asks for.
pub open spec fn decider_of(engine: EngineConfig) -> DecisionEngine {
    DecisionEngine {
        force_affinity_enabled: engine.migrate_action == MigrateAction::Force,
        pressure_sensitive: engine.pressure_sensitive,
    }
}

/// The engine that a configuration asks for.
pub fn decision_engine(engine: &EngineConfig) -> (r: DecisionEngine)
    ensures
        r == decider_of(*engine),
{
    let force = match engine.migrate_action {
        MigrateAction::Force => true,
        _ => false,
    };
    DecisionEngine { force_affinity_enabled: force, pressure_sensitive: engine.pressure_sensitive }
}

/// What decisions go by after the last look at the system, if there was one.
pub open spec fn context_of(last_sys: Option<&SystemContext>, failure_rate: Ratio) -> RelockContext {
    match last_sys {
        Some(s) => RelockContext {
            pressure: s.memory_pressure,
            thermal_pressure: s.thermal_pressure,
            audit_failure_rate: failure_rate,
        },
        None => RelockContext {
            pressure: PressureLevel::Normal,
            thermal_pressure: Ratio { num: 0, den: 1 },
            audit_failure_rate: failure_rate,
        },
    }
}

/// What decisions on repeated application go by: the last look at the
/// system, and the share of recent failures.
pub fn relock_context(last_sys: Option<&SystemContext>, failure_rate: Ratio) -> (r: RelockContext)
    ensures
        r == context_of(last_sys, failure_rate),
{
    match last_sys {
        Some(s) => RelockContext {
            pressure: s.memory_pressure,
            thermal_pressure: s.thermal_pressure,
            audit_failure_rate: failure_rate,
        },
        None => RelockContext {
            pressure: PressureLevel::Normal,
            thermal_pressure: Ratio::zero(),
            audit_failure_rate: failure_rate,
        },
    }
}

/// The packages that events name, each once, in order of first sight.
pub open spec fn distinct_pkgs(events: Seq<ProcessEvent>) -> Seq<Seq<char>>
    decreases events.len(),
{
    if events.len() == 0 {
        Seq::empty()
    } else {
        let before = distinct_pkgs(events.drop_last());
        match events.last().pkg {
            Some(p) => if before.contains(p@) {
                before
            } else {
                before.push(p@)
            },
            None => before,
        }
    }
}

/// How many packages events name.
pub fn count_pkgs(events: &[ProcessEvent]) -> (r: usize)
    ensures
        r == distinct_pkgs(events@).len(),
{
    let mut names: Vec<String> = Vec::new();
    let mut i: usize = 0;
    assert(events@.take(0) =~= Seq::<ProcessEvent>::empty());
    assert(text::strings(names@) =~= Seq::<Seq<char>>::empty());
    while i < events.len()
        invariant
            0 <= i <= events@.len(),
            text::strings(names@) == distinct_pkgs(events@.take(i as int)),
        decreases events@.len() - i,
    {
        assert(events@.take(i + 1).drop_last() =~= events@.take(i as int));
        if let Some(p) = &events[i].pkg {
            if !text::holds_text(names.as_slice(), p.as_str()) {
                let ghost before = names@;
                names.push(p.clone());
                assert(text::strings(names@) =~= text::strings(before).push(p@));
            }
        }
        i += 1;
    }
    assert(events@.take(i as int) =~= events@);
    assert(text::strings(names@).len() == names@.len());
    names.len()
}

// ---------------------------------------------------------------------
// Laws
// ---------------------------------------------------------------------

/// No package is counted twice.
pub proof fn law_packages_are_counted_once(events: Seq<ProcessEvent>)
    ensures
        distinct_pkgs(events).no_duplicates(),
        forall|i: int|
            0 <= i < events.len() && (#[trigger] events[i]).pkg is Some ==> distinct_pkgs(
                events,
            ).contains(events[i].pkg.unwrap()@),
    decreases events.len(),
{
    if events.len() > 0 {
        let rest = events.drop_last();
        let before = distinct_pkgs(rest);
        let after = distinct_pkgs(events);
        law_packages_are_counted_once(rest);
        assert forall|i: int| 0 <= i < events.len() && (#[trigger] events[i]).pkg is Some implies
            after.contains(events[i].pkg.unwrap()@) by {
            let p = events[i].pkg.unwrap()@;
            if i < rest.len() {
                assert(rest[i] == events[i]);
                assert(before.contains(p));
            }
            if before.contains(p) {
                let k = choose|k: int| 0 <= k < before.len() && before[k] == p;
                assert(after[k] == p);
            } else {
                assert(after.last() == p);
            }
        }
        assert(after.no_duplicates()) by {
            assert forall|i: int, j: int| 0 <= i < after.len() && 0 <= j < after.len() && i
                != j implies after[i] != after[j] by {
                if i < before.len() && j < before.len() {
                    assert(before[i] != before[j]);
                } else if i < before.len() {
                    assert(before.contains(before[i]));
                } else {
                    assert(before.contains(before[j]));
                }
            }
        }
    }
}

/// Nothing is due again before its time: once it ran at `then`, it is due
/// only after the interval has passed.
pub proof fn law_rounds_keep_their_distance(ran: i64, now: i64, every: u64)
    requires
        ran <= now,
        now - ran < every,
    ensures
        !due(ran, now, every),
{
}

} // verus!
