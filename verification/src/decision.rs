//! When to intervene: the weight of a task against the state of the system.
//!
//! Nothing here reads the system; whoever asks brings the context.

use vstd::prelude::*;

use crate::ratio::Ratio;
use crate::system_context::PressureLevel;
use crate::text;

verus! {

/// What a task is for.
#[derive(Debug, Clone, Copy, PartialEq, Eq, Structural)]
pub enum TaskIntent {
    Interactive,
    BackgroundLatencySensitive,
    Background,
    Frozen,
}

/// The intent that Android's `oom_score_adj` alone suggests.
pub open spec fn intent_of_oom(oom_adj: int) -> TaskIntent {
    if oom_adj <= 200 {
        TaskIntent::Interactive
    } else if oom_adj <= 500 {
        TaskIntent::BackgroundLatencySensitive
    } else if oom_adj <= 900 {
        TaskIntent::Background
    } else {
        TaskIntent::Frozen
    }
}

/// The intent by all that is known: a foreground task is interactive, and a
/// thread that must not be late is lifted out of the background.
pub open spec fn intent_of_sources(
    oom_adj: int,
    is_foreground: bool,
    thread_hint: ThreadHint,
) -> TaskIntent {
    if is_foreground || oom_adj < 0 {
        TaskIntent::Interactive
    } else if thread_hint == ThreadHint::LatencySensitive && oom_adj <= 700 {
        TaskIntent::BackgroundLatencySensitive
    } else {
        intent_of_oom(oom_adj)
    }
}

impl TaskIntent {
    /// The intent that Android's `oom_score_adj` alone suggests.
    pub fn from_oom_adj(oom_adj: i32) -> (r: TaskIntent)
        ensures
            r == intent_of_oom(oom_adj as int),
    {
        if oom_adj <= 200 {
            TaskIntent::Interactive
        } else if oom_adj <= 500 {
            TaskIntent::BackgroundLatencySensitive
        } else if oom_adj <= 900 {
            TaskIntent::Background
        } else {
            TaskIntent::Frozen
        }
    }

    /// The intent by all that is known: a foreground task is interactive, and
    /// a thread that must not be late is lifted out of the background.
    pub fn from_sources(oom_adj: i32, is_foreground: bool, thread_hint: ThreadHint) -> (r: TaskIntent)
        ensures
            r == intent_of_sources(oom_adj as int, is_foreground, thread_hint),
    {
        if is_foreground || oom_adj < 0 {
            return TaskIntent::Interactive;
        }
        if thread_hint == ThreadHint::LatencySensitive && oom_adj <= 700 {
            return TaskIntent::BackgroundLatencySensitive;
        }
        TaskIntent::from_oom_adj(oom_adj)
    }
}

/// What the name of a thread suggests.
#[derive(Debug, Clone, Copy, PartialEq, Eq, Structural)]
pub enum ThreadHint {
    Unknown,
    LatencySensitive,
    ComputeIntensive,
}

/// What a thread name in lower case suggests.
pub open spec fn hint_of(lower: Seq<char>) -> ThreadHint {
    if text::occurs(lower, "audio"@) || text::occurs(lower, "binder:"@) || text::occurs(
        lower,
        "renderthread"@,
    ) || text::occurs(lower, "gl"@) {
        ThreadHint::LatencySensitive
    } else if text::occurs(lower, "worker"@) || text::occurs(lower, "pool"@) {
        ThreadHint::ComputeIntensive
    } else {
        ThreadHint::Unknown
    }
}

impl ThreadHint {
    /// What a thread name suggests, upper and lower case alike.
    pub fn from_thread_name(name: &str) -> (r: ThreadHint)
        ensures
            r == hint_of(text::lowercase_of(name@)),
    {
        let lower = text::lowercase(name);
        ThreadHint::from_lower_name(lower.as_str())
    }

    /// What a thread name that is already in lower case suggests.
    pub fn from_lower_name(lower: &str) -> (r: ThreadHint)
        ensures
            r == hint_of(lower@),
    {
        let chars = text::chars_of(lower);
        let s = chars.as_slice();
        if text::contains_text(s, "audio") || text::contains_text(s, "binder:")
            || text::contains_text(s, "renderthread") || text::contains_text(s, "gl") {
            ThreadHint::LatencySensitive
        } else if text::contains_text(s, "worker") || text::contains_text(s, "pool") {
            ThreadHint::ComputeIntensive
        } else {
            ThreadHint::Unknown
        }
    }
}

/// How far to go with a task.
#[derive(Debug, Clone, Copy, PartialEq, Eq, Structural)]
pub enum ActionLevel {
    Observe,
    Steer,
    Force,
}

/// The weight of a task, with its parts. More weight speaks for intervening.
#[derive(Debug, Clone, Copy, PartialEq, Eq, Structural)]
pub struct TaskScore {
    pub intent_weight: i32,
    pub pressure_mod: i32,
    pub thermal_mod: i32,
    pub total: i32,
}

impl TaskScore {
    /// The action that the weight calls for.
    pub open spec fn action(&self, force: bool) -> ActionLevel {
        if force {
            ActionLevel::Force
        } else if self.total >= 40 {
            ActionLevel::Steer
        } else {
            ActionLevel::Observe
        }
    }

    /// The action that the weight calls for.
    pub fn to_action(self, force: bool) -> (r: ActionLevel)
        ensures
            r == self.action(force),
    {
        if force {
            return ActionLevel::Force;
        }
        if self.total >= 40 {
            ActionLevel::Steer
        } else {
            ActionLevel::Observe
        }
    }
}

/// The weight of an intent.
pub open spec fn intent_weight(intent: TaskIntent) -> int {
    match intent {
        TaskIntent::Interactive => 60,
        TaskIntent::BackgroundLatencySensitive => 50,
        TaskIntent::Background => 10,
        TaskIntent::Frozen => 0,
    }
}

/// What memory pressure takes off.
pub open spec fn pressure_weight(sensitive: bool, pressure: PressureLevel) -> int {
    if sensitive {
        match pressure {
            PressureLevel::Normal => 0,
            PressureLevel::Moderate => -15,
            PressureLevel::Critical => -40,
        }
    } else {
        0
    }
}

/// What heat takes off, by the share of the cooling devices in use.
pub open spec fn thermal_weight(thermal: Ratio) -> int {
    if thermal.exceeds(4, 5) {
        -20
    } else if thermal.exceeds(1, 2) {
        -10
    } else {
        0
    }
}

/// The weight of a task.
pub open spec fn score_of(
    sensitive: bool,
    intent: TaskIntent,
    pressure: PressureLevel,
    thermal: Ratio,
) -> TaskScore {
    let sum = intent_weight(intent) + pressure_weight(sensitive, pressure) + thermal_weight(
        thermal,
    );
    TaskScore {
        intent_weight: intent_weight(intent) as i32,
        pressure_mod: pressure_weight(sensitive, pressure) as i32,
        thermal_mod: thermal_weight(thermal) as i32,
        total: if sum < 0 {
            0
        } else {
            sum as i32
        },
    }
}

/// The settings that decisions depend on.
#[derive(Debug, Clone, Copy, PartialEq, Eq, Structural)]
pub struct DecisionEngine {
    pub force_affinity_enabled: bool,
    pub pressure_sensitive: bool,
}

impl Default for DecisionEngine {
    fn default() -> (r: DecisionEngine)
        ensures
            r == (DecisionEngine { force_affinity_enabled: false, pressure_sensitive: true }),
    {
        DecisionEngine { force_affinity_enabled: false, pressure_sensitive: true }
    }
}

/// What to do when a thread has moved to another CPU.
#[derive(Debug, Clone, Copy, PartialEq, Eq, Structural)]
pub enum MigrateAction {
    Observe,
    Suggest,
    Force,
}

impl Default for MigrateAction {
    fn default() -> (r: MigrateAction)
        ensures
            r == MigrateAction::Observe,
    {
        MigrateAction::Observe
    }
}

/// Why a decision was made.
#[derive(Debug, Clone, Copy, PartialEq, Eq, Structural)]
pub enum Reason {
    ForegroundInteractive,
    LatencySensitive,
    Background,
    Frozen,
    ThermalPressure,
    MemoryPressure,
    AuditFailureRate,
    ForceAffinity,
}

/// How an intervention is held back.
#[derive(Debug, Clone, Copy, PartialEq, Eq, Structural)]
pub enum DegradeLevel {
    /// Skip this round.
    SkipOnce,
    /// Watch only.
    Observe,
    /// Intervene less.
    Relax,
}

/// Whether to intervene, and why.
#[derive(Debug, Clone, Copy, PartialEq, Eq, Structural)]
pub enum Decision {
    Allow { reason: Reason },
    Skip { reason: Reason },
    Degrade { level: DegradeLevel, reason: Reason },
}

/// What a decision is based on.
#[derive(Debug, Clone, Copy, PartialEq, Eq, Structural)]
pub struct DecisionContext {
    pub intent: TaskIntent,
    pub pressure: PressureLevel,
    /// Share of the cooling devices in use.
    pub thermal_pressure: Ratio,
    pub foreground: bool,
    /// Share of recent applications that failed.
    pub audit_failure_rate: Ratio,
}

/// Whether to intervene. Force goes before everything; background and frozen
/// tasks are left alone; then heat, recent failures and memory pressure hold
/// an intervention back, in this order.
pub open spec fn decision_of(engine: DecisionEngine, ctx: DecisionContext) -> Decision {
    if engine.force_affinity_enabled {
        Decision::Allow { reason: Reason::ForceAffinity }
    } else if ctx.intent == TaskIntent::Frozen {
        Decision::Skip { reason: Reason::Frozen }
    } else if ctx.intent == TaskIntent::Background {
        Decision::Skip { reason: Reason::Background }
    } else if ctx.thermal_pressure.exceeds(4, 5) {
        Decision::Degrade { level: DegradeLevel::Relax, reason: Reason::ThermalPressure }
    } else if ctx.audit_failure_rate.exceeds(1, 2) {
        Decision::Degrade { level: DegradeLevel::Observe, reason: Reason::AuditFailureRate }
    } else if engine.pressure_sensitive && ctx.pressure == PressureLevel::Critical {
        Decision::Degrade { level: DegradeLevel::Relax, reason: Reason::MemoryPressure }
    } else if ctx.intent == TaskIntent::BackgroundLatencySensitive {
        Decision::Allow { reason: Reason::LatencySensitive }
    } else {
        Decision::Allow { reason: Reason::ForegroundInteractive }
    }
}

/// What an engine does about a thread that has moved to another CPU.
pub open spec fn migration_answer(e: DecisionEngine) -> MigrateAction {
    if e.force_affinity_enabled {
        MigrateAction::Force
    } else {
        MigrateAction::Observe
    }
}

impl DecisionEngine {
    /// How far to go with a task when heat is left aside.
    pub fn decide(&self, intent: TaskIntent, pressure: PressureLevel) -> (r: ActionLevel)
        ensures
            r == score_of(
                self.pressure_sensitive,
                intent,
                pressure,
                Ratio { num: 0, den: 1 },
            ).action(self.force_affinity_enabled),
    {
        if self.force_affinity_enabled {
            return ActionLevel::Force;
        }
        self.evaluate(intent, pressure, Ratio::zero()).to_action(false)
    }

    /// The weight of a task.
    pub fn evaluate(
        &self,
        intent: TaskIntent,
        pressure: PressureLevel,
        thermal_pressure: Ratio,
    ) -> (r: TaskScore)
        ensures
            r == score_of(self.pressure_sensitive, intent, pressure, thermal_pressure),
    {
        let intent_weight: i32 = match intent {
            TaskIntent::Interactive => 60,
            TaskIntent::BackgroundLatencySensitive => 50,
            TaskIntent::Background => 10,
            TaskIntent::Frozen => 0,
        };
        let pressure_mod: i32 = if self.pressure_sensitive {
            match pressure {
                PressureLevel::Normal => 0,
                PressureLevel::Moderate => -15,
                PressureLevel::Critical => -40,
            }
        } else {
            0
        };
        let thermal_mod: i32 = if thermal_pressure.above(4, 5) {
            -20
        } else if thermal_pressure.above(1, 2) {
            -10
        } else {
            0
        };
        let sum: i32 = intent_weight + pressure_mod + thermal_mod;
        let total: i32 = if sum < 0 {
            0
        } else {
            sum
        };
        TaskScore { intent_weight, pressure_mod, thermal_mod, total }
    }

    /// What to do when a thread has moved to another CPU.
    pub fn migrate_action(&self) -> (r: MigrateAction)
        ensures
            r == migration_answer(*self),
    {
        if self.force_affinity_enabled {
            MigrateAction::Force
        } else {
            MigrateAction::Observe
        }
    }

    /// Whether to intervene, and why.
    pub fn decide_ctx(&self, ctx: &DecisionContext) -> (r: Decision)
        ensures
            r == decision_of(*self, *ctx),
    {
        if self.force_affinity_enabled {
            return Decision::Allow { reason: Reason::ForceAffinity };
        }
        match ctx.intent {
            TaskIntent::Frozen => {
                return Decision::Skip { reason: Reason::Frozen };
            },
            TaskIntent::Background => {
                return Decision::Skip { reason: Reason::Background };
            },
            _ => {},
        }
        if ctx.thermal_pressure.above(4, 5) {
            return Decision::Degrade {
                level: DegradeLevel::Relax,
                reason: Reason::ThermalPressure,
            };
        }
        if ctx.audit_failure_rate.above(1, 2) {
            return Decision::Degrade {
                level: DegradeLevel::Observe,
                reason: Reason::AuditFailureRate,
            };
        }
        if self.pressure_sensitive && ctx.pressure == PressureLevel::Critical {
            return Decision::Degrade {
                level: DegradeLevel::Relax,
                reason: Reason::MemoryPressure,
            };
        }
        let reason = match ctx.intent {
            TaskIntent::BackgroundLatencySensitive => Reason::LatencySensitive,
            _ => Reason::ForegroundInteractive,
        };
        Decision::Allow { reason }
    }
}

// ---------------------------------------------------------------------
// Laws
// ---------------------------------------------------------------------

/// Background and frozen tasks are never steered, whatever the pressure.
pub proof fn law_background_is_left_alone(
    engine: DecisionEngine,
    intent: TaskIntent,
    pressure: PressureLevel,
    ctx: DecisionContext,
    thermal: Ratio,
)
    requires
        !engine.force_affinity_enabled,
        intent == TaskIntent::Background || intent == TaskIntent::Frozen,
        ctx.intent == intent,
    ensures
        score_of(engine.pressure_sensitive, intent, pressure, thermal).action(false)
            == ActionLevel::Observe,
        decision_of(engine, ctx) is Skip,
{
}

/// Force settles every decision.
pub proof fn law_force_overrides(
    engine: DecisionEngine,
    score: TaskScore,
    ctx: DecisionContext,
)
    requires
        engine.force_affinity_enabled,
    ensures
        score.action(engine.force_affinity_enabled) == ActionLevel::Force,
        decision_of(engine, ctx) == (Decision::Allow { reason: Reason::ForceAffinity }),
{
}

/// A weight is never negative, and more pressure or more heat never adds to
/// it.
pub proof fn law_pressure_only_lowers(
    sensitive: bool,
    intent: TaskIntent,
    pressure: PressureLevel,
    thermal: Ratio,
)
    ensures
        0 <= score_of(sensitive, intent, pressure, thermal).total <= score_of(
            sensitive,
            intent,
            PressureLevel::Normal,
            Ratio { num: 0, den: 1 },
        ).total,
{
}

/// An intervention that the settings do not force is held back or skipped
/// for a reason that the context shows, and only then.
pub proof fn law_decisions_are_explained(engine: DecisionEngine, ctx: DecisionContext)
    ensures
        decision_of(engine, ctx) is Allow <==> engine.force_affinity_enabled || ((ctx.intent
            == TaskIntent::Interactive || ctx.intent == TaskIntent::BackgroundLatencySensitive)
            && !ctx.thermal_pressure.exceeds(4, 5) && !ctx.audit_failure_rate.exceeds(1, 2) && !(
        engine.pressure_sensitive && ctx.pressure == PressureLevel::Critical)),
{
}

} // verus!
