//! When a process is left alone, and when it is not.

use vstd::prelude::*;

use crate::config::EngineConfig;
use crate::daemon;
use crate::decision;
use crate::decision::{
    ActionLevel, Decision, DecisionContext, DecisionEngine, DegradeLevel, MigrateAction, Reason,
    TaskIntent, ThreadHint,
};
use crate::engine;
use crate::engine::{RelockContext, RelockStats, RelockStep};
use crate::laws::answers;
use crate::ratio::Ratio;
use crate::system_context;
use crate::system_context::{PressureLevel, SystemContext};
use crate::text;
use crate::tracker;
use crate::tracker::ProcView;

verus! {

// ---------------------------------------------------------------------
// What the laws speak of
// ---------------------------------------------------------------------

/// Whether nothing holds an intervention back: at most four fifths of the
/// cooling devices are in use, at most half of the recent applications have
/// failed, and memory is not critically scarce where that counts.
pub open spec fn calm(sensitive: bool, ctx: RelockContext) -> bool {
    &&& 5 * ctx.thermal_pressure.num <= 4 * ctx.thermal_pressure.den
    &&& 2 * ctx.audit_failure_rate.num <= ctx.audit_failure_rate.den
    &&& sensitive ==> ctx.pressure != PressureLevel::Critical
}

/// How eager an intent makes one to intervene.
pub open spec fn eagerness(i: TaskIntent) -> int {
    match i {
        TaskIntent::Frozen => 0,
        TaskIntent::Background => 1,
        TaskIntent::BackgroundLatencySensitive => 2,
        TaskIntent::Interactive => 3,
    }
}

// ---------------------------------------------------------------------
// Applying policies anew
// ---------------------------------------------------------------------

/// Without force a living process that is followed is left alone when its
/// `oom_score_adj` is above 500; at 500 and below it is looked at again just
/// when the system is calm. With force it always is. A process that is gone is
/// dropped, and one that is not followed is unknown, whatever the number.
pub proof fn law_relock_goes_by_the_number(
    before: Seq<ProcView>,
    after: Seq<ProcView>,
    pid: i32,
    alive: bool,
    decider: DecisionEngine,
    ctx: RelockContext,
    oom_adj: i32,
    counted: RelockStats,
    now_counted: RelockStats,
    r: RelockStep,
)
    requires
        engine::relocked(
            before,
            after,
            pid,
            alive,
            engine::relock_decision(decider, ctx, oom_adj),
            counted,
            now_counted,
            r,
        ),
        counted.allow < u64::MAX,
        counted.skip < u64::MAX,
        counted.degrade < u64::MAX,
    ensures
        !tracker::tracks(before, pid) <==> r is Unknown,
        tracker::tracks(before, pid) && !alive <==> r is Gone,
        r is Gone || after == before,
        tracker::tracks(before, pid) && alive ==> {
            let refreshed = r is Refresh;
            let force = decider.force_affinity_enabled;
            &&& r is Refresh || r is Hold
            &&& force ==> refreshed
            &&& !force && oom_adj > 500 ==> r is Hold
            &&& !force && oom_adj <= 500 ==> (refreshed <==> calm(decider.pressure_sensitive, ctx))
            &&& refreshed ==> exists|i: int|
                0 <= i < before.len() && (#[trigger] before[i]).pid == pid && (
                r matches RelockStep::Refresh { pkg } && pkg@ == before[i].pkg)
            &&& refreshed ==> now_counted.allow == counted.allow + 1 && now_counted.skip
                == counted.skip && now_counted.degrade == counted.degrade
            &&& r is Hold && oom_adj > 500 ==> now_counted.skip == counted.skip + 1
                && now_counted.allow == counted.allow && now_counted.degrade == counted.degrade
            &&& r is Hold && oom_adj <= 500 ==> now_counted.degrade == counted.degrade + 1
                && now_counted.allow == counted.allow && now_counted.skip == counted.skip
        },
        !(tracker::tracks(before, pid) && alive) ==> now_counted == counted,
{
    tracker::lemma_proc_index(before, pid);
    if tracker::tracks(before, pid) {
        let i = tracker::proc_index(before, pid);
        assert(before[i].pid == pid);
    }
}

/// Policies are applied with force just when a migration is answered with
/// force: then every living process is looked at again, however low it ranks
/// and whatever weighs against it. Otherwise one above 500 is left alone, and
/// one that is not is looked at in a calm system.
pub proof fn law_force_is_for_forced_migrations(
    config: EngineConfig,
    ctx: RelockContext,
    oom_adj: i32,
)
    ensures
        ({
            let d = engine::relock_decision(daemon::decider_of(config), ctx, oom_adj);
            &&& config.migrate_action == MigrateAction::Force ==> d is Allow
            &&& config.migrate_action != MigrateAction::Force ==> (d is Allow <==> oom_adj <= 500
                && calm(config.pressure_sensitive, ctx))
            &&& config.migrate_action != MigrateAction::Force ==> (d is Skip <==> oom_adj > 500)
        }),
{
}

/// Before the first look at the system only failures weigh; after one, what it
/// showed weighs too. A thread that moved is answered with force just when
/// policies are.
pub proof fn law_decisions_go_by_the_last_look(
    config: EngineConfig,
    s: &SystemContext,
    rate: Ratio,
)
    ensures
        calm(config.pressure_sensitive, daemon::context_of(None, rate)) <==> 2 * rate.num
            <= rate.den,
        calm(config.pressure_sensitive, daemon::context_of(Some(s), rate)) <==> 2 * rate.num
            <= rate.den && 5 * s.thermal_pressure.num <= 4 * s.thermal_pressure.den && (
        config.pressure_sensitive ==> s.memory_pressure != PressureLevel::Critical),
        decision::migration_answer(daemon::decider_of(config)) == MigrateAction::Force
            <==> config.migrate_action == MigrateAction::Force,
        decision::migration_answer(daemon::decider_of(config)) != MigrateAction::Suggest,
{
}

/// An intent never grows more eager as the `oom_score_adj` rises, and stands
/// for a stretch of numbers: interactive up to 200, sensitive up to 500,
/// background up to 900, frozen beyond.
pub proof fn law_eagerness_falls_with_the_number(a: int, b: int)
    requires
        a <= b,
    ensures
        eagerness(decision::intent_of_oom(b)) <= eagerness(decision::intent_of_oom(a)),
        eagerness(decision::intent_of_oom(a)) == if a > 900 {
            0int
        } else if a > 500 {
            1
        } else if a > 200 {
            2
        } else {
            3
        },
{
}

/// A task in the foreground, or one with a negative number, is interactive
/// whatever else is known. Elsewhere a thread that must not be late counts as
/// sensitive up to 700; beyond that, and without such a hint, the number
/// alone counts.
pub proof fn law_foreground_is_interactive(oom_adj: int, foreground: bool, hint: ThreadHint)
    ensures
        ({
            let i = decision::intent_of_sources(oom_adj, foreground, hint);
            let late = hint == ThreadHint::LatencySensitive && oom_adj <= 700;
            &&& foreground || oom_adj < 0 ==> eagerness(i) == 3
            &&& !foreground && oom_adj >= 0 && late ==> eagerness(i) == 2
            &&& !foreground && oom_adj >= 0 && !late ==> eagerness(i) == if oom_adj > 900 {
                0int
            } else if oom_adj > 500 {
                1
            } else if oom_adj > 200 {
                2
            } else {
                3
            }
        }),
{
}

/// A thread whose name, in lower case, has `audio`, `binder:`, `renderthread`
/// or `gl` anywhere must not be late. Of the others, one with `worker` or
/// `pool` computes, and of the rest nothing is known.
pub proof fn law_names_hint_at_the_work(lower: Seq<char>)
    ensures
        ({
            let late = answers::shows(lower, "audio"@) || answers::shows(lower, "binder:"@)
                || answers::shows(lower, "renderthread"@) || answers::shows(lower, "gl"@);
            let busy = answers::shows(lower, "worker"@) || answers::shows(lower, "pool"@);
            &&& decision::hint_of(lower) == ThreadHint::LatencySensitive <==> late
            &&& decision::hint_of(lower) == ThreadHint::ComputeIntensive <==> !late && busy
            &&& decision::hint_of(lower) == ThreadHint::Unknown <==> !late && !busy
        }),
{
    lemma_occurs(lower, "audio"@);
    lemma_occurs(lower, "binder:"@);
    lemma_occurs(lower, "renderthread"@);
    lemma_occurs(lower, "gl"@);
    lemma_occurs(lower, "worker"@);
    lemma_occurs(lower, "pool"@);
}

proof fn lemma_occurs(s: Seq<char>, p: Seq<char>)
    ensures
        text::occurs(s, p) <==> answers::shows(s, p),
{
    if text::occurs(s, p) {
        let i = choose|i: int|
            0 <= i <= s.len() && text::starts_with(#[trigger] s.skip(i), p);
        assert(s =~= s.take(i) + p + s.skip(i + p.len())) by {
            assert(s.skip(i).take(p.len() as int) =~= p);
            assert forall|k: int| 0 <= k < p.len() implies #[trigger] p[k] == s[i + k] by {
                assert(s.skip(i).take(p.len() as int)[k] == s[i + k]);
            }
        }
    }
    if answers::shows(s, p) {
        let (a, b) = choose|a: Seq<char>, b: Seq<char>| s == #[trigger] (a + p + b);
        assert(s.skip(a.len() as int) =~= p + b);
        assert((p + b).take(p.len() as int) =~= p);
        assert(text::starts_with(s.skip(a.len() as int), p));
    }
}

/// A decision names what it goes by. Force is named before all else; the
/// background and the frozen are skipped as such; of what holds an
/// intervention back, heat is named before failures, and these before memory.
pub proof fn law_decisions_name_their_reason(e: DecisionEngine, ctx: DecisionContext)
    ensures
        ({
            let d = decision::decision_of(e, ctx);
            let hot = 5 * ctx.thermal_pressure.num > 4 * ctx.thermal_pressure.den;
            let failing = 2 * ctx.audit_failure_rate.num > ctx.audit_failure_rate.den;
            let scarce = e.pressure_sensitive && ctx.pressure == PressureLevel::Critical;
            let idle = eagerness(ctx.intent) < 2;
            let force = e.force_affinity_enabled;
            &&& force ==> d == (Decision::Allow { reason: Reason::ForceAffinity })
            &&& !force && eagerness(ctx.intent) == 0 ==> d == (Decision::Skip {
                reason: Reason::Frozen,
            })
            &&& !force && eagerness(ctx.intent) == 1 ==> d == (Decision::Skip {
                reason: Reason::Background,
            })
            &&& !force && !idle && hot ==> d == (Decision::Degrade {
                level: DegradeLevel::Relax,
                reason: Reason::ThermalPressure,
            })
            &&& !force && !idle && !hot && failing ==> d == (Decision::Degrade {
                level: DegradeLevel::Observe,
                reason: Reason::AuditFailureRate,
            })
            &&& !force && !idle && !hot && !failing && scarce ==> d == (Decision::Degrade {
                level: DegradeLevel::Relax,
                reason: Reason::MemoryPressure,
            })
            &&& !force && !hot && !failing && !scarce && eagerness(ctx.intent) == 2 ==> d == (
            Decision::Allow { reason: Reason::LatencySensitive })
            &&& !force && !hot && !failing && !scarce && eagerness(ctx.intent) == 3 ==> d == (
            Decision::Allow { reason: Reason::ForegroundInteractive })
        }),
{
}

// ---------------------------------------------------------------------
// Weights
// ---------------------------------------------------------------------

/// How scarce memory is, as a number.
pub open spec fn scarcity(p: PressureLevel) -> int {
    match p {
        PressureLevel::Normal => 0,
        PressureLevel::Moderate => 1,
        PressureLevel::Critical => 2,
    }
}

/// The weight of a task falls, or stays, as its intent gets less eager, as
/// memory gets scarcer and as it gets hotter; memory counts only where the
/// engine is sensitive to it. The parts add up, but never to less than zero.
pub proof fn law_weights_follow_the_system(
    sensitive: bool,
    i: TaskIntent,
    j: TaskIntent,
    p: PressureLevel,
    q: PressureLevel,
    h: Ratio,
    k: Ratio,
)
    requires
        eagerness(i) <= eagerness(j),
        scarcity(q) <= scarcity(p),
        h.den == k.den,
        k.num <= h.num,
    ensures
        ({
            let low = decision::score_of(sensitive, i, p, h);
            let high = decision::score_of(sensitive, j, q, k);
            &&& 0 <= low.total <= high.total
            &&& low.intent_weight <= high.intent_weight
            &&& low.pressure_mod <= high.pressure_mod <= 0
            &&& low.thermal_mod <= high.thermal_mod <= 0
            &&& low.total == low.intent_weight + low.pressure_mod + low.thermal_mod || (low.total
                == 0 && low.intent_weight + low.pressure_mod + low.thermal_mod < 0)
            &&& !sensitive ==> low.pressure_mod == 0
            &&& scarcity(p) == 0 ==> low.pressure_mod == 0
            &&& sensitive && scarcity(q) < scarcity(p) ==> low.pressure_mod < high.pressure_mod
            &&& eagerness(i) < eagerness(j) ==> low.intent_weight < high.intent_weight
        }),
{
    assert(k.num * 5 <= h.num * 5 && k.num * 2 <= h.num * 2) by (nonlinear_arith)
        requires
            k.num <= h.num,
    ;
}

/// A task is steered without force just when it is interactive or sensitive,
/// memory is not critically scarce where that counts, and, where it is merely
/// sensitive or memory is short, nothing more weighs against it.
pub proof fn law_who_is_steered(sensitive: bool, i: TaskIntent, p: PressureLevel)
    ensures
        ({
            let score = decision::score_of(sensitive, i, p, Ratio { num: 0, den: 1 });
            let steered = score.action(false) == ActionLevel::Steer;
            let weighs = sensitive && scarcity(p) > 0;
            &&& score.action(true) == ActionLevel::Force
            &&& !steered ==> score.action(false) == ActionLevel::Observe
            &&& eagerness(i) < 2 ==> !steered
            &&& eagerness(i) >= 2 && !weighs ==> steered
            &&& eagerness(i) == 3 && sensitive && scarcity(p) == 1 ==> steered
            &&& eagerness(i) == 2 && weighs ==> !steered
            &&& sensitive && scarcity(p) == 2 ==> !steered
        }),
{
}

/// Memory counts as scarcer the higher its ten-second average: moderate from
/// 10 on, critical above 60; and it is looked at more often.
pub proof fn law_scarcity_follows_the_average(a: Ratio, b: Ratio)
    requires
        a.den > 0,
        a.den == b.den,
        a.num <= b.num,
    ensures
        scarcity(system_context::level_of(a)) <= scarcity(system_context::level_of(b)),
        scarcity(system_context::level_of(a)) == 2 <==> a.num > 60 * a.den,
        scarcity(system_context::level_of(a)) == 0 <==> a.num < 10 * a.den,
        system_context::poll_secs_of(system_context::level_of(b)) <= system_context::poll_secs_of(
            system_context::level_of(a),
        ),
{
}

} // verus!
