use threadctl::decision::{
    ActionLevel, Decision, DecisionContext, DecisionEngine, DegradeLevel, MigrateAction, Reason,
    TaskIntent, ThreadHint,
};
use threadctl::ratio::Ratio;
use threadctl::system_context::PressureLevel;

fn share(num: u64, den: u64) -> Ratio {
    Ratio { num, den }
}

fn ctx(intent: TaskIntent) -> DecisionContext {
    DecisionContext {
        intent,
        pressure: PressureLevel::Normal,
        thermal_pressure: Ratio::zero(),
        foreground: intent == TaskIntent::Interactive,
        audit_failure_rate: Ratio::zero(),
    }
}

#[test]
fn interactive_steers_until_pressure() {
    let e = DecisionEngine::default();
    assert_eq!(e.decide(TaskIntent::Interactive, PressureLevel::Normal), ActionLevel::Steer);
    assert_eq!(e.decide(TaskIntent::Interactive, PressureLevel::Moderate), ActionLevel::Steer);
    assert_eq!(e.decide(TaskIntent::Interactive, PressureLevel::Critical), ActionLevel::Observe);
}

#[test]
fn background_observes() {
    let e = DecisionEngine::default();
    assert_eq!(e.decide(TaskIntent::Background, PressureLevel::Normal), ActionLevel::Observe);
    assert_eq!(e.decide(TaskIntent::Background, PressureLevel::Critical), ActionLevel::Observe);
}

#[test]
fn decide_matches_evaluate_full_matrix() {
    let e = DecisionEngine::default();
    let intents = [
        TaskIntent::Interactive,
        TaskIntent::BackgroundLatencySensitive,
        TaskIntent::Background,
        TaskIntent::Frozen,
    ];
    let pressures = [PressureLevel::Normal, PressureLevel::Moderate, PressureLevel::Critical];
    for intent in intents {
        for pressure in pressures {
            let via_decide = e.decide(intent, pressure);
            let via_evaluate = e.evaluate(intent, pressure, Ratio::zero()).to_action(false);
            assert_eq!(
                via_decide, via_evaluate,
                "decide/evaluate mismatch: {intent:?} + {pressure:?}"
            );
        }
    }
}

#[test]
fn frozen_never_intervenes() {
    assert_eq!(
        DecisionEngine::default().decide(TaskIntent::Frozen, PressureLevel::Normal),
        ActionLevel::Observe
    );
}

#[test]
fn force_overrides() {
    let e = DecisionEngine { force_affinity_enabled: true, ..Default::default() };
    assert_eq!(e.decide(TaskIntent::Background, PressureLevel::Critical), ActionLevel::Force);
    assert_eq!(e.migrate_action(), MigrateAction::Force);
}

#[test]
fn default_migrate_is_observe() {
    assert_eq!(DecisionEngine::default().migrate_action(), MigrateAction::Observe);
}

#[test]
fn task_score_sums() {
    let e = DecisionEngine::default();
    let s = e.evaluate(TaskIntent::Interactive, PressureLevel::Normal, share(1, 10));
    assert_eq!(s.total, 60, "L3: Interactive weight 50→60");
    let s2 = e.evaluate(TaskIntent::Background, PressureLevel::Critical, share(9, 10));
    assert_eq!(s2.total, 0);
}

#[test]
fn multi_source_intent() {
    let intent = TaskIntent::from_sources(500, false, ThreadHint::LatencySensitive);
    assert_eq!(intent, TaskIntent::BackgroundLatencySensitive);
    let intent = TaskIntent::from_sources(500, true, ThreadHint::Unknown);
    assert_eq!(intent, TaskIntent::Interactive);
}

#[test]
fn thread_hint_from_name() {
    assert_eq!(ThreadHint::from_thread_name("AudioTrack"), ThreadHint::LatencySensitive);
    assert_eq!(ThreadHint::from_thread_name("Binder:1234_5"), ThreadHint::LatencySensitive);
    assert_eq!(ThreadHint::from_thread_name("RenderThread"), ThreadHint::LatencySensitive);
    assert_eq!(ThreadHint::from_thread_name("GLThread"), ThreadHint::LatencySensitive);
    assert_eq!(ThreadHint::from_thread_name("ThreadPoolWorker"), ThreadHint::ComputeIntensive);
    assert_eq!(ThreadHint::from_thread_name("main"), ThreadHint::Unknown);
}

#[test]
fn lower_names_are_not_lowered_again() {
    assert_eq!(ThreadHint::from_lower_name("audiotrack"), ThreadHint::LatencySensitive);
    assert_eq!(ThreadHint::from_lower_name("AUDIOTRACK"), ThreadHint::Unknown);
    assert_eq!(ThreadHint::from_thread_name("AUDIOTRACK"), ThreadHint::LatencySensitive);
}

#[test]
fn ctx_frozen_and_background_skip() {
    let e = DecisionEngine::default();
    assert_eq!(
        e.decide_ctx(&ctx(TaskIntent::Frozen)),
        Decision::Skip { reason: Reason::Frozen }
    );
    assert_eq!(
        e.decide_ctx(&ctx(TaskIntent::Background)),
        Decision::Skip { reason: Reason::Background }
    );
}

#[test]
fn ctx_thermal_pressure_degrades() {
    let e = DecisionEngine::default();
    let mut c = ctx(TaskIntent::Interactive);
    c.thermal_pressure = share(9, 10);
    assert_eq!(
        e.decide_ctx(&c),
        Decision::Degrade { level: DegradeLevel::Relax, reason: Reason::ThermalPressure }
    );
}

#[test]
fn ctx_audit_failure_rate_observes() {
    let e = DecisionEngine::default();
    let mut c = ctx(TaskIntent::BackgroundLatencySensitive);
    c.audit_failure_rate = share(8, 10);
    assert_eq!(
        e.decide_ctx(&c),
        Decision::Degrade { level: DegradeLevel::Observe, reason: Reason::AuditFailureRate }
    );
}

#[test]
fn ctx_memory_pressure_critical_degrades() {
    let e = DecisionEngine::default();
    let mut c = ctx(TaskIntent::Interactive);
    c.pressure = PressureLevel::Critical;
    assert_eq!(
        e.decide_ctx(&c),
        Decision::Degrade { level: DegradeLevel::Relax, reason: Reason::MemoryPressure }
    );
}

#[test]
fn ctx_normal_allows() {
    let e = DecisionEngine::default();
    assert_eq!(
        e.decide_ctx(&ctx(TaskIntent::Interactive)),
        Decision::Allow { reason: Reason::ForegroundInteractive }
    );
    assert_eq!(
        e.decide_ctx(&ctx(TaskIntent::BackgroundLatencySensitive)),
        Decision::Allow { reason: Reason::LatencySensitive },
        "BUG-M3 修复：BLS Allow 归因 LatencySensitive，不再混入 ForegroundInteractive"
    );
}

#[test]
fn ctx_force_overrides() {
    let e = DecisionEngine { force_affinity_enabled: true, ..Default::default() };
    let mut c = ctx(TaskIntent::Frozen);
    c.thermal_pressure = share(99, 100);
    c.audit_failure_rate = share(1, 1);
    assert_eq!(e.decide_ctx(&c), Decision::Allow { reason: Reason::ForceAffinity });
}

#[test]
fn ctx_bls_not_degrades_on_moderate() {
    let e = DecisionEngine::default();
    let mut c = ctx(TaskIntent::BackgroundLatencySensitive);
    c.pressure = PressureLevel::Moderate;
    assert_eq!(
        e.decide_ctx(&c),
        Decision::Allow { reason: Reason::LatencySensitive },
        "Moderate 压力不应降级，BLS 归因 LatencySensitive（M3 修复）"
    );
}

#[test]
fn thresholds_are_strict() {
    let e = DecisionEngine::default();
    let mut c = ctx(TaskIntent::Interactive);
    c.thermal_pressure = share(8, 10);
    assert_eq!(e.decide_ctx(&c), Decision::Allow { reason: Reason::ForegroundInteractive });
    assert_eq!(TaskIntent::from_oom_adj(-900), TaskIntent::from_oom_adj(-900));
}
