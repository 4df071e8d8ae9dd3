use threadctl::config::RuleConfig;
use threadctl::decision::DecisionEngine;
use threadctl::engine::{
    begin_scan, begin_single, cleanup_dead, event_pkg, finish_scan, finish_single, handle_event,
    needs_pkg, relock_step, thread_name, tracked_summary, EventAction, RelockContext, RelockStats,
    RelockStep, ThreadResult,
};
use threadctl::event::ProcessEvent;
use threadctl::policy::ApplyOutcome;
use threadctl::ratio::Ratio;
use threadctl::ruleset::RuleSet;
use threadctl::system_context::PressureLevel;
use threadctl::topology::CpuTopology;
use threadctl::tracker::StateTracker;

fn rules() -> RuleSet {
    let r = RuleConfig {
        pkg: "com.a".into(),
        thread: String::new(),
        cpus: String::new(),
        sched: None,
        nice: Some(1),
        uclamp_min: None,
        uclamp_max: None,
    };
    RuleSet::compile(&[r], &CpuTopology::default()).rules
}

fn action(t: &mut StateTracker, ev: ProcessEvent, pkg: &str, now: i64) -> EventAction {
    handle_event(t, &ev, pkg, &rules(), &[], now).action
}

fn result(outcome: ApplyOutcome, dir: &str) -> ThreadResult {
    ThreadResult { outcome, dir: dir.into() }
}

#[test]
fn packages_are_read_when_needed() {
    let bare = ProcessEvent::fork(1, 1);
    assert!(needs_pkg(&bare));
    assert!(!needs_pkg(&ProcessEvent::exit(1, 1)));
    assert!(!needs_pkg(&ProcessEvent::fork(1, 1).with_pkg("x".into())));
    assert_eq!(event_pkg(&bare, Some("y")), "y");
    assert_eq!(event_pkg(&bare, None), "");
    assert_eq!(event_pkg(&ProcessEvent::fork(1, 1).with_pkg("x".into()), Some("y")), "x");
}

#[test]
fn events_lead_to_scans() {
    let mut t = StateTracker::new();
    assert_eq!(action(&mut t, ProcessEvent::fork(1, 1), "com.a", 0), EventAction::Scan);
    assert_eq!(action(&mut t, ProcessEvent::fork(1, 1), "com.b", 0), EventAction::Nothing);
    assert_eq!(action(&mut t, ProcessEvent::fork(1, 1), "", 0), EventAction::Nothing);
    assert_eq!(action(&mut t, ProcessEvent::cpu_migrate(1, 1, 2), "com.a", 0), EventAction::Nothing);
    assert_eq!(action(&mut t, ProcessEvent::thread_clone(1, 2), "com.a", 0), EventAction::Scan);
    t.enter(1, "com.a".into(), 0, 0);
    t.mark_scanned(1, 10);
    assert_eq!(action(&mut t, ProcessEvent::thread_clone(1, 2), "com.a", 11), EventAction::Single);
    assert_eq!(action(&mut t, ProcessEvent::thread_clone(1, 2), "com.a", 12), EventAction::Scan);
}

#[test]
fn ends_are_noted() {
    let mut t = StateTracker::new();
    t.enter(1, "com.a".into(), 0, 0);
    t.record_applied_tids(1, &[1, 2]);
    t.register_dirs(1, &["0-3".into()]);
    action(&mut t, ProcessEvent::exit(1, 2), "", 0);
    assert_eq!(t.get(1).unwrap().applied_tids.len(), 1);
    let out = handle_event(&mut t, &ProcessEvent::exit(1, 1), "", &rules(), &[], 0);
    assert!(!t.contains(1));
    assert_eq!(out.freed, vec!["0-3".to_string()]);
}

#[test]
fn a_new_image_starts_over() {
    let mut t = StateTracker::new();
    t.enter(1, "com.a".into(), 0, 0);
    t.register_dirs(1, &["0-3".into()]);
    let out = handle_event(&mut t, &ProcessEvent::exec(1, 1), "com.a", &rules(), &[], 0);
    assert_eq!(out.action, EventAction::Scan);
    assert_eq!(out.freed, vec!["0-3".to_string()]);
    assert!(!t.contains(1));
}

#[test]
fn scans_settle_threads_and_directories() {
    let mut t = StateTracker::new();
    let start = begin_scan(&mut t, 1, "com.a", 0, 0, true, &[1, 2]);
    assert_eq!(start.unnamed, vec![1, 2]);
    t.remember_name(1, 2, Some("RenderThread".into()));
    assert_eq!(thread_name(&t, 1, 2, true), "RenderThread");
    assert_eq!(thread_name(&t, 1, 2, false), "");
    assert_eq!(thread_name(&t, 1, 1, true), "");
    let end = finish_scan(
        &mut t,
        1,
        "com.a",
        0,
        0,
        &[1, 2],
        &[
            result(ApplyOutcome::Applied, "0-3"),
            result(ApplyOutcome::Exited, "4-7"),
            result(ApplyOutcome::SkippedNoCpus, "5"),
            result(ApplyOutcome::Downgraded, "0-3"),
            result(ApplyOutcome::BlockedByPerm, "6"),
            result(ApplyOutcome::Failed, "0-3"),
        ],
    );
    assert_eq!(end.applied, 2);
    assert_eq!(t.cpuset_ref("0-3"), Some(1));
    assert_eq!(t.cpuset_ref("4-7"), None);
    assert_eq!(t.cpuset_ref("6"), Some(1), "the directory was used");
    assert_eq!(tracked_summary(&t)[0].threads, 2);
}

#[test]
fn single_threads_are_dealt_with_once() {
    let mut t = StateTracker::new();
    t.enter(1, "com.a".into(), 0, 0);
    let s = begin_single(&mut t, 1, "com.a", 7, 0, 0, true);
    assert!(!s.done && s.unnamed);
    assert_eq!(finish_single(&mut t, 1, 7, Some(result(ApplyOutcome::Exited, "0-3"))), 0);
    assert!(!begin_single(&mut t, 1, "com.a", 7, 0, 0, false).done);
    assert_eq!(finish_single(&mut t, 1, 7, Some(result(ApplyOutcome::Applied, "0-3"))), 1);
    assert!(begin_single(&mut t, 1, "com.a", 7, 0, 0, false).done);
    assert_eq!(t.cpuset_ref("0-3"), Some(1));
    assert_eq!(finish_single(&mut t, 1, 9, Some(result(ApplyOutcome::BlockedByCgroup, "4"))), 0);
    assert_eq!(finish_single(&mut t, 1, 8, None), 0);
    assert!(begin_single(&mut t, 1, "com.a", 8, 0, 0, false).done);
}

#[test]
fn relocks_ask_the_engine() {
    let mut t = StateTracker::new();
    t.enter(1, "com.a".into(), 0, 0);
    let ctx = |pressure: PressureLevel| RelockContext {
        pressure,
        thermal_pressure: Ratio::zero(),
        audit_failure_rate: Ratio::zero(),
    };
    let e = DecisionEngine::default();
    let mut stats = RelockStats::default();
    let normal = ctx(PressureLevel::Normal);
    let step = relock_step(&mut t, 1, true, 0, &normal, &e, &mut stats);
    assert!(matches!(step, RelockStep::Refresh { pkg } if pkg == "com.a"));
    let step = relock_step(&mut t, 1, true, 800, &normal, &e, &mut stats);
    assert!(matches!(step, RelockStep::Hold));
    let step = relock_step(&mut t, 1, true, 0, &ctx(PressureLevel::Critical), &e, &mut stats);
    assert!(matches!(step, RelockStep::Hold));
    assert_eq!((stats.allow, stats.skip, stats.degrade), (1, 1, 1));
    assert!(matches!(
        relock_step(&mut t, 9, true, 0, &normal, &e, &mut stats),
        RelockStep::Unknown
    ));
    assert!(matches!(
        relock_step(&mut t, 1, false, 0, &normal, &e, &mut stats),
        RelockStep::Gone { .. }
    ));
    assert!(!t.contains(1));
}

#[test]
fn the_dead_are_forgotten() {
    let mut t = StateTracker::new();
    t.enter(1, "com.a".into(), 0, 0);
    t.enter(2, "com.a".into(), 0, 0);
    t.register_dirs(2, &["4-7".into()]);
    let (n, freed) = cleanup_dead(&mut t, &[2, 9]);
    assert_eq!((n, freed), (1, vec!["4-7".to_string()]));
    assert_eq!(t.pids(), vec![1]);
}
