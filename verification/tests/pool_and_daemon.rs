use threadctl::config::{EngineConfig, EngineMode};
use threadctl::daemon::{
    choose_sources, count_pkgs, decision_engine, nap_ms, parse_args, poll_interval,
    relock_context, wants_ebpf, Invocation, Rounds, Sources,
};
use threadctl::decision::MigrateAction;
use threadctl::event::ProcessEvent;
use threadctl::kdl_parser::parse_kdl;
use threadctl::pool::AffinityPool;
use threadctl::ratio::Ratio;
use threadctl::relock::{AdaptiveRelock, RelockGuard};
use threadctl::system_context::PressureLevel;
use threadctl::topology::parse_cpu_ranges;

#[test]
fn pool_rejects_bad_input() {
    assert!(AffinityPool::new("x", "not-a-range", 1).is_err());
    assert!(AffinityPool::new("x", "0-1", 0).is_err(), "size 0 拒绝");
    assert!(parse_cpu_ranges("", None).is_empty());
    let e = AffinityPool::new("x", "not-a-range", 0).unwrap_err();
    assert_eq!(e, "CPU 集为空: not-a-range");
    assert_eq!(AffinityPool::new("x", "0", 0).unwrap_err(), "线程池大小必须 >= 1");
}

#[test]
fn tasks_go_round() {
    let mut pool = AffinityPool::new("test", "0-1", 2).expect("创建");
    assert_eq!(pool.worker_count(), 2);
    assert_eq!(pool.cpus_desc(), "0-1");
    assert_eq!(pool.name(), "test");
    assert_eq!(pool.cpus().count(), 2);
    assert_eq!(pool.worker_name(1), "test-1");
    let turns: Vec<usize> = (0..5).map(|_| pool.next_worker()).collect();
    assert_eq!(turns, vec![0, 1, 0, 1, 0]);
}

fn args(list: &[&str]) -> Vec<String> {
    let mut v = vec!["threadctl".to_string()];
    v.extend(list.iter().map(|s| s.to_string()));
    v
}

#[test]
fn command_lines_are_read() {
    match parse_args(&args(&["-c", "a.kdl", "-s", "5", "-t", "--debug"])) {
        Invocation::Run { options: o } => {
            assert_eq!((o.config_file.as_str(), o.scan_interval), ("a.kdl", 5));
            assert!(o.dry_run && o.debug);
        }
        other => panic!("{other:?}"),
    }
    match parse_args(&args(&[])) {
        Invocation::Run { options: o } => {
            assert_eq!((o.config_file.as_str(), o.scan_interval), ("./threadctl.kdl", 2));
            assert!(!o.dry_run && !o.debug);
        }
        other => panic!("{other:?}"),
    }
    assert!(matches!(parse_args(&args(&["-c"])), Invocation::MissingConfig));
    assert!(matches!(parse_args(&args(&["-s", "0"])), Invocation::BadInterval));
    assert!(matches!(parse_args(&args(&["-s"])), Invocation::BadInterval));
    assert!(matches!(parse_args(&args(&["-v", "-x"])), Invocation::Version));
    assert!(matches!(parse_args(&args(&["-h"])), Invocation::Help));
    assert!(matches!(parse_args(&args(&["-x"])), Invocation::Unknown { option } if option == "-x"));
    assert!(matches!(
        parse_args(&args(&["dump", "12"])),
        Invocation::Client { command } if command == "dump 12"
    ));
    assert!(matches!(
        parse_args(&args(&["--debug", "dump"])),
        Invocation::Unknown { option } if option == "dump"
    ));
}

fn engine(kdl: &str) -> EngineConfig {
    parse_kdl(kdl).unwrap().2
}

#[test]
fn rounds_are_due_in_time() {
    let mut r = Rounds::new(100);
    assert!(!r.observe_due(104));
    assert!(r.observe_due(105));
    assert!(!r.observe_due(106));
    assert!(!r.cleanup_due(100, 0));
    assert!(r.cleanup_due(101, 0));
    assert!(!r.foreground_due(129) && r.foreground_due(130));
    assert!(!r.audit_due(159) && r.audit_due(160));
    assert!(!r.coverage_due(200, 0));
    assert!(r.coverage_due(200, 60));
    assert!(!r.coverage_due(201, 60));
}

#[test]
fn relocks_share_a_guard() {
    let mut r = Rounds::new(100);
    let mut guard = RelockGuard::new(100_000);
    guard.set_cooldown(1000);
    let adaptive = AdaptiveRelock::new();
    assert!(!r.immediate_relock(Ratio::zero(), &mut guard, 100, 100_000));
    assert!(r.immediate_relock(Ratio { num: 1, den: 4 }, &mut guard, 160, 160_000));
    assert_eq!(r.last_lock, 160);
    assert!(!r.periodic_relock(60, &adaptive, &mut guard, 219, 219_000));
    assert!(!r.periodic_relock(0, &adaptive, &mut guard, 220, 220_000));
    assert!(r.periodic_relock(60, &adaptive, &mut guard, 220, 220_000));
    assert!(!r.immediate_relock(Ratio { num: 1, den: 4 }, &mut guard, 220, 220_500));
}

#[test]
fn intervals_and_contexts() {
    let e = engine("engine { scan-interval 3; migrate-action \"force\" }");
    assert_eq!(poll_interval(2, &e), 3);
    assert_eq!(poll_interval(9, &e), 9);
    assert!(decision_engine(&e).force_affinity_enabled);
    assert_eq!(e.migrate_action, MigrateAction::Force);
    assert_eq!((nap_ms(10, 10), nap_ms(10, 50), nap_ms(10, 5000)), (0, 40, 100));
    let c = relock_context(None, Ratio { num: 1, den: 2 });
    assert_eq!(c.pressure, PressureLevel::Normal);
    assert_eq!(c.audit_failure_rate, Ratio { num: 1, den: 2 });
}

#[test]
fn packages_are_counted_once() {
    let events = [
        ProcessEvent::fork(1, 1).with_pkg("a".into()),
        ProcessEvent::exit(2, 2),
        ProcessEvent::thread_clone(1, 3).with_pkg("a".into()),
        ProcessEvent::cpu_migrate(4, 4, 2).with_pkg("b".into()),
    ];
    assert_eq!(count_pkgs(&events), 2);
    assert_eq!(count_pkgs(&[]), 0);
}

#[test]
fn modes_choose_the_sources() {
    assert_eq!(choose_sources(EngineMode::Auto, true), Sources::Ebpf);
    assert_eq!(choose_sources(EngineMode::Auto, false), Sources::Proc);
    assert_eq!(choose_sources(EngineMode::Ebpf, true), Sources::Ebpf);
    assert_eq!(choose_sources(EngineMode::Ebpf, false), Sources::Nowhere);
    assert_eq!(choose_sources(EngineMode::Proc, true), Sources::Proc);
    assert_eq!(choose_sources(EngineMode::Hybrid, true), Sources::Both);
    assert_eq!(choose_sources(EngineMode::Hybrid, false), Sources::Proc);
    assert!(wants_ebpf(EngineMode::Auto) && !wants_ebpf(EngineMode::Proc));
}
