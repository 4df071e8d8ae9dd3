use threadctl::backend::{cpuset_path, uclamp_setting, EnsuredDirs};
use threadctl::policy::{
    apply_affinity, sched_plan, start_affinity, tasks_path, AffinityEvent, AffinityState,
    AffinityWarning, ApplyOutcome, MaskError, Policy, SchedPlan, SchedPolicy, WarnedTids,
};
use threadctl::topology::{parse_cpu_ranges, CpuTopology};

fn policy(cpus: &str) -> Policy {
    Policy {
        cpus: parse_cpu_ranges(cpus, None),
        cpuset_dir: cpus.into(),
        sched: None,
        sched_prio: None,
        nice: None,
        uclamp_min: None,
        uclamp_max: None,
    }
}

fn topo(cpuset: bool) -> CpuTopology {
    let mut t = CpuTopology::default();
    t.online_cpus = parse_cpu_ranges("0-7", None);
    t.cpuset_enabled = cpuset;
    t.base_cpuset_fd = if cpuset { 3 } else { -1 };
    t
}

fn done(s: AffinityState) -> ApplyOutcome {
    match s {
        AffinityState::Done { outcome } => outcome,
        other => panic!("not done: {other:?}"),
    }
}

#[test]
fn policies_without_cpus_are_skipped() {
    let s = start_affinity(&policy(""), &topo(true));
    assert_eq!(done(s), ApplyOutcome::SkippedNoCpus);
    assert!(matches!(start_affinity(&policy("0-3"), &topo(true)), AffinityState::Join));
    assert!(matches!(start_affinity(&policy("0-3"), &topo(false)), AffinityState::Compare));
}

#[test]
fn joining_may_fail() {
    let p = policy("0-3");
    let t = topo(true);
    let s = apply_affinity(5, "a", &p, &t, AffinityState::Join, AffinityEvent::Joined { ok: false });
    assert!(matches!(s.next, AffinityState::Compare));
    assert_eq!(s.warning, Some(AffinityWarning::CpusetJoinFailed));
    let e = s.record.unwrap();
    assert_eq!((e.reason.as_str(), e.success), ("cpuset_write_failed", false));
    assert_eq!(e.requested_cpus, "0-3");
}

#[test]
fn a_right_mask_is_left_alone() {
    let p = policy("0-3");
    let event = AffinityEvent::Current { mask: Some(p.cpus) };
    let s = apply_affinity(5, "a", &p, &topo(false), AffinityState::Compare, event);
    assert_eq!(done(s.next), ApplyOutcome::Applied);
    assert_eq!(s.record.unwrap().reason, "already");
}

#[test]
fn the_cgroup_restricts() {
    let p = policy("0-3");
    let t = topo(false);
    let s = apply_affinity(
        5,
        "a",
        &p,
        &t,
        AffinityState::Compare,
        AffinityEvent::Current { mask: None },
    );
    assert!(matches!(s.next, AffinityState::Restrict));
    let allowed = |c: &str| AffinityEvent::Allowed { mask: Some(parse_cpu_ranges(c, None)) };
    let s = apply_affinity(5, "a", &p, &t, AffinityState::Restrict, allowed("4-7"));
    assert_eq!(done(s.next), ApplyOutcome::BlockedByCgroup);
    assert_eq!(s.record.unwrap().reason, "cgroup");
    let s = apply_affinity(5, "a", &p, &t, AffinityState::Restrict, allowed("2-7"));
    assert_eq!(s.warning, Some(AffinityWarning::Degraded));
    assert!(s.record.is_none());
    match s.next {
        AffinityState::SetMask { mask, reduced } => {
            assert_eq!((mask.to_range_string().as_str(), reduced), ("2-3", true));
        }
        other => panic!("{other:?}"),
    }
    let set = AffinityEvent::Finished { error: None };
    let end = apply_affinity(5, "a", &p, &t, s.next, set);
    assert_eq!(done(end.next), ApplyOutcome::Downgraded);
    let e = end.record.unwrap();
    assert_eq!((e.reason.as_str(), e.success), ("downgraded", true));
    assert_eq!((e.requested_cpus.as_str(), e.effective_cpus.as_str()), ("0-3", "2-3"));
    let refused = AffinityEvent::Finished { error: Some(MaskError::NotPermitted) };
    let end = apply_affinity(5, "a", &p, &t, s.next, refused);
    assert_eq!(done(end.next), ApplyOutcome::BlockedByPerm);
    assert_eq!(end.record.unwrap().reason, "eperm");
    let s = apply_affinity(5, "a", &p, &t, AffinityState::Restrict, allowed("0-7"));
    match s.next {
        AffinityState::SetMask { mask, reduced } => {
            assert_eq!((mask.to_range_string().as_str(), reduced), ("0-3", false));
        }
        other => panic!("{other:?}"),
    }
}

#[test]
fn offline_cpus_are_left_out() {
    let p = policy("0-3");
    let mut t = topo(false);
    t.online_cpus = parse_cpu_ranges("2-7", None);
    let none = AffinityEvent::Allowed { mask: None };
    match apply_affinity(5, "a", &p, &t, AffinityState::Restrict, none).next {
        AffinityState::SetMask { mask, .. } => assert_eq!(mask.to_range_string(), "2-3"),
        other => panic!("{other:?}"),
    }
    t.online_cpus = parse_cpu_ranges("6-7", None);
    let s = apply_affinity(5, "a", &p, &t, AffinityState::Restrict, none);
    assert_eq!(done(s.next), ApplyOutcome::SkippedNoCpus);
}

#[test]
fn refusals_are_told_apart() {
    let p = policy("0-3");
    let t = topo(false);
    let state = AffinityState::SetMask { mask: p.cpus, reduced: false };
    let end = |error: Option<MaskError>| {
        let s = apply_affinity(5, "a", &p, &t, state, AffinityEvent::Finished { error });
        (done(s.next), s.record.unwrap().reason)
    };
    assert_eq!(end(None), (ApplyOutcome::Applied, "applied".to_string()));
    assert_eq!(end(Some(MaskError::NoSuchThread)), (ApplyOutcome::Exited, "esrch".to_string()));
    assert_eq!(end(Some(MaskError::Invalid)), (ApplyOutcome::EINVAL, "einval".to_string()));
    assert_eq!(
        end(Some(MaskError::NotPermitted)),
        (ApplyOutcome::BlockedByPerm, "eperm".to_string())
    );
    assert_eq!(end(Some(MaskError::Other)), (ApplyOutcome::Failed, "other".to_string()));
}

#[test]
fn warnings_come_once() {
    let mut w = WarnedTids::new();
    assert!(w.warn_once(5));
    assert!(!w.warn_once(5));
    for tid in 0..40_000 {
        w.warn_once(tid);
    }
    assert!(w.warn_once(50_000));
    assert!(w.warn_once(5), "the set was emptied when it had grown too large");
}

#[test]
fn scheduling_is_planned() {
    let mut p = policy("0-3");
    assert_eq!(sched_plan(&p, true), SchedPlan::Keep);
    p.sched = SchedPolicy::from_str("fifo");
    p.sched_prio = Some(200);
    p.nice = Some(-30);
    assert_eq!(sched_plan(&p, false), SchedPlan::NotPermitted);
    match sched_plan(&p, true) {
        SchedPlan::Apply { setting } => {
            assert_eq!((setting.priority, setting.nice), (99, None));
            assert!(setting.policy.is_rt());
        }
        other => panic!("{other:?}"),
    }
    p.sched = SchedPolicy::from_str("batch");
    match sched_plan(&p, false) {
        SchedPlan::Apply { setting } => assert_eq!((setting.priority, setting.nice), (0, Some(-20))),
        other => panic!("{other:?}"),
    }
    assert_eq!(SchedPolicy::from_str("bogus"), None);
}

#[test]
fn paths_and_clamps() {
    assert_eq!(tasks_path(""), "/dev/cpuset/threadctl/tasks");
    assert_eq!(tasks_path("0-3"), "/dev/cpuset/threadctl/0-3/tasks");
    assert_eq!(cpuset_path("0-3"), "/dev/cpuset/threadctl/0-3");
    assert!(uclamp_setting(None, None).is_none());
    let c = uclamp_setting(Some(2000), None).unwrap();
    assert_eq!((c.flags, c.util_min, c.util_max), (0x20, 1024, 1024));
    let c = uclamp_setting(Some(1), Some(2)).unwrap();
    assert_eq!((c.flags, c.util_min, c.util_max), (0x60, 1, 2));
    let c = uclamp_setting(None, Some(2)).unwrap();
    assert_eq!((c.flags, c.util_min, c.util_max), (0x40, 0, 2));
}

#[test]
fn directories_are_made_once() {
    let mut d = EnsuredDirs::new();
    assert!(d.ensure_dir("0-3"));
    assert!(!d.ensure_dir("0-3"));
    d.forget_cpuset_dir("0-3");
    assert!(d.ensure_dir("0-3"));
}
