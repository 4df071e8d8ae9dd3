use threadctl::capability::{CapabilityReadings, CapabilitySet};
use threadctl::caps::{can_rt_sched, has_cap, EffectiveCaps, CAP_SYS_NICE};
use threadctl::debug::DebugSwitch;
use threadctl::foreground::{
    foreground_uid_count, is_foreground_uid, pid_uid, refresh_foreground_uids, task_pids,
    ForegroundUids,
};
use threadctl::i18n::{is_zh, t};
use threadctl::tune::{
    apply_governor, apply_io_scheduler, current_scheduler, detect_current, governor_writes,
    is_cpu_dir, io_writes, BlockEntry, CpuEntry, WriteFailure,
};

fn readings(clamp: Option<&str>, group: bool) -> CapabilityReadings {
    CapabilityReadings {
        clamp_max: clamp.map(|s| s.to_string()),
        clamp_group: group,
        stune: false,
        cpuset: false,
        cgroup_cpuset: true,
    }
}

#[test]
fn detect_does_not_crash() {
    let caps = CapabilitySet::detect(&readings(None, false));
    let _ = caps.summary();
}

#[test]
fn preferred_order_is_non_empty() {
    let caps = CapabilitySet { uclamp: false, schedtune: false, cpuset: true };
    assert_eq!(caps.preferred_order(), &["cpuset", "affinity"]);
}

#[test]
fn clamping_is_detected() {
    assert!(CapabilitySet::detect(&readings(Some("1024\n"), false)).uclamp);
    assert!(!CapabilitySet::detect(&readings(Some("0\n"), true)).uclamp);
    assert!(CapabilitySet::detect(&readings(Some("none"), true)).uclamp);
    let all = CapabilitySet { uclamp: true, schedtune: true, cpuset: true };
    assert_eq!(
        all.summary(),
        "Capability: [uclamp, schedtune, cpuset], order: [uclamp > cpuset > affinity]"
    );
}

#[test]
fn cap_check_runs() {
    let _ = can_rt_sched(false, None);
}

#[test]
fn capabilities_are_bits() {
    assert!(can_rt_sched(true, None));
    assert!(!can_rt_sched(false, None));
    let nice = EffectiveCaps { low: 1 << CAP_SYS_NICE, high: 0 };
    assert!(can_rt_sched(false, Some(nice)));
    assert!(!can_rt_sched(false, Some(EffectiveCaps { low: !(1 << CAP_SYS_NICE), high: !0 })));
    assert!(has_cap(EffectiveCaps { low: 0, high: 2 }, 33));
}

#[test]
fn debug_lines_need_the_switch() {
    let mut d = DebugSwitch::new();
    assert_eq!(d.line("ebpf", "x"), None);
    d.set_debug(true);
    assert!(d.enabled());
    assert_eq!(d.line("ebpf", "x"), Some("[debug][ebpf] x".to_string()));
}

#[test]
fn refresh_does_not_crash() {
    let mut cache = ForegroundUids::new();
    let n = refresh_foreground_uids(&mut cache, &[]);
    assert_eq!(n, 0);
}

#[test]
fn foreground_users_are_cached() {
    let mut cache = ForegroundUids::new();
    let status = "Name:\tx\nUid:\t1000\t1000\t1000\t1000\n".to_string();
    assert_eq!(pid_uid(&status), Some(1000));
    assert_eq!(pid_uid("Uid:\tx\nUid:\t7\n"), None);
    assert_eq!(task_pids("12\n 34 \nx\n"), vec![12, 34]);
    let n = refresh_foreground_uids(&mut cache, &[status.clone(), status, String::new()]);
    assert_eq!(n, 1);
    assert!(is_foreground_uid(&cache, 1000));
    assert!(!is_foreground_uid(&cache, 1001));
    refresh_foreground_uids(&mut cache, &[]);
    assert_eq!(foreground_uid_count(&cache), 0);
}

#[test]
fn t_returns_matching_language() {
    for zh in [false, true] {
        let s = t(zh, "中文", "English");
        assert!(s == "中文" || s == "English");
    }
    assert_eq!(t(true, "中文", "English"), "中文");
    assert_eq!(t(false, "中文", "English"), "English");
}

#[test]
fn the_locale_decides_the_language() {
    assert!(is_zh(Some(" ZH-Hans-CN\n"), None, None));
    assert!(is_zh(Some("yue-HK"), Some("en_US"), None));
    assert!(!is_zh(Some("en-US"), Some("zh_CN"), None));
    assert!(is_zh(None, Some("zh_CN.UTF-8"), None));
    assert!(is_zh(None, None, Some("cmn_CN")));
    assert!(!is_zh(None, Some("yue_HK"), None));
    assert!(!is_zh(None, None, None));
}

#[test]
fn detect_current_returns_options() {
    let (gov, io) = detect_current(None, None, None);
    assert!(gov.is_none() && io.is_none());
    let (gov, io) = detect_current(Some("schedutil\n"), None, Some("mq-deadline [none] bfq\n"));
    assert_eq!(gov.as_deref(), Some("schedutil"));
    assert_eq!(io.as_deref(), Some("none"));
    assert_eq!(current_scheduler("[] [bfq]"), None);
    assert_eq!(current_scheduler("none bfq"), None);
}

fn cpu(name: &str, has: bool, available: &str) -> CpuEntry {
    CpuEntry { name: name.into(), has_governor: has, available: Some(available.into()) }
}

#[test]
fn governors_are_written_where_offered() {
    let e = [
        cpu("cpu0", true, "schedutil performance\n"),
        cpu("cpufreq", true, ""),
        cpu("cpu1", false, ""),
        cpu("cpu2", true, "performance"),
    ];
    assert!(is_cpu_dir("cpu12") && !is_cpu_dir("cpuidle") && !is_cpu_dir("node0"));
    assert_eq!(governor_writes(&e, "performance"), vec![0, 3]);
    assert_eq!(apply_governor(&e, "performance", &None), Ok(2));
    assert_eq!(governor_writes(&e, "schedutil"), vec![0]);
    assert_eq!(
        apply_governor(&e, "schedutil", &None),
        Err("governor schedutil 不在可用列表: performance".to_string())
    );
    assert_eq!(
        apply_governor(&[], "x", &None),
        Err("没有可写 governor 的 CPU（无 cpufreq 或无权限）".to_string())
    );
    let f = WriteFailure { path: "\"/x\"".into(), error: "denied".into() };
    assert_eq!(
        apply_governor(&e, "performance", &Some(f)),
        Err("写入 \"/x\" 失败: denied".to_string())
    );
}

#[test]
fn schedulers_are_written_where_offered() {
    let b = |has: bool, list: Option<&str>| BlockEntry {
        has_scheduler: has,
        available: list.map(|s| s.to_string()),
    };
    let e = [b(true, Some("[none] bfq")), b(false, Some("bfq")), b(true, None), b(true, Some("bfq"))];
    assert_eq!(io_writes(&e, "bfq"), vec![0, 3]);
    assert_eq!(apply_io_scheduler(&e, "bfq", &None), Ok(2));
    assert_eq!(
        apply_io_scheduler(&e, "none", &None),
        Err("没有支持该调度器的块设备".to_string())
    );
}
