use threadctl::audit::AuditSummary;
use threadctl::engine::RelockStats;
use threadctl::ipc::{
    apply_response, dump_response, is_command, parse_request, reload_response, scene_response,
    snapshot_response, status_response, tune_response, tune_target, IpcRequest, ReloadDone,
    SceneOutcome, TuneTarget,
};
use threadctl::observe::{SnapshotWindow, ThreadSnapshot};
use threadctl::store::ConfigStore;
use threadctl::topology::{parse_cpu_ranges, CpuTopology};
use threadctl::tracker::StateTracker;

#[test]
fn parse_status() {
    assert!(matches!(parse_request("status"), IpcRequest::Status));
}

#[test]
fn parse_dump_with_pid() {
    match parse_request("dump 1234") {
        IpcRequest::Dump(pid) => assert_eq!(pid, 1234),
        _ => panic!("dump 解析错误"),
    }
}

#[test]
fn parse_reload() {
    assert!(matches!(parse_request("reload"), IpcRequest::Reload));
}

#[test]
fn parse_apply_with_pid() {
    match parse_request("apply 5678") {
        IpcRequest::Apply(pid) => assert_eq!(pid, 5678),
        _ => panic!("apply 解析错误"),
    }
}

#[test]
fn parse_unknown_falls_back_to_status() {
    assert!(
        matches!(parse_request("rm -rf /"), IpcRequest::Status),
        "未知命令必须回退 status（白名单）"
    );
    assert!(matches!(parse_request(""), IpcRequest::Status));
    assert!(matches!(parse_request("dump"), IpcRequest::Status), "dump 无 pid 回退");
}

#[test]
fn parse_the_other_commands() {
    assert!(matches!(parse_request("snapshot"), IpcRequest::Snapshot(None)));
    assert!(matches!(parse_request(" snapshot 12 "), IpcRequest::Snapshot(Some(12))));
    assert!(matches!(parse_request("apply-scene game"), IpcRequest::ApplyScene(s) if s == "game"));
    assert!(matches!(parse_request("apply-scene"), IpcRequest::Status));
    match parse_request("tune governor schedutil") {
        IpcRequest::Tune(k, v) => assert_eq!((k.as_str(), v.as_str()), ("governor", "schedutil")),
        _ => panic!("tune"),
    }
    assert!(matches!(parse_request("tune"), IpcRequest::Tune(k, v) if k.is_empty() && v.is_empty()));
    assert!(is_command("tune") && is_command("apply-scene") && !is_command("rm"));
}

fn tracker() -> StateTracker {
    let mut t = StateTracker::new();
    t.enter(42, "com.a".into(), 0, 0);
    t.record_applied_tids(42, &[42, 43]);
    t
}

#[test]
fn status_lists_what_is_known() {
    let kdl = "app \"com.a\" { default { nice 1 } }\n";
    let (store, _) =
        ConfigStore::new("./x.kdl", Ok(kdl), CpuTopology::default()).unwrap();
    let a = AuditSummary {
        total_attempts: 5,
        success: 4,
        blocked_by_cgroup: 1,
        blocked_by_perm: 0,
        downgraded: 2,
        esrch: 0,
    };
    let r = RelockStats { allow: 7, skip: 8, degrade: 9 };
    let out = status_response("1.0", &store.current(), &tracker(), &a, &r);
    assert_eq!(
        out,
        "== threadctl status ==\n\
         version      : 1.0\n\
         config       : v1 (1 pkgs)\n\
         tracked      : 1 processes / 2 threads\n\
         \u{20}      42  com.a                    2 threads\n"
            .replace("\u{20}      42", "       42")
            + "audit(60s)   : total=5 success=4 cgroup_blocked=1 downgraded=2\n"
            + "relock       : allow=7 skip=8 degrade=9\n"
    );
}

#[test]
fn dump_tells_known_from_unknown() {
    let mask = Some(parse_cpu_ranges("0-3", None));
    let out = dump_response(&tracker(), 42, &mask, &Some("/top-app".into()), true);
    assert_eq!(
        out,
        "== pid 42 (com.a) ==\n  applied_tids : 2\n  allowed_mask : 0-3\n  cpuset       : /top-app\n  alive        : true\n"
    );
    let out = dump_response(&tracker(), 42, &None, &None, false);
    assert!(out.contains("  allowed_mask : <read failed>\n  cpuset       : <none>\n"));
    assert!(out.ends_with("  alive        : false\n"));
    let out = dump_response(&tracker(), 9, &None, &None, false);
    assert_eq!(out, "pid 9 不在跟踪列表（未配置或已退出）\n");
}

#[test]
fn reload_and_apply_are_answered() {
    let done = ReloadDone { version: 3, threads: 12 };
    assert_eq!(
        reload_response(&Ok(done)),
        "reload: 配置已重载 (version 3)\nreload: applied 12 threads\n"
    );
    assert_eq!(reload_response(&Err("bad".into())), "reload 失败: bad\n");
    assert_eq!(
        apply_response(5, 6),
        "apply 5: 全量重应用完成 (applied 6 threads)（当前为全量，P8 支持单 pid）\n"
    );
}

#[test]
fn scenes_are_answered_in_both_languages() {
    let done = SceneOutcome::Applied { done: ReloadDone { version: 3, threads: 12 } };
    assert_eq!(
        scene_response(true, "game", &done),
        "场景已应用: game（配置版本 3，重应用 12 线程）\n"
    );
    assert_eq!(
        scene_response(false, "game", &done),
        "scene applied: game (config v3, re-applied 12 threads)\n"
    );
    let e = |o: SceneOutcome| scene_response(false, "game", &o);
    assert_eq!(
        e(SceneOutcome::ReadFailed { error: "x".into() }),
        "apply-scene failed: cannot read config x\n"
    );
    assert_eq!(e(SceneOutcome::Rejected { error: "x".into() }), "apply-scene failed: x\n");
    assert_eq!(
        e(SceneOutcome::WriteFailed { error: "x".into() }),
        "apply-scene failed: cannot write config x\n"
    );
    assert_eq!(
        e(SceneOutcome::ReloadFailed { error: "x".into() }),
        "scene written but reload failed: x\n"
    );
}

#[test]
fn tuning_is_answered() {
    assert_eq!(tune_target("governor", "x"), Some(TuneTarget::Governor));
    assert_eq!(tune_target("iosched", "x"), Some(TuneTarget::IoScheduler));
    assert_eq!(tune_target("governor", ""), None);
    assert_eq!(
        tune_response(false, "governor", "schedutil", &Ok(8)),
        "tune governor schedutil: applied (8 CPUs)\n"
    );
    assert_eq!(tune_response(true, "iosched", "bfq", &Ok(2)), "tune iosched bfq: 已应用（2 devices）\n");
    assert_eq!(tune_response(false, "governor", "x", &Err("no".into())), "tune failed: no\n");
    assert_eq!(
        tune_response(true, "x", "y", &Ok(1)),
        "tune 失败: tune 用法: tune governor <name> | tune iosched <name>\n"
    );
}

#[test]
fn snapshots_are_tabulated() {
    let mut w = SnapshotWindow::new();
    let snap = |tid: i32, name: &str| ThreadSnapshot {
        tid,
        name: name.into(),
        affinity: "0-7".into(),
        running_cpu: Some(4),
        load_pct: 30,
        cpu_ticks: 0,
    };
    w.push_batch(&[snap(99, "other"), snap(43, "ANameOfMoreThanTwentyLetters")]);
    let head = "== threadctl snapshot (窗口统计) ==\n     tid  name                 affinity  cur  avg% max%   migr affChg  primary\n";
    let row43 = "      43  ANameOfMoreThanTwent      0-7    4    30   30      0      0  4\n";
    let row99 = "      99  other                     0-7    4    30   30      0      0  4\n";
    assert_eq!(snapshot_response(&w, &tracker(), None), format!("{head}{row43}{row99}"));
    assert_eq!(snapshot_response(&w, &tracker(), Some(42)), format!("{head}{row43}"));
    assert_eq!(snapshot_response(&w, &tracker(), Some(1)), head);
}
