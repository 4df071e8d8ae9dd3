use threadctl::config::RuleConfig;
use threadctl::ebpf_filter::{
    comm_matches, should_dedup, submit_event, DedupEntry, EbpfProcEvent, EVENT_EXEC, EVENT_EXIT,
    EVENT_FORK,
};
use threadctl::ebpf_source::{
    decode, map_capacity, target_entries, tracked_sync, EbpfSource, ForkReading,
};
use threadctl::event::{EventKind, ProcessEvent};
use threadctl::pending::{retry, wake_at, Pending};
use threadctl::proc::{
    is_alive, list_tids, read_cmdline, read_oom_adj, read_processor, read_start_time, read_tgid,
    read_thread_cpu_secs, read_thread_name, ESRCH,
};
use threadctl::proc_source::{count_processes, new_tids_for, ProcReading, ProcSource};
use threadctl::ruleset::RuleSet;
use threadctl::topology::CpuTopology;
use threadctl::tracker::StateTracker;

fn key(s: &str) -> [u8; 8] {
    let mut k = [0u8; 8];
    let b = s.as_bytes();
    let n = b.len().min(8);
    k[..n].copy_from_slice(&b[..n]);
    k
}

#[test]
fn target_entries_short_pkg() {
    let entries = target_entries(&["sleep".into()]);
    assert_eq!(entries, vec![key("sleep")]);
}

#[test]
fn target_entries_long_pkg_prefix_and_suffix() {
    let entries = target_entries(&["com.tencent.mm".into()]);
    assert_eq!(entries.len(), 2);
    assert!(entries.contains(&key("com.tenc")));
    assert!(entries.contains(&key("ncent.mm")));
}

#[test]
fn target_entries_exact_eight_bytes_single_key() {
    let entries = target_entries(&["com.test".into()]);
    assert_eq!(entries.len(), 1, "8 字节包名只应有前缀键");
    assert_eq!(entries[0], key("com.test"));
}

#[test]
fn target_entries_dedup_and_empty() {
    let entries = target_entries(&["com.a".into(), "com.a".into(), String::new()]);
    assert_eq!(entries.len(), 1);
}

#[test]
fn target_entries_multiple_pkgs() {
    let entries = target_entries(&["bb".into(), "aa".into()]);
    assert_eq!(entries.len(), 2);
    assert_eq!(entries[0], key("aa"), "排序后 aa 在前");
}

#[test]
fn capacities_are_powers_of_two() {
    assert_eq!(map_capacity(0), 64);
    assert_eq!(map_capacity(32), 64);
    assert_eq!(map_capacity(33), 128);
    assert_eq!(map_capacity(500), 1024);
}

fn event(kind: u32, pid: i32, tid: i32, name: &str) -> EbpfProcEvent {
    let mut comm = [0u8; 16];
    comm[..name.len()].copy_from_slice(name.as_bytes());
    EbpfProcEvent { pid, tid, child_pid: pid, comm, event_type: kind }
}

#[test]
fn reports_are_decoded() {
    let mut b = vec![0u8; 32];
    b[0..4].copy_from_slice(&1234i32.to_le_bytes());
    b[4..8].copy_from_slice(&(-2i32).to_le_bytes());
    b[12..17].copy_from_slice(b"sleep");
    b[28] = 3;
    let e = decode(&b).unwrap();
    assert_eq!((e.pid, e.tid, e.child_pid, e.event_type), (1234, -2, 0, EVENT_EXIT));
    assert_eq!(&e.comm[..6], b"sleep\0");
    assert!(decode(&b[..31]).is_none());
}

#[test]
fn the_kernel_filters_names() {
    let targets = target_entries(&["com.ss.android.ugc.aweme".into(), "sleep".into()]);
    assert!(comm_matches(&event(EVENT_FORK, 1, 1, "droid.ugc.aweme").comm, &targets));
    assert!(comm_matches(&event(EVENT_FORK, 1, 1, "sleep").comm, &targets));
    assert!(!comm_matches(&event(EVENT_FORK, 1, 1, "kworker/0:1").comm, &targets));
    let out = submit_event(event(EVENT_FORK, 1, 1, "kworker/0:1"), &targets, None, 1 << 40);
    assert!(out.event.is_none() && out.entry.is_none());
    let out = submit_event(event(EVENT_EXIT, 1, 1, "kworker/0:1"), &targets, None, 1 << 40);
    assert!(out.event.is_some() && out.entry.is_none());
    let out = submit_event(event(EVENT_EXEC, 7, 7, "sleep"), &targets, None, 1 << 40);
    assert_eq!(out.entry, Some((7, DedupEntry { last_ns: 1 << 40, count: 1 })));
}

#[test]
fn bursts_are_cut_short() {
    let t0 = 1_000_000_000;
    let one = should_dedup(None, t0).unwrap();
    assert_eq!(one, DedupEntry { last_ns: t0, count: 1 });
    let two = should_dedup(Some(one), t0 + 50_000_000).unwrap();
    assert_eq!(two, DedupEntry { last_ns: t0, count: 2 });
    assert_eq!(should_dedup(Some(two), t0 + 99_999_999), None);
    let next = should_dedup(Some(two), t0 + 100_000_000).unwrap();
    assert_eq!(next.count, 1);
}

fn rules() -> RuleSet {
    let r = RuleConfig {
        pkg: "com.a".into(),
        thread: String::new(),
        cpus: String::new(),
        sched: None,
        nice: Some(1),
        uclamp_min: None,
        uclamp_max: None,
    };
    RuleSet::compile(&[r], &CpuTopology::default()).rules
}

fn fork(pkg: Option<&str>, tgid: Option<i32>, owner: Option<&str>) -> ForkReading {
    ForkReading {
        alive: true,
        pkg: pkg.map(|s| s.to_string()),
        hits: vec![],
        tgid,
        owner: owner.map(|s| s.to_string()),
        owner_hits: vec![],
    }
}

fn told(e: &ProcessEvent) -> (i32, i32, EventKind) {
    (e.pid, e.tid, e.kind)
}

#[test]
fn forks_wait_for_their_names() {
    let mut s = EbpfSource::new(0);
    let t = StateTracker::new();
    for pid in [10, 11, 12, 13] {
        let out = s.handle_raw(&event(EVENT_FORK, pid, pid, "x"), &t, 1000);
        assert!(out.event.is_none());
    }
    s.handle_raw(&event(EVENT_FORK, 10, 10, "x"), &t, 1000);
    assert_eq!(s.pending.len(), 4);
    let mut dead = fork(None, None, None);
    dead.alive = false;
    let out = s.flush_pending(
        &rules(),
        &[
            fork(Some("com.a"), Some(10), None),
            fork(Some("com.a"), Some(5), Some("com.a")),
            fork(None, None, None),
            dead,
        ],
        1000,
    );
    let told_all: Vec<_> = out.events.iter().map(told).collect();
    assert_eq!(told_all, vec![(10, 10, EventKind::Fork), (5, 11, EventKind::ThreadClone)]);
    assert_eq!(out.events[1].pkg.as_deref(), Some("com.a"));
    assert_eq!(out.follow, vec![10, 5]);
    assert_eq!(s.pending, vec![Pending { pid: 12, retries: 1, next: 1100 }]);
    assert_eq!(wake_at(&s.pending, 3000), 1100);
    s.on_config_changed();
    assert!(s.pending.is_empty());
}

#[test]
fn other_reports_pass_at_once() {
    let mut s = EbpfSource::new(0);
    let mut t = StateTracker::new();
    t.enter(5, "com.a".into(), 0, 0);
    let out = s.handle_raw(&event(EVENT_EXEC, 5, 6, "x"), &t, 0);
    assert_eq!(told(&out.event.unwrap()), (5, 5, EventKind::Exec));
    let out = s.handle_raw(&event(EVENT_EXIT, 5, 6, "x"), &t, 0);
    assert_eq!(told(&out.event.unwrap()), (5, 6, EventKind::Exit));
    assert_eq!(out.forget, None);
    let out = s.handle_raw(&event(EVENT_EXIT, 9, 9, "x"), &t, 0);
    assert!(out.event.is_none());
    assert_eq!(out.forget, Some(9));
    let out = s.handle_raw(&event(77, 9, 9, "x"), &t, 0);
    assert!(out.event.is_none() && out.forget.is_none());
    let plan = tracked_sync(&t, &[4, 5, 6]);
    assert_eq!((plan.insert, plan.remove), (vec![5], vec![4, 6]));
}

fn reading(pid: i32, pkg: Option<&str>, tids: &[i32]) -> ProcReading {
    ProcReading {
        pid,
        alive: true,
        pkg: pkg.map(|s| s.to_string()),
        hits: vec![],
        tids: tids.to_vec(),
    }
}

#[test]
fn the_first_look_covers_forks() {
    let mut s = EbpfSource::new(0);
    let events =
        s.initial_scan(&rules(), &[reading(3, Some("com.a"), &[]), reading(4, Some("com.b"), &[])]);
    assert_eq!(events.len(), 1);
    assert_eq!(told(&events[0]), (3, 3, EventKind::Fork));
    s.handle_raw(&event(EVENT_FORK, 3, 3, "x"), &StateTracker::new(), 0);
    assert!(s.pending.is_empty());
    assert!(!s.end_round(29_999));
    assert!(s.end_round(30_000));
    assert!(!s.end_round(30_001));
    s.handle_raw(&event(EVENT_FORK, 3, 3, "x"), &StateTracker::new(), 0);
    assert_eq!(s.pending.len(), 1);
}

#[test]
fn rounds_find_processes_threads_and_exits() {
    let mut s = ProcSource::new();
    let mut t = StateTracker::new();
    t.enter(1, "com.a".into(), 0, 0);
    t.record_applied_tids(1, &[1]);
    t.mark_scanned(1, 0);
    t.enter(2, "com.a".into(), 0, 0);
    assert!(s.needs_full(3));
    let listing = [
        reading(1, Some("com.a"), &[1, 8, 8]),
        reading(5, Some("com.a"), &[5]),
        reading(6, Some("com.b"), &[6]),
        reading(7, None, &[]),
    ];
    let events = s.collect(&t, &rules(), 1000, 3, &[], Some(&listing));
    let told_all: Vec<_> = events.iter().map(told).collect();
    assert_eq!(
        told_all,
        vec![(1, 8, EventKind::ThreadClone), (5, 5, EventKind::Fork), (2, 2, EventKind::Exit)]
    );
    assert_eq!(s.pending, vec![Pending { pid: 7, retries: 0, next: 1000 }]);
    assert!(!s.needs_full(8));
    assert!(s.needs_full(9));
    assert!(s.needs_full(-1));

    let mut gone = reading(1, Some("com.a"), &[]);
    gone.alive = false;
    let partial = [gone, reading(2, Some("com.a"), &[2])];
    let named = [reading(7, Some("com.a"), &[])];
    let events = s.collect(&t, &rules(), 1000, 4, &named, Some(&partial));
    let told_all: Vec<_> = events.iter().map(told).collect();
    assert_eq!(told_all, vec![(7, 7, EventKind::Fork), (1, 1, EventKind::Exit)]);
    assert!(s.pending.is_empty());
    s.on_config_changed();
    assert!(s.collect(&t, &rules(), 1000, 4, &[], None).is_empty());
}

#[test]
fn waiting_ends() {
    let p = Pending { pid: 1, retries: 0, next: 0 };
    let a = retry(&p, 0).unwrap();
    let b = retry(&a, a.next).unwrap();
    let c = retry(&b, b.next).unwrap();
    assert_eq!((a.next, b.next, c.next), (100, 400, 1400));
    assert_eq!(retry(&c, c.next), None);
}

#[test]
fn processes_are_counted() {
    let names: Vec<String> = ["1", "22", "self", "3x"].iter().map(|s| s.to_string()).collect();
    assert_eq!(count_processes(Some(&names)), 2);
    assert_eq!(count_processes(None), -1);
    assert!(new_tids_for(&StateTracker::new(), 1, &[1]).is_empty());
}

#[test]
fn process_files_are_read() {
    assert_eq!(read_cmdline(b"/system/bin/sleep\x0010\0"), Some("sleep".to_string()));
    assert_eq!(read_cmdline(b"com.a:push\0"), Some("com.a:push".to_string()));
    assert_eq!(read_cmdline(b"\0x"), None);
    assert_eq!(read_cmdline(b""), None);
    assert_eq!(read_cmdline(b"\xff\xfe\0"), None);
    assert_eq!(read_thread_name(b"RenderThread\n"), Some("RenderThread".to_string()));
    assert_eq!(read_thread_name("渲染\n".as_bytes()), Some("渲染".to_string()));
    assert_eq!(read_thread_name(b"\n"), Some(String::new()));
    assert_eq!(read_thread_name(b"\xff"), None);
    let stat = "9 (a) b) S 1 2 3 4 5 6 7 8 9 10 11 12 13 14 15 16 17 18 19 20 21 22 23 24 25 26 27 28 29 30 31 32 33 34 35 36";
    assert_eq!(read_start_time(stat), Some(19));
    assert_eq!(read_processor(stat), Some(36));
    assert_eq!(read_thread_cpu_secs(stat), Some(21));
    assert_eq!(read_start_time("9 a"), None);
    assert_eq!(read_oom_adj(Some(" -900\n")), -900);
    assert_eq!(read_oom_adj(Some("x")), 0);
    assert_eq!(read_oom_adj(None), 0);
    assert_eq!(read_tgid("Name:\ta\nTgid:\t77\nPid:\t78\n"), Some(77));
    assert_eq!(read_tgid("Tgid:\tx\nTgid:\t5"), Some(5));
    assert_eq!(read_tgid("Pid:\t1"), None);
    assert!(is_alive(true, None));
    assert!(is_alive(false, Some(1)));
    assert!(!is_alive(false, Some(ESRCH)));
    let names: Vec<String> = ["5", "x", "-7"].iter().map(|s| s.to_string()).collect();
    assert_eq!(list_tids(&names), vec![5, -7]);
}
