use threadctl::audit::{
    recent, record, summary, summary_string, summary_windowed, AuditEntry, AuditLog,
};

fn entry(tid: i32, success: bool, reason: &str, effective: &str) -> AuditEntry {
    AuditEntry {
        timestamp: 0,
        tid,
        pkg: "com.x".into(),
        requested_cpus: "0-7".into(),
        effective_cpus: effective.into(),
        success,
        reason: reason.into(),
    }
}

#[test]
fn ring_buffer_and_summary() {
    let mut log = AuditLog::new();
    for i in 0..300 {
        record(
            &mut log,
            AuditEntry {
                timestamp: 0,
                tid: i,
                pkg: "com.x".into(),
                requested_cpus: "0-1".into(),
                effective_cpus: "0-1".into(),
                success: i % 2 == 0,
                reason: "applied".into(),
            },
            1000,
        );
    }
    let s = summary(&log);
    assert_eq!(s.total_attempts, 256, "环形缓冲上限 256");
    assert_eq!(s.success, 128, "300 条中偶数 150 → 环形淘汰最早 44 条后剩 128");

    log.clear();
    record(&mut log, entry(1, false, "cgroup", ""), 1000);
    record(&mut log, entry(2, true, "downgraded", "0-3"), 1000);
    record(&mut log, entry(3, false, "eperm", ""), 1000);
    record(&mut log, entry(4, false, "esrch", ""), 1000);
    let s = summary(&log);
    assert_eq!(s.blocked_by_cgroup, 1);
    assert_eq!(s.downgraded, 1);
    assert_eq!(s.blocked_by_perm, 1);
    assert_eq!(s.esrch, 1);

    let last = recent(&log, 5);
    assert!(!last.is_empty());
    assert_eq!(last.last().unwrap().tid, 4);
}

#[test]
fn recent_keeps_order_and_bounds() {
    let mut log = AuditLog::new();
    for tid in 0..10 {
        record(&mut log, entry(tid, true, "applied", "0-7"), 5);
    }
    let tids: Vec<i32> = recent(&log, 3).iter().map(|e| e.tid).collect();
    assert_eq!(tids, vec![7, 8, 9]);
    assert_eq!(recent(&log, 0).len(), 0);
    assert_eq!(recent(&log, 99).len(), 10);
}

#[test]
fn windows_leave_old_entries_out() {
    let mut log = AuditLog::new();
    record(&mut log, entry(1, false, "cgroup", ""), 100);
    record(&mut log, entry(2, true, "applied", "0-7"), 150);
    record(&mut log, entry(3, true, "applied", "0-7"), 200);
    assert_eq!(summary_windowed(&log, 60, 205).total_attempts, 2);
    assert_eq!(summary_windowed(&log, 0, 205).total_attempts, 3);
    assert_eq!(summary_windowed(&log, 500, 205).total_attempts, 3);
    let rate = summary(&log).failure_rate();
    assert_eq!((rate.num, rate.den), (1, 3));
}

#[test]
fn stamped_entries_keep_their_time() {
    let mut log = AuditLog::new();
    let mut e = entry(1, true, "applied", "0-7");
    e.timestamp = 42;
    record(&mut log, e, 100);
    record(&mut log, entry(2, true, "applied", "0-7"), 100);
    let stamps: Vec<u64> = recent(&log, 2).iter().map(|e| e.timestamp).collect();
    assert_eq!(stamps, vec![42, 100]);
}

#[test]
fn summary_line_lists_the_counts() {
    let mut log = AuditLog::new();
    record(&mut log, entry(1, false, "cgroup", ""), 100);
    record(&mut log, entry(2, true, "downgraded", "0-3"), 100);
    assert_eq!(
        summary_string(&log, 110),
        "audit(last60s): total=2 success=1 cgroup_blocked=1 perm_blocked=0 downgraded=1 esrch=0"
    );
    assert_eq!(summary(&AuditLog::new()).failure_rate().num, 0);
}
