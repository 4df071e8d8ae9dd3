use std::collections::HashSet;

use threadctl::tracker::{StateTracker, ThreadNameCache};

#[test]
fn remove_tid_clears_single_tid() {
    let mut tracker = StateTracker::new();
    tracker.enter(1, "com.a".into(), 100, 0);
    tracker.record_applied_tids(1, &[101, 102, 103]);

    tracker.remove_tid(1, 102);
    let tids: HashSet<i32> = tracker.get(1).expect("进程仍在").applied_tids.clone();
    assert!(tids.contains(&101));
    assert!(!tids.contains(&102), "线程 102 已退出，应从 applied_tids 移除");
    assert!(tids.contains(&103));

    tracker.remove_tid(1, 999);
    let tids: HashSet<i32> = tracker.get(1).expect("进程仍在").applied_tids.clone();
    assert_eq!(tids.len(), 2);

    tracker.remove_tid(999, 101);
}

#[test]
fn remove_tid_nonexistent_pid_is_noop() {
    let mut tracker = StateTracker::new();
    tracker.remove_tid(999, 100);
    assert!(tracker.get(999).is_none());
}

#[test]
fn remove_tid_nonexistent_tid_is_noop() {
    let mut tracker = StateTracker::new();
    tracker.enter(1, "com.a".into(), 100, 0);
    tracker.record_applied_tids(1, &[101]);
    tracker.remove_tid(1, 999);
    let tids: HashSet<i32> = tracker.get(1).expect("进程仍在").applied_tids.clone();
    assert_eq!(tids.len(), 1);
    assert!(tids.contains(&101));
}

#[test]
fn remove_releases_cpuset_refs() {
    let mut tracker = StateTracker::new();
    tracker.enter(1, "com.a".into(), 100, 0);
    tracker.register_dirs(1, &["0-3".into()]);
    tracker.register_dirs(1, &["0-3".into()]);
    assert_eq!(tracker.cpuset_ref("0-3"), Some(1));

    tracker.enter(2, "com.b".into(), 100, 0);
    tracker.register_dirs(2, &["0-3".into()]);
    assert_eq!(tracker.cpuset_ref("0-3"), Some(2));

    assert_eq!(tracker.remove(1), Some(vec![]));
    assert_eq!(tracker.cpuset_ref("0-3"), Some(1));

    assert_eq!(tracker.remove(2), Some(vec!["0-3".to_string()]));
    assert!(tracker.cpuset_ref("0-3").is_none());
    assert_eq!(tracker.cpuset_refs().len(), 0);
}

#[test]
fn retain_interested_drops_unwatched() {
    let mut tracker = StateTracker::new();
    tracker.enter(1, "com.a".into(), 0, 0);
    tracker.enter(2, "com.b".into(), 0, 0);
    tracker.retain_interested(&["com.a".to_string()]);
    assert!(tracker.contains(1));
    assert!(!tracker.contains(2));
}

#[test]
fn thread_name_cache_clears_on_exec() {
    let mut cache = ThreadNameCache::new(100);
    cache.remember(1, "x".into());
    assert_eq!(cache.get(1), Some(&"x".to_string()));
    cache.clear();
    assert_eq!(cache.len(), 0);
}

#[test]
fn reused_pids_start_over() {
    let mut tracker = StateTracker::new();
    tracker.enter(1, "com.a".into(), 100, 11);
    tracker.record_applied_tids(1, &[101]);
    tracker.register_dirs(1, &["0-3".into()]);
    assert!(!tracker.needs_start_time(1, "com.a"));
    assert!(tracker.needs_start_time(1, "com.b"));
    assert!(tracker.needs_start_time(2, "com.a"));
    assert!(tracker.enter(1, "com.a".into(), 200, 99).is_empty());
    assert!(tracker.enter(1, "com.b".into(), 200, 11).is_empty());
    assert_eq!(tracker.get(1).unwrap().pkg, "com.b");
    assert_eq!(tracker.get(1).unwrap().applied_tids.len(), 1);
    let freed = tracker.enter(1, "com.c".into(), 200, 12);
    assert_eq!(freed, vec!["0-3".to_string()]);
    assert!(tracker.get(1).unwrap().applied_tids.is_empty());
    assert_eq!(tracker.len(), 1);
    assert_eq!(tracker.pids(), vec![1]);
}

#[test]
fn names_expire() {
    let mut cache = ThreadNameCache::new(100);
    cache.remember(1, "x".into());
    cache.expire(101);
    assert_eq!(cache.len(), 1);
    cache.expire(100_000);
    assert_eq!(cache.len(), 0);
}

#[test]
fn names_are_read_once_a_minute() {
    let mut cache = ThreadNameCache::new(100);
    assert!(cache.needs_name(7, 100));
    assert_eq!(cache.get_or_read(7, 100, Some("A")), "A");
    assert!(!cache.needs_name(7, 159));
    assert_eq!(cache.get_or_read(7, 159, Some("B")), "A");
    assert!(cache.needs_name(7, 160));
    assert_eq!(cache.get_or_read(7, 160, Some("B")), "B");
    assert_eq!(cache.get_or_read(8, 160, None), "");
    assert_eq!(cache.get_or_read(8, 161, Some("C")), "");
}

#[test]
fn packages_are_followed_without_a_start_time() {
    let mut tracker = StateTracker::new();
    tracker.enter(1, "com.a".into(), 100, 0);
    tracker.record_applied_tids(1, &[101]);
    assert!(tracker.needs_start_time(1, "com.b"));
    assert!(tracker.enter(1, "com.b".into(), 100, 12).is_empty());
    assert_eq!(tracker.get(1).unwrap().pkg, "com.b");
    assert_eq!(tracker.get(1).unwrap().applied_tids.len(), 1);
}
