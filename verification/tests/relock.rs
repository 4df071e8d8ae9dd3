use threadctl::ratio::Ratio;
use threadctl::relock::{
    is_in_our_cpuset, read_cpuset_owner, sample_coverage, AdaptiveRelock, RelockGuard,
};

#[test]
fn guard_first_call_passes() {
    let mut g = RelockGuard::new(0);
    assert!(g.try_lock(0), "初始无冷却应放行");
}

#[test]
fn guard_cooldown_blocks_then_expires() {
    let mut g = RelockGuard::new(5_000);
    g.set_cooldown(1000);
    let t0 = 5_000;
    assert!(g.try_lock(t0));
    assert!(!g.try_lock(t0 + 500), "冷却内拒绝");
    assert!(g.try_lock(t0 + 1000), "冷却到期放行");
}

#[test]
fn guard_cooldown_zero_always_passes() {
    let mut g = RelockGuard::new(5_000);
    g.set_cooldown(0);
    let t0 = 5_000;
    assert!(g.try_lock(t0));
    assert!(g.try_lock(t0 + 1), "cooldown=0 恒放行");
}

#[test]
fn guard_says_how_long_it_blocks() {
    let mut g = RelockGuard::new(0);
    g.set_cooldown(1000);
    assert_eq!(g.cooldown_ms(), 1000);
    assert_eq!(g.remaining(0), 0);
    assert!(g.try_lock(100));
    assert_eq!(g.remaining(400), 700);
    assert_eq!(g.remaining(1100), 0);
}

#[test]
fn adaptive_default_60s() {
    assert_eq!(AdaptiveRelock::new().interval_secs(), 60);
}

#[test]
fn adaptive_window_not_full_no_adjust() {
    let mut a = AdaptiveRelock::new();
    for _ in 0..3 {
        a.observe(true);
    }
    assert_eq!(a.interval_secs(), 60, "窗口未满不缩短");
}

#[test]
fn adaptive_sustained_coverage_shrinks_to_3s() {
    let mut a = AdaptiveRelock::new();
    for _ in 0..6 {
        a.observe(true);
    }
    assert_eq!(a.interval_secs(), 10, "第一轮持续覆盖缩短到 10s");
    for _ in 0..6 {
        a.observe(true);
    }
    assert_eq!(a.interval_secs(), 3, "第二轮持续覆盖到 3s 下限");
    for _ in 0..6 {
        a.observe(true);
    }
    assert_eq!(a.interval_secs(), 3, "已在下限不再缩短");
}

#[test]
fn adaptive_single_coverage_no_adjust() {
    let mut a = AdaptiveRelock::new();
    for _ in 0..5 {
        a.observe(false);
    }
    a.observe(true);
    assert_eq!(a.interval_secs(), 60, "单次覆盖不缩短");
}

#[test]
fn adaptive_stable_extends_to_300s() {
    let mut a = AdaptiveRelock::new();
    for _ in 0..12 {
        a.observe(true);
    }
    assert_eq!(a.interval_secs(), 3);
    for _ in 0..18 {
        a.observe(false);
    }
    assert_eq!(a.interval_secs(), 10, "清窗+稳定 60s 延长一级");
    for _ in 0..12 {
        a.observe(false);
    }
    assert_eq!(a.interval_secs(), 60, "再稳定 60s 回到 60");
    for _ in 0..12 {
        a.observe(false);
    }
    assert_eq!(a.interval_secs(), 300, "最终到 300s 上限");
    for _ in 0..12 {
        a.observe(false);
    }
    assert_eq!(a.interval_secs(), 300, "已在上限不再延长");
}

#[test]
fn adaptive_ratio_api() {
    let mut a = AdaptiveRelock::new();
    for _ in 0..6 {
        a.observe_ratio(Ratio { num: 8, den: 10 });
    }
    assert_eq!(a.interval_secs(), 10);
}

#[test]
fn initial_interval_is_the_nearest() {
    assert_eq!(AdaptiveRelock::from_initial(1).interval_secs(), 3);
    assert_eq!(AdaptiveRelock::from_initial(60).interval_secs(), 60);
    assert_eq!(AdaptiveRelock::from_initial(9999).interval_secs(), 300);
    assert_eq!(AdaptiveRelock::from_initial(u64::MAX).interval_secs(), 300);
    assert_eq!(AdaptiveRelock::from_initial(1 << 63).interval_secs(), 300);
    assert_eq!(AdaptiveRelock::from_initial(35).interval_secs(), 10, "the shorter of two");
}

#[test]
fn coverage_counts_foreign_owners() {
    assert_eq!(read_cpuset_owner(Some("/top-app\n")), Some("/top-app".to_string()));
    assert_eq!(read_cpuset_owner(None), None);
    let base = "/dev/cpuset/threadctl";
    assert!(is_in_our_cpuset(&Some("/threadctl/0-3".to_string()), base));
    assert!(!is_in_our_cpuset(&Some("/top-app".to_string()), base));
    let owners = [Some("/top-app".to_string()), Some("/threadctl/0-3".to_string())];
    let r = sample_coverage(&owners, base);
    assert_eq!((r.num, r.den), (1, 2));
    assert_eq!(sample_coverage(&[], base).num, 0);
}
