use std::collections::HashSet;

use threadctl::observe::{
    ProcessReading, Sampler, SnapshotWindow, ThreadReading, ThreadSnapshot, WINDOW_SAMPLES,
};
use threadctl::proc::parse_stat_fields;
use threadctl::topology::parse_cpu_ranges;

fn mk(tid: i32, cpu: Option<u32>, aff: &str, load: u8) -> ThreadSnapshot {
    ThreadSnapshot {
        tid,
        name: format!("t{tid}"),
        affinity: aff.into(),
        running_cpu: cpu,
        load_pct: load,
        cpu_ticks: 0,
    }
}

#[test]
fn stat_parse_processor_and_cpu() {
    let stat = "1234 (TestThread) S 1 2 3 4 5 6 7 8 9 10 11 12 13 14 15 16 17 18 19 20 21 22 23 24 25 26 27 28 29 30 31 32 33 34 35 7 37 38 39";
    let f = parse_stat_fields(stat).expect("parse");
    assert_eq!(f[0], "S", "state");
    assert_eq!(f[10], "10", "utime");
    assert_eq!(f[11], "11", "stime");
    assert_eq!(f[36], "7", "processor（第 39 字段）");
    assert_eq!(f.len(), 40, "40 个字段（S + 39）");
}

#[test]
fn stat_parse_comm_with_spaces() {
    let stat = "99 (RenderThread (GL)) S 1 2 3 4 5 6 7 8 9 10 11 12 13 14 15 16 17 18 19 20 21 22 23 24 25 26 27 28 29 30 31 32 33 34 35 5 37 38 39";
    let f = parse_stat_fields(stat).expect("parse");
    assert_eq!(f[36], "5");
}

#[test]
fn window_tracks_migrations_and_distribution() {
    let mut w = SnapshotWindow::new();
    w.push_batch(&[mk(1, Some(4), "0-7", 10)]);
    w.push_batch(&[mk(1, Some(4), "0-7", 20)]);
    w.push_batch(&[mk(1, Some(7), "0-7", 30)]);
    let s = w.stats_of(1).expect("stats");
    assert_eq!(s.migrations, 1, "4→4→7 只迁移 1 次");
    assert_eq!(s.affinity_changes, 0);
    assert_eq!(s.samples, 3);
    assert_eq!(s.avg_load_pct, 20);
    assert_eq!(s.max_load_pct, 30);
    assert_eq!(s.primary_cpu, Some(4), "cpu4 出现 2 次最多");
    assert_eq!(s.samples_on(4), Some(2));
    assert_eq!(s.samples_on(7), Some(1));
    assert_eq!(s.samples_on(0), None);
}

#[test]
fn window_tracks_affinity_changes() {
    let mut w = SnapshotWindow::new();
    w.push_batch(&[mk(2, Some(3), "0-7", 5)]);
    w.push_batch(&[mk(2, Some(3), "0-3", 5)]);
    w.push_batch(&[mk(2, Some(3), "0-3", 5)]);
    let s = w.stats_of(2).expect("stats");
    assert_eq!(s.affinity_changes, 1, "0-7→0-3→0-3 变化 1 次");
    assert_eq!(s.migrations, 0, "cpu 未变");
}

#[test]
fn window_evicts_old_samples() {
    let mut w = SnapshotWindow::new();
    for i in 0..(WINDOW_SAMPLES + 10) {
        w.push_batch(&[mk(9, Some((i % 2) as u32), "0-7", 1)]);
    }
    let s = w.stats_of(9).expect("stats");
    assert_eq!(s.samples, WINDOW_SAMPLES + 10, "样本总数不裁剪（统计累计）");
    assert_eq!(w.recent_len(9), WINDOW_SAMPLES, "环形窗口裁剪");
    assert!(s.migrations > 0, "交替核心产生迁移");
    assert_eq!(s.migrations, (WINDOW_SAMPLES + 9) as u64);
}

#[test]
fn sampler_load_delta() {
    let mut s = Sampler::new(1);
    let out = s.sample(&[]);
    assert!(out.is_empty(), "空 tracker 无快照");
}

fn stat(utime: u64, stime: u64, cpu: u32) -> String {
    let mut f: Vec<String> = (0..40).map(|i| i.to_string()).collect();
    f[0] = "S".into();
    f[10] = utime.to_string();
    f[11] = stime.to_string();
    f[36] = cpu.to_string();
    format!("7 (a b) {}", f.join(" "))
}

fn reading(stat: Option<String>) -> ProcessReading {
    ProcessReading {
        allowed: Some(parse_cpu_ranges("0-3", None)),
        threads: vec![ThreadReading { tid: 7, name: Some("a".into()), stat }],
    }
}

#[test]
fn load_is_the_share_of_the_interval() {
    let mut s = Sampler::new(2);
    let first = s.sample(&[reading(Some(stat(40, 10, 3)))]);
    assert_eq!(first[0].load_pct, 0);
    assert_eq!(first[0].running_cpu, Some(3));
    assert_eq!(first[0].cpu_ticks, 50);
    assert_eq!(first[0].affinity, "0-3");
    let second = s.sample(&[reading(Some(stat(90, 10, 3)))]);
    assert_eq!(second[0].load_pct, 25);
    let third = s.sample(&[reading(Some(stat(9000, 10, 3)))]);
    assert_eq!(third[0].load_pct, 100);
    let lost = s.sample(&[reading(None)]);
    assert_eq!((lost[0].load_pct, lost[0].cpu_ticks), (0, 0));
    assert_eq!(lost[0].running_cpu, None);
}

#[test]
fn stats_are_sorted_and_dead_threads_leave() {
    let mut w = SnapshotWindow::default();
    assert!(w.has_room(3));
    w.push_batch(&[mk(5, Some(1), "0-7", 1), mk(2, None, "0-7", 9), mk(8, Some(1), "0-1", 4)]);
    let tids: Vec<i32> = w.stats().iter().map(|s| s.tid).collect();
    assert_eq!(tids, vec![2, 5, 8]);
    assert_eq!(w.stats_of(2).unwrap().primary_cpu, None);
    let s = w.recent_sample(8).unwrap();
    assert_eq!((s.cpu, s.affinity.as_str(), s.seq), (Some(1), "0-1", 1));
    let alive: HashSet<i32> = [5, 8].into_iter().collect();
    w.retain(&alive);
    assert!(w.stats_of(2).is_none());
    assert!(w.recent_sample(2).is_none());
    assert_eq!(w.stats().len(), 2);
    assert_eq!(w.recent_len(2), 0);
}

#[test]
fn the_average_is_the_mean() {
    let mut w = SnapshotWindow::new();
    for load in [1, 2, 3] {
        w.push_batch(&[mk(1, Some(4), "0-7", load)]);
    }
    let s = w.stats_of(1).expect("stats");
    assert_eq!((s.avg_load_pct, s.samples, s.max_load_pct), (2, 3, 3));
    w.push_batch(&[mk(1, None, "0-7", 5)]);
    let s = w.stats_of(1).expect("stats");
    assert_eq!(s.avg_load_pct, 2, "11 / 4");
    let counts: usize = s.cpu_distribution.iter().map(|c| c.count).sum();
    assert_eq!((counts, s.samples), (3, 4));
}
