use threadctl::config::RuleConfig;
use threadctl::merge::{fill_missing, merge_rules, merge_table, validate_table, MergeStrategy};
use threadctl::policy::{Policy, SchedPolicy};
use threadctl::ruleset::{RuleMatch, RuleSet};
use threadctl::topology::{parse_cpu_ranges, CpuTopology};

fn topo() -> CpuTopology {
    let mut t = CpuTopology::default();
    for i in 0..8 {
        t.present_cpus.set(i);
    }
    t
}

fn rc(pkg: &str, cpus: &str) -> RuleConfig {
    RuleConfig {
        pkg: pkg.into(),
        thread: String::new(),
        cpus: cpus.into(),
        sched: None,
        nice: None,
        uclamp_min: None,
        uclamp_max: None,
    }
}

fn policy(cpus: &str, nice: Option<i32>) -> Policy {
    Policy {
        cpus: parse_cpu_ranges(cpus, None),
        cpuset_dir: String::new(),
        sched: None,
        sched_prio: None,
        nice,
        uclamp_min: None,
        uclamp_max: None,
    }
}

#[test]
fn table_is_consistent() {
    assert!(validate_table());
    assert_eq!(merge_table().len(), 5);
}

#[test]
fn table_names_the_strategies() {
    let table = merge_table();
    assert_eq!(table[0].0, "cpus");
    assert!(matches!(table[0].1, MergeStrategy::BitOr));
}

#[test]
fn uclamp_constraint_merge_direct() {
    let cfg = vec![rc("com.a", "0-1"), rc("com.a", "2-3")];
    let rs = RuleSet::compile(&cfg, &topo()).rules;
    let idxs: Vec<RuleMatch> = rs.collect_pkg_matches("com.a", &[]);
    assert_eq!(idxs.len(), 2);
    assert!(merge_rules(&idxs, rs.rules()).is_some());
    assert!(merge_rules(&[], rs.rules()).is_none());
}

#[test]
fn clamps_satisfy_every_source() {
    let mut a = rc("com.a", "0-1");
    a.uclamp_min = Some(300);
    a.uclamp_max = Some(512);
    a.nice = Some(-5);
    let mut b = rc("com.*", "4-7");
    b.uclamp_min = Some(700);
    b.uclamp_max = Some(1024);
    b.nice = Some(10);
    b.sched = Some("batch".into());
    let rs = RuleSet::compile(&[a, b], &topo()).rules;
    let hits = vec!["com.*".to_string()];
    let p = merge_rules(&rs.collect_pkg_matches("com.a", &hits), rs.rules()).unwrap();
    assert_eq!(p.uclamp_min, Some(700));
    assert_eq!(p.uclamp_max, Some(512));
    assert_eq!(p.nice, Some(-5));
    assert_eq!(p.sched, Some(SchedPolicy::Batch));
    assert_eq!(p.cpus.to_range_string(), "0-1");
}

#[test]
fn filling_keeps_what_is_set() {
    let mut p = policy("0-1", None);
    fill_missing(&mut p, &policy("4-7", Some(3)));
    assert_eq!(p.cpus.to_range_string(), "0-1");
    assert_eq!(p.nice, Some(3));
    let mut q = policy("", Some(1));
    fill_missing(&mut q, &policy("4-7", Some(3)));
    assert_eq!(q.cpus.to_range_string(), "4-7");
    assert_eq!(q.nice, Some(1));
}
