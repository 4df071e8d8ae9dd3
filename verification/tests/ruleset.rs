use threadctl::config::RuleConfig;
use threadctl::policy::{Policy, SchedPolicy};
use threadctl::ruleset::{
    contains_wildcard, pattern_specificity, MatchCache, RuleSet, RuleSource,
};
use threadctl::topology::CpuTopology;

fn rc(pkg: &str, cpus: &str) -> RuleConfig {
    rc_thread(pkg, "", cpus)
}

fn rc_thread(pkg: &str, thread: &str, cpus: &str) -> RuleConfig {
    RuleConfig {
        pkg: pkg.into(),
        thread: thread.into(),
        cpus: cpus.into(),
        sched: None,
        nice: None,
        uclamp_min: None,
        uclamp_max: None,
    }
}

fn rc_thread_sched(pkg: &str, thread: &str, sched: &str) -> RuleConfig {
    let mut r = rc_thread(pkg, thread, "");
    r.sched = Some(sched.into());
    r
}

fn rc_sched_only(pkg: &str, sched: &str) -> RuleConfig {
    rc_thread_sched(pkg, "", sched)
}

fn topo() -> CpuTopology {
    let mut t = CpuTopology::default();
    for i in 0..8 {
        t.present_cpus.set(i);
    }
    t
}

/// Patterns with stars only.
fn glob(pattern: &[u8], s: &[u8]) -> bool {
    match pattern.first() {
        None => s.is_empty(),
        Some(b'*') => (0..=s.len()).any(|i| glob(&pattern[1..], &s[i..])),
        Some(c) => s.first() == Some(c) && glob(&pattern[1..], &s[1..]),
    }
}

fn hits(patterns: Vec<String>, s: &str) -> Vec<String> {
    patterns.into_iter().filter(|p| glob(p.as_bytes(), s.as_bytes())).collect()
}

fn pkg_hits(rs: &RuleSet, pkg: &str) -> Vec<String> {
    hits(rs.package_patterns(), pkg)
}

fn resolve(rs: &RuleSet, pkg: &str, thread: &str) -> Option<Policy> {
    let of_pkg = pkg_hits(rs, pkg);
    let matches = rs.collect_pkg_matches(pkg, &of_pkg);
    let of_thread = hits(rs.thread_patterns(&matches), thread);
    rs.resolve(pkg, thread, &of_pkg, &of_thread)
}

#[test]
fn specificity_ordering() {
    assert!(pattern_specificity("com.tencent.mm*") > pattern_specificity("com.tencent.*"));
    assert!(pattern_specificity("com.tencent.*") > pattern_specificity("com.*"));
    assert!(
        pattern_specificity("com.*.service") > pattern_specificity("com.*"),
        "通配符位置影响优先级：com.*.service > com.*"
    );
    assert_eq!(pattern_specificity("com.tencent.*"), 1202);
    assert_eq!(pattern_specificity("com.*"), 394);
    assert_eq!(pattern_specificity("com.tencent.mm*"), 1404);
}

#[test]
fn exact_overrides_wildcard_field() {
    let rules = vec![rc("com.tencent.mm", "0-1"), rc("com.tencent.*", "4-7")];
    let rs = RuleSet::compile(&rules, &topo()).rules;
    let p = resolve(&rs, "com.tencent.mm", "").expect("resolve");
    assert_eq!(p.cpus.to_range_string(), "0-1", "exact cpus 覆盖 wildcard cpus");
}

#[test]
fn specific_wildcard_priority() {
    let rules = vec![rc("com.*", "4-7"), rc("com.tencent.*", "0-1")];
    let rs = RuleSet::compile(&rules, &topo()).rules;
    let p = resolve(&rs, "com.tencent.qq", "").expect("resolve");
    assert_eq!(p.cpus.to_range_string(), "0-1", "com.tencent.* 应胜出（1202 > 394）");
    let p2 = resolve(&rs, "com.other.app", "").expect("resolve");
    assert_eq!(p2.cpus.to_range_string(), "4-7");
}

#[test]
fn wildcard_inheritance_for_pkg_rules() {
    let rules =
        vec![rc("com.tencent.*", "3-6"), rc_thread("com.tencent.mm", "RenderThread", "7")];
    let rs = RuleSet::compile(&rules, &topo()).rules;
    let p = resolve(&rs, "com.tencent.mm", "RenderThread").expect("resolve");
    assert_eq!(p.cpus.to_range_string(), "7", "线程规则覆盖包级规则");
    let p2 = resolve(&rs, "com.tencent.mm", "OtherThread").expect("resolve");
    assert_eq!(p2.cpus.to_range_string(), "3-6", "wildcard 包级规则应被继承");
}

#[test]
fn exact_supplements_wildcard() {
    let rules = vec![
        rc("com.tencent.*", "3-6"),
        rc_thread_sched("com.tencent.mm", "RenderThread", "fifo:60"),
    ];
    let rs = RuleSet::compile(&rules, &topo()).rules;
    let p = resolve(&rs, "com.tencent.mm", "RenderThread").expect("resolve");
    assert_eq!(p.cpus.to_range_string(), "3-6", "cpus 继承 wildcard 包级规则");
    assert_eq!(p.sched, Some(SchedPolicy::Fifo), "sched 来自 exact 线程规则");
    assert_eq!(p.sched_prio, Some(60));
}

#[test]
fn matcher_collects_sources_not_policy() {
    let rules = vec![rc("com.tencent.*", "3-6"), rc("com.tencent.mm", "0-1")];
    let rs = RuleSet::compile(&rules, &topo()).rules;
    let matches = rs.collect_pkg_matches("com.tencent.mm", &pkg_hits(&rs, "com.tencent.mm"));
    let sources: Vec<RuleSource> = matches.iter().map(|m| m.source).collect();
    assert!(
        sources.contains(&RuleSource::PackageExact)
            && sources.contains(&RuleSource::PackageWildcard),
        "matcher must return both sources, got: {sources:?}"
    );
}

#[test]
fn rule_source_priority_is_explicit() {
    assert!(RuleSource::PackageExact.priority() > RuleSource::PackageWildcard.priority());
    assert!(RuleSource::ThreadExact.priority() > RuleSource::ThreadType.priority());
    assert!(RuleSource::ThreadType.priority() > RuleSource::PackageExact.priority());
    assert!(RuleSource::Global.priority() < RuleSource::Profile.priority());
    assert_eq!(RuleSource::PackageWildcard.priority(), 40);
    assert_eq!(RuleSource::PackageExact.priority(), 50);
}

#[test]
fn uclamp_flows_through_resolve() {
    let mut r = rc("com.x", "0-1");
    r.uclamp_min = Some(700);
    r.uclamp_max = Some(1024);
    let rs = RuleSet::compile(&[r], &topo()).rules;
    let p = resolve(&rs, "com.x", "").expect("resolve");
    assert_eq!(p.uclamp_min, Some(700), "uclamp_min must not be dropped");
    assert_eq!(p.uclamp_max, Some(1024), "uclamp_max must not be dropped");
}

#[test]
fn uclamp_constraint_merge() {
    let mut a = rc("com.x", "0-1");
    a.uclamp_min = Some(300);
    a.uclamp_max = Some(512);
    let mut b = rc("com.x", "2-3");
    b.uclamp_min = Some(700);
    b.uclamp_max = Some(1024);
    let rs = RuleSet::compile(&[a, b], &topo()).rules;
    let p = resolve(&rs, "com.x", "").expect("resolve");
    assert_eq!(p.uclamp_min, Some(700), "min must take the max (700 > 300)");
    assert_eq!(p.uclamp_max, Some(512), "max must take the min (512 < 1024)");
    assert_eq!(p.cpus.to_range_string(), "0-3");
}

#[test]
fn cache_hits_after_first_resolve() {
    let mut rules = Vec::new();
    for i in 0..1000 {
        rules.push(rc(&format!("com.app{i}.*"), "0-1"));
    }
    let rs = RuleSet::compile(&rules, &topo()).rules;
    assert_eq!(rs.package_patterns().len(), 1000);

    let pkg = "com.app500.some.thing";
    let of_pkg = pkg_hits(&rs, pkg);
    assert!(rs.is_interested(pkg, &of_pkg));
    let mut cache = MatchCache::new();
    let first = cache.collect(&rs, pkg, &of_pkg);
    assert_eq!(cache.cache_len(), 1, "首次 resolve 后缓存 1 条");
    for _ in 0..10_000 {
        let again = cache.collect(&rs, pkg, &[]);
        assert_eq!(again, first);
        assert!(rs.resolve_matches(&again, "", &[]).is_some(), "缓存命中路径必须稳定");
    }
    assert_eq!(cache.cache_len(), 1, "重复 resolve 不应增长缓存");
}

#[test]
fn cache_is_instance_scoped() {
    let rs1 = RuleSet::compile(&[rc("com.tencent.mm", "0-1")], &topo()).rules;
    let mut cache1 = MatchCache::new();
    let m1 = cache1.collect(&rs1, "com.tencent.mm", &pkg_hits(&rs1, "com.tencent.mm"));
    assert!(rs1.resolve_matches(&m1, "", &[]).is_some());
    assert_eq!(cache1.cache_len(), 1);

    let rs2 = RuleSet::compile(&[rc("com.tencent.*", "4-7")], &topo()).rules;
    let mut cache2 = MatchCache::new();
    let m2 = cache2.collect(&rs2, "com.tencent.mm", &pkg_hits(&rs2, "com.tencent.mm"));
    assert!(rs2.resolve_matches(&m2, "", &[]).is_some(), "新实例应命中通配");
    assert_eq!(
        resolve(&rs2, "com.tencent.mm", "").unwrap().cpus.to_range_string(),
        "4-7"
    );
    assert!(resolve(&rs1, "com.tencent.mm", "").is_some(), "旧实例语义不变");
}

#[test]
fn wildcard_thread_rules_resolve() {
    let rules =
        vec![rc("com.tencent.*", "0-3"), rc_thread("com.tencent.*", "RenderThread", "7")];
    let rs = RuleSet::compile(&rules, &topo()).rules;
    assert!(rs.has_thread_rules("com.tencent.qq", &pkg_hits(&rs, "com.tencent.qq")));
    let p = resolve(&rs, "com.tencent.qq", "RenderThread").expect("resolve");
    assert_eq!(p.cpus.to_range_string(), "7", "线程规则优先");
}

#[test]
fn empty_policy_returns_none() {
    let rs = RuleSet::compile(&[rc("com.empty", "")], &topo()).rules;
    assert!(resolve(&rs, "com.empty", "").is_none(), "空规则应返回 None（系统默认）");
}

#[test]
fn partial_policy_returns_some() {
    let rs = RuleSet::compile(&[rc_sched_only("com.partial", "fifo:60")], &topo()).rules;
    let p = resolve(&rs, "com.partial", "").expect("部分规则应返回 Some");
    assert_eq!(p.sched, Some(SchedPolicy::Fifo));
    assert_eq!(p.sched_prio, Some(60));
    assert_eq!(p.cpus.count(), 0, "sched-only 规则不约束 CPU");
}

#[test]
fn bad_rules_are_reported_and_left_out() {
    let rules = vec![rc("com.a", "99-100"), rc("com.b", "0-1"), rc("", "0-1")];
    let out = RuleSet::compile(&rules, &topo());
    assert_eq!(out.rules.rules().len(), 1);
    assert_eq!(out.rules.pkgs(), &vec!["com.b".to_string()]);
    let at: Vec<usize> = out.errors.iter().map(|e| e.index).collect();
    assert_eq!(at, vec![0, 2]);
    assert!(out.errors[0].to_text().starts_with("rule #1: "));
}

#[test]
fn patterns_and_names() {
    assert!(contains_wildcard("com.*") && contains_wildcard("a?") && contains_wildcard("[ab]"));
    assert!(!contains_wildcard("com.a"));
    assert_eq!(pattern_specificity("com.*.service"), 402);
    assert_eq!(pattern_specificity("*"), -10);
    assert_eq!(pattern_specificity("***"), -30);
    assert_eq!(pattern_specificity("*.launcher"), -1);
}

#[test]
fn real_time_rules_are_noticed() {
    let rs = RuleSet::compile(&[rc_sched_only("com.a", "rr:5")], &topo()).rules;
    assert!(rs.has_rt_sched());
    let rs = RuleSet::compile(&[rc_sched_only("com.a", "batch")], &topo()).rules;
    assert!(!rs.has_rt_sched());
}

#[test]
fn empty_thread_rules_leave_the_package_rules() {
    let rules = vec![rc("com.a", "0-3"), rc_thread_sched("com.a", "RenderThread", "bogus")];
    let rs = RuleSet::compile(&rules, &topo()).rules;
    let p = resolve(&rs, "com.a", "RenderThread").expect("resolve");
    assert_eq!(p.cpus.to_range_string(), "0-3");
    assert!(p.sched.is_none());
}

#[test]
fn patterns_of_no_weight_apply() {
    let rules = vec![rc("***", "0"), rc("*", "1"), rc("*.game", "2"), rc("*.launchers", "3")];
    let rs = RuleSet::compile(&rules, &topo());
    assert!(rs.errors.is_empty());
    let cpus = |pkg: &str| resolve(&rs.rules, pkg, "").map(|p| p.cpus.to_range_string());
    assert_eq!(cpus("com.a").as_deref(), Some("1"), "-10 goes before -30");
    assert_eq!(cpus("com.game").as_deref(), Some("2"), "-5 goes before -10");
    assert_eq!(cpus("com.launchers").as_deref(), Some("3"), "0 goes before -10");
    let alone = RuleSet::compile(&[rc("*.launchers", "3")], &topo()).rules;
    assert!(resolve(&alone, "com.launchers", "").is_some());
    assert!(resolve(&alone, "com.other", "").is_none());
}
