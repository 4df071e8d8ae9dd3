use threadctl::config::{policy_to_rules, EngineMode, PolicyModel};
use threadctl::kdl_parser::parse_kdl;
use threadctl::policy::SchedPolicy;
use threadctl::profile::{builtin_profile, builtin_profiles, is_valid_profile, profile_names};
use threadctl::ruleset::RuleSet;
use threadctl::topology::{parse_cpu_ranges, CpuCluster, CpuClusterKind, CpuTopology};

#[test]
fn parse_minimal_config() {
    let kdl = r#"
            daemon { pid-file "./run/x.pid" }
            engine { mode "hybrid"; scan-interval 3 }
            app "com.example" {
                default { cpus "0-3" }
                thread "RenderThread" { cpus "4-7"; sched "fifo:60"; nice -10 }
            }
        "#;
    let (model, _d, engine) = parse_kdl(kdl).expect("parse");
    assert_eq!(engine.mode, EngineMode::Hybrid);
    assert_eq!(engine.scan_interval, 3);
    let rules = model.to_rules();
    assert_eq!(rules.len(), 2);
    let spec = rules[1].sched_spec().expect("sched");
    assert_eq!(spec.policy, SchedPolicy::Fifo);
    assert_eq!(spec.prio, Some(60));
}

#[test]
fn defaults_applied() {
    let kdl = "// empty\n";
    let (_m, _d, engine) = parse_kdl(kdl).expect("parse");
    assert_eq!(engine.mode, EngineMode::Auto);
    assert_eq!(engine.lock_interval, 60);
}

#[test]
fn app_format_parses() {
    let kdl = r#"
            app "com.tencent.mm" {
                cpus "0-6"
                thread "RenderThread" { cpus "7"; sched "fifo:60" }
                thread "AudioThread" { cpus "0-3"; nice -10 }
            }
        "#;
    let (model, _d, _e) = parse_kdl(kdl).expect("parse");
    assert_eq!(model.apps.len(), 1);
    let mm = model.get("com.tencent.mm").unwrap();
    assert_eq!(mm.default_policy.cpus.as_deref(), Some("0-6"));
    assert_eq!(mm.threads.len(), 2);
    assert_eq!(mm.thread("AudioThread").unwrap().nice, Some(-10));
    assert!(mm.thread("Other").is_none());
}

#[test]
fn merged_format_loads() {
    let kdl = r#"
            app "com.a" {
                cpus "0-6"
                thread "RenderThread" { cpus "7" }
            }
            app "com.b" { default { cpus "0-3" } }
        "#;
    let (model, _d, _e) = parse_kdl(kdl).expect("parse");
    let rules = model.to_rules();
    assert_eq!(rules.len(), 3);
}

#[test]
fn multi_pkg_rules_merge_or() {
    let kdl = r#"
            app "com.x" {
                default { cpus "0-3" }
                default { cpus "4-7" }
                default { sched "fifo:60" }
            }
        "#;
    let (model, _d, _e) = parse_kdl(kdl).expect("parse");
    let rules = model.to_rules();
    assert_eq!(rules.len(), 1, "多次 default 覆盖为一条");
    assert_eq!(rules[0].cpus, "", "最后一个 default（仅 sched）覆盖 cpus");
    assert_eq!(rules[0].sched.as_deref(), Some("fifo:60"), "sched 保留");
}

#[test]
fn same_thread_rules_merge() {
    let kdl = r#"
            app "com.x" {
                thread "RenderThread" { cpus "0-3" }
                thread "RenderThread" { cpus "7"; sched "fifo:60" }
            }
        "#;
    let (model, _d, _e) = parse_kdl(kdl).expect("parse");
    let rules = model.to_rules();
    assert_eq!(rules.len(), 1, "同名线程节点覆盖为一条");
    assert_eq!(rules[0].cpus, "7", "后写 cpus 覆盖");
    assert_eq!(rules[0].sched.as_deref(), Some("fifo:60"));
}

#[test]
fn sched_only_rule_is_whitelist_placeholder() {
    let kdl = r#"
            app "com.schedonly" { default { sched "fifo:60" } }
        "#;
    let (model, _d, _e) = parse_kdl(kdl).expect("parse");
    let rules = model.to_rules();
    assert_eq!(rules.len(), 1);
    assert_eq!(rules[0].cpus, "", "占位规则无 CPU 约束");
    assert_eq!(rules[0].sched.as_deref(), Some("fifo:60"));

    let topo = CpuTopology::default();
    let compile = RuleSet::compile(&rules, &topo);
    assert!(compile.errors.is_empty(), "占位规则不应报错: {:?}", compile.errors);
    assert!(compile.rules.is_interested("com.schedonly", &[]), "白名单应包含此包");
}

#[test]
fn profile_expands_template_kdl() {
    let kdl = r#"
            app "com.example.game" {
                profile "game"
                thread "RenderThread" { cpus "7" }
            }
        "#;
    let (model, _d, _e) = parse_kdl(kdl).expect("parse");
    let rules = model.to_rules();
    let rt = rules.iter().find(|r| r.thread == "RenderThread").expect("RenderThread 规则");
    assert_eq!(rt.cpus, "7", "用户 cpus 应覆盖模板");
    assert_eq!(rt.pkg, "com.example.game");
}

#[test]
fn profile_override_beats_template() {
    let kdl = r#"
            app "com.x" {
                profile "audio"
                cpus "0-3"
            }
        "#;
    let (model, _d, _e) = parse_kdl(kdl).expect("parse");
    let rules = model.to_rules();
    let def = rules.iter().find(|r| r.thread.is_empty()).expect("default 规则");
    assert_eq!(def.cpus, "0-3", "用户 cpus 应覆盖 audio 模板的 little 集群");
}

#[test]
fn unknown_profile_warns_and_falls_back() {
    let kdl = r#"
            app "com.x" { profile "nonexistent" }
        "#;
    let (model, _d, _e) = parse_kdl(kdl).expect("parse");
    let rules = model.to_rules();
    assert_eq!(rules.len(), 1);
    assert!(rules[0].cpus.is_empty());
}

fn mk_cluster(kind: CpuClusterKind, cpus: &str, cap: u32) -> CpuCluster {
    let set = parse_cpu_ranges(cpus, None);
    CpuCluster { kind, cpus: set, range_str: set.to_range_string(), capacity: cap }
}

fn mk_pol_cluster(name: &str) -> PolicyModel {
    PolicyModel {
        cpus: None,
        cluster: Some(name.into()),
        sched: None,
        nice: None,
        uclamp_min: None,
        uclamp_max: None,
    }
}

#[test]
fn cluster_mid_resolves_on_four_group() {
    let clusters = vec![
        mk_cluster(CpuClusterKind::Little, "0-1", 240),
        mk_cluster(CpuClusterKind::Mid, "2-3", 560),
        mk_cluster(CpuClusterKind::Big, "4-6", 720),
        mk_cluster(CpuClusterKind::Prime, "7", 1024),
    ];
    let rules = policy_to_rules("com.x", "", &mk_pol_cluster("mid"), &clusters);
    assert_eq!(rules.len(), 1);
    assert_eq!(rules[0].cpus, "2-3", "cluster mid 应解析为中核组");
}

#[test]
fn cluster_little_fallback_to_big_on_all_big() {
    let clusters = vec![
        mk_cluster(CpuClusterKind::Big, "0-5", 700),
        mk_cluster(CpuClusterKind::Prime, "6-7", 900),
    ];
    let rules = policy_to_rules("com.x", "", &mk_pol_cluster("little"), &clusters);
    assert_eq!(rules.len(), 1);
    assert_eq!(rules[0].cpus, "0-5", "little 不可用 → 同档近似 big");
}

#[test]
fn cluster_big_fallback_on_single_unknown() {
    let clusters = vec![mk_cluster(CpuClusterKind::Unknown, "0-7", 800)];
    let rules = policy_to_rules("com.x", "", &mk_pol_cluster("big"), &clusters);
    assert_eq!(rules.len(), 1);
    assert_eq!(rules[0].cpus, "0-7", "单集群兜底全部 CPU");
}

#[test]
fn cluster_exact_hit_no_fallback() {
    let clusters = vec![
        mk_cluster(CpuClusterKind::Little, "0-2", 280),
        mk_cluster(CpuClusterKind::Big, "3-6", 855),
        mk_cluster(CpuClusterKind::Prime, "7", 1024),
    ];
    let rules = policy_to_rules("com.x", "", &mk_pol_cluster("big"), &clusters);
    assert_eq!(rules[0].cpus, "3-6", "big 精确命中");
}

#[test]
fn cluster_names_ignore_case() {
    let clusters = vec![
        mk_cluster(CpuClusterKind::Big, "0-5", 700),
        mk_cluster(CpuClusterKind::Prime, "6-7", 900),
    ];
    let rules = policy_to_rules("com.x", "", &mk_pol_cluster("PRIME"), &clusters);
    assert_eq!(rules[0].cpus, "6-7");
}

#[test]
fn profiles_have_names() {
    assert!(is_valid_profile("game"));
    assert!(!is_valid_profile("Game"));
    assert!(builtin_profile("nonexistent").is_none());
    let all = builtin_profiles();
    let names = profile_names();
    assert_eq!(all.len(), names.len());
    for (p, n) in all.iter().zip(names) {
        assert_eq!(p.name, n);
        assert!(is_valid_profile(n));
    }
}

#[test]
fn every_app_has_a_rule() {
    let kdl = r#"
        app "com.a" { thread-type "foo" { cpus "0-3" } }
        app "com.b" { thread "Worker" { nice 3 } }
        app "com.c"
    "#;
    let (model, _d, _e) = parse_kdl(kdl).expect("parse");
    let rules = model.to_rules();
    let seen: Vec<(&str, &str, &str)> =
        rules.iter().map(|r| (r.pkg.as_str(), r.thread.as_str(), r.cpus.as_str())).collect();
    assert_eq!(seen, vec![("com.a", "", ""), ("com.b", "Worker", ""), ("com.c", "", "")]);
    assert_eq!(rules[1].nice, Some(3));
}
