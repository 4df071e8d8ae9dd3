use threadctl::config::cluster_missing;
use threadctl::kdl_parser::parse_kdl;
use threadctl::store::ConfigStore;
use threadctl::topology::{parse_cpu_ranges, CpuCluster, CpuClusterKind, CpuTopology};
use threadctl::warning::{truncated_name, warnings, Warning};

fn clusters() -> Vec<CpuCluster> {
    vec![
        CpuCluster {
            kind: CpuClusterKind::Little,
            cpus: parse_cpu_ranges("0-3", None),
            range_str: "0-3".to_string(),
            capacity: 400,
        },
        CpuCluster {
            kind: CpuClusterKind::Big,
            cpus: parse_cpu_ranges("4-7", None),
            range_str: "4-7".to_string(),
            capacity: 1024,
        },
    ]
}

fn missing(pkg: &str, cluster: &str) -> Warning {
    Warning::MissingCluster { pkg: pkg.to_string(), cluster: cluster.to_string() }
}

#[test]
fn clusters_go_by_name_or_numbers() {
    assert!(!cluster_missing("BIG", &clusters()));
    assert!(!cluster_missing("0-6", &clusters()));
    assert!(cluster_missing("prime", &clusters()));
    assert!(cluster_missing("big", &[]));
}

#[test]
fn missing_clusters_are_reported() {
    let kdl = r#"
        app "com.a" {
            default { cluster "prime" }
            thread "Worker" { cluster "titan" }
            thread "Other" { cluster "big" }
        }
        app "com.b" { default { cluster "little" } }
    "#;
    let (model, _d, _e) = parse_kdl(kdl).expect("parse");
    assert_eq!(
        warnings(&model, &clusters()),
        vec![missing("com.a", "prime"), missing("com.a", "titan")]
    );
    assert_eq!(model.to_rules_with_clusters(&clusters())[0].cpus, "4-7");
}

#[test]
fn numbers_for_a_cluster_are_cpus() {
    let (model, _d, _e) =
        parse_kdl("app \"com.a\" { default { cluster \"0-6\" } }\n").expect("parse");
    assert_eq!(warnings(&model, &clusters()), vec![]);
    assert_eq!(model.to_rules_with_clusters(&clusters())[0].cpus, "0-6");
}

#[test]
fn unknown_profiles_are_reported() {
    let (model, _d, _e) =
        parse_kdl("app \"com.a\" { profile \"no-such\" }\n").expect("parse");
    assert_eq!(
        warnings(&model, &clusters()),
        vec![Warning::UnknownProfile { pkg: "com.a".to_string(), profile: "no-such".to_string() }]
    );
}

#[test]
fn long_thread_names_are_reported() {
    assert_eq!(truncated_name("AVeryLongThreadName"), Some("AVeryLongThread".to_string()));
    assert_eq!(truncated_name("RenderThread"), None);
    assert_eq!(truncated_name("AVeryLongThreadName*"), None);
    let kdl = "app \"com.a\" { default { nice 1 }; thread \"AVeryLongThreadName\" { nice 2 } }\n";
    let (s, errors) =
        ConfigStore::new("./x.kdl", Ok(kdl), CpuTopology::default()).expect("load");
    assert!(errors.is_empty());
    assert_eq!(
        s.current().warnings,
        vec![Warning::LongThread {
            rule: 2,
            thread: "AVeryLongThreadName".to_string(),
            kept: "AVeryLongThread".to_string(),
        }]
    );
}
