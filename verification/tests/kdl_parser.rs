use threadctl::config::EngineMode;
use threadctl::decision::MigrateAction;
use threadctl::kdl_parser::{
    parse_document, parse_kdl, parse_system, system_of_document, Entry, Item,
};

#[test]
fn parse_basic() {
    let kdl = r#"app "com.miui.home" {
            thread "RenderThread" { cluster "prime"; sched "fifo"; priority 60; nice -10 }
            default { cpus "0-6" }
        }"#;
    let (model, _d, _e) = parse_kdl(kdl).expect("parse");
    let mm = model.get("com.miui.home").unwrap();
    assert_eq!(mm.default_policy.cpus.as_deref(), Some("0-6"));
    let rt = mm.thread("RenderThread").unwrap();
    assert_eq!(rt.cluster.as_deref(), Some("prime"));
    assert_eq!(rt.sched.as_deref(), Some("fifo:60"));
    assert_eq!(rt.nice, Some(-10));
}

#[test]
fn kdl_to_rules_works() {
    let kdl = r#"app "com.test" { default { cpus "0-3" } }"#;
    let (model, _d, _e) = parse_kdl(kdl).expect("parse");
    let rules = model.to_rules();
    assert_eq!(rules.len(), 1);
    assert_eq!(rules[0].cpus, "0-3");
}

#[test]
fn kdl_daemon_engine_nodes() {
    let kdl = r#"
            daemon { pid-file "/data/run/x.pid"; ipc-socket "/data/run/x.sock" }
            engine { mode "hybrid"; scan-interval 3; lock-interval 30; migrate-action "observe" }
            app "com.test" { default { cpus "0-3" } }
        "#;
    let (model, daemon, engine) = parse_kdl(kdl).expect("parse");
    assert_eq!(daemon.pid_file, "/data/run/x.pid");
    assert_eq!(daemon.ipc_socket, "/data/run/x.sock");
    assert_eq!(engine.mode, EngineMode::Hybrid);
    assert_eq!(engine.scan_interval, 3);
    assert_eq!(engine.lock_interval, 30);
    assert_eq!(engine.migrate_action, MigrateAction::Observe);
    assert!(model.get("com.test").is_some());
}

#[test]
fn broken_documents_are_refused() {
    let e = parse_kdl("app \"x {").unwrap_err();
    assert!(e.contains("Failed to parse KDL document"), "got: {e}");
    assert!(parse_kdl("engine { mode \"auto\" }").is_ok());
}

fn text_entry(s: &str) -> Entry {
    Entry { name: None, text: Some(s.into()), int: None, flag: None }
}

#[test]
fn documents_can_be_built_by_hand() {
    let app = Item { name: "app".into(), entries: vec![text_entry("com.a")] };
    let cpus = Item { name: "cpus".into(), entries: vec![text_entry("0-3")] };
    let (model, _d, _e) = parse_document(&vec![(app, vec![(cpus, vec![])])]).expect("parse");
    assert_eq!(model.get("com.a").unwrap().default_policy.cpus.as_deref(), Some("0-3"));
}

#[test]
fn direct_cpus_are_those_of_the_default_policy() {
    let kdl = r#"
        app "com.a" nice=5 { cpus "0-3"; nice 7; sched "fifo" }
        app "com.b" { default { cluster "big"; nice 3 }; cpus "4-7" }
        app "com.c" { cpus "4-7"; default { nice 3 } }
    "#;
    let (model, _d, _e) = parse_kdl(kdl).expect("parse");
    let a = &model.get("com.a").unwrap().default_policy;
    assert_eq!((a.cpus.as_deref(), a.nice, a.sched.as_deref()), (Some("0-3"), None, None));
    let b = &model.get("com.b").unwrap().default_policy;
    assert_eq!((b.cpus.as_deref(), b.cluster.as_deref(), b.nice), (Some("4-7"), None, Some(3)));
    let c = &model.get("com.c").unwrap().default_policy;
    assert_eq!((c.cpus.as_deref(), c.nice), (None, Some(3)));
}

#[test]
fn system_nodes_say_what_to_tune() {
    let kdl = r#"
        system { governor "schedutil"; io-scheduler "mq-deadline" }
        app "com.a" { cpus "0-3" }
        system { governor "performance"; io-scheduler 5 }
    "#;
    let t = parse_system(kdl).expect("parse");
    assert_eq!(t.governor.as_deref(), Some("performance"));
    assert_eq!(t.io_scheduler.as_deref(), Some("mq-deadline"));
    let t = parse_system("app \"com.a\"\n").expect("parse");
    assert!(t.governor.is_none() && t.io_scheduler.is_none());
    assert_eq!(
        parse_system("system {").unwrap_err(),
        "KDL 语法错误: Failed to parse KDL document"
    );
    let system = Item { name: "system".into(), entries: vec![] };
    let governor = Item { name: "governor".into(), entries: vec![text_entry("powersave")] };
    let t = system_of_document(&vec![(system, vec![(governor, vec![])])]);
    assert_eq!(t.governor.as_deref(), Some("powersave"));
}
