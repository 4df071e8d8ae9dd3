use std::sync::Arc;

use threadctl::store::{
    after_poll, after_records, ConfigStore, HotReload, PollResult, WatchEvent, WatchRecord,
};
use threadctl::topology::CpuTopology;

fn store(content: &str) -> ConfigStore {
    let (s, errors) = ConfigStore::new("./x.kdl", Ok(content), CpuTopology::default())
        .expect("init");
    assert!(errors.is_empty());
    s
}

#[test]
fn store_reload_increments_version() {
    let mut store = store("engine { scan-interval 1 }\n");
    assert_eq!(store.current().version, 1);
    let v = store.reload(Ok("engine { scan-interval 2 }\n")).expect("reload");
    assert_eq!(v.version, 2);
    assert_eq!(store.current().version, 2);
    assert_eq!(store.current().engine.scan_interval, 2);
}

#[test]
fn store_reload_keeps_old_on_error() {
    let mut store = store("engine { scan-interval 1 }\n");
    assert!(store.reload(Ok("engine {")).is_err(), "坏配置应报错");
    assert_eq!(store.current().version, 1, "旧快照应保留");
    let gone = store.reload(Err("gone"));
    assert!(matches!(gone, Err(e) if e == "config read failed: gone"));
    assert_eq!(store.current().version, 1);
}

#[test]
fn store_current_is_cheap_clone() {
    let store = store("engine { scan-interval 1 }\n");
    let a = store.current();
    let b = store.current();
    assert!(Arc::ptr_eq(&a, &b));
}

#[test]
fn other_formats_are_refused() {
    let r = ConfigStore::new("./x.toml", Ok(""), CpuTopology::default());
    match r {
        Err(e) => assert_eq!(
            e,
            "仅支持 KDL 配置（./x.toml 不是 .kdl）；TOML 格式已移除，请使用 threadctl.kdl"
        ),
        Ok(_) => panic!("accepted"),
    }
}

#[test]
fn patterns_of_any_weight_load() {
    let kdl = "app \"*\" { default { nice 1 } }\napp \"*.game\" { default { nice 2 } }\n";
    let s = store(kdl);
    assert_eq!(s.current().rules.pkgs().len(), 2);
    let mut s = store("engine { scan-interval 1 }\n");
    let done = s.reload(Ok(kdl)).expect("reload");
    assert_eq!((done.version, done.errors.len()), (2, 0));
}

#[test]
fn bad_rules_do_not_fail_a_reload() {
    let mut s = store("engine { scan-interval 1 }\n");
    let kdl = "app \"com.a\" { default { cpus \"x\" } }\napp \"com.b\" { default { nice 2 } }\n";
    let done = s.reload(Ok(kdl)).expect("reload");
    assert_eq!((done.version, done.errors.len()), (2, 1));
    assert_eq!(s.current().rules.pkgs(), &vec!["com.b".to_string()]);
}

#[test]
fn watches_lead_to_reloads() {
    assert_eq!(after_poll(PollResult::Ready), None);
    assert_eq!(after_poll(PollResult::Failed), Some(WatchEvent::Lost));
    assert_eq!(after_records(&[]), WatchEvent::Quiet);
    let mut h = HotReload::new(true, 5);
    assert!(h.on_watch(WatchEvent::Changed));
    assert!(!h.on_watch(WatchEvent::Quiet));
    assert!(!h.on_watch(WatchEvent::Lost));
    assert!(h.on_mtime(7));
    assert!(!h.on_mtime(7));
}

#[test]
fn written_files_count() {
    let r = WatchRecord { written: true, replaced: false, restored: false };
    assert_eq!(after_records(&[r]), WatchEvent::Changed);
}
