use threadctl::scene::{apply_scene_to_config, is_valid_scene, scene_kdl};

#[test]
fn scene_kdl_generates_valid_block() {
    let b = scene_kdl("game").expect("game 场景");
    assert!(b.contains("lock-interval 60"));
    assert!(b.contains("<<scene: game>>"));
    assert!(b.contains("<<scene: end>>"));
    assert!(scene_kdl("nonexistent").is_none());
    assert!(!is_valid_scene("foo"));
    assert!(is_valid_scene("game"));
}

#[test]
fn apply_scene_appends_and_replaces() {
    let base = "engine { mode \"auto\" }\napp \"com.x\" { cpus \"0-3\" }\n";
    let v1 = apply_scene_to_config(base, "game").expect("apply");
    assert!(v1.contains("<<scene: game>>"), "追加场景段");
    assert!(v1.contains("app \"com.x\""), "原配置保留");
    let v2 = apply_scene_to_config(&v1, "power-save").expect("apply");
    assert!(!v2.contains("<<scene: game>>"), "旧场景段移除");
    assert!(v2.contains("<<scene: power-save>>"), "新场景段");
    assert!(v2.contains("lock-interval 300"));
    assert!(v2.contains("app \"com.x\""), "原配置仍保留");
}

#[test]
fn apply_unknown_scene_errors() {
    let base = "engine { }\n";
    assert!(apply_scene_to_config(base, "nope").is_err());
    let e = apply_scene_to_config(base, "nope").unwrap_err();
    assert_eq!(e, "未知场景: nope（可选: game/video/power-save/balanced/default）");
}

#[test]
fn last_scene_counts() {
    let base = "app \"com.x\" { cpus \"0-3\" }\n";
    let direct = apply_scene_to_config(base, "video").unwrap();
    let detour = apply_scene_to_config(&apply_scene_to_config(base, "game").unwrap(), "video");
    assert_eq!(detour.unwrap(), direct);
}

#[test]
fn only_the_scene_goes() {
    let before = "engine { mode \"auto\" }\n// note\n";
    let behind = "app \"com.x\" { cpus \"0-3\" }\n\n";
    let content = format!("{before}{}{behind}", scene_kdl("game").unwrap());
    let expected = format!("{before}{behind}{}", scene_kdl("video").unwrap());
    assert_eq!(apply_scene_to_config(&content, "video").unwrap(), expected);
}
