use threadctl::topology::{
    classify_clusters, detect_clusters, detect_dvfs_domains, init_cpu_topo, parse_cpu_ranges,
    CapacityReading, CpuClusterKind, CpuSet, PolicyReading, TopologyReadings,
};

fn kind_name(k: &CpuClusterKind) -> &'static str {
    match k {
        CpuClusterKind::Prime => "prime",
        CpuClusterKind::Big => "big",
        CpuClusterKind::Mid => "mid",
        CpuClusterKind::Little => "little",
        CpuClusterKind::Unknown => "unknown",
    }
}

fn names(kinds: &[CpuClusterKind]) -> Vec<&'static str> {
    kinds.iter().map(kind_name).collect()
}

#[test]
fn classify_three_groups_unchanged() {
    let groups = vec![(280, vec![0, 1, 2]), (855, vec![3, 4, 5, 6]), (1024, vec![7])];
    assert_eq!(names(&classify_clusters(&groups)), vec!["little", "big", "prime"]);
}

#[test]
fn classify_four_groups_sm8650() {
    let groups = vec![
        (240, vec![0, 1]),
        (560, vec![2, 3]),
        (720, vec![4, 5, 6]),
        (1024, vec![7]),
    ];
    assert_eq!(names(&classify_clusters(&groups)), vec!["little", "mid", "big", "prime"]);
}

#[test]
fn classify_two_groups_all_big_sm8750() {
    let groups = vec![(700, vec![0, 1, 2, 3, 4, 5]), (900, vec![6, 7])];
    assert_eq!(names(&classify_clusters(&groups)), vec!["big", "prime"]);
}

#[test]
fn classify_two_groups_big_little() {
    let groups = vec![(280, vec![0, 1, 2]), (855, vec![3, 4, 5, 6])];
    assert_eq!(names(&classify_clusters(&groups)), vec!["little", "big"]);
}

#[test]
fn classify_two_groups_ratio_boundary() {
    let groups = vec![(400, vec![0, 1, 2, 3]), (800, vec![4, 5, 6, 7])];
    assert_eq!(names(&classify_clusters(&groups)), vec!["little", "big"]);

    let groups = vec![(300, vec![0, 1, 2, 3]), (500, vec![4, 5, 6, 7])];
    assert_eq!(names(&classify_clusters(&groups)), vec!["little", "big"]);

    let groups = vec![(250, vec![0, 1, 2, 3]), (400, vec![4, 5, 6, 7])];
    assert_eq!(names(&classify_clusters(&groups)), vec!["little", "big"]);
    let groups = vec![(400, vec![0, 1, 2, 3]), (1000, vec![4, 5, 6, 7])];
    assert_eq!(names(&classify_clusters(&groups)), vec!["little", "big"]);
}

#[test]
fn classify_five_groups_generic() {
    let groups = vec![
        (200, vec![0, 1]),
        (400, vec![2]),
        (600, vec![3, 4]),
        (800, vec![5, 6]),
        (1024, vec![7]),
    ];
    assert_eq!(names(&classify_clusters(&groups)), vec!["little", "mid", "big", "big", "prime"]);
}

#[test]
fn classify_one_group_unknown() {
    let groups = vec![(800, vec![0, 1, 2, 3, 4, 5, 6, 7])];
    assert_eq!(names(&classify_clusters(&groups)), vec!["unknown"]);
}

#[test]
fn cpu_set_parse_roundtrip() {
    let s = "0-3,6-7";
    let set = parse_cpu_ranges(s, None);
    assert_eq!(set.to_range_string(), s);
    assert_eq!(set.count(), 6);
}

#[test]
fn parse_sysfs_space_separated() {
    let set = parse_cpu_ranges("0 1 2", None);
    assert_eq!(set.to_range_string(), "0-2");
    assert_eq!(set.count(), 3);

    let set = parse_cpu_ranges("3 4 5 6", None);
    assert_eq!(set.to_range_string(), "3-6");

    let set = parse_cpu_ranges("0 1,4-5", None);
    assert_eq!(set.to_range_string(), "0-1,4-5");
}

#[test]
fn parse_cpu_set() {
    let set = parse_cpu_ranges("0-3", None);
    assert_eq!(set.count(), 4);
    assert!(!set.is_empty());
}

#[test]
fn ranges_stay_within_the_present_cpus() {
    let present = parse_cpu_ranges("0-3", None);
    assert_eq!(parse_cpu_ranges("2-7", Some(&present)).to_range_string(), "2-3");
    assert!(parse_cpu_ranges("", None).is_empty());
    assert_eq!(parse_cpu_ranges("5-2", None).to_range_string(), "2-5");
}

#[test]
fn sets_combine() {
    let mut a = parse_cpu_ranges("0-1", None);
    let b = parse_cpu_ranges("1-2", None);
    a.or(&b);
    assert_eq!(a.iter(), vec![0, 1, 2]);
    a.and(&b);
    assert_eq!(a.to_range_string(), "1-2");
    assert!(a.same(&b));
    assert!(a.is_set(2) && !a.is_set(0));
    assert!(CpuSet::new().is_empty());
}

#[test]
fn allowed_mask_is_read() {
    let status = "Name:\tx\nCpus_allowed:\tff\nCpus_allowed_list:\t0-3,7\n";
    assert_eq!(CpuSet::read_allowed_mask(status).unwrap().to_range_string(), "0-3,7");
    assert!(CpuSet::read_allowed_mask("Name:\tx\n").is_none());
}

fn capacity(name: &str, c: &str) -> CapacityReading {
    CapacityReading { name: name.into(), capacity: c.into() }
}

#[test]
fn clusters_come_from_capacities() {
    let readings =
        [capacity("cpu0", "280"), capacity("cpu1", "280"), capacity("cpu2", "1024"), capacity(
            "cpufreq", "1",
        )];
    let c = detect_clusters(&readings, Some("0-2"));
    assert_eq!(c.len(), 2);
    assert_eq!(c[0].kind, CpuClusterKind::Little);
    assert_eq!(c[0].range_str, "0-1");
    assert_eq!(c[1].capacity, 1024);
}

#[test]
fn domains_come_from_policies() {
    let p = |n: &str, r: &str| PolicyReading {
        name: n.into(),
        related: Some(r.into()),
        affected: None,
    };
    let d = detect_dvfs_domains(&[p("policy4", "4 5 6 7"), p("policy0", "0 1 2 3"), p("boost", "1")]);
    let texts: Vec<String> = d.iter().map(|s| s.to_range_string()).collect();
    assert_eq!(texts, vec!["0-3", "4-7"]);
}

#[test]
fn topology_is_put_together() {
    let t = init_cpu_topo(&TopologyReadings {
        present: Some("0-3".into()),
        online: Some("0-3".into()),
        capacities: vec![capacity("cpu0", "280"), capacity("cpu3", "1024")],
        policies: vec![],
    });
    assert_eq!(t.present_cpus.to_range_string(), "0-3");
    assert!(!t.cpuset_enabled);
    assert_eq!(t.clusters.len(), 2);
}
