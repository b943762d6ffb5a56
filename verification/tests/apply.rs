use appoptr::apply::{
    apply_memory_group, apply_task, apply_thread_tune, cgroup_roots, clamp_failure, control_failure,
    effective_thread_tune, expand_group_path, find_app, group_candidates, move_failure,
    move_process_to_group, nice_failure, pattern_matches, process_uid, reapply_thread,
    resolve_group_path, set_uclamp, write_first_available, ClampAttr, EffectiveThreadTune,
    GroupStep, MoveStep,
};
use appoptr::tuning::{config_from_text, MemoryGroup, TuningConfig};

fn group(path: &str) -> MemoryGroup {
    MemoryGroup {
        name: "g".to_string(),
        path: path.to_string(),
        swappiness: Some(10),
        memory_min: Some("1".to_string()),
        memory_low: Some("2".to_string()),
        memory_high: Some("3".to_string()),
        memory_max: Some("max".to_string()),
        oom_group: Some(true),
    }
}

fn config() -> TuningConfig {
    config_from_text(
        r#"{
            "memory_groups": [{"name": "g", "path": "p"}],
            "apps": [
                {"pkg": "a.b", "memory_group": "g", "threads": [
                    {"pattern": "r*", "uclamp_min": 5, "nice": -5},
                    {"pattern": "rx", "uclamp_max": 9, "nice": 1}
                ]},
                {"pkg": "c.d", "threads": [{"pattern": "q", "nice": 2}]}
            ]
        }"#,
    )
    .ok()
    .unwrap()
}

#[test]
fn the_user_of_a_process_is_read() {
    assert_eq!(process_uid("Name:\tx\nUid:\t10123\t10123\n"), Some(10123));
    assert_eq!(process_uid("Uid:\n"), None);
    assert_eq!(process_uid("Uid:\tx\n"), None);
    assert_eq!(process_uid("Uid:\t4294967296\n"), None);
    assert_eq!(process_uid("Gid:\t1\n"), None);
}

#[test]
fn group_paths_are_filled_in() {
    let status = Some("Uid:\t10123\n".to_string());
    assert_eq!(
        expand_group_path("u{uid}/p{pid}/{pkg}", 7, "a.b", &status).ok().unwrap(),
        "u10123/p7/a.b"
    );
    assert_eq!(expand_group_path("{pid}", -7, "a.b", &None).ok().unwrap(), "-7");
    let warning = expand_group_path("{uid}", 7, "a.b", &None).err().unwrap();
    assert_eq!(warning.key, "uid-7");
    assert_eq!(warning.message, "无法读取 pid 7 的 UID，跳过内存组迁移");
}

#[test]
fn groups_are_sought_below_the_roots() {
    assert_eq!(
        cgroup_roots(true, false, true),
        ["/dev/memcg", "/sys/fs/cgroup"]
    );
    assert_eq!(cgroup_roots(false, true, false), ["/sys/fs/cgroup/memory"]);
    let roots = cgroup_roots(true, false, true);
    let (path, places) = group_candidates(&group("x/{pid}"), 7, "a.b", &None, &roots).ok().unwrap();
    assert_eq!(path, "x/7");
    assert_eq!(places, ["/dev/memcg/x/7", "/sys/fs/cgroup/x/7"]);
    let (_, places) = group_candidates(&group("/dev/memcg/x"), 7, "a.b", &None, &roots).ok().unwrap();
    assert_eq!(places, ["/dev/memcg/x"]);
    let warning = group_candidates(&group("{pkg}"), 7, "..", &None, &roots).err().unwrap();
    assert_eq!(warning.key, "group-template-g");
    assert_eq!(warning.message, "内存组 g 展开后的路径无效");
    let warning = group_candidates(&group("x"), 7, "a.b", &None, &Vec::new()).err().unwrap();
    assert_eq!(warning.key, "no-memory-cgroup");
    assert_eq!(
        warning.message,
        "未发现可用的 memory cgroup 根目录，内存组调优已跳过"
    );
}

#[test]
fn a_group_resolves_below_a_root_only() {
    let roots = vec!["/dev/memcg".to_string()];
    let dirs = vec![
        None,
        Some("/dev/memcgx/a".to_string()),
        Some("/dev/memcg/a".to_string()),
    ];
    assert_eq!(
        resolve_group_path(&group("a"), "a", &dirs, &roots).ok().unwrap(),
        "/dev/memcg/a"
    );
    assert_eq!(
        resolve_group_path(&group("a"), "a", &vec![Some("/dev/memcg".to_string())], &roots)
            .ok()
            .unwrap(),
        "/dev/memcg"
    );
    let warning =
        resolve_group_path(&group("a"), "a", &vec![Some("/data".to_string())], &roots).err().unwrap();
    assert_eq!(warning.key, "group-missing-g-a");
    assert_eq!(
        warning.message,
        "内存组 g 不存在或不在允许的 cgroup 根目录内: a"
    );
}

#[test]
fn a_group_sets_its_controls() {
    let writes = apply_memory_group(&group("p"));
    let shown: Vec<(Vec<String>, String)> =
        writes.into_iter().map(|w| (w.names, w.value)).collect();
    let want = |names: &[&str], value: &str| {
        (
            names.iter().map(|n| n.to_string()).collect::<Vec<String>>(),
            value.to_string(),
        )
    };
    assert_eq!(
        shown,
        vec![
            want(&["memory.swappiness"], "10"),
            want(&["memory.min"], "1"),
            want(&["memory.low", "memory.soft_limit_in_bytes"], "2"),
            want(&["memory.high"], "3"),
            want(&["memory.max", "memory.limit_in_bytes"], "max"),
            want(&["memory.oom.group"], "1"),
        ]
    );
    let writes = apply_memory_group(&group("p"));
    assert_eq!(write_first_available("g", &writes[2], &vec![false, true]).ok(), Some(1));
    assert_eq!(write_first_available("g", &writes[2], &vec![true, true]).ok(), Some(0));
    let warning = write_first_available("g", &writes[2], &vec![false, false]).err().unwrap();
    assert_eq!(warning.key, "unsupported-g-memory.low|memory.soft_limit_in_bytes");
    assert_eq!(
        warning.message,
        "内存组 g 不支持 memory.low / memory.soft_limit_in_bytes（可能是 cgroup 版本不匹配）"
    );
    let warning = control_failure("g", "memory.min", "no");
    assert_eq!(warning.key, "write-g-memory.min-no");
    assert_eq!(warning.message, "内存组 g 的 memory.min 设置失败：no");
}

#[test]
fn a_process_moves_as_the_group_allows() {
    assert!(matches!(move_process_to_group("g", true, true), MoveStep::Process));
    assert!(matches!(move_process_to_group("g", false, true), MoveStep::Threads));
    match move_process_to_group("g", false, false) {
        MoveStep::Refused(w) => {
            assert_eq!(w.key, "move-no-control-g");
            assert_eq!(w.message, "内存组 g 不提供 cgroup.procs 或 tasks，无法迁移应用");
        }
        _ => panic!("not refused"),
    }
    let whole = move_failure("g", 7, true, "no");
    assert_eq!(whole.key, "move-procs-g-no");
    assert_eq!(whole.message, "迁移 pid 7 到内存组 g 失败：no");
    let part = move_failure("g", 8, false, "no");
    assert_eq!(part.key, "move-task-g-no");
    assert_eq!(part.message, "迁移 tid 8 到内存组 g 失败：no");
}

#[test]
fn patterns_match_what_the_kernel_names() {
    assert!(pattern_matches("r*", "rx", true));
    assert!(!pattern_matches("r*", "rx", false));
    assert!(!pattern_matches("*", "", true));
    assert!(!pattern_matches("*", "12345678901234567890123456789012", true));
    assert!(!pattern_matches("*", "a\0", true));
    assert!(!pattern_matches("a\0", "a", true));
}

#[test]
fn the_last_matching_rule_counts() {
    let config = config();
    let app = &config.apps[0];
    let tune = effective_thread_tune(app, "rx", &vec![true, true]).unwrap();
    assert_eq!(
        (tune.uclamp_min, tune.uclamp_max, tune.nice),
        (Some(5), Some(9), Some(1))
    );
    let tune = effective_thread_tune(app, "ry", &vec![true, false]).unwrap();
    assert_eq!(
        (tune.uclamp_min, tune.uclamp_max, tune.nice),
        (Some(5), None, Some(-5))
    );
    assert!(effective_thread_tune(app, "q", &vec![false, false]).is_none());
}

#[test]
fn clamps_are_set_in_the_attributes() {
    let mut attr = ClampAttr {
        sched_flags: 1,
        sched_util_min: 2,
        sched_util_max: 3,
    };
    set_uclamp(&mut attr, Some(512), None);
    assert_eq!((attr.sched_flags, attr.sched_util_min, attr.sched_util_max), (0x21, 512, 3));
    set_uclamp(&mut attr, None, Some(1024));
    assert_eq!((attr.sched_flags, attr.sched_util_min, attr.sched_util_max), (0x61, 512, 1024));
    set_uclamp(&mut attr, None, None);
    assert_eq!((attr.sched_flags, attr.sched_util_min, attr.sched_util_max), (0x61, 512, 1024));
}

#[test]
fn a_thread_is_tuned_step_by_step() {
    let steps = apply_thread_tune(
        "a.b",
        "r",
        &EffectiveThreadTune { uclamp_min: Some(9), uclamp_max: Some(5), nice: Some(1) },
    );
    assert!(steps.clamp.is_none());
    assert_eq!(steps.nice, Some(1));
    let warning = steps.warning.unwrap();
    assert_eq!(warning.key, "uclamp-order-a.b-r");
    assert_eq!(
        warning.message,
        "a.b / r 的合并 UCLAMP min 大于 max，已跳过 UCLAMP"
    );
    let steps = apply_thread_tune(
        "a.b",
        "r",
        &EffectiveThreadTune { uclamp_min: Some(5), uclamp_max: None, nice: None },
    );
    assert_eq!(steps.clamp, Some((Some(5), None)));
    assert!(steps.warning.is_none());
    assert_eq!(steps.nice, None);
    let warning = clamp_failure("a.b", "r", "no");
    assert_eq!(warning.key, "uclamp-a.b-no");
    assert_eq!(warning.message, "a.b / r 设置 UCLAMP 失败：no");
    let warning = nice_failure("a.b", "r", -5, "no");
    assert_eq!(warning.key, "nice-a.b-no");
    assert_eq!(warning.message, "a.b / r 设置 nice=-5 失败：no");
}

#[test]
fn a_task_is_planned() {
    let config = config();
    assert_eq!(find_app(&config, "c.d"), Some(1));
    assert_eq!(find_app(&config, "x.y"), None);
    assert!(apply_task(&config, 7, 7, "x.y", "r", &Vec::new()).is_none());
    let plan = apply_task(&config, 7, 7, "a.b", "q", &vec![false, false]).unwrap();
    assert!(matches!(plan.group, GroupStep::Join(0)));
    assert!(plan.tune.is_none());
    let plan = apply_task(&config, 8, 7, "a.b", "rx", &vec![true, true]).unwrap();
    assert!(matches!(plan.group, GroupStep::Nothing));
    assert_eq!(plan.tune.unwrap().nice, Some(1));
    assert_eq!(
        reapply_thread(&config, "c.d", "q", &vec![true]).unwrap().nice,
        Some(2)
    );
    assert!(reapply_thread(&config, "x.y", "q", &Vec::new()).is_none());
}

#[test]
fn a_lost_group_is_reported() {
    let mut config = config();
    config.memory_groups.clear();
    let plan = apply_task(&config, 7, 7, "a.b", "q", &vec![false, false]).unwrap();
    match plan.group {
        GroupStep::Missing(w) => {
            assert_eq!(w.key, "missing-group-g");
            assert_eq!(w.message, "应用 a.b 引用了不存在的内存组 g");
        }
        _ => panic!("the group is there"),
    }
}
