use appoptr::cpuset::{CpuSet, CpuTopology};
use appoptr::panel::{
    config_json, rules_json, status_json, tuning_json, ConfigInfo, RuleEntry, StatusInfo, WebStats,
};
use appoptr::tuning::Tuning;

fn topology() -> CpuTopology {
    CpuTopology {
        e_core: CpuSet { bits: 0x0f },
        p_core: CpuSet { bits: 0x70 },
        hp_core: CpuSet { bits: 0x80 },
        present_cpus: CpuSet { bits: 0xff },
        present_str: "0-7".to_string(),
        mems_str: "0".to_string(),
        cpuset_enabled: true,
    }
}

fn rule(pkg: &str, thread: &str, bits: u64) -> RuleEntry {
    RuleEntry {
        pkg: pkg.to_string(),
        thread: thread.to_string(),
        cpus: CpuSet { bits },
    }
}

#[test]
fn the_status_is_stated() {
    let info = StatusInfo {
        parse_fail: 1,
        total_procs: 300,
        interval: 0,
        tuning_apps: 2,
        tuning_threads: 3,
    };
    assert_eq!(
        status_json(&WebStats::none(), &info, &None),
        [
            r#"{"all_core":"","cores":0,"cpuset_enabled":false,"e_core":"","hit_pkgs":0,"#,
            r#""hp_core":"","interval":1,"mode":"proc","p_core":"","parse_fail":1,"pkgs":0,"#,
            r#""rules":0,"threads":0,"total_procs":300,"tuning_apps":2,"tuning_threads":3,"#,
            r#""uptime":0,"version":"2.3.0"}"#,
        ]
        .concat()
    );
    let stats = WebStats {
        rules: 5,
        pkgs: 4,
        hit_pkgs: 3,
        threads: 2,
        ebpf: true,
        uptime: 60,
    };
    let text = status_json(&stats, &info, &Some(topology()));
    assert!(text.contains(r#""mode":"ebpf""#));
    assert!(text.contains(r#""e_core":"0-3""#));
    assert!(text.contains(r#""hp_core":"7""#));
    assert!(text.contains(r#""all_core":"0-7""#));
    assert!(text.contains(r#""cores":8"#));
    assert!(text.contains(r#""cpuset_enabled":true"#));
}

#[test]
fn the_rules_are_grouped() {
    assert_eq!(rules_json(&Vec::new(), &None), r#"{"rules":[]}"#);
    let rules = vec![
        rule("a.b", "", 0x0f),
        rule("c.d", "r", 0x03),
        rule("a.b", "q", 0x80),
    ];
    assert_eq!(rules_json(&rules, &None), r#"{"rules":[]}"#);
    assert_eq!(
        rules_json(&rules, &Some(topology())),
        [
            r#"{"rules":[{"items":[{"spec":"e-core","thread":""},{"spec":"hp-core","thread":"q"}],"#,
            r#""pkg":"a.b"},{"items":[{"spec":"0-1","thread":"r"}],"pkg":"c.d"}]}"#,
        ]
        .concat()
    );
}

#[test]
fn the_settings_are_stated() {
    let info = ConfigInfo {
        mode: 1,
        ebpf_active: true,
        ebpf_available: false,
        interval: 5,
        base_cpuset: "/dev/cpuset/AppOpt".to_string(),
        config_file: "./applist.conf".to_string(),
        cpuset_enabled: true,
    };
    assert_eq!(
        config_json(&info),
        [
            r#"{"config_file":"./applist.conf","cpuset_enabled":true,"cpuset_name":"AppOpt","#,
            r#""ebpf_available":false,"interval":5,"mode":1,"mode_active":"ebpf"}"#,
        ]
        .concat()
    );
}

#[test]
fn the_tuning_is_stated() {
    let text = tuning_json(&Tuning::new(), &Vec::new(), true, false, false);
    assert_eq!(
        text,
        [
            r#"{"apps":[],"capabilities":{"cgroup_v2":true,"memory_roots":[],"uclamp":false,"#,
            r#""v1_swappiness":false},"memory_groups":[],"ok":true,"version":1,"warnings":[]}"#,
        ]
        .concat()
    );
}
