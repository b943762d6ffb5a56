use appoptr::json::Json;
use appoptr::tuning::{
    app_count, app_package_names, cgroup_capabilities, cgroup_template_ok, config_from_text,
    config_from_value, config_text, config_value, group_name_ok, join_path, load_created, load_file,
    package_name_ok, plain_token_ok, replace_and_save, state_file, thread_pattern_ok,
    thread_rule_count, thread_rule_packages, tuning_file, web_value, write_failure, AppTuneRule,
    FileRead, LoadStep, MemoryGroup, ThreadTuneRule, Tuning, TuningConfig, Warning,
};
use appoptr::tuning_clone::clone_app;

#[test]
fn parses_structured_tuning_and_normalizes_memory_units() {
    let value = Json::parse(
        r#"{
            "memory_groups": [{
                "name": "game",
                "path": "mimd/uid_{uid}",
                "swappiness": 10,
                "memory_low": "512M",
                "memory_max": "2G"
            }],
            "apps": [{
                "pkg": "com.example.game",
                "memory_group": "game",
                "threads": [{
                    "pattern": "RenderThread",
                    "uclamp_min": 512,
                    "uclamp_max": 1024,
                    "nice": -10
                }]
            }]
        }"#,
    )
    .unwrap();
    let config = config_from_value(&value).ok().unwrap();
    assert_eq!(
        config.memory_groups[0].memory_low.as_deref(),
        Some("536870912")
    );
    assert_eq!(
        config.memory_groups[0].memory_max.as_deref(),
        Some("2147483648")
    );
    assert_eq!(config.apps.len(), 1);
}

#[test]
fn rejects_unsafe_cgroup_and_invalid_uclamp() {
    assert!(!cgroup_template_ok("../../data/local/tmp"));
    assert!(!cgroup_template_ok("/data/local/tmp/group"));
    let value = Json::parse(
        r#"{
            "apps": [{
                "pkg": "com.example.game",
                "threads": [{"pattern": "RenderThread", "uclamp_min": 900, "uclamp_max": 100}]
            }]
        }"#,
    )
    .unwrap();
    assert!(config_from_value(&value).is_err());
}

fn config_error(text: &str) -> String {
    config_from_text(text).err().unwrap()
}

fn group_error(fields: &str) -> String {
    config_error(&format!("{{\"memory_groups\": [{}]}}", fields))
}

fn thread_error(fields: &str) -> String {
    config_error(&format!(
        "{{\"apps\": [{{\"pkg\": \"a.b\", \"threads\": [{}]}}]}}",
        fields
    ))
}

fn app_error(fields: &str) -> String {
    config_error(&format!("{{\"apps\": [{}]}}", fields))
}

#[test]
fn names_and_patterns_are_checked() {
    assert!(plain_token_ok(" a b ", 4));
    assert!(!plain_token_ok("abc", 3));
    assert!(!plain_token_ok("a#", 9));
    assert!(!plain_token_ok("a//b", 9));
    assert!(!plain_token_ok("a\u{1}", 9));
    assert!(!plain_token_ok("  ", 9));
    assert!(package_name_ok("com.example.game"));
    assert!(!package_name_ok("a/b"));
    assert!(!package_name_ok("a{b"));
    assert!(!package_name_ok("a\\b"));
    assert!(group_name_ok("top-app_1.x"));
    assert!(!group_name_ok("top app"));
    assert!(thread_pattern_ok("Render*"));
    assert!(thread_pattern_ok("123456789012345"));
    assert!(!thread_pattern_ok("1234567890123456"));
}

#[test]
fn cgroup_templates_are_checked() {
    assert!(cgroup_template_ok("mimd/uid_{uid}/pid_{pid}/{pkg}"));
    assert!(cgroup_template_ok("/dev/memcg/apps"));
    assert!(cgroup_template_ok("/sys/fs/cgroup/apps//x"));
    assert!(!cgroup_template_ok("/sys/fs/cgroup"));
    assert!(!cgroup_template_ok("/dev/memcgx/a"));
    assert!(!cgroup_template_ok("a/{name}"));
    assert!(!cgroup_template_ok("a\\b"));
    assert!(!cgroup_template_ok("a/./b"));
    assert!(!cgroup_template_ok(""));
}

#[test]
fn memory_limits_become_bytes() {
    let limit = |text: &str| {
        let doc = format!(
            "{{\"memory_groups\": [{{\"name\": \"g\", \"path\": \"p\", \"memory_max\": \"{}\"}}]}}",
            text
        );
        config_from_text(&doc).map(|c| c.memory_groups[0].memory_max.clone())
    };
    assert_eq!(limit("1k").ok().unwrap().as_deref(), Some("1024"));
    assert_eq!(limit("3KiB").ok().unwrap().as_deref(), Some("3072"));
    assert_eq!(limit("2mb").ok().unwrap().as_deref(), Some("2097152"));
    assert_eq!(limit("1T").ok().unwrap().as_deref(), Some("1099511627776"));
    assert_eq!(limit("0099").ok().unwrap().as_deref(), Some("99"));
    assert_eq!(limit("MAX").ok().unwrap().as_deref(), Some("max"));
    assert_eq!(limit("").ok().unwrap(), None);
    assert_eq!(limit("m").err().unwrap(), "memory_max 应为字节数或 512M / 1G 形式");
    assert_eq!(limit("1.5g").err().unwrap(), "memory_max 应为字节数或 512M / 1G 形式");
    assert_eq!(limit("99999999999t").err().unwrap(), "memory_max 数值过大");
}

#[test]
fn wrong_groups_are_named() {
    assert_eq!(group_error("1"), "内存组必须是对象");
    assert_eq!(group_error(r#"{"name": "a b", "path": "p"}"#), "内存组 name 无效");
    assert_eq!(group_error(r#"{"name": "g", "path": ".."}"#), "内存组 g 的 path 无效");
    assert_eq!(
        group_error(r#"{"name": "g", "path": "p", "swappiness": 201}"#),
        "swappiness 超出范围"
    );
    assert_eq!(
        group_error(r#"{"name": "g", "path": "p", "swappiness": -1}"#),
        "swappiness 必须是整数"
    );
    assert_eq!(
        group_error(r#"{"name": "g", "path": "p", "memory_min": "max"}"#),
        "memory_min 不支持 max"
    );
    assert_eq!(
        group_error(r#"{"name": "g", "path": "p", "memory_low": 5}"#),
        "memory_low 必须是字符串"
    );
    assert_eq!(
        group_error(r#"{"name": "g", "path": "p", "memory_high": "1\u0001"}"#),
        "memory_high 格式无效"
    );
    assert_eq!(
        group_error(r#"{"name": "g", "path": "p", "oom_group": 1}"#),
        "内存组 g 的 oom_group 必须是布尔值"
    );
    assert_eq!(
        group_error(r#"{"name": "g", "path": "p"}, {"name": "g", "path": "q"}"#),
        "内存组 g 重复"
    );
}

#[test]
fn wrong_thread_rules_are_named() {
    assert_eq!(thread_error("1"), "线程规则必须是对象");
    assert_eq!(
        thread_error(r#"{"pattern": "1234567890123456", "nice": 1}"#),
        "线程 pattern 无效（task comm 最长通常为 15 字节）"
    );
    assert_eq!(
        thread_error(r#"{"pattern": "r"}"#),
        "线程 r 没有设置任何调优参数"
    );
    assert_eq!(
        thread_error(r#"{"pattern": "r", "uclamp_min": 2, "uclamp_max": 1}"#),
        "线程 r 的 UCLAMP min 不能大于 max"
    );
    assert_eq!(
        thread_error(r#"{"pattern": "r", "uclamp_max": 1025}"#),
        "uclamp_max 超出范围"
    );
    assert_eq!(
        thread_error(r#"{"pattern": "r", "nice": 20}"#),
        "nice 超出范围"
    );
    assert_eq!(
        thread_error(r#"{"pattern": "r", "nice": "1"}"#),
        "nice 必须是整数"
    );
}

#[test]
fn wrong_applications_are_named() {
    assert_eq!(app_error("1"), "应用调优必须是对象");
    assert_eq!(app_error(r#"{"pkg": "a/b"}"#), "应用 pkg 无效");
    assert_eq!(
        app_error(r#"{"pkg": "a.b", "memory_group": 1}"#),
        "应用 a.b 的 memory_group 无效"
    );
    assert_eq!(
        app_error(r#"{"pkg": "a.b", "threads": 1}"#),
        "应用 a.b 的 threads 必须是数组"
    );
    assert_eq!(
        app_error(r#"{"pkg": "a.b", "memory_group": " "}"#),
        "应用 a.b 至少要关联内存组或添加一条线程规则"
    );
    assert_eq!(
        app_error(r#"{"pkg": "a.b", "memory_group": "g"}"#),
        "应用 a.b 引用了不存在的内存组 g"
    );
    let twice = r#"{"pkg": "a.b", "threads": [{"pattern": "r", "nice": 1}]}"#;
    assert_eq!(app_error(&format!("{}, {}", twice, twice)), "应用 a.b 重复");
    assert_eq!(config_error("1"), "调优配置必须是 JSON 对象");
    assert_eq!(config_error(r#"{"apps": 1}"#), "apps 必须是数组");
    assert_eq!(config_error(r#"{"memory_groups": {}}"#), "memory_groups 必须是数组");
    assert_eq!(
        config_error("nope"),
        "JSON 格式错误: expected ident at line 1 column 2"
    );
}

const SAMPLE: &str = r#"{
    "memory_groups": [{"name": "g", "path": "p/{uid}", "memory_low": "1K", "oom_group": false}],
    "apps": [
        {"pkg": "a.b", "memory_group": "g"},
        {"pkg": "c.d", "threads": [{"pattern": "r*", "nice": -5}, {"pattern": "rx", "uclamp_max": 9}]}
    ]
}"#;

#[test]
fn a_configuration_is_written_and_read_back() {
    let config = config_from_text(SAMPLE).ok().unwrap();
    let text = config_text(&config).unwrap();
    assert!(text.ends_with("}\n"));
    let again = config_from_text(&text).ok().unwrap();
    assert_eq!(config_value(&again).text(), config_value(&config).text());
    assert_eq!(
        config_value(&config).text(),
        concat_text(&[
            r#"{"apps":[{"memory_group":"g","pkg":"a.b","threads":[]},"#,
            r#"{"memory_group":null,"pkg":"c.d","threads":["#,
            r#"{"nice":-5,"pattern":"r*","uclamp_max":null,"uclamp_min":null},"#,
            r#"{"nice":null,"pattern":"rx","uclamp_max":9,"uclamp_min":null}]}],"#,
            r#""memory_groups":[{"memory_high":null,"memory_low":"1024","memory_max":null,"#,
            r#""memory_min":null,"name":"g","oom_group":false,"path":"p/{uid}","#,
            r#""swappiness":null}],"version":1}"#,
        ])
    );
}

fn concat_text(parts: &[&str]) -> String {
    parts.concat()
}

#[test]
fn a_configuration_is_counted() {
    let config = config_from_text(SAMPLE).ok().unwrap();
    assert_eq!(app_count(&config), 2);
    assert_eq!(thread_rule_count(&config), 2);
    assert_eq!(app_package_names(&config), ["a.b", "c.d"]);
    assert_eq!(thread_rule_packages(&config), ["c.d"]);
}

#[test]
fn state_files_stand_in_their_directory() {
    assert_eq!(state_file("x", &None), "./x");
    assert_eq!(state_file("x", &Some("".to_string())), "./x");
    assert_eq!(state_file("x", &Some("/d\n".to_string())), "./x");
    assert_eq!(state_file("x", &Some("/d".to_string())), "/d/x");
    assert_eq!(state_file("x", &Some("/d/".to_string())), "/d/x");
    assert_eq!(tuning_file(&Some("/d".to_string())), "/d/AppOpt.tuning.json");
    assert_eq!(join_path("/a", "/b"), "/b");
}

#[test]
fn warnings_are_given_once_and_kept() {
    let mut tuning = Tuning::new();
    let warn = |key: &str, message: &str| Warning {
        key: key.to_string(),
        message: message.to_string(),
    };
    assert!(tuning.warn_once(warn("a", "first")));
    assert!(!tuning.warn_once(warn("a", "again")));
    assert_eq!(tuning.warnings, ["first"]);
    for i in 0..20 {
        assert!(tuning.warn_once(warn(&format!("k{}", i), &format!("m{}", i))));
    }
    assert_eq!(tuning.warnings.len(), 20);
    assert_eq!(tuning.warnings[0], "m0");
    tuning.replace_config(config_from_text(SAMPLE).ok().unwrap());
    assert!(tuning.warnings.is_empty());
    assert!(tuning.warn_once(warn("a", "first")));
    assert_eq!(app_count(tuning.config_snapshot()), 2);
}

#[test]
fn a_configuration_is_loaded() {
    let mut tuning = Tuning::new();
    assert!(matches!(
        load_file(&mut tuning, "t.json", FileRead::Text(SAMPLE.to_string())),
        LoadStep::Loaded(1, 2)
    ));
    assert_eq!(app_count(tuning.config_snapshot()), 2);
    assert!(matches!(
        load_file(&mut tuning, "t.json", FileRead::Text("[]".to_string())),
        LoadStep::Ignored
    ));
    assert_eq!(app_count(tuning.config_snapshot()), 0);
    assert_eq!(
        tuning.warnings,
        ["t.json 无效，已忽略：调优配置必须是 JSON 对象"]
    );
    assert!(matches!(
        load_file(&mut tuning, "t.json", FileRead::Failed("denied".to_string())),
        LoadStep::Ignored
    ));
    assert_eq!(
        tuning.warnings,
        ["读取 t.json 失败，已忽略调优规则：denied"]
    );
    match load_file(&mut tuning, "t.json", FileRead::Missing) {
        LoadStep::Create(text) => assert_eq!(
            text,
            "{\n  \"apps\": [],\n  \"memory_groups\": [],\n  \"version\": 1\n}\n"
        ),
        _ => panic!("nothing to create"),
    }
    assert!(tuning.warnings.is_empty());
    load_created(&mut tuning, Ok(()));
    assert!(tuning.warnings.is_empty());
    load_created(&mut tuning, Err(write_failure("t.json", "full")));
    assert_eq!(tuning.warnings, ["写入 t.json 失败: full"]);
}

#[test]
fn a_configuration_is_replaced_only_when_saved() {
    let mut tuning = Tuning::new();
    let config = || config_from_text(SAMPLE).ok().unwrap();
    assert_eq!(
        replace_and_save(&mut tuning, config(), Err("full".to_string())),
        Err("full".to_string())
    );
    assert_eq!(app_count(tuning.config_snapshot()), 0);
    assert_eq!(replace_and_save(&mut tuning, config(), Ok(())), Ok(()));
    assert_eq!(app_count(tuning.config_snapshot()), 2);
}

#[test]
fn the_panel_sees_what_the_device_can_do() {
    let tuning = Tuning::new();
    let roots = vec!["/dev/memcg".to_string()];
    let value = web_value(&tuning, cgroup_capabilities(&roots, false, true, true));
    assert_eq!(
        value.text(),
        concat_text(&[
            r#"{"apps":[],"capabilities":{"cgroup_v2":false,"memory_roots":["/dev/memcg"],"#,
            r#""uclamp":true,"v1_swappiness":true},"memory_groups":[],"ok":true,"version":1,"#,
            r#""warnings":[]}"#,
        ])
    );
}

const TWO_APPS: &str = r#"{
    "memory_groups": [{"name": "game", "path": "mimd/uid_{uid}", "swappiness": 10}],
    "apps": [
        {"pkg": "a.b", "memory_group": "game",
         "threads": [{"pattern": "r", "nice": -5}, {"pattern": "q*", "uclamp_min": 100}]},
        {"pkg": "c.d", "memory_group": "game", "threads": []}
    ]
}"#;

#[test]
fn tuning_is_cloned_to_another_application() {
    let config = config_from_text(TWO_APPS).unwrap();
    let both = clone_app(&config, "a.b", "x.y", true, true).unwrap();
    assert_eq!(app_package_names(&both), ["a.b", "c.d", "x.y"]);
    assert_eq!(both.apps[2].memory_group.as_deref(), Some("game"));
    assert_eq!(both.apps[2].threads.len(), 2);
    assert_eq!(both.apps[2].threads[0].pattern, "r");
    assert_eq!(both.apps[2].threads[0].nice, Some(-5));
    assert_eq!(both.apps[2].threads[1].uclamp_min, Some(100));
    assert_eq!(both.apps[0].threads.len(), 2);
    assert_eq!(both.memory_groups[0].path, "mimd/uid_{uid}");
    assert_eq!(both.memory_groups[0].swappiness, Some(10));
    let memory = clone_app(&config, "a.b", "x.y", true, false).unwrap();
    assert_eq!(memory.apps[2].memory_group.as_deref(), Some("game"));
    assert!(memory.apps[2].threads.is_empty());
    let threads = clone_app(&config, "a.b", "x.y", false, true).unwrap();
    assert_eq!(threads.apps[2].memory_group, None);
    assert_eq!(threads.apps[2].threads.len(), 2);
}

#[test]
fn tuning_that_is_not_there_is_not_cloned() {
    let config = config_from_text(TWO_APPS).unwrap();
    let refused = |source: &str, target: &str, memory: bool, threads: bool| {
        clone_app(&config, source, target, memory, threads).err().unwrap()
    };
    assert_eq!(
        refused("a.b", "c.d", true, true),
        "目标应用已有调优规则，不能覆盖克隆"
    );
    assert_eq!(refused("e.f", "x.y", true, false), "来源应用没有所选调优规则");
    assert_eq!(refused("c.d", "x.y", false, true), "来源应用没有所选调优规则");
    assert!(clone_app(&config, "c.d", "x.y", true, false).is_ok());
}

#[test]
fn thread_rules_are_counted_with_their_packages() {
    let config = config_from_text(TWO_APPS).unwrap();
    assert_eq!(thread_rule_count(&config), 2);
    assert_eq!(thread_rule_packages(&config), ["a.b"]);
    let memory = clone_app(&config, "c.d", "x.y", true, false).unwrap();
    assert_eq!(thread_rule_count(&memory), 2);
    let none = config_from_text(r#"{"memory_groups": [], "apps": []}"#).unwrap();
    assert_eq!(thread_rule_count(&none), 0);
    assert!(thread_rule_packages(&none).is_empty());
}

#[test]
fn tuning_starts_empty_and_can_be_copied() {
    let group = MemoryGroup::default();
    assert_eq!((group.name.as_str(), group.path.as_str()), ("", ""));
    assert!(group.swappiness.is_none() && group.memory_min.is_none() && group.memory_low.is_none());
    assert!(group.memory_high.is_none() && group.memory_max.is_none() && group.oom_group.is_none());
    let rule = ThreadTuneRule::default();
    assert_eq!(rule.pattern, "");
    assert_eq!((rule.uclamp_min, rule.uclamp_max, rule.nice), (None, None, None));
    let app = AppTuneRule::default();
    assert!(app.pkg.is_empty() && app.memory_group.is_none() && app.threads.is_empty());
    assert_eq!(app_count(&TuningConfig::default()), 0);
    let config = config_from_text(TWO_APPS).unwrap();
    let copy = config.clone();
    assert_eq!(config_text(&copy), config_text(&config));
}
