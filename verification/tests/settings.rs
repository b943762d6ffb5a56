use appoptr::json::Json;
use appoptr::settings::{
    base_of, settings_file, settings_load, settings_save, valid_name, valid_path, Settings,
};
use appoptr::tuning::FileRead;

#[test]
fn names_and_paths_are_valid() {
    assert!(valid_name("AppOpt"));
    assert!(!valid_name(""));
    assert!(!valid_name("a/b"));
    assert!(!valid_name("a b"));
    assert!(!valid_name(&"x".repeat(64)));
    assert!(valid_name(&"x".repeat(63)));
    assert!(valid_path("/data/a b"));
    assert!(!valid_path("a\u{7f}"));
    assert!(!valid_path(""));
    assert!(!valid_path(&"x".repeat(256)));
}

#[test]
fn settings_start_out_plain() {
    let d = Settings::initial(&Some("/d".to_string()));
    assert!(!d.web_enable);
    assert_eq!((d.mode, d.check_interval), (0, 2));
    assert_eq!(d.cpuset_name, "AppOpt");
    assert_eq!(d.config_file, "/d/applist.conf");
    assert_eq!(settings_file(&None), "./AppOpt.json");
    let copy = d.clone();
    assert_eq!((copy.cpuset_name, copy.check_interval), (d.cpuset_name, d.check_interval));
}

#[test]
fn settings_are_read_field_by_field() {
    let d = Settings::initial(&None);
    let v = Json::parse(
        r#"{"web_enable": true, "mode": 9, "check_interval": 0, "cpuset_name": "a/b",
            "config_file": "/x"}"#,
    )
    .unwrap();
    let s = Settings::from_json(&v, &d);
    assert!(s.web_enable);
    assert_eq!((s.mode, s.check_interval), (2, 1));
    assert_eq!(s.cpuset_name, "AppOpt");
    assert_eq!(s.config_file, "/x");
    let s = Settings::from_json(&Json::parse(r#"{"check_interval": 9999, "mode": 1}"#).unwrap(), &d);
    assert_eq!((s.mode, s.check_interval), (1, 3600));
    let s = Settings::from_json(&Json::parse("7").unwrap(), &d);
    assert_eq!((s.mode, s.check_interval), (0, 2));
    assert_eq!(s.config_file, "./applist.conf");
}

#[test]
fn settings_are_written_and_read_back() {
    let s = settings_save(true, 1, 0, "/dev/cpuset/mine", "/x/y.conf");
    assert_eq!(
        s.save(),
        "{\n  \"check_interval\": 1,\n  \"config_file\": \"/x/y.conf\",\n  \"cpuset_name\": \
         \"mine\",\n  \"mode\": 1,\n  \"web_enable\": true\n}\n"
    );
    let back = settings_load(
        "s.json",
        FileRead::Text(s.save()),
        Settings::initial(&None),
    );
    assert!(back.create.is_none() && back.warning.is_none());
    assert_eq!(back.settings.save(), s.save());
}

#[test]
fn settings_fall_back() {
    let d = || Settings::initial(&None);
    let missing = settings_load("s.json", FileRead::Missing, d());
    assert_eq!(missing.create, Some(d().save()));
    assert!(missing.warning.is_none());
    let broken = settings_load("s.json", FileRead::Text("{".to_string()), d());
    assert!(broken.create.is_none());
    assert_eq!(
        broken.warning.as_deref(),
        Some("警告: s.json 已损坏(EOF while parsing an object at line 1 column 1)，使用默认设置")
    );
    assert_eq!(broken.settings.save(), d().save());
    let failed = settings_load("s.json", FileRead::Failed("denied".to_string()), d());
    assert_eq!(
        failed.warning.as_deref(),
        Some("警告: 读取 s.json 失败(denied)，使用默认设置")
    );
}

#[test]
fn the_base_of_a_path_is_its_last_part() {
    assert_eq!(base_of("/dev/cpuset/AppOpt"), "AppOpt");
    assert_eq!(base_of("AppOpt"), "AppOpt");
    assert_eq!(base_of("a/"), "");
}
