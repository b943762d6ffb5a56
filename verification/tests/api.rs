use appoptr::api::{
    clone_reply, clone_request, config_set_api, delete_request, pkg_shape_ok, rename_request,
    rule_api, rule_clone_api, rule_del_api, rule_rename_api, rule_request, saved_reply, suggest_api,
    suggestions_reply, token_ok, tuning_set_api, written_reply, CloneRequest, DeleteRequest,
    EditStep, RenameRequest, RuleRequest,
};
use appoptr::web::Reply;

fn says(reply: &Reply, code: u16, err: &str) {
    assert_eq!(reply.code, code);
    assert_eq!(reply.body, format!("{{\"err\":\"{}\",\"ok\":false}}", err));
}

fn answered(step: EditStep, code: u16, err: &str) {
    match step {
        EditStep::Answer(reply) => says(&reply, code, err),
        _ => panic!("not answered"),
    }
}

fn written(step: EditStep, text: &str) {
    match step {
        EditStep::Write(t) => assert_eq!(t, text),
        _ => panic!("not written"),
    }
}

fn file(text: &str) -> Option<String> {
    Some(text.to_string())
}

const BROKEN: &str = "请求体不是合法 JSON";
const UNCLOSED: &str = "配置文件存在未闭合块，请修复后重试";

#[test]
fn names_are_checked() {
    assert!(token_ok(" a b ", 4));
    assert!(!token_ok("abc", 3));
    assert!(!token_ok("a#b", 9));
    assert!(pkg_shape_ok("a{b"));
    assert!(!pkg_shape_ok("a{b}"));
    assert!(pkg_shape_ok("a}"));
}

#[test]
fn rule_requests_are_read() {
    let q = rule_request(br#"{"pkg": " a.b ", "thread": "r", "cpus": "0-3"}"#, true).ok().unwrap();
    assert_eq!((q.pkg.as_str(), q.thread.as_str(), q.cpus.as_str()), ("a.b", "r", "0-3"));
    let q = rule_request(br#"{"pkg": "a.b", "cpus": "0-3"}"#, true).ok().unwrap();
    assert_eq!(q.thread, "");
    let err = |body: &[u8], ready: bool| rule_request(body, ready).err().unwrap();
    says(&err(b"{", true), 400, BROKEN);
    says(&err(br#"{"pkg": "a.b"}"#, true), 400, "缺少 pkg 或 cpus 字段");
    says(&err(br#"{"pkg": "a.b", "cpus": "1"}"#, false), 500, "配置未就绪");
    says(&err(br##"{"pkg": "a#b", "cpus": "1"}"##, true), 400, "名称含有非法字符");
    says(
        &err(br#"{"pkg": "a{b}", "cpus": "1"}"#, true),
        400,
        "包名含 { 且以 } 结尾时不支持包级规则，可改用线程规则",
    );
    says(&err(br#"{"pkg": "a.b", "cpus": "?"}"#, true), 400, "无效的 CPU 规格");
    says(&err(br#"{"pkg": "a.b", "cpus": " "}"#, true), 400, "无效的 CPU 规格");
}

#[test]
fn rules_are_set() {
    let q = |thread: &str| RuleRequest {
        pkg: "a.b".to_string(),
        thread: thread.to_string(),
        cpus: "0-3".to_string(),
    };
    written(rule_api(&q(""), true, &file("c.d=1\n")), "c.d=1\na.b=0-3\n");
    written(rule_api(&q("r"), true, &None), "a.b {\n\tr=0-3\n}\n");
    answered(rule_api(&q(""), false, &file("")), 400, "无效的 CPU 规格");
    answered(rule_api(&q(""), true, &file("c.d {\n")), 409, UNCLOSED);
    assert_eq!(written_reply(true).body, r#"{"ok":true}"#);
    says(&written_reply(false), 500, "配置文件写入失败");
}

#[test]
fn rules_are_deleted() {
    let q = delete_request(br#"{"pkg": "a.b", "all": true}"#).ok().unwrap();
    assert!(q.all && q.thread.is_empty());
    says(&delete_request(b"").err().unwrap(), 400, BROKEN);
    says(&delete_request(b"{}").err().unwrap(), 400, "缺少 pkg 字段");
    let q = |thread: &str, all: bool| DeleteRequest {
        pkg: "a.b".to_string(),
        thread: thread.to_string(),
        all,
    };
    let text = file("a.b=1 {\n\tr=2\n}\nc.d=3\n");
    written(rule_del_api(&q("", true), &text), "c.d=3\n");
    written(rule_del_api(&q("", false), &text), "a.b {\n\tr=2\n}\nc.d=3\n");
    written(rule_del_api(&q("r", false), &text), "a.b=1 {\n}\nc.d=3\n");
    answered(rule_del_api(&q("x", false), &text), 404, "规则不存在");
    answered(rule_del_api(&q("", true), &None), 404, "规则不存在");
}

#[test]
fn packages_are_renamed() {
    let err = |body: &[u8]| rename_request(body).err().unwrap();
    says(&err(b""), 400, BROKEN);
    says(&err(br#"{"old": "a.b"}"#), 400, "缺少 old 或 new 字段");
    says(&err(br#"{"old": "a.b", "new": ""}"#), 400, "名称含有非法字符");
    says(
        &err(br#"{"old": "a.b", "new": "c{d}"}"#),
        400,
        "包名含 { 且以 } 结尾时不可作为重命名目标",
    );
    assert_eq!(err(br#"{"old": "a.b", "new": "a.b"}"#).body, r#"{"ok":true}"#);
    let q = rename_request(br#"{"old": "a.b ", "new": "c.d"}"#).ok().unwrap();
    assert_eq!((q.from.as_str(), q.to.as_str()), ("a.b", "c.d"));
    written(rule_rename_api(&q, &file("a.b=1\n")), "c.d=1\n");
    answered(rule_rename_api(&q, &file("x.y=1\n")), 404, "原包名不存在");
    answered(rule_rename_api(&q, &file("a.b=1\nc.d=2\n")), 409, "目标包名已存在规则");
    let q = RenameRequest {
        from: "n".to_string(),
        to: "n/".to_string(),
    };
    assert!(matches!(rule_rename_api(&q, &file("n//c\n{\n}\n")), EditStep::Endless));
}

#[test]
fn clone_requests_are_read() {
    let err = |body: &[u8]| clone_request(body).err().unwrap();
    says(&err(b""), 400, BROKEN);
    says(&err(b"{}"), 400, "缺少 source 或 target 包名");
    says(
        &err(br#"{"source": "a.b", "target": "c.d"}"#),
        400,
        "请至少选择一类要克隆的规则",
    );
    says(
        &err(br#"{"source": "a.b", "target": "a.b", "cpu_package": true}"#),
        400,
        "源包名与目标包名不能相同",
    );
    says(
        &err(br#"{"source": "a.b", "target": "c/d", "cpu_package": true}"#),
        400,
        "包名含有非法字符",
    );
    let q = clone_request(br#"{"source": "a.b", "target": "c.d", "tuning_threads": true}"#)
        .ok()
        .unwrap();
    assert!(q.tuning_threads && !q.tuning_memory && !q.cpu_package && !q.cpu_threads);
}

#[test]
fn packages_are_cloned() {
    let q = |cpu: bool, tuning: bool| CloneRequest {
        source: "a.b".to_string(),
        target: "c.d".to_string(),
        cpu_package: cpu,
        cpu_threads: false,
        tuning_memory: tuning,
        tuning_threads: false,
    };
    written(rule_clone_api(&q(true, false), &file("a.b=1\n"), &None), "a.b=1\n\nc.d=1\n");
    answered(
        rule_clone_api(&q(true, false), &file(""), &None),
        404,
        "来源应用没有所选 CPU 规则",
    );
    answered(
        rule_clone_api(&q(true, false), &file("a.b=1\nc.d=1\n"), &None),
        409,
        "目标应用已有 CPU 规则，不能覆盖克隆",
    );
    answered(rule_clone_api(&q(true, false), &file("a.b=1 {\n"), &None), 409, UNCLOSED);
    assert!(matches!(
        rule_clone_api(&q(false, true), &file(""), &None),
        EditStep::Skip
    ));
    answered(
        rule_clone_api(&q(true, true), &file("a.b=1\n"), &file("目标应用已有调优")),
        409,
        "目标应用已有调优",
    );
    answered(
        rule_clone_api(&q(false, true), &file(""), &file("没有调优")),
        404,
        "没有调优",
    );
    assert_eq!(clone_reply(true, &None).code, 200);
    says(&clone_reply(false, &None), 500, "写入 CPU 规则文件失败");
    says(&clone_reply(true, &file("full")), 500, "写入调优规则失败: full");
}

#[test]
fn tuning_is_set() {
    says(&tuning_set_api(b"x").err().unwrap(), 400, BROKEN);
    says(&tuning_set_api(b"[]").err().unwrap(), 400, "调优配置必须是 JSON 对象");
    assert!(tuning_set_api(b"{}").ok().unwrap().apps.is_empty());
    assert_eq!(saved_reply(&Ok(())).body, r#"{"ok":true}"#);
    says(&saved_reply(&Err("full".to_string())), 500, "full");
}

#[test]
fn settings_are_changed() {
    let err = |body: &[u8]| config_set_api(body).err().unwrap();
    says(&err(b"x"), 400, BROKEN);
    says(&err(br#"{"mode": 3}"#), 400, "无效的工作模式");
    says(&err(br#"{"interval": 0}"#), 400, "间隔需在 1-3600 秒之间");
    says(&err(br#"{"interval": 3601}"#), 400, "间隔需在 1-3600 秒之间");
    says(&err(br#"{"cpuset_name": "a/b"}"#), 400, "无效的 cpuset 目录名");
    says(&err(br#"{"config_file": ""}"#), 400, "无效的配置文件路径");
    let change = config_set_api(br#"{"mode": 2, "interval": 3600}"#).ok().unwrap();
    assert_eq!((change.mode, change.interval), (Some(2), Some(3600)));
    assert!(!change.retries() && !change.reloads());
    let change = config_set_api(br#"{"mode": 1, "config_file": "/x"}"#).ok().unwrap();
    assert!(change.retries() && change.reloads());
    assert_eq!(change.config_file.as_deref(), Some("/x"));
    let change = config_set_api(br#"{"cpuset_name": "mine"}"#).ok().unwrap();
    assert!(!change.retries() && change.reloads());
    let change = config_set_api(b"7").ok().unwrap();
    assert!(!change.reloads() && change.mode.is_none());
}

#[test]
fn suggestions_are_asked_for() {
    says(&suggest_api(b"x").err().unwrap(), 400, BROKEN);
    let long = format!("{{\"q\": \"{}\"}}", "x".repeat(65));
    says(&suggest_api(long.as_bytes()).err().unwrap(), 400, "q 过长");
    says(
        &suggest_api(br##"{"pkg": "a#b"}"##).err().unwrap(),
        400,
        "名称含有非法字符",
    );
    let q = suggest_api(br#"{"q": " Re ", "pkg": " "}"#).ok().unwrap();
    assert_eq!(q.q, "Re");
    assert_eq!(q.pkg, None);
    let q = suggest_api(br#"{"pkg": "a.b"}"#).ok().unwrap();
    assert_eq!(q.pkg.as_deref(), Some("a.b"));
    let reply = suggestions_reply(&vec![("r".to_string(), 2), ("q".to_string(), 1)]);
    assert_eq!(reply.code, 200);
    assert_eq!(reply.body, r#"{"list":["r","q"],"ok":true}"#);
}
