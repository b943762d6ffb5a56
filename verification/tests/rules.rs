use appoptr::rule_edit::{
    normalize_singles, rule_clone, rule_delete, rule_delete_pkg, rule_rename, rule_upsert,
};
use appoptr::rules::read_rules;
use appoptr::text::join_lines;

fn rules(text: &str) -> Vec<String> {
    read_rules(text)
        .iter()
        .map(|r| format!("{}|{}|{}", r.pkg, r.thread, r.cpus))
        .collect()
}

const FILE: &str = "# rules\na.b=0-3 {\n\tr=4\n\tq=5 }\nc.d\n{\n\ts=6\n}\na.b{t}=7 // last\nx=?\n";

#[test]
fn rules_are_read() {
    assert_eq!(
        rules(FILE),
        ["a.b||0-3", "a.b|r|4", "a.b|q|5", "c.d|s|6", "a.b|t|7"]
    );
    assert!(rules("").is_empty());
    assert!(rules("{\n}\n").is_empty());
    assert_eq!(rules("{\nr=1\n}\n"), ["r||1"]);
    assert_eq!(rules("a.b{}=1 {\n\tr=2\n"), ["a.b|r|2"]);
    assert_eq!(rules("a=b=\n{\n\tr=2\n}\n"), ["a=b|r|2"]);
}

#[test]
fn setting_a_thread_rule_leaves_the_others() {
    let after = rule_upsert(FILE, "a.b", "r", "1").unwrap();
    assert_eq!(
        rules(&after),
        ["a.b||0-3", "a.b|r|1", "a.b|t|7", "a.b|q|5", "c.d|s|6"]
    );
    let after = rule_upsert("a.b {\n\tr=1\n}\nc.d=2\n", "a.b", "q", "5").unwrap();
    assert_eq!(rules(&after), ["a.b|r|1", "a.b|q|5", "c.d||2"]);
}

#[test]
fn setting_a_package_rule_leaves_the_others() {
    let after = rule_upsert("a.b=1\nc.d=2\na.b {\n\tr=3\n}\n", "a.b", "", "7").unwrap();
    assert_eq!(rules(&after), ["a.b||7", "c.d||2", "a.b|r|3"]);
}

#[test]
fn deleting_a_rule_leaves_the_others() {
    let after = rule_delete("a.b=1 {\n\tr=3\n\tq=4\n}\nc.d=2\n", "a.b", "r").unwrap();
    assert_eq!(rules(&after), ["a.b||1", "a.b|q|4", "c.d||2"]);
    let after = rule_delete(&after, "a.b", "").unwrap();
    assert_eq!(rules(&after), ["a.b|q|4", "c.d||2"]);
}

#[test]
fn deleting_a_package_leaves_the_other_packages() {
    let after = rule_delete_pkg(FILE, "a.b").unwrap();
    assert_eq!(rules(&after), ["c.d|s|6"]);
}

#[test]
fn renaming_keeps_the_rules() {
    let after = rule_rename("a.b=1 {\n\tr=3\n}\nc.d=2\n", "a.b", "x.y").unwrap();
    assert_eq!(rules(&after), ["x.y||1", "x.y|r|3", "c.d||2"]);
    let after = rule_rename("a.b {\n\tr=3\n}\na.b=1 # c\n", "a.b", "x=y").unwrap();
    assert_eq!(after, "x=y= {\n\tr=3\n}\nx=y=1 # c\n");
    assert_eq!(rules(&after), ["x=y|r|3", "x=y||1"]);
}

#[test]
fn cloning_adds_copies() {
    let after = rule_clone("a.b=1 {\n\tr=3\n}\n", "a.b", "c.d", true, true).unwrap();
    assert_eq!(rules(&after), ["a.b||1", "a.b|r|3", "c.d||1", "c.d|r|3"]);
}

#[test]
fn gathering_keeps_the_rules() {
    let text = "a.b{r}=1\nc.d=2\na.b{q}=3\n";
    let mut lines: Vec<Vec<char>> = text.lines().map(|l| l.chars().collect()).collect();
    normalize_singles(&mut lines, &['a', '.', 'b']);
    let mut before = rules(text);
    let mut after = rules(&join_lines(&lines));
    assert_eq!(after, ["a.b|r|1", "a.b|q|3", "c.d||2"]);
    before.sort();
    after.sort();
    assert_eq!(before, after);
}

#[test]
fn written_lines_are_read_back() {
    let lines = vec![vec!['a', '=', '1'], Vec::new(), vec!['b', '=', '2']];
    let text = join_lines(&lines);
    assert_eq!(text, "a=1\n\nb=2\n");
    assert_eq!(rules(&text), ["a||1", "b||2"]);
}
