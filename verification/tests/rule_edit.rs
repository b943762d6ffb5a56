use appoptr::rule_edit::{
    bare_open_line, clone_append, clone_package_spec, clone_prepare, clone_thread_spec, line_remove,
    normalize_singles, rename_settles, rule_clone, rule_clone_check, rule_delete, rule_delete_pkg,
    rule_rename, rule_upsert, spec_swap, target_scan, with_comment, CloneRules, PkgLine, RuleEdit,
    ThreadLoc,
};

fn lines(text: &str) -> Vec<Vec<char>> {
    text.lines().map(|l| l.chars().collect()).collect()
}

fn chars(s: &str) -> Vec<char> {
    s.chars().collect()
}

fn shown(lines: &[Vec<char>]) -> Vec<String> {
    lines.iter().map(|l| l.iter().collect()).collect()
}

fn ok(text: &str) -> Result<String, RuleEdit> {
    Ok(text.to_string())
}

#[test]
fn clones_selected_cpu_categories_into_one_normalized_block() {
    let text = "com.example.source=0-3\ncom.example.source {\n\tRenderThread=4-5\n\tWorker=0-1\n}\n";
    let result = rule_clone(text, "com.example.source", "com.example.target", true, true);
    assert!(result.is_ok());
    let cloned = result.unwrap();
    assert!(cloned.contains("com.example.target=0-3 {"));
    assert!(cloned.contains("\tRenderThread=4-5"));
    assert!(cloned.contains("\tWorker=0-1"));
    assert!(matches!(
        rule_clone_check(
            &cloned,
            "com.example.source",
            "com.example.target",
            true,
            false
        ),
        RuleEdit::Conflict
    ));
}

#[test]
fn clone_writes_the_whole_file() {
    let text = "a.b=0-3 {\n\tr=4\n}\n";
    assert_eq!(
        rule_clone(text, "a.b", "c.d", true, true),
        ok("a.b=0-3 {\n\tr=4\n}\n\nc.d=0-3 {\n\tr=4\n}\n")
    );
    assert_eq!(
        rule_clone(text, "a.b", "c.d", true, false),
        ok("a.b=0-3 {\n\tr=4\n}\n\nc.d=0-3\n")
    );
    assert_eq!(
        rule_clone(text, "a.b", "c.d", false, true),
        ok("a.b=0-3 {\n\tr=4\n}\n\nc.d {\n\tr=4\n}\n")
    );
    assert_eq!(
        rule_clone("a.b{r}=4\n\n", "a.b", "c.d", false, true),
        ok("a.b {\n\tr=4\n}\n\nc.d {\n\tr=4\n}\n")
    );
}

#[test]
fn clone_is_refused() {
    assert_eq!(
        rule_clone("a.b=1\n", "a.b", "c.d", false, true),
        Err(RuleEdit::NotFound)
    );
    assert_eq!(
        rule_clone("a.b {\n\tr=4\n}\n", "a.b", "c.d", true, true),
        Err(RuleEdit::NotFound)
    );
    assert_eq!(
        rule_clone("a.b=1\nc.d=2\n", "a.b", "c.d", true, false),
        Err(RuleEdit::Conflict)
    );
    assert_eq!(
        rule_clone("a.b=1\nc.d=2 {\n\tr=1\n", "a.b", "c.d", true, false),
        Err(RuleEdit::Malformed)
    );
    assert_eq!(
        rule_clone_check("a.b=1\n", "a.b", "c.d", true, false),
        RuleEdit::Done
    );
    assert_eq!(
        rule_clone_check("", "a.b", "c.d", true, false),
        RuleEdit::NotFound
    );
}

#[test]
fn upsert_sets_the_package_rule() {
    assert_eq!(rule_upsert("", "a.b", "", "0-3"), ok("a.b=0-3\n"));
    assert_eq!(
        rule_upsert("# top\na.b = 1 # mine\nc.d=2\n", "a.b", "", "0-3"),
        ok("# top\na.b = 0-3 # mine\nc.d=2\n")
    );
    assert_eq!(
        rule_upsert("a.b=1 {\n\tr=4\n}\n", "a.b", "", "0-3"),
        ok("a.b=0-3 {\n\tr=4\n}\n")
    );
    assert_eq!(
        rule_upsert("a.b { // blk\n\tr=4\n}\n", "a.b", "", "0-3"),
        ok("a.b=0-3 {// blk\n\tr=4\n}\n")
    );
    assert_eq!(
        rule_upsert("a.b\n\n{\n\tr=4\n}\n", "a.b", "", "0-3"),
        ok("a.b=0-3 {\n\n\tr=4\n}\n")
    );
    assert_eq!(
        rule_upsert("c.d {\n\tr=4\n", "a.b", "", "0-3"),
        Err(RuleEdit::Malformed)
    );
}

#[test]
fn upsert_sets_a_thread_rule() {
    assert_eq!(
        rule_upsert("", "a.b", "r", "4"),
        ok("a.b {\n\tr=4\n}\n")
    );
    assert_eq!(
        rule_upsert("a.b=1\n", "a.b", "r", "4"),
        ok("a.b=1 {\n\tr=4\n}\n")
    );
    assert_eq!(
        rule_upsert("a.b {\n\tr=1\n\tr=2\n}\n", "a.b", "r", "4"),
        ok("a.b {\n\tr=4\n}\n")
    );
    assert_eq!(
        rule_upsert("a.b {\n\tq=1\n}\n", "a.b", "r", "4"),
        ok("a.b {\n\tq=1\n\tr=4\n}\n")
    );
    assert_eq!(
        rule_upsert("a.b {\n\tr=1 }\n", "a.b", "r", "4"),
        ok("a.b {\n\tr=4 }\n")
    );
    assert_eq!(
        rule_upsert("c.d {\n\tr=4\n", "a.b", "r", "4"),
        Err(RuleEdit::Malformed)
    );
}

#[test]
fn upsert_gathers_single_rules() {
    assert_eq!(
        rule_upsert("a.b{r}=1 # one\nc.d=2\na.b{q}=3\n", "a.b", "r", "4"),
        ok("a.b {\n\tr=4# one\n\tq=3\n}\nc.d=2\n")
    );
    assert_eq!(
        rule_upsert("a.b{r}=1\na.b=7\n", "a.b", "q", "4"),
        ok("a.b=7 {\n\tr=1\n\tq=4\n}\n")
    );
    assert_eq!(
        rule_upsert("a.b{r}=1\na.b {\n\tq=2\n}\n", "a.b", "q", "4"),
        ok("a.b {\n\tq=4\n\tr=1\n}\n")
    );
}

#[test]
fn delete_removes_one_rule() {
    assert_eq!(rule_delete("a.b=1\nc.d=2\n", "a.b", ""), ok("c.d=2\n"));
    assert_eq!(
        rule_delete("a.b=1 {\n\tr=4\n}\n", "a.b", ""),
        ok("a.b {\n\tr=4\n}\n")
    );
    assert_eq!(
        rule_delete("a.b {\n\tr=4\n\tq=1\n\tr=5 } # end\n", "a.b", "r"),
        ok("a.b {\n\tq=1\n}# end\n")
    );
    assert_eq!(
        rule_delete("a.b {\n\tr=4\n}\n", "a.b", ""),
        Err(RuleEdit::NotFound)
    );
    assert_eq!(rule_delete("a.b=1\n", "a.b", "r"), Err(RuleEdit::NotFound));
}

#[test]
fn delete_removes_a_package() {
    assert_eq!(
        rule_delete_pkg(
            "a.b=1\nc.d=2\na.b {\n\tr=4\n}\na.b\n{\n\tq=1\n}\ne.f=3\na.b{s}=1\n",
            "a.b"
        ),
        ok("c.d=2\ne.f=3\n")
    );
    assert_eq!(rule_delete_pkg("c.d=2\n", "a.b"), Err(RuleEdit::NotFound));
    assert_eq!(
        rule_delete_pkg("c.d=2\na.b {\n\tr=4\n\tq=1\n", "a.b"),
        ok("c.d=2\n")
    );
}

#[test]
fn rename_moves_every_rule() {
    assert_eq!(
        rule_rename("a.b=1\nc.d=2\na.b {\n\tr=4\n}\n", "a.b", "x.y"),
        ok("x.y=1\nc.d=2\nx.y {\n\tr=4\n}\n")
    );
    assert_eq!(
        rule_rename("a.b {\n\tr=4\n}\n", "a.b", "x=y"),
        ok("x=y= {\n\tr=4\n}\n")
    );
    assert_eq!(
        rule_rename("c.d=2\n", "a.b", "x.y"),
        Err(RuleEdit::NotFound)
    );
    assert_eq!(
        rule_rename("a.b=1\nx.y=2\n", "a.b", "x.y"),
        Err(RuleEdit::Conflict)
    );
}

#[test]
fn rename_that_never_ends_is_seen() {
    assert!(rename_settles("a.b=1\n", "a.b", "x.y"));
    assert!(rename_settles("a.b=1\n", "a.b", "a.b.c"));
    assert!(!rename_settles("n//c\n{\n}\n", "n", "n/"));
    assert!(rename_settles("n=1\nn//c\n", "n", "n/"));
    assert_eq!(
        rule_rename("n=1\nn//c\nx {\n\tn//d\n}\n", "n", "n/"),
        ok("n/=1\nn//c\nx {\n\tn//d\n}\n")
    );
}

#[test]
fn scan_finds_a_package() {
    let text = lines("c.d=2\na.b=1\n# x\na.b {\n\tr=4\n\tq=1 }\na.b{s}=5\n");
    let t = target_scan(&text, &chars("a.b"));
    assert!(matches!(t.pkg_line, Some(PkgLine::Standalone(1))));
    assert_eq!(t.block_open, Some(3));
    assert_eq!(t.block_close, Some(5));
    assert!(!t.unterminated);
    assert_eq!(t.threads.len(), 3);
    assert_eq!(t.threads[1].name, chars("q"));
    assert!(t.threads[1].closed);
    assert!(t.threads[2].single);
    assert_eq!(t.singles().len(), 1);
    assert_eq!(t.of_thread(&chars("r")).len(), 1);
    assert!(t.any_line());
    assert!(!target_scan(&text, &chars("x.y")).any_line());
    assert!(matches!(
        target_scan(&lines("a.b {"), &chars("a.b")).pkg_line,
        Some(PkgLine::BareOpen(0))
    ));
    assert!(target_scan(&lines("a.b {"), &chars("c.d")).unterminated);
    assert!(matches!(
        target_scan(&lines("a.b\n{\n}"), &chars("a.b")).pkg_line,
        Some(PkgLine::BarePending(0))
    ));
    assert!(matches!(
        target_scan(&lines("a.b=1 {\n}"), &chars("a.b")).pkg_line,
        Some(PkgLine::OpenInline(0))
    ));
}

#[test]
fn single_lines_are_edited() {
    let text = |s: Vec<char>| s.into_iter().collect::<String>();
    assert_eq!(text(bare_open_line(&chars("a.b"))), "a.b {");
    assert_eq!(text(bare_open_line(&chars("a=b"))), "a=b= {");
    assert_eq!(text(with_comment(&chars("}"), &chars("x # y"))), "}# y");
    assert_eq!(text(with_comment(&chars("}"), &chars("x"))), "}");
    assert_eq!(
        text(spec_swap(&chars("a = 0-3 { # c"), &chars("7"))),
        "a = 7 { # c"
    );
    assert_eq!(text(spec_swap(&chars("no rule"), &chars("7"))), "no rule");
    assert_eq!(text(spec_swap(&chars("a=1 x }"), &chars("7"))), "a=7  }");
}

#[test]
fn lines_are_removed_and_gathered() {
    let mut text = lines("a.b{r}=1 {\n\tq=2\n}");
    let t = target_scan(&text, &chars("a.b"));
    assert!(t.threads[0].open);
    line_remove(&mut text, &chars("a.b"), &t.threads[0]);
    assert_eq!(shown(&text), ["a.b {", "\tq=2", "}"]);
    let mut text = lines("c.d=1\na.b{r}=1\na.b{q}=2");
    normalize_singles(&mut text, &chars("a.b"));
    assert_eq!(shown(&text), ["c.d=1", "a.b {", "\tr=1", "\tq=2", "}"]);
    let mut text = lines("a.b {\n\ts=1\na.b{r}=1");
    normalize_singles(&mut text, &chars("a.b"));
    assert_eq!(shown(&text), ["a.b {", "\ts=1", "a.b{r}=1"]);
}

#[test]
fn clones_are_prepared_and_appended() {
    let mut text = lines("a.b=0-3 {\n\tr=4\n}");
    let t = target_scan(&text, &chars("a.b"));
    assert_eq!(clone_package_spec(&text, &t), Some(chars("0-3")));
    assert_eq!(clone_thread_spec(&text, &t.threads[0]), Some(chars("4")));
    let rules = clone_prepare(&mut text, &chars("a.b"), &chars("c.d"), true, true);
    assert!(rules.is_ok());
    clone_append(&mut text, &chars("c.d"), rules.ok().unwrap());
    assert_eq!(
        shown(&text),
        ["a.b=0-3 {", "\tr=4", "}", "", "c.d=0-3 {", "\tr=4", "}"]
    );
    let mut text = Vec::new();
    let rules = CloneRules {
        package_cpus: None,
        threads: vec![(chars("r"), chars("1"))],
    };
    clone_append(&mut text, &chars("c=d"), rules);
    assert_eq!(shown(&text), ["c=d= {", "\tr=1", "}"]);
}

#[test]
fn other_rules_stay_where_they_are() {
    let text = "a.b=1\nc.d=2 {\n\tr=4\n}\n";
    let after = rule_upsert(text, "a.b", "q", "5").unwrap();
    assert_eq!(after, "a.b=1 {\n\tq=5\n}\nc.d=2 {\n\tr=4\n}\n");
    let back = rule_delete(&after, "a.b", "q").unwrap();
    assert_eq!(back, "a.b=1 {\n}\nc.d=2 {\n\tr=4\n}\n");
    assert_eq!(
        rule_delete_pkg(&back, "a.b").unwrap(),
        "c.d=2 {\n\tr=4\n}\n"
    );
}

#[test]
fn a_location_past_the_end_has_no_cpus() {
    let text = lines("a.b {\n\tr=4\n}");
    let at = |idx: usize, single: bool| ThreadLoc {
        name: chars("r"),
        idx,
        single,
        closed: false,
        open: false,
    };
    assert_eq!(clone_thread_spec(&text, &at(1, false)), Some(chars("4")));
    assert_eq!(clone_thread_spec(&text, &at(1, true)), None);
    assert_eq!(clone_thread_spec(&text, &at(3, false)), None);
    assert_eq!(clone_thread_spec(&Vec::new(), &at(0, true)), None);
}

#[test]
fn setting_a_rule_again_changes_nothing() {
    let files = [
        "",
        "a.b=1\n",
        "c.d=2\na.b {\n\tr=4 # x\n\tq=1\n}\n",
        "a.b{r}=1\nc.d=2\na.b{q}=3\na.b{r}=5\n",
        "a.b\n\n{\n\tr=4\n}\n",
        "a.b=1 {\n\tr=4\n\tr=5 }\na.b=2\n",
    ];
    for file in files {
        for thread in ["", "r"] {
            let once = rule_upsert(file, "a.b", thread, "0-3").unwrap();
            assert_eq!(rule_upsert(&once, "a.b", thread, "0-3"), Ok(once));
        }
    }
    assert_eq!(
        rule_upsert("a.b{r}=1\nc.d=2\na.b{q}=3\n", "a.b", "r", "0-3"),
        ok("a.b {\n\tr=0-3\n\tq=3\n}\nc.d=2\n")
    );
}

#[test]
fn deleting_again_finds_nothing() {
    let file = "a.b{r}=1\nc.d=2\na.b {\n\tq=3\n\tr=5\n}\n";
    let once = rule_delete(file, "a.b", "r").unwrap();
    assert_eq!(once, "c.d=2\na.b {\n\tq=3\n}\n");
    assert_eq!(rule_delete(&once, "a.b", "r"), Err(RuleEdit::NotFound));
    assert_eq!(rule_delete(file, "a.b", "s"), Err(RuleEdit::NotFound));
    let gone = rule_delete_pkg(file, "a.b").unwrap();
    assert_eq!(gone, "c.d=2\n");
    assert_eq!(rule_delete_pkg(&gone, "a.b"), Err(RuleEdit::NotFound));
    let empty = rule_delete_pkg("a.b=1\n", "a.b").unwrap();
    assert_eq!(empty, "\n");
    assert_eq!(rule_delete_pkg(&empty, "a.b"), Err(RuleEdit::NotFound));
}

#[test]
fn a_deleted_package_leaves_the_other_lines_in_order() {
    let file = "# first\ne.f=3 # x\na.b=1\n\nc.d {\n\tr=2\n}\na.b{q}=4\n# last\n";
    assert_eq!(
        rule_delete_pkg(file, "a.b"),
        ok("# first\ne.f=3 # x\n\nc.d {\n\tr=2\n}\n# last\n")
    );
}

#[test]
fn a_block_for_a_nameless_thread_hides_its_package() {
    // the rule moves into a block that no line of the package opens
    let file = "a.b{}=0 {\n}\na.b{r}=1\n";
    let t = target_scan(&lines(file), &chars("a.b"));
    assert!(t.pkg_line.is_none() && t.threads.len() == 1);
    assert_eq!(rule_delete_pkg(file, "a.b"), Err(RuleEdit::NotFound));
}

#[test]
fn gathering_again_changes_nothing() {
    let mut once = lines("a.b=1\nc.d=2\na.b{r}=1\na.b{q}=2 # x");
    normalize_singles(&mut once, &chars("a.b"));
    assert_eq!(shown(&once), ["a.b=1 {", "\tr=1", "\tq=2# x", "}", "c.d=2"]);
    assert!(target_scan(&once, &chars("a.b")).threads.iter().all(|t| !t.single));
    let mut twice = once.clone();
    normalize_singles(&mut twice, &chars("a.b"));
    assert_eq!(twice, once);
    // a comment takes the brace in
    let mut once = lines("a.b=1 # x\na.b{r}=1");
    normalize_singles(&mut once, &chars("a.b"));
    assert_eq!(shown(&once), ["a.b=1 # x {", "\tr=1", "}"]);
    let mut twice = once.clone();
    normalize_singles(&mut twice, &chars("a.b"));
    assert_eq!(twice, once);
}

#[test]
fn only_the_value_of_a_line_is_swapped() {
    let raw = chars("\tr = 0-3 } # c=1");
    let once = spec_swap(&raw, &chars("7"));
    assert_eq!(once, chars("\tr = 7 } # c=1"));
    assert_eq!(spec_swap(&once, &chars("4-5")), spec_swap(&raw, &chars("4-5")));
    assert_eq!(spec_swap(&once, &chars("0-3")), raw);
    assert_eq!(spec_swap(&raw, &chars("0-3")), raw);
    // text behind the value does not survive
    let odd = chars("a=1 x }");
    assert_eq!(spec_swap(&odd, &chars("1")), chars("a=1  }"));
    assert_eq!(
        spec_swap(&spec_swap(&odd, &chars("7")), &chars("2")),
        spec_swap(&odd, &chars("2"))
    );
}

#[test]
fn a_brace_behind_a_bare_name_brings_a_rule_back() {
    // without the rule the `{` belongs to `x.y`, and the block of `c.d` ends at once
    let mut text = lines("a.b {\n}\nx.y\na.b{r}=1\n{\nc.d { # }\na.b{q}=2\n}");
    assert_eq!(target_scan(&text, &chars("a.b")).threads.len(), 1);
    normalize_singles(&mut text, &chars("a.b"));
    let t = target_scan(&text, &chars("a.b"));
    assert_eq!(t.threads.iter().filter(|l| l.single).count(), 1);
}

#[test]
fn an_open_block_keeps_a_rule_from_settling() {
    let once = rule_upsert("a.b=1\na.b{r}=2 {\n", "a.b", "s", "3").unwrap();
    assert_eq!(once, "a.b=1 {\n\ts=3\n}\na.b{r}=2 {\n");
    assert_eq!(
        rule_upsert(&once, "a.b", "s", "3"),
        ok("a.b=1 {\n\ts=3\n\tr=2\n}\na.b {\n")
    );
}

#[test]
fn renaming_answers_for_the_file_as_it_was() {
    let file = "a.b{r}=1\nx.y{s}=2\n";
    assert_eq!(rule_rename(file, "e.f", "g.h"), Err(RuleEdit::NotFound));
    assert_eq!(rule_rename(file, "a.b", "x.y"), Err(RuleEdit::Conflict));
    assert_eq!(
        rule_rename(file, "a.b", "g.h"),
        ok("g.h {\n\tr=1\n}\nx.y{s}=2\n")
    );
}

#[test]
fn a_carriage_return_inside_a_line_stays() {
    let file = "# a\rb\na.b=1 \r{\r\n\tr=4\r # x\r.\r\n}\n";
    let once = rule_upsert(file, "a.b", "r", "7").unwrap();
    assert_eq!(once, "# a\rb\na.b=1 \r{\n\tr=7\r # x\r.\n}\n");
    assert_eq!(rule_upsert(&once, "a.b", "r", "7"), Ok(once.clone()));
    let whole = rule_upsert(file, "a.b", "", "7").unwrap();
    assert_eq!(whole, "# a\rb\na.b=7 \r{\n\tr=4\r # x\r.\n}\n");
    assert_eq!(rule_upsert(&whole, "a.b", "", "7"), Ok(whole));
    assert_eq!(rule_delete_pkg(&once, "a.b"), ok("# a\rb\n"));
}

#[test]
fn a_name_may_stand_before_its_brace() {
    let file = "a.b{s}=1\na.b\n# note\n{\n\tr=4\n}\nc.d\n{\n\tq=2\n}\n";
    let once = rule_upsert(file, "a.b", "r", "7").unwrap();
    assert_eq!(once, "a.b\n# note\n{\n\tr=7\n\ts=1\n}\nc.d\n{\n\tq=2\n}\n");
    assert_eq!(rule_upsert(&once, "a.b", "r", "7"), Ok(once.clone()));
    let less = rule_delete(&once, "a.b", "s").unwrap();
    assert_eq!(less, "a.b\n# note\n{\n\tr=7\n}\nc.d\n{\n\tq=2\n}\n");
    assert_eq!(rule_delete(&less, "a.b", "s"), Err(RuleEdit::NotFound));
    assert_eq!(
        rule_delete_pkg(file, "a.b"),
        ok("# note\nc.d\n{\n\tq=2\n}\n")
    );
}

#[test]
fn a_second_block_goes_with_its_package() {
    let file = "a.b {\n\tr=1\n}\nc.d=2\na.b\n{\n\tq=4\n}\na.b=3 # x\na.b{s}=5\ne.f=6\na.b {\n\tt=7\n";
    let gone = rule_delete_pkg(file, "a.b").unwrap();
    assert_eq!(gone, "c.d=2\ne.f=6\n");
    assert_eq!(rule_delete_pkg(&gone, "a.b"), Err(RuleEdit::NotFound));
    // a bare name behind a rule of the package loses its block and says nothing any more
    let file = "a.b=3\na.b\n{\n\tq=4\n}\ne.f=6\n";
    let gone = rule_delete_pkg(file, "a.b").unwrap();
    assert_eq!(gone, "a.b\ne.f=6\n");
    assert_eq!(rule_delete_pkg(&gone, "a.b"), Err(RuleEdit::NotFound));
}

#[test]
fn a_stray_brace_takes_other_lines_along() {
    // once the rule is moved, the `{` belongs to the bare name before it
    assert_eq!(
        rule_delete_pkg("a.b\na.b{r}=1\n{\nc.d=1\n}\n", "a.b"),
        ok("\n")
    );
}

#[test]
fn a_renamed_package_is_found() {
    let file = "a.b=1\nc.d=2\na.b {\n\tr=4\n}\n";
    let after = rule_rename(file, "a.b", "x.y").unwrap();
    let t = target_scan(&lines(&after), &chars("x.y"));
    assert!(t.pkg_line.is_some());
    assert_eq!(t.threads.len(), 1);
    assert!(target_scan(&lines(&after), &chars("a.b")).pkg_line.is_none());
}
