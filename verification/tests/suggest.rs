use appoptr::suggest::{
    installed_pkgs, rank_top, suggest_pkgs, suggest_threads, thread_comm, Counts,
};

fn texts(items: &[&str]) -> Vec<String> {
    items.iter().map(|s| s.to_string()).collect()
}

fn names(list: &[(String, usize)]) -> Vec<&str> {
    list.iter().map(|(n, _)| n.as_str()).collect()
}

#[test]
fn names_are_ranked() {
    let mut counts = Counts::new();
    counts.set("zab", 9);
    counts.set("ABc", 1);
    counts.set("abd", 1);
    counts.set("abe", 3);
    counts.set("xyz", 99);
    let top = rank_top(&counts, "ab");
    assert_eq!(names(&top), ["abe", "ABc", "abd", "zab"]);
    assert_eq!(top[0].1, 3);
}

#[test]
fn only_so_many_are_suggested() {
    let mut counts = Counts::new();
    for i in 0..30 {
        counts.set(&format!("p{:02}", i), 0);
    }
    let top = rank_top(&counts, "");
    assert_eq!(top.len(), 20);
    assert_eq!(top[19].0, "p19");
}

#[test]
fn packages_are_suggested() {
    let list = suggest_pkgs(
        &texts(&["a.b", "c.d"]),
        &texts(&["c.d"]),
        &texts(&["e.f"]),
        &texts(&["a.b", "a.b", "g.h", "plain"]),
        "",
    );
    assert_eq!(names(&list), ["c.d", "e.f", "a.b", "g.h"]);
    assert_eq!(list[0].1, 1_000_000);
    assert_eq!(list[2].1, 2);
    let list = suggest_pkgs(&texts(&["Com.A"]), &[].to_vec(), &[].to_vec(), &[].to_vec(), "COM");
    assert_eq!(names(&list), ["Com.A"]);
}

#[test]
fn threads_are_suggested() {
    let list = suggest_threads(&texts(&["r", "q", "r"]), "");
    assert_eq!(list, vec![("r".to_string(), 2), ("q".to_string(), 1)]);
    assert!(suggest_threads(&texts(&["r"]), "z").is_empty());
}

#[test]
fn installed_packages_hold_a_dot() {
    assert_eq!(
        installed_pkgs(&texts(&["a.b", ".hidden", "plain", "c.d"])),
        ["a.b", "c.d"]
    );
}

#[test]
fn thread_names_are_trimmed() {
    assert_eq!(thread_comm("Render \n").as_deref(), Some("Render"));
    assert_eq!(thread_comm("x\0\n").as_deref(), Some("x"));
    assert_eq!(thread_comm(" \n"), None);
}

#[test]
fn counting_bumps() {
    let mut counts = Counts::new();
    counts.bump("a");
    counts.bump("a");
    counts.set("b", usize::MAX);
    counts.bump("b");
    let top = rank_top(&counts, "");
    assert_eq!(top, vec![("b".to_string(), usize::MAX), ("a".to_string(), 2)]);
}
