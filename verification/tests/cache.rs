use std::cell::RefCell;

use appoptr::cache::{thread_name, Affinity, ProcCache};
use appoptr::cpuset::CpuSet;
use appoptr::panel::cache_stats;

fn affinity(bits: u64, dir: &str, is_thread_rule: bool) -> Option<Affinity> {
    Some(Affinity {
        cpus: CpuSet { bits },
        cpuset_dir: dir.to_string(),
        is_thread_rule,
    })
}

fn lives(_: i32, _: &CpuSet, _: &str) -> bool {
    false
}

#[test]
fn a_task_is_kept_with_its_affinity() {
    let mut cache = ProcCache::new();
    let calls = RefCell::new(Vec::new());
    assert!(cache.task_apply(8, 7, "a.b", "r", affinity(3, "/d", true), false, |t, c, d| {
        calls.borrow_mut().push((t, c.bits, d.to_string()));
        false
    }));
    assert_eq!(*calls.borrow(), [(8, 3, "/d".to_string())]);
    let e = &cache.tasks[&8];
    assert_eq!((e.pid, e.pkg.as_str(), e.comm.as_str()), (7, "a.b", "r"));
    assert_eq!(e.cpus, Some(CpuSet { bits: 3 }));
    assert_eq!(e.cpuset_dir, "/d");
    assert!(e.is_thread_rule);
}

#[test]
fn a_thread_rule_is_not_replaced_by_a_package_rule() {
    let mut cache = ProcCache::new();
    cache.task_apply(8, 7, "a.b", "r", affinity(3, "/d", true), false, lives);
    assert!(!cache.affinity_due(8, &affinity(12, "/e", false)));
    assert!(cache.task_apply(8, 7, "a.b", "s", affinity(12, "/e", false), true, |_, _, _| {
        panic!("must not be set")
    }));
    let e = &cache.tasks[&8];
    assert_eq!(e.cpus, Some(CpuSet { bits: 3 }));
    assert_eq!(e.cpuset_dir, "/d");
    assert_eq!(e.comm, "s");
    assert!(cache.task_apply(8, 7, "a.b", "s", affinity(12, "/e", true), false, lives));
    assert_eq!(cache.tasks[&8].cpus, Some(CpuSet { bits: 12 }));
}

#[test]
fn a_tuned_task_is_kept_without_affinity() {
    let mut cache = ProcCache::new();
    assert!(!cache.task_apply(8, 7, "a.b", "r", None, false, lives));
    assert!(cache.tasks.is_empty());
    assert!(cache.task_apply(8, 7, "a.b", "r", None, true, lives));
    let e = &cache.tasks[&8];
    assert_eq!(e.cpus, None);
    assert_eq!(e.cpuset_dir, "");
    assert!(!e.is_thread_rule);
}

#[test]
fn a_dead_task_is_forgotten() {
    let mut cache = ProcCache::new();
    cache.task_apply(8, 7, "a.b", "r", affinity(3, "/d", false), false, lives);
    assert!(!cache.task_apply(8, 7, "a.b", "r", affinity(3, "/d", false), true, |_, _, _| true));
    assert!(cache.tasks.is_empty());
    cache.task_record(9, 7, "a.b", "r", affinity(3, "/d", false), false, false);
    cache.task_record(10, 7, "c.d", "r", None, true, false);
    assert_eq!(cache_stats(&cache), (2, 2));
    cache.task_del(9);
    assert_eq!(cache_stats(&cache), (1, 1));
    cache.clear();
    assert_eq!(cache_stats(&cache), (0, 0));
}

#[test]
fn a_package_is_looked_up() {
    let mut cache = ProcCache::new();
    cache.task_apply(7, 7, "a.b", "r", None, true, lives);
    assert_eq!(cache.pkg_lookup_comm(7, None).as_deref(), Some("a.b"));
    assert_eq!(
        cache.pkg_lookup_comm(7, Some("c.d".to_string())).as_deref(),
        Some("c.d")
    );
    assert_eq!(cache.pkg_lookup_comm(8, None), None);
    assert_eq!(thread_name("r", true), "r");
    assert_eq!(thread_name("r", false), "");
}

#[test]
fn all_tasks_are_gone_over() {
    let mut cache = ProcCache::new();
    cache.task_apply(1, 1, "a.b", "x", affinity(1, "/d", false), false, lives);
    cache.task_apply(2, 1, "a.b", "y", affinity(2, "/d", false), false, lives);
    cache.task_apply(3, 1, "a.b", "z", None, true, lives);
    cache.task_apply(4, 1, "a.b", "w", None, true, lives);
    let tuned = RefCell::new(Vec::new());
    let mut dead = cache.affinity_sync(
        |t, p, c| tuned.borrow_mut().push((t, p.to_string(), c.to_string())),
        |t, _, _| t == 2,
        |t| t != 4,
    );
    dead.sort();
    assert_eq!(dead, [2, 4]);
    let mut left: Vec<i32> = cache.tasks.keys().copied().collect();
    left.sort();
    assert_eq!(left, [1, 3]);
    assert_eq!(tuned.borrow().len(), 4);
    assert!(tuned.borrow().contains(&(3, "a.b".to_string(), "z".to_string())));
}

#[test]
fn an_affinity_is_set_only_where_it_is_due() {
    let mut cache = ProcCache::new();
    let never = |_: i32, _: &CpuSet, _: &str| -> bool { panic!("nothing is to be set") };
    // nothing matches, and a task that is only tuned
    assert!(!cache.task_apply(8, 7, "a.b", "r", None, false, never));
    assert!(cache.task_apply(8, 7, "a.b", "r", None, true, never));
    // the package's affinity does not replace that of a rule for the thread
    cache.task_apply(9, 7, "a.b", "s", affinity(3, "/d", true), false, lives);
    assert!(cache.task_apply(9, 7, "a.b", "s", affinity(5, "/e", false), false, never));
    // a rule for the thread does
    let calls = RefCell::new(Vec::new());
    cache.task_apply(9, 7, "a.b", "s", affinity(5, "/e", true), false, |t, c, d| {
        calls.borrow_mut().push((t, c.bits, d.to_string()));
        false
    });
    assert_eq!(*calls.borrow(), [(9, 5, "/e".to_string())]);
}

#[test]
fn each_task_gets_its_own_affinity_again() {
    let mut cache = ProcCache::new();
    cache.task_apply(1, 1, "a.b", "x", affinity(1, "/d", false), false, lives);
    cache.task_apply(2, 1, "a.b", "y", affinity(2, "/e", false), false, lives);
    cache.task_apply(3, 1, "a.b", "z", None, true, lives);
    cache.task_apply(4, 1, "a.b", "w", None, true, lives);
    let set = RefCell::new(Vec::new());
    let asked = RefCell::new(Vec::new());
    let dead = cache.affinity_sync(
        |_, _, _| {},
        |t, c, d| {
            set.borrow_mut().push((t, c.bits, d.to_string()));
            false
        },
        |t| {
            asked.borrow_mut().push(t);
            true
        },
    );
    assert!(dead.is_empty());
    let mut set = set.into_inner();
    set.sort();
    assert_eq!(set, [(1, 1, "/d".to_string()), (2, 2, "/e".to_string())]);
    let mut asked = asked.into_inner();
    asked.sort();
    assert_eq!(asked, [3, 4]);
}
