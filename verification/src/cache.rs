//! The tasks that were seen, with the affinity that each was given.

use std::collections::HashMap;
use crate::cpuset::CpuSet;
use vstd::prelude::*;

verus! {

/// A task that was seen.
pub struct TaskEntry {
    pub pid: i32,
    pub pkg: String,
    pub comm: String,
    /// Nothing for a task that is only tuned: its affinity is left alone.
    pub cpus: Option<CpuSet>,
    pub cpuset_dir: String,
    pub is_thread_rule: bool,
}

/// What a `TaskEntry` holds.
pub struct EntryV {
    pub pid: int,
    pub pkg: Seq<char>,
    pub comm: Seq<char>,
    pub cpus: Option<CpuSet>,
    pub cpuset_dir: Seq<char>,
    pub is_thread_rule: bool,
}

impl View for TaskEntry {
    type V = EntryV;

    open spec fn view(&self) -> EntryV {
        EntryV {
            pid: self.pid as int,
            pkg: self.pkg@,
            comm: self.comm@,
            cpus: self.cpus,
            cpuset_dir: self.cpuset_dir@,
            is_thread_rule: self.is_thread_rule,
        }
    }
}

/// The affinity that the rules give a task, and whether a rule for its thread gave it.
pub struct Affinity {
    pub cpus: CpuSet,
    pub cpuset_dir: String,
    pub is_thread_rule: bool,
}

/// What an `Affinity` holds.
pub struct AffinityV {
    pub cpus: CpuSet,
    pub cpuset_dir: Seq<char>,
    pub is_thread_rule: bool,
}

impl View for Affinity {
    type V = AffinityV;

    open spec fn view(&self) -> AffinityV {
        AffinityV {
            cpus: self.cpus,
            cpuset_dir: self.cpuset_dir@,
            is_thread_rule: self.is_thread_rule,
        }
    }
}

pub open spec fn affinity_in(a: Option<Affinity>) -> Option<AffinityV> {
    match a {
        Some(x) => Some(x@),
        None => None,
    }
}

/// The tasks that were seen, by thread number.
pub struct ProcCache {
    pub tasks: HashMap<i32, TaskEntry>,
}

impl View for ProcCache {
    type V = Map<i32, EntryV>;

    open spec fn view(&self) -> Map<i32, EntryV> {
        self.tasks@.map_values(|e: TaskEntry| e@)
    }
}

/// Whether the affinity of a task stays: the rules only give that of its package, and a rule for its
/// thread gave the one it has.
pub open spec fn stays(tasks: Map<i32, EntryV>, tid: i32, a: AffinityV) -> bool {
    !a.is_thread_rule && tasks.contains_key(tid) && tasks[tid].is_thread_rule
}

/// Whether the affinity of a task is to be set.
pub open spec fn to_set(tasks: Map<i32, EntryV>, tid: i32, a: Option<AffinityV>) -> bool {
    a matches Some(x) && !stays(tasks, tid, x)
}

/// The tasks after one was seen, and whether it is kept. `dead` says, where an affinity was to be
/// set, whether the task was gone.
pub open spec fn seen(
    tasks: Map<i32, EntryV>,
    tid: i32,
    pid: int,
    pkg: Seq<char>,
    name: Seq<char>,
    a: Option<AffinityV>,
    tuned: bool,
    dead: bool,
) -> (Map<i32, EntryV>, bool) {
    match a {
        None => if !tuned {
            (tasks, false)
        } else {
            (
                tasks.insert(
                    tid,
                    EntryV {
                        pid,
                        pkg,
                        comm: name,
                        cpus: None,
                        cpuset_dir: seq![],
                        is_thread_rule: false,
                    },
                ),
                true,
            )
        },
        Some(x) => if stays(tasks, tid, x) {
            (
                tasks.insert(
                    tid,
                    EntryV {
                        pid,
                        pkg,
                        comm: name,
                        cpus: tasks[tid].cpus,
                        cpuset_dir: tasks[tid].cpuset_dir,
                        is_thread_rule: tasks[tid].is_thread_rule,
                    },
                ),
                true,
            )
        } else if dead {
            (tasks.remove(tid), false)
        } else {
            (
                tasks.insert(
                    tid,
                    EntryV {
                        pid,
                        pkg,
                        comm: name,
                        cpus: Some(x.cpus),
                        cpuset_dir: x.cpuset_dir,
                        is_thread_rule: x.is_thread_rule,
                    },
                ),
                true,
            )
        },
    }
}

/// The name by which the rules know a thread: none, unless its package has thread rules.
pub fn thread_name<'a>(comm: &'a str, has_thread_rules: bool) -> (r: &'a str)
    ensures
        r@ == (if has_thread_rules {
            comm@
        } else {
            ""@
        }),
{
    if has_thread_rules {
        comm
    } else {
        ""
    }
}

impl ProcCache {
    pub fn new() -> (r: ProcCache)
        ensures
            r@ == Map::<i32, EntryV>::empty(),
    {
        let r = ProcCache { tasks: HashMap::new() };
        assert(r@ =~= Map::<i32, EntryV>::empty());
        r
    }

    pub fn clear(&mut self)
        ensures
            final(self)@ == Map::<i32, EntryV>::empty(),
    {
        self.tasks.clear();
        assert(self@ =~= Map::<i32, EntryV>::empty());
    }

    pub fn task_del(&mut self, tid: i32)
        ensures
            final(self)@ == old(self)@.remove(tid),
    {
        self.tasks.remove(&tid);
        assert(self@ =~= old(self)@.remove(tid));
    }

    /// The package of a task: the one that its name tells (`from_comm`), else that of its process.
    pub fn pkg_lookup_comm(&self, pid: i32, from_comm: Option<String>) -> (r: Option<String>)
        ensures
            match from_comm {
                Some(p) => r matches Some(q) && q@ == p@,
                None => match r {
                    Some(q) => self@.contains_key(pid) && self@[pid].pkg == q@,
                    None => !self@.contains_key(pid),
                },
            },
    {
        match from_comm {
            Some(p) => Some(p),
            None => match self.tasks.get(&pid) {
                Some(e) => Some(e.pkg.clone()),
                None => None,
            },
        }
    }

    /// Whether the affinity of a task is to be set.
    pub fn affinity_due(&self, tid: i32, affinity: &Option<Affinity>) -> (r: bool)
        ensures
            r == to_set(self@, tid, affinity_in(*affinity)),
    {
        match affinity {
            None => false,
            Some(a) => if a.is_thread_rule {
                true
            } else {
                match self.tasks.get(&tid) {
                    Some(e) => !e.is_thread_rule,
                    None => true,
                }
            },
        }
    }

    /// Keeps a task that was seen; `dead` says, where its affinity was to be set, whether it was
    /// gone.
    pub fn task_record(
        &mut self,
        tid: i32,
        pid: i32,
        pkg: &str,
        name: &str,
        affinity: Option<Affinity>,
        tuned: bool,
        dead: bool,
    ) -> (r: bool)
        ensures
            (final(self)@, r) == seen(
                old(self)@,
                tid,
                pid as int,
                pkg@,
                name@,
                affinity_in(affinity),
                tuned,
                dead,
            ),
    {
        let due = self.affinity_due(tid, &affinity);
        let ghost before = self@;
        let mut cpus: Option<CpuSet> = None;
        let mut cpuset_dir = String::new();
        let mut is_thread_rule = false;
        match affinity {
            None => {
                if !tuned {
                    return false;
                }
            },
            Some(a) => {
                if due {
                    if dead {
                        self.task_del(tid);
                        return false;
                    }
                    cpus = Some(a.cpus);
                    cpuset_dir = a.cpuset_dir;
                    is_thread_rule = a.is_thread_rule;
                } else if let Some(e) = self.tasks.get(&tid) {
                    cpus = e.cpus;
                    cpuset_dir = e.cpuset_dir.clone();
                    is_thread_rule = e.is_thread_rule;
                }
            },
        }
        let entry = TaskEntry {
            pid,
            pkg: pkg.to_owned(),
            comm: name.to_owned(),
            cpus,
            cpuset_dir,
            is_thread_rule,
        };
        self.tasks.insert(tid, entry);
        assert(self@ =~= before.insert(tid, entry@));
        true
    }

    /// Keeps a task that was seen, once its affinity is set where that is due: `apply_fn` sets it,
    /// and says whether the task was gone. `affinity` is what the rules give the task, and `tuned`
    /// whether its package is tuned.
    pub fn task_apply<F>(
        &mut self,
        tid: i32,
        pid: i32,
        pkg: &str,
        name: &str,
        affinity: Option<Affinity>,
        tuned: bool,
        apply_fn: F,
    ) -> (r: bool) where F: FnOnce(i32, &CpuSet, &str) -> bool
        requires
            forall|c: &CpuSet, d: &str|
                to_set(old(self)@, tid, affinity_in(affinity)) && *c == affinity->0.cpus && d@
                    == affinity->0.cpuset_dir@ ==> #[trigger] call_requires(apply_fn, (tid, c, d)),
        ensures
            exists|dead: bool|
                (final(self)@, r) == #[trigger] seen(
                    old(self)@,
                    tid,
                    pid as int,
                    pkg@,
                    name@,
                    affinity_in(affinity),
                    tuned,
                    dead,
                ) && (to_set(old(self)@, tid, affinity_in(affinity)) ==> exists|d: &str|
                    d@ == affinity->0.cpuset_dir@ && #[trigger] call_ensures(
                        apply_fn,
                        (tid, &affinity->0.cpus, d),
                        dead,
                    )),
    {
        let mut dead = false;
        if self.affinity_due(tid, &affinity) {
            if let Some(a) = &affinity {
                dead = apply_fn(tid, &a.cpus, a.cpuset_dir.as_str());
            }
        }
        self.task_record(tid, pid, pkg, name, affinity, tuned, dead)
    }
}

/// Whether a task is found gone: setting its affinity says so, or, where it has none, it no longer
/// answers.
pub open spec fn found_gone<S, P>(set: S, alive: P, tid: i32, e: TaskEntry, dead: bool) -> bool where
    S: Fn(i32, &CpuSet, &str) -> bool,
    P: Fn(i32) -> bool,
 {
    match e.cpus {
        Some(c) => exists|d: &str|
            d@ == e.cpuset_dir@ && #[trigger] call_ensures(set, (tid, &c, d), dead),
        None => call_ensures(alive, (tid,), !dead),
    }
}

/// Whether a task was tuned again under its package and its name.
pub open spec fn tuned_again<R>(reapply: R, tid: i32, e: TaskEntry) -> bool where
    R: Fn(i32, &str, &str),
 {
    exists|p: &str, c: &str|
        p@ == e.pkg@ && c@ == e.comm@ && #[trigger] call_ensures(reapply, (tid, p, c), ())
}

impl ProcCache {
    /// Goes over all tasks: `reapply` tunes each again, `set` sets its affinity and says whether it
    /// was gone, and `alive` says so of a task without an affinity. The tasks that were gone are
    /// forgotten, and handed back.
    pub fn affinity_sync<R, S, P>(&mut self, reapply: R, set: S, alive: P) -> (dead: Vec<
        i32,
    >) where
        R: Fn(i32, &str, &str),
        S: Fn(i32, &CpuSet, &str) -> bool,
        P: Fn(i32) -> bool,

        requires
            forall|t: i32, p: &str, c: &str|
                old(self).tasks@.contains_key(t) && p@ == old(self).tasks@[t].pkg@ && c@
                    == old(self).tasks@[t].comm@ ==> #[trigger] call_requires(reapply, (t, p, c)),
            forall|t: i32, c: &CpuSet, d: &str|
                old(self).tasks@.contains_key(t) && old(self).tasks@[t].cpus == Some(*c) && d@
                    == old(self).tasks@[t].cpuset_dir@ ==> #[trigger] call_requires(
                    set,
                    (t, c, d),
                ),
            forall|t: i32|
                old(self).tasks@.contains_key(t) && old(self).tasks@[t].cpus is None
                    ==> #[trigger] call_requires(alive, (t,)),
        ensures
            dead@.no_duplicates(),
            final(self)@ == old(self)@.remove_keys(dead@.to_set()),
            forall|t: i32| #[trigger] dead@.contains(t) ==> old(self)@.contains_key(t),
            forall|t: i32| #[trigger]
                old(self).tasks@.contains_key(t) ==> found_gone(
                    set,
                    alive,
                    t,
                    old(self).tasks@[t],
                    dead@.contains(t),
                ),
            forall|t: i32| #[trigger]
                old(self).tasks@.contains_key(t) ==> tuned_again(
                    reapply,
                    t,
                    old(self).tasks@[t],
                ),
    {
        let mut dead: Vec<i32> = Vec::new();
        let ghost tasks = self.tasks@;
        for (tid, e) in it: self.tasks.iter()
            invariant
                tasks == self.tasks@,
                forall|t: i32, p: &str, c: &str|
                    tasks.contains_key(t) && p@ == tasks[t].pkg@ && c@ == tasks[t].comm@
                        ==> #[trigger] call_requires(reapply, (t, p, c)),
                forall|t: i32, c: &CpuSet, d: &str|
                    tasks.contains_key(t) && tasks[t].cpus == Some(*c) && d@ == tasks[t].cpuset_dir@
                        ==> #[trigger] call_requires(set, (t, c, d)),
                forall|t: i32|
                    tasks.contains_key(t) && tasks[t].cpus is None ==> #[trigger] call_requires(
                        alive,
                        (t,),
                    ),
                it.seq().no_duplicates(),
                forall|i: int|
                    #![trigger it.seq()[i]]
                    0 <= i < it.seq().len() ==> tasks.contains_key(*it.seq()[i].0)
                        && tasks[*it.seq()[i].0] == *it.seq()[i].1,
                forall|t: i32| #[trigger] tasks.contains_key(t) ==> it.seq().contains((&t, &tasks[t])),
                dead@.no_duplicates(),
                forall|t: i32| #[trigger]
                    dead@.contains(t) ==> exists|i: int|
                        0 <= i < it.index() && *(#[trigger] it.seq()[i]).0 == t,
                forall|i: int|
                    #![trigger it.seq()[i]]
                    0 <= i < it.index() ==> found_gone(
                        set,
                        alive,
                        *it.seq()[i].0,
                        *it.seq()[i].1,
                        dead@.contains(*it.seq()[i].0),
                    ),
                forall|i: int|
                    #![trigger it.seq()[i]]
                    0 <= i < it.index() ==> tuned_again(reapply, *it.seq()[i].0, *it.seq()[i].1),
        {
            let pkg = e.pkg.as_str();
            let comm = e.comm.as_str();
            reapply(*tid, pkg, comm);
            assert(call_ensures(reapply, (*tid, pkg, comm), ()));
            let gone = match &e.cpus {
                Some(c) => set(*tid, c, e.cpuset_dir.as_str()),
                None => !alive(*tid),
            };
            let ghost before = dead@;
            proof {
                let here = it.index();
                assert(*it.seq()[here].0 == *tid);
                if before.contains(*tid) {
                    let i = choose|i: int| 0 <= i < here && *(#[trigger] it.seq()[i]).0 == *tid;
                    assert(it.seq()[i] == it.seq()[here]);
                }
            }
            if gone {
                dead.push(*tid);
                assert(dead@ =~= before.push(*tid));
                assert(dead@[before.len() as int] == *tid);
            }
            proof {
                let here = it.index();
                assert forall|t: i32| #[trigger] dead@.contains(t) implies exists|i: int|
                    0 <= i < here + 1 && *(#[trigger] it.seq()[i]).0 == t by {
                    if before.contains(t) {
                        let i = choose|i: int| 0 <= i < here && *(#[trigger] it.seq()[i]).0 == t;
                        assert(*it.seq()[i].0 == t);
                    } else {
                        assert(*it.seq()[here].0 == t);
                    }
                }
                assert forall|i: int|
                    #![trigger it.seq()[i]]
                    0 <= i < here + 1 implies dead@.contains(*it.seq()[i].0) == (if i < here {
                    before.contains(*it.seq()[i].0)
                } else {
                    gone
                }) by {
                    if i < here && *it.seq()[i].0 == *tid {
                        assert(it.seq()[i] == it.seq()[here]);
                    }
                    if before.contains(*it.seq()[i].0) {
                        let k = choose|k: int|
                            0 <= k < before.len() && before[k] == *it.seq()[i].0;
                        assert(dead@[k] == *it.seq()[i].0);
                    }
                }
            }
        }
        let mut i: usize = 0;
        let ghost all = self@;
        assert(dead@.take(0).to_set() =~= Set::<i32>::empty());
        assert(all.remove_keys(Set::<i32>::empty()) =~= all);
        while i < dead.len()
            invariant
                i <= dead@.len(),
                self@ == all.remove_keys(dead@.take(i as int).to_set()),
            decreases dead@.len() - i,
        {
            self.task_del(dead[i]);
            proof {
                let now = dead@.take(i + 1);
                assert(now =~= dead@.take(i as int).push(dead@[i as int]));
                assert forall|t: i32| now.contains(t) <==> dead@.take(i as int).contains(t) || t
                    == dead@[i as int] by {
                    if dead@.take(i as int).contains(t) {
                        let k = choose|k: int|
                            0 <= k < dead@.take(i as int).len() && dead@.take(i as int)[k] == t;
                        assert(now[k] == t);
                    }
                    if t == dead@[i as int] {
                        assert(now[i as int] == t);
                    }
                }
                assert(self@ =~= all.remove_keys(now.to_set()));
            }
            i += 1;
        }
        assert(dead@.take(i as int) =~= dead@);
        dead
    }
}

// What holds of the tasks that are kept.

/// A rule for a package does not take the place of a rule for a thread that gave a task its
/// affinity.
pub proof fn law_thread_rule_is_kept(
    tasks: Map<i32, EntryV>,
    tid: i32,
    pid: int,
    pkg: Seq<char>,
    name: Seq<char>,
    a: AffinityV,
    tuned: bool,
    dead: bool,
)
    requires
        tasks.contains_key(tid),
        tasks[tid].is_thread_rule,
        !a.is_thread_rule,
    ensures
        ({
            let (after, kept) = seen(tasks, tid, pid, pkg, name, Some(a), tuned, dead);
            &&& kept
            &&& after.contains_key(tid)
            &&& after[tid].is_thread_rule
            &&& after[tid].cpus == tasks[tid].cpus
            &&& after[tid].cpuset_dir == tasks[tid].cpuset_dir
            &&& !to_set(tasks, tid, Some(a))
        }),
{
}

/// A task without an affinity rule is kept exactly if its package is tuned, and without an
/// affinity.
pub proof fn law_tuned_task_keeps_its_affinity(
    tasks: Map<i32, EntryV>,
    tid: i32,
    pid: int,
    pkg: Seq<char>,
    name: Seq<char>,
    tuned: bool,
    dead: bool,
)
    ensures
        ({
            let (after, kept) = seen(tasks, tid, pid, pkg, name, None, tuned, dead);
            &&& kept == tuned
            &&& !tuned ==> after == tasks
            &&& tuned ==> after.contains_key(tid) && after[tid].cpus is None && after[tid].pkg
                == pkg
            &&& !to_set(tasks, tid, None)
        }),
{
}

/// A task that gets an affinity is kept with it, unless it turns out to be gone: then it is
/// forgotten. A task that is kept is kept under its number, package and name, and nothing else
/// decides about one that gets an affinity.
pub proof fn law_affinities_are_recorded(
    tasks: Map<i32, EntryV>,
    tid: i32,
    pid: int,
    pkg: Seq<char>,
    name: Seq<char>,
    a: Option<AffinityV>,
    tuned: bool,
    dead: bool,
)
    ensures
        ({
            let (after, kept) = seen(tasks, tid, pid, pkg, name, a, tuned, dead);
            &&& kept ==> after.contains_key(tid) && after[tid].pid == pid && after[tid].pkg == pkg
                && after[tid].comm == name
            &&& a matches Some(x) ==> (x.is_thread_rule || !tasks.contains_key(tid)
                || !tasks[tid].is_thread_rule ==> {
                &&& to_set(tasks, tid, a)
                &&& kept == !dead
                &&& dead ==> !after.contains_key(tid)
                &&& !dead ==> after[tid].cpus == Some(x.cpus) && after[tid].cpuset_dir
                    == x.cpuset_dir && after[tid].is_thread_rule == x.is_thread_rule
            })
            &&& a is None && tuned ==> !after[tid].is_thread_rule && after[tid].cpuset_dir.len()
                == 0
        }),
{
}

/// A task with an affinity is found gone exactly if setting that affinity can say so; one without is
/// found gone exactly if it can no longer answer.
pub proof fn law_who_is_found_gone<S, P>(set: S, alive: P, tid: i32, e: TaskEntry, d: &str) where
    S: Fn(i32, &CpuSet, &str) -> bool,
    P: Fn(i32) -> bool,

    requires
        d@ == e.cpuset_dir@,
    ensures
        e.cpus is None && call_ensures(alive, (tid,), false) ==> found_gone(
            set,
            alive,
            tid,
            e,
            true,
        ),
        e.cpus is None && found_gone(set, alive, tid, e, false) ==> call_ensures(
            alive,
            (tid,),
            true,
        ),
        e.cpus matches Some(c) ==> (call_ensures(set, (tid, &c, d), true) ==> found_gone(
            set,
            alive,
            tid,
            e,
            true,
        )),
{
}

/// Seeing a task leaves all other tasks as they were.
pub proof fn law_other_tasks_stay(
    tasks: Map<i32, EntryV>,
    tid: i32,
    pid: int,
    pkg: Seq<char>,
    name: Seq<char>,
    a: Option<AffinityV>,
    tuned: bool,
    dead: bool,
    other: i32,
)
    requires
        other != tid,
    ensures
        ({
            let after = seen(tasks, tid, pid, pkg, name, a, tuned, dead).0;
            &&& after.contains_key(other) == tasks.contains_key(other)
            &&& tasks.contains_key(other) ==> after[other] == tasks[other]
        }),
{
}

} // verus!
