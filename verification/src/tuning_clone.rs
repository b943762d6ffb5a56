//! Giving the tuning of one application to another.

use crate::apply::{app_at, find_app, tuned_app};
use crate::apply_laws::law_which_application_counts;
use crate::tuning::{
    app_views, group_views, rule_views, AppTuneRule, AppV, ConfigV, MemoryGroup, ThreadTuneRule,
    TuningConfig,
};
use vstd::prelude::*;

verus! {

/// What `target` gets of the tuning of an application: its memory group, its thread rules, or both.
pub open spec fn app_copy(app: AppV, target: Seq<char>, memory: bool, threads: bool) -> AppV {
    AppV {
        pkg: target,
        memory_group: if memory {
            app.memory_group
        } else {
            None
        },
        threads: if threads {
            app.threads
        } else {
            seq![]
        },
    }
}

/// The configuration in which `target` has the chosen tuning of `source` too, or why there is none.
/// An application that is tuned already is not written over, and all that is chosen must be there.
pub open spec fn app_cloned(
    c: ConfigV,
    source: Seq<char>,
    target: Seq<char>,
    memory: bool,
    threads: bool,
) -> Result<ConfigV, Seq<char>> {
    match (tuned_app(c, target), tuned_app(c, source)) {
        (Some(_), _) => Err("目标应用已有调优规则，不能覆盖克隆"@),
        (None, None) => Err("来源应用没有所选调优规则"@),
        (None, Some(i)) => {
            let app = c.apps[i];
            if (memory && app.memory_group is None) || (threads && app.threads.len() == 0) {
                Err("来源应用没有所选调优规则"@)
            } else {
                Ok(
                    ConfigV {
                        memory_groups: c.memory_groups,
                        apps: c.apps.push(app_copy(app, target, memory, threads)),
                    },
                )
            }
        },
    }
}

fn copy_rules(rules: &Vec<ThreadTuneRule>) -> (r: Vec<ThreadTuneRule>)
    ensures
        rule_views(r@) == rule_views(rules@),
{
    let mut out: Vec<ThreadTuneRule> = Vec::new();
    let mut i: usize = 0;
    while i < rules.len()
        invariant
            i <= rules@.len(),
            out@.len() == i,
            forall|k: int| 0 <= k < i ==> (#[trigger] out@[k])@ == rules@[k]@,
        decreases rules@.len() - i,
    {
        let rule = &rules[i];
        out.push(
            ThreadTuneRule {
                pattern: rule.pattern.clone(),
                uclamp_min: rule.uclamp_min,
                uclamp_max: rule.uclamp_max,
                nice: rule.nice,
            },
        );
        i += 1;
    }
    assert(rule_views(out@) =~= rule_views(rules@));
    out
}

fn copy_groups(groups: &Vec<MemoryGroup>) -> (r: Vec<MemoryGroup>)
    ensures
        group_views(r@) == group_views(groups@),
{
    let mut out: Vec<MemoryGroup> = Vec::new();
    let mut i: usize = 0;
    while i < groups.len()
        invariant
            i <= groups@.len(),
            out@.len() == i,
            forall|k: int| 0 <= k < i ==> (#[trigger] out@[k])@ == groups@[k]@,
        decreases groups@.len() - i,
    {
        let group = &groups[i];
        out.push(
            MemoryGroup {
                name: group.name.clone(),
                path: group.path.clone(),
                swappiness: group.swappiness,
                memory_min: group.memory_min.clone(),
                memory_low: group.memory_low.clone(),
                memory_high: group.memory_high.clone(),
                memory_max: group.memory_max.clone(),
                oom_group: group.oom_group,
            },
        );
        i += 1;
    }
    assert(group_views(out@) =~= group_views(groups@));
    out
}

fn copy_apps(apps: &Vec<AppTuneRule>) -> (r: Vec<AppTuneRule>)
    ensures
        app_views(r@) == app_views(apps@),
{
    let mut out: Vec<AppTuneRule> = Vec::new();
    let mut i: usize = 0;
    while i < apps.len()
        invariant
            i <= apps@.len(),
            out@.len() == i,
            forall|k: int| 0 <= k < i ==> (#[trigger] out@[k])@ == apps@[k]@,
        decreases apps@.len() - i,
    {
        let app = &apps[i];
        out.push(
            AppTuneRule {
                pkg: app.pkg.clone(),
                memory_group: app.memory_group.clone(),
                threads: copy_rules(&app.threads),
            },
        );
        i += 1;
    }
    assert(app_views(out@) =~= app_views(apps@));
    out
}

/// Gives `target` the memory group of `source`, its thread rules, or both.
pub fn clone_app(
    config: &TuningConfig,
    source: &str,
    target: &str,
    memory: bool,
    threads: bool,
) -> (r: Result<TuningConfig, String>)
    ensures
        match app_cloned(config@, source@, target@, memory, threads) {
            Ok(c) => r matches Ok(m) && m@ == c,
            Err(e) => r matches Err(f) && f@ == e,
        },
{
    if find_app(config, target).is_some() {
        return Err("目标应用已有调优规则，不能覆盖克隆".to_owned());
    }
    let i: usize = match find_app(config, source) {
        Some(i) => i,
        None => {
            return Err("来源应用没有所选调优规则".to_owned());
        },
    };
    let app = &config.apps[i];
    assert(config@.apps[i as int] == app@);
    if (memory && app.memory_group.is_none()) || (threads && app.threads.len() == 0) {
        return Err("来源应用没有所选调优规则".to_owned());
    }
    let copy = AppTuneRule {
        pkg: target.to_owned(),
        memory_group: if memory {
            app.memory_group.clone()
        } else {
            None
        },
        threads: if threads {
            copy_rules(&app.threads)
        } else {
            Vec::new()
        },
    };
    assert(copy@ =~= app_copy(app@, target@, memory, threads));
    let mut apps = copy_apps(&config.apps);
    let ghost before = app_views(apps@);
    apps.push(copy);
    assert(app_views(apps@) =~= before.push(copy@));
    Ok(TuningConfig { memory_groups: copy_groups(&config.memory_groups), apps })
}

/// Cloning tunes one application more and changes no other: `target`, which was not tuned, has what
/// was chosen, and every application keeps its tuning.
pub proof fn law_cloning_adds_one_application(
    c: ConfigV,
    source: Seq<char>,
    target: Seq<char>,
    memory: bool,
    threads: bool,
)
    ensures
        app_cloned(c, source, target, memory, threads) matches Ok(d) ==> {
            &&& d.memory_groups == c.memory_groups
            &&& tuned_app(c, target) is None
            &&& tuned_app(d, target) == Some(c.apps.len() as int)
            &&& d.apps[c.apps.len() as int] == app_copy(
                c.apps[tuned_app(c, source)->0],
                target,
                memory,
                threads,
            )
            &&& forall|pkg: Seq<char>|
                pkg != target ==> #[trigger] tuned_app(d, pkg) == tuned_app(c, pkg)
            &&& forall|k: int| 0 <= k < c.apps.len() ==> d.apps[k] == #[trigger] c.apps[k]
        },
{
    if let Ok(d) = app_cloned(c, source, target, memory, threads) {
        let n = c.apps.len() as int;
        assert forall|pkg: Seq<char>| #[trigger] app_at(d.apps, pkg, n) == app_at(c.apps, pkg, n) by {
            lemma_same_apps(c.apps, d.apps, pkg, n);
        }
        assert forall|pkg: Seq<char>| pkg != target implies #[trigger] tuned_app(d, pkg)
            == tuned_app(c, pkg) by {
            assert(app_at(d.apps, pkg, n) == app_at(c.apps, pkg, n));
        }
        assert(app_at(d.apps, target, n) == app_at(c.apps, target, n));
    }
}

/// The tuning of a package can be cloned exactly if no application is the target, one is the source,
/// and the first that is has what was chosen. Then the target has the memory group of the source
/// where that was chosen, and its thread rules where those were. A target that is tuned is named as
/// the reason before anything that the source misses.
#[verifier::rlimit(40)]
#[verifier::spinoff_prover]
pub proof fn law_when_a_tuning_is_cloned(
    c: ConfigV,
    source: Seq<char>,
    target: Seq<char>,
    memory: bool,
    threads: bool,
)
    ensures
        ({
            let r = app_cloned(c, source, target, memory, threads);
            let taken = exists|i: int|
                0 <= i < c.apps.len() && (#[trigger] c.apps[i]).pkg == target;
            &&& taken ==> r == Err::<ConfigV, Seq<char>>("目标应用已有调优规则，不能覆盖克隆"@)
            &&& !taken ==> (r is Ok <==> exists|i: int|
                first_of_package(c.apps, source, i) && (memory ==> c.apps[i].memory_group is Some)
                    && (threads ==> c.apps[i].threads.len() > 0))
            &&& !taken && r is Err ==> r == Err::<ConfigV, Seq<char>>("来源应用没有所选调优规则"@)
            &&& forall|i: int| #[trigger] first_of_package(c.apps, source, i) && r is Ok ==> {
                let copy = (r->Ok_0).apps.last();
                &&& (r->Ok_0).apps.len() == c.apps.len() + 1
                &&& copy.pkg == target
                &&& copy.memory_group == if memory {
                    c.apps[i].memory_group
                } else {
                    None
                }
                &&& copy.threads == if threads {
                    c.apps[i].threads
                } else {
                    seq![]
                }
            }
        }),
{
    law_which_application_counts(c, target);
    law_which_application_counts(c, source);
    if let Some(i) = tuned_app(c, target) {
        assert(c.apps[i].pkg == target);
    }
    if let Some(i) = tuned_app(c, source) {
        assert(first_of_package(c.apps, source, i));
    }
    assert forall|i: int| #[trigger] first_of_package(c.apps, source, i) implies tuned_app(c, source)
        == Some(i) by {
        if let Some(j) = tuned_app(c, source) {
            assert(c.apps[j].pkg == source && c.apps[i].pkg == source);
        }
    }
}

/// Whether application `i` is the first with a package.
pub open spec fn first_of_package(apps: Seq<AppV>, pkg: Seq<char>, i: int) -> bool {
    &&& 0 <= i < apps.len()
    &&& apps[i].pkg == pkg
    &&& forall|j: int| 0 <= j < i ==> (#[trigger] apps[j]).pkg != pkg
}

proof fn lemma_same_apps(a: Seq<AppV>, b: Seq<AppV>, pkg: Seq<char>, n: int)
    requires
        n <= a.len(),
        n <= b.len(),
        forall|k: int| 0 <= k < n ==> #[trigger] a[k] == b[k],
    ensures
        app_at(a, pkg, n) == app_at(b, pkg, n),
    decreases n,
{
    if n > 0 {
        lemma_same_apps(a, b, pkg, n - 1);
        assert(a[n - 1] == b[n - 1]);
    }
}

} // verus!
