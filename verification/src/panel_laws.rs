//! What the documents of the panel state, field by field.

use crate::cache::EntryV;
use crate::cpu_laws::{cpus_of, law_cpus_are_counted};
use crate::cpuset::{ranges_from, spec_name_of, CpuTopology};
use crate::json::{at, JsonV};
use crate::panel::{
    config_shown, items_of, rule_groups, rule_item, rule_packages, rules_of_config, seen_packages,
    status_of, ConfigInfo, RuleEntry, StatusInfo, WebStats,
};
use crate::settings::base_name;
use crate::tuning::{
    capabilities_json, config_json, distinct_texts, packages, panel_json, rule_total, AppV, ConfigV,
};
use vstd::prelude::*;

verus! {

// Lists without repetitions.

/// The places at which the texts of a list stand for the first time.
#[verifier::rlimit(40)]
#[verifier::spinoff_prover]
proof fn lemma_first_places(items: Seq<Seq<char>>) -> (at: Seq<int>)
    ensures
        at.len() == distinct_texts(items).len(),
        forall|k: int|
            0 <= k < at.len() ==> 0 <= #[trigger] at[k] < items.len() && items[at[k]]
                == distinct_texts(items)[k],
        forall|k: int, j: int|
            0 <= k < at.len() && 0 <= j < at[k] ==> #[trigger] items[j] != items[#[trigger] at[k]],
        forall|j: int, k: int| 0 <= j < k < at.len() ==> #[trigger] at[j] < #[trigger] at[k],
        forall|s: Seq<char>| items.contains(s) <==> #[trigger] distinct_texts(items).contains(s),
    decreases items.len(),
{
    let now = distinct_texts(items);
    if items.len() == 0 {
        assert(now =~= seq![]);
        Seq::empty()
    } else {
        let init = items.drop_last();
        let last = items.last();
        let before = distinct_texts(init);
        let at = lemma_first_places(init);
        assert(items =~= init.push(last));
        let n = items.len() - 1;
        assert forall|s: Seq<char>| items.contains(s) <==> init.contains(s) || s == last by {
            if init.contains(s) {
                let j = choose|j: int| 0 <= j < init.len() && init[j] == s;
                assert(items[j] == s);
            }
            if s == last {
                assert(items[n] == s);
            }
        }
        if before.contains(last) {
            assert(init.contains(last));
            at
        } else {
            let more = at.push(n);
            assert forall|s: Seq<char>| items.contains(s) <==> #[trigger] now.contains(s) by {
                if before.contains(s) {
                    let j = choose|j: int| 0 <= j < before.len() && before[j] == s;
                    assert(now[j] == s);
                }
                if s == last {
                    assert(now[before.len() as int] == s);
                }
                if now.contains(s) && s != last {
                    let j = choose|j: int| 0 <= j < now.len() && now[j] == s;
                    assert(before[j] == s);
                }
                assert(init.contains(s) <==> before.contains(s));
            }
            assert forall|k: int, j: int|
                0 <= k < more.len() && 0 <= j < more[k] implies #[trigger] items[j]
                != items[#[trigger] more[k]] by {
                if k < at.len() {
                    assert(more[k] == at[k]);
                    assert(items[j] == init[j] && items[at[k]] == init[at[k]]);
                } else {
                    assert(!init.contains(last));
                    assert(items[j] == init[j]);
                }
            }
            more
        }
    }
}

/// A list without repetitions holds the same texts, none twice, in the order in which each stands
/// for the first time.
pub proof fn law_texts_without_repetitions(items: Seq<Seq<char>>) -> (places: Seq<int>)
    ensures
        distinct_texts(items).no_duplicates(),
        forall|s: Seq<char>| items.contains(s) <==> #[trigger] distinct_texts(items).contains(s),
        places.len() == distinct_texts(items).len(),
        forall|k: int|
            0 <= k < places.len() ==> 0 <= #[trigger] places[k] < items.len() && items[places[k]]
                == distinct_texts(items)[k],
        forall|k: int, j: int|
            0 <= k < places.len() && 0 <= j < places[k] ==> #[trigger] items[j]
                != items[#[trigger] places[k]],
        forall|j: int, k: int| 0 <= j < k < places.len() ==> #[trigger] places[j]
            < #[trigger] places[k],
{
    let places = lemma_first_places(items);
    let d = distinct_texts(items);
    assert forall|j: int, k: int| 0 <= j < d.len() && 0 <= k < d.len() && j != k implies d[j]
        != d[k] by {
        assert(items[places[j]] == d[j] && items[places[k]] == d[k]);
        if j < k {
            assert(places[j] < places[k]);
        } else {
            assert(places[k] < places[j]);
        }
    }
    places
}

/// The packages of a tuning are those of its applications, in their order; where thread rules are
/// asked for, only of those that have some.
pub proof fn law_packages_of_a_tuning(apps: Seq<AppV>)
    ensures
        packages(apps, false) == apps.map_values(|a: AppV| a.pkg),
        packages(apps, true) == apps.filter(|a: AppV| a.threads.len() > 0).map_values(
            |a: AppV| a.pkg,
        ),
    decreases apps.len(),
{
    reveal(Seq::filter);
    let pkg = |a: AppV| a.pkg;
    let threaded = |a: AppV| a.threads.len() > 0;
    if apps.len() > 0 {
        let init = apps.drop_last();
        law_packages_of_a_tuning(init);
        assert(apps.map_values(pkg) =~= init.map_values(pkg).push(apps.last().pkg));
        if threaded(apps.last()) {
            assert(apps.filter(threaded) =~= init.filter(threaded).push(apps.last()));
            assert(apps.filter(threaded).map_values(pkg) =~= init.filter(threaded).map_values(
                pkg,
            ).push(apps.last().pkg));
        }
    } else {
        assert(apps.map_values(pkg) =~= seq![]);
        assert(apps.filter(threaded).map_values(pkg) =~= seq![]);
    }
}

/// The number of thread rules of two lists of applications is that of both together, and one
/// application has as many as it holds.
pub proof fn law_thread_rules_add_up(a: Seq<AppV>, b: Seq<AppV>, app: AppV)
    ensures
        rule_total(a + b) == rule_total(a) + rule_total(b),
        rule_total(seq![app]) == app.threads.len(),
        rule_total(Seq::<AppV>::empty()) == 0,
    decreases b.len(),
{
    if b.len() == 0 {
        assert(a + b =~= a);
    } else {
        law_thread_rules_add_up(a, b.drop_last(), app);
        assert((a + b).drop_last() =~= a + b.drop_last());
    }
    assert(seq![app].drop_last() =~= seq![]);
    assert(rule_total(seq![app].drop_last()) == 0);
}

// The status.

/// What the status shows, field by field.
#[verifier::rlimit(40)]
#[verifier::spinoff_prover]
pub proof fn law_what_the_status_shows(s: WebStats, info: StatusInfo, topo: Option<CpuTopology>)
    ensures
        ({
            let doc = status_of(s, info, topo);
            &&& at(doc, "version"@) == JsonV::Text("2.3.0"@)
            &&& at(doc, "mode"@) == JsonV::Text(
                if s.ebpf {
                    "ebpf"@
                } else {
                    "proc"@
                },
            )
            &&& at(doc, "uptime"@) == JsonV::Whole(s.uptime as int)
            &&& at(doc, "rules"@) == JsonV::Whole(s.rules as int)
            &&& at(doc, "pkgs"@) == JsonV::Whole(s.pkgs as int)
            &&& at(doc, "parse_fail"@) == JsonV::Whole(info.parse_fail as int)
            &&& at(doc, "hit_pkgs"@) == JsonV::Whole(s.hit_pkgs as int)
            &&& at(doc, "threads"@) == JsonV::Whole(s.threads as int)
            &&& at(doc, "total_procs"@) == JsonV::Whole(info.total_procs as int)
            &&& at(doc, "interval"@) == JsonV::Whole(
                if info.interval == 0 {
                    1
                } else {
                    info.interval as int
                },
            )
            &&& at(doc, "tuning_apps"@) == JsonV::Whole(info.tuning_apps as int)
            &&& at(doc, "tuning_threads"@) == JsonV::Whole(info.tuning_threads as int)
        }),
{
    lemma_status_names();
}

/// What the status shows of the CPUs: their kinds as lists and how many there are; nothing before
/// the device is known.
#[verifier::rlimit(40)]
#[verifier::spinoff_prover]
pub proof fn law_what_the_status_shows_of_cpus(
    s: WebStats,
    info: StatusInfo,
    topo: Option<CpuTopology>,
)
    ensures
        ({
            let doc = status_of(s, info, topo);
            let none = JsonV::Text(Seq::<char>::empty());
            &&& topo matches Some(t) ==> {
                &&& at(doc, "e_core"@) == JsonV::Text(ranges_from(t.e_core, 0))
                &&& at(doc, "p_core"@) == JsonV::Text(ranges_from(t.p_core, 0))
                &&& at(doc, "hp_core"@) == JsonV::Text(ranges_from(t.hp_core, 0))
                &&& at(doc, "all_core"@) == JsonV::Text(t.present_str@)
                &&& at(doc, "cores"@) == JsonV::Whole(cpus_of(t.present_cpus, 64).len() as int)
                &&& at(doc, "cpuset_enabled"@) == JsonV::Bool(t.cpuset_enabled)
            }
            &&& topo is None ==> {
                &&& at(doc, "e_core"@) == none
                &&& at(doc, "p_core"@) == none
                &&& at(doc, "hp_core"@) == none
                &&& at(doc, "all_core"@) == none
                &&& at(doc, "cores"@) == JsonV::Whole(0)
                &&& at(doc, "cpuset_enabled"@) == JsonV::Bool(false)
            }
        }),
{
    lemma_status_names();
    if let Some(t) = topo {
        law_cpus_are_counted(t.present_cpus, 64);
    }
}

/// The names of the fields of the status differ.
proof fn lemma_status_names()
    ensures
        "version"@.len() == 7,
        "mode"@.len() == 4,
        "uptime"@.len() == 6,
        "rules"@.len() == 5,
        "pkgs"@.len() == 4,
        "parse_fail"@.len() == 10,
        "hit_pkgs"@.len() == 8,
        "threads"@.len() == 7,
        "total_procs"@.len() == 11,
        "interval"@.len() == 8,
        "e_core"@.len() == 6,
        "p_core"@.len() == 6,
        "hp_core"@.len() == 7,
        "all_core"@.len() == 8,
        "cores"@.len() == 5,
        "cpuset_enabled"@.len() == 14,
        "tuning_apps"@.len() == 11,
        "tuning_threads"@.len() == 14,
        "version"@ != "threads"@,
        "version"@ != "hp_core"@,
        "mode"@ != "pkgs"@,
        "uptime"@ != "e_core"@,
        "uptime"@ != "p_core"@,
        "rules"@ != "cores"@,
        "hit_pkgs"@ != "interval"@,
        "hit_pkgs"@ != "all_core"@,
        "threads"@ != "hp_core"@,
        "total_procs"@ != "tuning_apps"@,
        "interval"@ != "all_core"@,
        "e_core"@ != "p_core"@,
        "cpuset_enabled"@ != "tuning_threads"@,
{
    reveal_strlit("version");
    reveal_strlit("mode");
    reveal_strlit("uptime");
    reveal_strlit("rules");
    reveal_strlit("pkgs");
    reveal_strlit("parse_fail");
    reveal_strlit("hit_pkgs");
    reveal_strlit("threads");
    reveal_strlit("total_procs");
    reveal_strlit("interval");
    reveal_strlit("e_core");
    reveal_strlit("p_core");
    reveal_strlit("hp_core");
    reveal_strlit("all_core");
    reveal_strlit("cores");
    reveal_strlit("cpuset_enabled");
    reveal_strlit("tuning_apps");
    reveal_strlit("tuning_threads");
    assert("version"@[0] != "threads"@[0]);
    assert("version"@[0] != "hp_core"@[0]);
    assert("mode"@[0] != "pkgs"@[0]);
    assert("uptime"@[0] != "e_core"@[0]);
    assert("uptime"@[0] != "p_core"@[0]);
    assert("rules"@[0] != "cores"@[0]);
    assert("hit_pkgs"@[0] != "interval"@[0]);
    assert("hit_pkgs"@[0] != "all_core"@[0]);
    assert("threads"@[0] != "hp_core"@[0]);
    assert("total_procs"@[1] != "tuning_apps"@[1]);
    assert("interval"@[0] != "all_core"@[0]);
    assert("e_core"@[0] != "p_core"@[0]);
    assert("cpuset_enabled"@[0] != "tuning_threads"@[0]);
}

// The settings.

/// What the panel shows of the settings, field by field.
pub proof fn law_what_the_settings_show(c: ConfigInfo)
    ensures
        ({
            let doc = config_shown(c);
            &&& at(doc, "mode"@) == JsonV::Whole(c.mode as int)
            &&& at(doc, "mode_active"@) == JsonV::Text(
                if c.ebpf_active {
                    "ebpf"@
                } else {
                    "proc"@
                },
            )
            &&& at(doc, "ebpf_available"@) == JsonV::Bool(c.ebpf_available)
            &&& at(doc, "interval"@) == JsonV::Whole(
                if c.interval == 0 {
                    1
                } else {
                    c.interval as int
                },
            )
            &&& at(doc, "cpuset_name"@) == JsonV::Text(base_name(c.base_cpuset@))
            &&& at(doc, "config_file"@) == JsonV::Text(c.config_file@)
            &&& at(doc, "cpuset_enabled"@) == JsonV::Bool(c.cpuset_enabled)
        }),
{
    lemma_settings_names();
}

/// The names of the fields of the settings differ.
proof fn lemma_settings_names()
    ensures
        "mode"@.len() == 4,
        "mode_active"@.len() == 11,
        "ebpf_available"@.len() == 14,
        "interval"@.len() == 8,
        "cpuset_name"@.len() == 11,
        "config_file"@.len() == 11,
        "cpuset_enabled"@.len() == 14,
        "mode_active"@ != "cpuset_name"@,
        "mode_active"@ != "config_file"@,
        "ebpf_available"@ != "cpuset_enabled"@,
        "cpuset_name"@ != "config_file"@,
{
    reveal_strlit("mode");
    reveal_strlit("mode_active");
    reveal_strlit("ebpf_available");
    reveal_strlit("interval");
    reveal_strlit("cpuset_name");
    reveal_strlit("config_file");
    reveal_strlit("cpuset_enabled");
    assert("mode_active"@[0] != "cpuset_name"@[0]);
    assert("mode_active"@[0] != "config_file"@[0]);
    assert("ebpf_available"@[0] != "cpuset_enabled"@[0]);
    assert("cpuset_name"@[1] != "config_file"@[1]);
}

// The rules.

/// The rules of a package are listed in their order, each with its thread and the name of its CPUs.
pub proof fn law_how_rules_are_listed(rules: Seq<RuleEntry>, topo: CpuTopology, pkg: Seq<char>)
    ensures
        items_of(rules, topo, pkg, rules.len() as int) == rules.filter(
            |r: RuleEntry| r.pkg@ == pkg,
        ).map_values(|r: RuleEntry| rule_item(r, topo)),
        forall|r: RuleEntry|
            at(#[trigger] rule_item(r, topo), "thread"@) == JsonV::Text(r.thread@) && at(
                rule_item(r, topo),
                "spec"@,
            ) == JsonV::Text(spec_name_of(r.cpus, topo)),
{
    reveal_strlit("thread");
    reveal_strlit("spec");
    assert("thread"@.len() == 6 && "spec"@.len() == 4);
    lemma_items(rules, topo, pkg, rules.len() as int);
    assert(rules.take(rules.len() as int) =~= rules);
}

proof fn lemma_items(rules: Seq<RuleEntry>, topo: CpuTopology, pkg: Seq<char>, n: int)
    requires
        0 <= n <= rules.len(),
    ensures
        items_of(rules, topo, pkg, n) == rules.take(n).filter(
            |r: RuleEntry| r.pkg@ == pkg,
        ).map_values(|r: RuleEntry| rule_item(r, topo)),
    decreases n,
{
    reveal(Seq::filter);
    let mine = |r: RuleEntry| r.pkg@ == pkg;
    let item = |r: RuleEntry| rule_item(r, topo);
    if n > 0 {
        lemma_items(rules, topo, pkg, n - 1);
        let (now, before) = (rules.take(n), rules.take(n - 1));
        assert(now.drop_last() =~= before);
        assert(now.last() == rules[n - 1]);
        if mine(rules[n - 1]) {
            assert(now.filter(mine) =~= before.filter(mine).push(rules[n - 1]));
            assert(now.filter(mine).map_values(item) =~= before.filter(mine).map_values(item).push(
                item(rules[n - 1]),
            ));
        }
    } else {
        assert(rules.take(0) =~= seq![]);
        assert(rules.take(0).filter(mine).map_values(item) =~= seq![]);
    }
}

/// The rules in force are shown by package: every package that has a rule once, in the order in
/// which the rules name them, with its rules; none before the device is known.
#[verifier::rlimit(40)]
#[verifier::spinoff_prover]
pub proof fn law_how_packages_are_listed(
    rules: Seq<RuleEntry>,
    topo: CpuTopology,
    k: int,
) -> (places: Seq<int>)
    ensures
        at(rules_of_config(rules, None), "rules"@) == JsonV::List(Seq::empty()),
        at(rules_of_config(rules, Some(topo)), "rules"@) == JsonV::List(rule_groups(rules, topo)),
        places.len() == rule_groups(rules, topo).len(),
        forall|i: int, j: int| 0 <= i < j < places.len() ==> #[trigger] places[i]
            < #[trigger] places[j],
        0 <= k < places.len() ==> {
            let group = rule_groups(rules, topo)[k];
            let pkg = rules[places[k]].pkg@;
            &&& 0 <= places[k] < rules.len()
            &&& at(group, "pkg"@) == JsonV::Text(pkg)
            &&& at(group, "items"@) == JsonV::List(items_of(rules, topo, pkg, rules.len() as int))
            &&& forall|j: int| 0 <= j < places[k] ==> (#[trigger] rules[j]).pkg@ != pkg
        },
        forall|i: int|
            0 <= i < rules.len() ==> exists|j: int|
                0 <= j < places.len() && rules[#[trigger] places[j]].pkg@ == (
                #[trigger] rules[i]).pkg@,
{
    reveal_strlit("pkg");
    reveal_strlit("items");
    assert("pkg"@.len() == 3 && "items"@.len() == 5);
    let all = rule_packages(rules);
    let places = law_texts_without_repetitions(all);
    let names = distinct_texts(all);
    if 0 <= k < places.len() {
        assert(all[places[k]] == names[k]);
        assert forall|j: int| 0 <= j < places[k] implies (#[trigger] rules[j]).pkg@
            != rules[places[k]].pkg@ by {
            assert(all[j] != all[places[k]]);
        }
    }
    assert forall|i: int| 0 <= i < rules.len() implies exists|j: int|
        0 <= j < places.len() && rules[#[trigger] places[j]].pkg@ == (#[trigger] rules[i]).pkg@ by {
        assert(all[i] == rules[i].pkg@);
        assert(all.contains(all[i]));
        assert(names.contains(all[i]));
        let j = choose|j: int| 0 <= j < names.len() && names[j] == all[i];
        assert(all[places[j]] == names[j]);
    }
    places
}

/// The packages that were seen are those of the tasks.
pub proof fn law_which_packages_were_seen(tasks: Map<i32, EntryV>, pkg: Seq<char>)
    ensures
        seen_packages(tasks).contains(pkg) <==> exists|tid: i32|
            tasks.contains_key(tid) && (#[trigger] tasks[tid]).pkg == pkg,
{
    let name = |tid: i32| tasks[tid].pkg;
    if seen_packages(tasks).contains(pkg) {
        let tid = choose|tid: i32| tasks.dom().contains(tid) && #[trigger] name(tid) == pkg;
        assert(tasks.contains_key(tid));
    }
    if exists|tid: i32| tasks.contains_key(tid) && (#[trigger] tasks[tid]).pkg == pkg {
        let tid = choose|tid: i32| tasks.contains_key(tid) && (#[trigger] tasks[tid]).pkg == pkg;
        assert(tasks.dom().contains(tid) && name(tid) == pkg);
    }
}

// The tuning.

/// What the panel shows of the tuning: the document that states it, that all went well, what the
/// device offers, and the warnings.
pub proof fn law_what_the_tuning_shows(c: ConfigV, offers: JsonV, warnings: Seq<JsonV>)
    ensures
        ({
            let doc = panel_json(c, offers, warnings);
            &&& at(doc, "ok"@) == JsonV::Bool(true)
            &&& at(doc, "capabilities"@) == offers
            &&& at(doc, "warnings"@) == JsonV::List(warnings)
            &&& at(doc, "memory_groups"@) == at(config_json(c), "memory_groups"@)
            &&& at(doc, "apps"@) == at(config_json(c), "apps"@)
            &&& at(doc, "version"@) == JsonV::Whole(1)
        }),
{
    reveal_strlit("ok");
    reveal_strlit("capabilities");
    reveal_strlit("warnings");
    reveal_strlit("memory_groups");
    reveal_strlit("apps");
    reveal_strlit("version");
    assert("ok"@.len() == 2 && "capabilities"@.len() == 12 && "warnings"@.len() == 8);
    assert("memory_groups"@.len() == 13 && "apps"@.len() == 4 && "version"@.len() == 7);
}

/// What the device offers is shown field by field.
pub proof fn law_what_the_device_offers(roots: Seq<JsonV>, v2: bool, v1: bool, uclamp: bool)
    ensures
        ({
            let doc = capabilities_json(roots, v2, v1, uclamp);
            &&& at(doc, "memory_roots"@) == JsonV::List(roots)
            &&& at(doc, "cgroup_v2"@) == JsonV::Bool(v2)
            &&& at(doc, "v1_swappiness"@) == JsonV::Bool(v1)
            &&& at(doc, "uclamp"@) == JsonV::Bool(uclamp)
        }),
{
    reveal_strlit("memory_roots");
    reveal_strlit("cgroup_v2");
    reveal_strlit("v1_swappiness");
    reveal_strlit("uclamp");
    assert("memory_roots"@.len() == 12 && "cgroup_v2"@.len() == 9);
    assert("v1_swappiness"@.len() == 13 && "uclamp"@.len() == 6);
}

} // verus!
