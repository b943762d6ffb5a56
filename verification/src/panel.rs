//! What the web panel shows.

use crate::cache::{EntryV, ProcCache};
use crate::cpuset::{
    cpus_below, ranges_from, spec_name, spec_name_of, CpuSet, CpuTopology, MAX_CPUS,
};
use crate::json::{
    add_field, json_text, lemma_list_view, list_view, no_fields, plain, reads_as, texts_view, Json,
    JsonV,
};
use crate::settings::{base_name, base_of};
use crate::text::equal;
use crate::tuning::{
    apps_json, capabilities_json, cgroup_capabilities, contains_text, distinct_texts, groups_json,
    leaf, lemma_config_plain, panel_json, string_views, web_value, Tuning,
};
use vstd::prelude::*;

verus! {

/// The version of the program.
pub const VERSION: &'static str = "2.3.0";

/// What is counted while the program runs.
#[derive(Clone)]
pub struct WebStats {
    pub rules: usize,
    pub pkgs: usize,
    pub hit_pkgs: usize,
    pub threads: usize,
    pub ebpf: bool,
    pub uptime: u64,
}

impl WebStats {
    /// The counts before anything was counted.
    pub fn none() -> (r: WebStats)
        ensures
            r.rules == 0,
            r.pkgs == 0,
            r.hit_pkgs == 0,
            r.threads == 0,
            !r.ebpf,
            r.uptime == 0,
    {
        WebStats { rules: 0, pkgs: 0, hit_pkgs: 0, threads: 0, ebpf: false, uptime: 0 }
    }
}

/// The packages of the tasks that were seen.
pub open spec fn seen_packages(tasks: Map<i32, EntryV>) -> Set<Seq<char>> {
    tasks.dom().map(|tid: i32| tasks[tid].pkg)
}

/// How many tasks were seen, and of how many packages.
pub fn cache_stats(cache: &ProcCache) -> (r: (usize, usize))
    ensures
        r.0 == cache@.dom().len(),
        r.1 == seen_packages(cache@).len(),
{
    let mut names: Vec<String> = Vec::new();
    let ghost tasks = cache.tasks@;
    assert(string_views(names@) =~= seq![]);
    for (tid, e) in it: cache.tasks.iter()
        invariant
            tasks == cache.tasks@,
            forall|i: int|
                #![trigger it.seq()[i]]
                0 <= i < it.seq().len() ==> tasks.contains_key(*it.seq()[i].0)
                    && tasks[*it.seq()[i].0] == *it.seq()[i].1,
            forall|t: i32| #[trigger] tasks.contains_key(t) ==> it.seq().contains((&t, &tasks[t])),
            string_views(names@).no_duplicates(),
            forall|p: Seq<char>| #[trigger]
                string_views(names@).contains(p) ==> exists|i: int|
                    0 <= i < it.index() && (#[trigger] it.seq()[i]).1.pkg@ == p,
            forall|i: int|
                0 <= i < it.index() ==> string_views(names@).contains(
                    (#[trigger] it.seq()[i]).1.pkg@,
                ),
    {
        let ghost before = string_views(names@);
        let ghost here = it.index();
        assert(it.seq()[here].1.pkg@ == e.pkg@);
        if !contains_text(&names, e.pkg.as_str()) {
            let own = e.pkg.clone();
            names.push(own);
            assert(string_views(names@) =~= before.push(own@));
        }
        proof {
            let after = string_views(names@);
            assert forall|p: Seq<char>| before.contains(p) implies #[trigger] after.contains(p) by {
                let k = choose|k: int| 0 <= k < before.len() && before[k] == p;
                assert(after[k] == p);
            }
            assert(after.contains(e.pkg@)) by {
                if !before.contains(e.pkg@) {
                    assert(after[before.len() as int] == e.pkg@);
                }
            }
            assert forall|p: Seq<char>| #[trigger] after.contains(p) implies exists|i: int|
                0 <= i < here + 1 && (#[trigger] it.seq()[i]).1.pkg@ == p by {
                if before.contains(p) {
                    let i = choose|i: int| 0 <= i < here && (#[trigger] it.seq()[i]).1.pkg@ == p;
                    assert(it.seq()[i].1.pkg@ == p);
                } else {
                    assert(it.seq()[here].1.pkg@ == p);
                }
            }
        }
    }
    proof {
        let all = string_views(names@);
        let want = seen_packages(cache@);
        assert(cache@.dom() =~= tasks.dom());
        assert forall|p: Seq<char>| all.to_set().contains(p) == #[trigger] want.contains(p) by {
            if all.contains(p) {
                let tid = choose|tid: i32| #[trigger] tasks.contains_key(tid) && tasks[tid].pkg@ == p;
                assert(cache@.dom().contains(tid));
                assert(cache@[tid].pkg == p);
            }
            if want.contains(p) {
                let tid = choose|tid: i32| cache@.dom().contains(tid) && cache@[tid].pkg == p;
                assert(tasks.contains_key(tid));
            }
        }
        assert(all.to_set() =~= want);
        all.unique_seq_to_set();
        assert(all.len() == names@.len());
    }
    (cache.tasks.len(), names.len())
}

// The status.

/// What the status shows besides the counts.
pub struct StatusInfo {
    pub parse_fail: usize,
    pub total_procs: u16,
    pub interval: u64,
    pub tuning_apps: usize,
    pub tuning_threads: usize,
}

pub open spec fn whole(n: int) -> JsonV {
    JsonV::Whole(n)
}

/// At least one.
pub open spec fn at_least_one(n: u64) -> int {
    if n < 1 {
        1
    } else {
        n as int
    }
}

/// The list of some CPUs of the device; empty before the device is known.
pub open spec fn cpus_json(topo: Option<CpuTopology>, pick: spec_fn(CpuTopology) -> CpuSet) -> JsonV {
    match topo {
        Some(t) => JsonV::Text(ranges_from(pick(t), 0)),
        None => JsonV::Text(seq![]),
    }
}

/// The status of the program.
pub open spec fn status_of(s: WebStats, info: StatusInfo, topo: Option<CpuTopology>) -> JsonV {
    JsonV::Object(
        Map::<Seq<char>, JsonV>::empty().insert("version"@, JsonV::Text(VERSION@)).insert(
            "mode"@,
            JsonV::Text(
                if s.ebpf {
                    "ebpf"@
                } else {
                    "proc"@
                },
            ),
        ).insert("uptime"@, whole(s.uptime as int)).insert("rules"@, whole(s.rules as int)).insert(
            "pkgs"@,
            whole(s.pkgs as int),
        ).insert("parse_fail"@, whole(info.parse_fail as int)).insert(
            "hit_pkgs"@,
            whole(s.hit_pkgs as int),
        ).insert("threads"@, whole(s.threads as int)).insert(
            "total_procs"@,
            whole(info.total_procs as int),
        ).insert("interval"@, whole(at_least_one(info.interval))).insert(
            "e_core"@,
            cpus_json(topo, |t: CpuTopology| t.e_core),
        ).insert("p_core"@, cpus_json(topo, |t: CpuTopology| t.p_core)).insert(
            "hp_core"@,
            cpus_json(topo, |t: CpuTopology| t.hp_core),
        ).insert(
            "all_core"@,
            match topo {
                Some(t) => JsonV::Text(t.present_str@),
                None => JsonV::Text(seq![]),
            },
        ).insert(
            "cores"@,
            match topo {
                Some(t) => whole(cpus_below(t.present_cpus, MAX_CPUS as int) as int),
                None => whole(0),
            },
        ).insert(
            "cpuset_enabled"@,
            JsonV::Bool(
                match topo {
                    Some(t) => t.cpuset_enabled,
                    None => false,
                },
            ),
        ).insert("tuning_apps"@, whole(info.tuning_apps as int)).insert(
            "tuning_threads"@,
            whole(info.tuning_threads as int),
        ),
    )
}

fn empty_text() -> (r: Json)
    ensures
        r@ == JsonV::Text(seq![]),
{
    let s = String::new();
    assert(s@ =~= seq![]);
    Json::Text(s)
}

fn one_or_more(n: u64) -> (r: u64)
    ensures
        r as int == at_least_one(n),
{
    if n < 1 {
        1
    } else {
        n
    }
}

/// The status of the program; `topo` are the CPUs of the device, once they are known.
pub fn status_json(s: &WebStats, info: &StatusInfo, topo: &Option<CpuTopology>) -> (r: String)
    ensures
        r@ == json_text(status_of(*s, *info, *topo)),
        reads_as(r@, status_of(*s, *info, *topo)),
{
    let mut fields = no_fields();
    add_field(&mut fields, "version", Json::of_str(VERSION));
    add_field(
        &mut fields,
        "mode",
        Json::of_str(
            if s.ebpf {
                "ebpf"
            } else {
                "proc"
            },
        ),
    );
    add_field(&mut fields, "uptime", Json::Unsigned(s.uptime));
    add_field(&mut fields, "rules", Json::Unsigned(s.rules as u64));
    add_field(&mut fields, "pkgs", Json::Unsigned(s.pkgs as u64));
    add_field(&mut fields, "parse_fail", Json::Unsigned(info.parse_fail as u64));
    add_field(&mut fields, "hit_pkgs", Json::Unsigned(s.hit_pkgs as u64));
    add_field(&mut fields, "threads", Json::Unsigned(s.threads as u64));
    add_field(&mut fields, "total_procs", Json::Unsigned(info.total_procs as u64));
    add_field(&mut fields, "interval", Json::Unsigned(one_or_more(info.interval)));
    let (e, p, hp, all, cores, enabled) = match topo {
        Some(t) => (
            Json::Text(t.e_core.to_range_string()),
            Json::Text(t.p_core.to_range_string()),
            Json::Text(t.hp_core.to_range_string()),
            Json::of_str(t.present_str.as_str()),
            Json::Unsigned(t.present_cpus.count() as u64),
            t.cpuset_enabled,
        ),
        None => (
            empty_text(),
            empty_text(),
            empty_text(),
            empty_text(),
            Json::Unsigned(0),
            false,
        ),
    };
    add_field(&mut fields, "e_core", e);
    add_field(&mut fields, "p_core", p);
    add_field(&mut fields, "hp_core", hp);
    add_field(&mut fields, "all_core", all);
    add_field(&mut fields, "cores", cores);
    add_field(&mut fields, "cpuset_enabled", Json::Bool(enabled));
    add_field(&mut fields, "tuning_apps", Json::Unsigned(info.tuning_apps as u64));
    add_field(&mut fields, "tuning_threads", Json::Unsigned(info.tuning_threads as u64));
    let value = Json::Object(fields);
    proof {
        let m = value@->Object_0;
        assert forall|k: Seq<char>| #[trigger] m.contains_key(k) implies plain(m[k], 126) by {
            assert(leaf(m[k]));
        }
    }
    value.text()
}

// The rules.

/// A CPU rule in force; the thread of a package rule is empty.
pub struct RuleEntry {
    pub pkg: String,
    pub thread: String,
    pub cpus: CpuSet,
}

pub open spec fn rule_packages(rules: Seq<RuleEntry>) -> Seq<Seq<char>> {
    Seq::new(rules.len(), |i: int| rules[i].pkg@)
}

/// A rule of a package.
pub open spec fn rule_item(r: RuleEntry, topo: CpuTopology) -> JsonV {
    JsonV::Object(
        Map::<Seq<char>, JsonV>::empty().insert("thread"@, JsonV::Text(r.thread@)).insert(
            "spec"@,
            JsonV::Text(spec_name_of(r.cpus, topo)),
        ),
    )
}

/// Those of the first `n` rules that are rules of a package.
pub open spec fn items_of(rules: Seq<RuleEntry>, topo: CpuTopology, pkg: Seq<char>, n: int) -> Seq<
    JsonV,
>
    decreases n,
{
    if n <= 0 {
        seq![]
    } else if rules[n - 1].pkg@ == pkg {
        items_of(rules, topo, pkg, n - 1).push(rule_item(rules[n - 1], topo))
    } else {
        items_of(rules, topo, pkg, n - 1)
    }
}

/// A package with its rules.
pub open spec fn rule_group(rules: Seq<RuleEntry>, topo: CpuTopology, pkg: Seq<char>) -> JsonV {
    JsonV::Object(
        Map::<Seq<char>, JsonV>::empty().insert("pkg"@, JsonV::Text(pkg)).insert(
            "items"@,
            JsonV::List(items_of(rules, topo, pkg, rules.len() as int)),
        ),
    )
}

/// The packages with rules, in the order in which each is named first.
pub open spec fn rule_groups(rules: Seq<RuleEntry>, topo: CpuTopology) -> Seq<JsonV> {
    let names = distinct_texts(rule_packages(rules));
    Seq::new(names.len(), |i: int| rule_group(rules, topo, names[i]))
}

pub open spec fn groups_doc(groups: Seq<JsonV>) -> JsonV {
    JsonV::Object(Map::<Seq<char>, JsonV>::empty().insert("rules"@, JsonV::List(groups)))
}

/// The rules in force, by package.
pub open spec fn rules_of_config(rules: Seq<RuleEntry>, topo: Option<CpuTopology>) -> JsonV {
    match topo {
        Some(t) => groups_doc(rule_groups(rules, t)),
        None => groups_doc(seq![]),
    }
}

proof fn lemma_items_plain(rules: Seq<RuleEntry>, topo: CpuTopology, pkg: Seq<char>, n: int)
    ensures
        forall|i: int|
            0 <= i < items_of(rules, topo, pkg, n).len() ==> plain(
                #[trigger] items_of(rules, topo, pkg, n)[i],
                123,
            ),
    decreases n,
{
    if n > 0 {
        lemma_items_plain(rules, topo, pkg, n - 1);
        let m = rule_item(rules[n - 1], topo)->Object_0;
        assert forall|k: Seq<char>| #[trigger] m.contains_key(k) implies plain(m[k], 122) by {
            assert(leaf(m[k]));
        }
        assert(plain(rule_item(rules[n - 1], topo), 123));
        let now = items_of(rules, topo, pkg, n);
        let before = items_of(rules, topo, pkg, n - 1);
        assert forall|i: int| 0 <= i < now.len() implies plain(#[trigger] now[i], 123) by {
            if i < before.len() {
                assert(now[i] == before[i]);
            }
        }
    }
}

proof fn lemma_group_plain(rules: Seq<RuleEntry>, topo: CpuTopology, pkg: Seq<char>)
    ensures
        plain(rule_group(rules, topo, pkg), 125),
{
    lemma_items_plain(rules, topo, pkg, rules.len() as int);
    let items = JsonV::List(items_of(rules, topo, pkg, rules.len() as int));
    assert(plain(items, 124));
    let m = rule_group(rules, topo, pkg)->Object_0;
    assert forall|k: Seq<char>| #[trigger] m.contains_key(k) implies plain(m[k], 124) by {
        assert(leaf(m[k]) || m[k] == items);
    }
}

proof fn lemma_groups_plain(groups: Seq<JsonV>)
    requires
        forall|i: int| 0 <= i < groups.len() ==> plain(#[trigger] groups[i], 125),
    ensures
        plain(groups_doc(groups), 127),
{
    let list = JsonV::List(groups);
    assert(plain(list, 126));
    let m = groups_doc(groups)->Object_0;
    assert forall|k: Seq<char>| #[trigger] m.contains_key(k) implies plain(m[k], 126) by {
        assert(m[k] == list);
    }
}

fn package_items(rules: &Vec<RuleEntry>, topo: &CpuTopology, pkg: &str) -> (r: Json)
    ensures
        r@ == rule_group(rules@, *topo, pkg@),
{
    let mut items: Vec<Json> = Vec::new();
    let mut i: usize = 0;
    assert(list_view(items@) =~= seq![]);
    while i < rules.len()
        invariant
            i <= rules@.len(),
            list_view(items@) == items_of(rules@, *topo, pkg@, i as int),
        decreases rules@.len() - i,
    {
        if equal(rules[i].pkg.as_str(), pkg) {
            let mut fields = no_fields();
            add_field(&mut fields, "thread", Json::of_str(rules[i].thread.as_str()));
            add_field(&mut fields, "spec", Json::Text(spec_name(&rules[i].cpus, topo)));
            let one = Json::Object(fields);
            assert(list_view(items@.push(one)) =~= list_view(items@).push(one@));
            items.push(one);
        }
        i += 1;
    }
    let list = Json::List(items);
    proof {
        lemma_list_view(list);
    }
    let mut fields = no_fields();
    add_field(&mut fields, "pkg", Json::of_str(pkg));
    add_field(&mut fields, "items", list);
    Json::Object(fields)
}

fn package_order(rules: &Vec<RuleEntry>) -> (r: Vec<String>)
    ensures
        string_views(r@) == distinct_texts(rule_packages(rules@)),
{
    let mut out: Vec<String> = Vec::new();
    let mut i: usize = 0;
    let ghost all = rule_packages(rules@);
    assert(all.take(0) =~= seq![]);
    assert(string_views(out@) =~= seq![]);
    while i < rules.len()
        invariant
            i <= rules@.len(),
            all == rule_packages(rules@),
            string_views(out@) == distinct_texts(all.take(i as int)),
        decreases rules@.len() - i,
    {
        proof {
            assert(all.take(i + 1).drop_last() =~= all.take(i as int));
            assert(all.take(i + 1).last() == rules@[i as int].pkg@);
        }
        if !contains_text(&out, rules[i].pkg.as_str()) {
            let own = rules[i].pkg.clone();
            assert(string_views(out@.push(own)) =~= string_views(out@).push(own@));
            out.push(own);
        }
        i += 1;
    }
    assert(all.take(i as int) =~= all);
    out
}

/// The rules in force, by package; none before the device is known.
pub fn rules_json(rules: &Vec<RuleEntry>, topo: &Option<CpuTopology>) -> (r: String)
    ensures
        r@ == json_text(rules_of_config(rules@, *topo)),
        reads_as(r@, rules_of_config(rules@, *topo)),
{
    let mut groups: Vec<Json> = Vec::new();
    if let Some(t) = topo {
        let names = package_order(rules);
        let ghost order = string_views(names@);
        let mut i: usize = 0;
        while i < names.len()
            invariant
                i <= names@.len(),
                order == string_views(names@),
                groups@.len() == i,
                forall|k: int|
                    0 <= k < i ==> (#[trigger] groups@[k])@ == rule_group(rules@, *t, order[k]),
            decreases names@.len() - i,
        {
            assert(order[i as int] == names@[i as int]@);
            groups.push(package_items(rules, t, names[i].as_str()));
            i += 1;
        }
        proof {
            assert(list_view(groups@) =~= rule_groups(rules@, *t));
            assert forall|k: int| 0 <= k < rule_groups(rules@, *t).len() implies plain(
                #[trigger] rule_groups(rules@, *t)[k],
                125,
            ) by {
                lemma_group_plain(rules@, *t, order[k]);
            }
        }
    } else {
        assert(list_view(groups@) =~= seq![]);
    }
    let list = Json::List(groups);
    proof {
        lemma_list_view(list);
        lemma_groups_plain(list_view(groups@));
    }
    let mut fields = no_fields();
    add_field(&mut fields, "rules", list);
    let value = Json::Object(fields);
    value.text()
}

// The settings and the tuning.

/// The settings as they are in force.
pub struct ConfigInfo {
    pub mode: u8,
    pub ebpf_active: bool,
    pub ebpf_available: bool,
    pub interval: u64,
    pub base_cpuset: String,
    pub config_file: String,
    pub cpuset_enabled: bool,
}

/// The settings as they are in force.
pub open spec fn config_shown(c: ConfigInfo) -> JsonV {
    JsonV::Object(
        Map::<Seq<char>, JsonV>::empty().insert("mode"@, whole(c.mode as int)).insert(
            "mode_active"@,
            JsonV::Text(
                if c.ebpf_active {
                    "ebpf"@
                } else {
                    "proc"@
                },
            ),
        ).insert("ebpf_available"@, JsonV::Bool(c.ebpf_available)).insert(
            "interval"@,
            whole(at_least_one(c.interval)),
        ).insert("cpuset_name"@, JsonV::Text(base_name(c.base_cpuset@))).insert(
            "config_file"@,
            JsonV::Text(c.config_file@),
        ).insert("cpuset_enabled"@, JsonV::Bool(c.cpuset_enabled)),
    )
}

/// The settings as they are in force.
pub fn config_json(c: &ConfigInfo) -> (r: String)
    ensures
        r@ == json_text(config_shown(*c)),
        reads_as(r@, config_shown(*c)),
{
    let mut fields = no_fields();
    add_field(&mut fields, "mode", Json::Unsigned(c.mode as u64));
    add_field(
        &mut fields,
        "mode_active",
        Json::of_str(
            if c.ebpf_active {
                "ebpf"
            } else {
                "proc"
            },
        ),
    );
    add_field(&mut fields, "ebpf_available", Json::Bool(c.ebpf_available));
    add_field(&mut fields, "interval", Json::Unsigned(one_or_more(c.interval)));
    add_field(&mut fields, "cpuset_name", Json::Text(base_of(c.base_cpuset.as_str())));
    add_field(&mut fields, "config_file", Json::of_str(c.config_file.as_str()));
    add_field(&mut fields, "cpuset_enabled", Json::Bool(c.cpuset_enabled));
    let value = Json::Object(fields);
    proof {
        let m = value@->Object_0;
        assert forall|k: Seq<char>| #[trigger] m.contains_key(k) implies plain(m[k], 126) by {
            assert(leaf(m[k]));
        }
    }
    value.text()
}

proof fn lemma_texts_plain(items: Seq<String>, n: int)
    requires
        n >= 1,
    ensures
        plain(JsonV::List(texts_view(items)), n),
{
    assert forall|i: int| 0 <= i < texts_view(items).len() implies plain(
        #[trigger] texts_view(items)[i],
        n - 1,
    ) by {}
}

/// The tuning in force, what the device offers, and the warnings.
pub fn tuning_json(
    tuning: &Tuning,
    roots: &Vec<String>,
    v2: bool,
    v1: bool,
    uclamp: bool,
) -> (r: String)
    ensures
        r@ == json_text(
            panel_json(
                tuning@.config,
                capabilities_json(texts_view(roots@), v2, v1, uclamp),
                texts_view(tuning.warnings@),
            ),
        ),
        reads_as(
            r@,
            panel_json(
                tuning@.config,
                capabilities_json(texts_view(roots@), v2, v1, uclamp),
                texts_view(tuning.warnings@),
            ),
        ),
{
    let capabilities = cgroup_capabilities(roots, v2, v1, uclamp);
    let ghost offered = capabilities@;
    proof {
        lemma_texts_plain(roots@, 125);
        let m = offered->Object_0;
        assert forall|k: Seq<char>| #[trigger] m.contains_key(k) implies plain(m[k], 125) by {
            assert(leaf(m[k]) || m[k] == JsonV::List(texts_view(roots@)));
        }
        assert(plain(offered, 126));
    }
    let value = web_value(tuning, capabilities);
    proof {
        lemma_config_plain(tuning.config, 127);
        lemma_texts_plain(tuning.warnings@, 126);
        let m = value@->Object_0;
        let groups = JsonV::List(groups_json(tuning@.config.memory_groups));
        let apps = JsonV::List(apps_json(tuning@.config.apps));
        let warnings = JsonV::List(texts_view(tuning.warnings@));
        assert forall|k: Seq<char>| #[trigger] m.contains_key(k) implies plain(m[k], 126) by {
            assert(leaf(m[k]) || m[k] == groups || m[k] == apps || m[k] == warnings || m[k]
                == offered);
        }
    }
    value.text()
}

} // verus!
