//! Which settings and tuning documents are accepted, and what is read from them.

use crate::api_laws::stated;
use crate::apply_laws::lemma_held;
use crate::json::{at, field, JsonV};
use crate::settings::{
    damaged_message, initial, name_fits, path_fits, settings_of, unread_message, RULE_FILE_NAME,
    SETTINGS_FILE_NAME, SettingsV,
};
use crate::text::{byte_len, has_control, occurs, trim};
use crate::tuning::{
    app_of, apps_of_list, apps_wrong, cgroup_template, config_of, fresh, group_name, group_of,
    groups_of_list, groups_wrong, invalid_warning, limit_field, limit_of, package_name,
    parsed_config, rule_of, rules_of_list, signed_field, state_path, text_field, thread_pattern,
    unreadable_warning, unsigned_field, warned, AppV, ConfigV, GroupV, RuleV, TUNING_FILE_NAME,
    TuningV, WarningV,
};
use crate::tuning_laws::{lemma_apps_distinct, lemma_groups_distinct};
use vstd::prelude::*;

verus! {

// Settings.

/// The settings without a file: the panel is off, the mode is the first, rules are checked every two
/// seconds, and the names are those of the program.
pub proof fn law_settings_without_a_file(dir: Option<Seq<char>>)
    ensures
        ({
            let s = initial(dir);
            &&& !s.web_enable
            &&& s.mode == 0
            &&& s.check_interval == 2
            &&& s.cpuset_name == "AppOpt"@
            &&& s.config_file == state_path(dir, "applist.conf"@)
        }),
{
}

/// What a document states of the settings counts, numbers as near as they may be: the mode up to 2,
/// the interval from 1 to 3600. A name or path that does not fit, and what is not stated, is as
/// before.
pub proof fn law_settings_are_taken_from_a_document(v: JsonV, d: SettingsV, n: int, s: Seq<char>)
    requires
        0 <= d.mode <= 2,
        1 <= d.check_interval <= 3600,
        0 <= n <= 0xffff_ffff_ffff_ffff,
    ensures
        at(v, "web_enable"@) == JsonV::Bool(true) ==> settings_of(v, d).web_enable,
        at(v, "web_enable"@) == JsonV::Bool(false) ==> !settings_of(v, d).web_enable,
        !(at(v, "web_enable"@) is Bool) ==> settings_of(v, d).web_enable == d.web_enable,
        at(v, "mode"@) == JsonV::Whole(n) ==> settings_of(v, d).mode == if n > 2 {
            2
        } else {
            n
        },
        !(at(v, "mode"@) is Whole) ==> settings_of(v, d).mode == d.mode,
        at(v, "check_interval"@) == JsonV::Whole(n) ==> settings_of(v, d).check_interval == if n
            == 0 {
            1
        } else if n > 3600 {
            3600
        } else {
            n
        },
        !(at(v, "check_interval"@) is Whole) ==> settings_of(v, d).check_interval
            == d.check_interval,
        at(v, "cpuset_name"@) == JsonV::Text(s) ==> settings_of(v, d).cpuset_name == if name_fits(
            s,
        ) {
            s
        } else {
            d.cpuset_name
        },
        !(at(v, "cpuset_name"@) is Text) ==> settings_of(v, d).cpuset_name == d.cpuset_name,
        at(v, "config_file"@) == JsonV::Text(s) ==> settings_of(v, d).config_file == if path_fits(
            s,
        ) {
            s
        } else {
            d.config_file
        },
        !(at(v, "config_file"@) is Text) ==> settings_of(v, d).config_file == d.config_file,
{
}

/// The files of the program have the names under which users know them.
pub proof fn law_names_of_the_files()
    ensures
        SETTINGS_FILE_NAME@ == "AppOpt.json"@,
        RULE_FILE_NAME@ == "applist.conf"@,
        TUNING_FILE_NAME@ == "AppOpt.tuning.json"@,
{
}

// Fields.

/// A number in a document is read if it is whole and within its bounds; a field that is missing or
/// null gives nothing; anything else is refused, with words that name the field.
pub proof fn law_numbers_in_documents(v: JsonV, name: Seq<char>, min: int, max: int)
    requires
        -0x8000_0000_0000_0000 <= min <= 0,
        0 <= max <= 0x7fff_ffff_ffff_ffff,
    ensures
        at(v, name) is Null ==> unsigned_field(v, name, max) == Ok::<Option<int>, Seq<char>>(None)
            && signed_field(v, name, min, max) == Ok::<Option<int>, Seq<char>>(None),
        at(v, name) matches JsonV::Whole(n) ==> {
            &&& 0 <= n <= max ==> unsigned_field(v, name, max) == Ok::<Option<int>, Seq<char>>(
                Some(n),
            )
            &&& min <= n <= max ==> signed_field(v, name, min, max) == Ok::<
                Option<int>,
                Seq<char>,
            >(Some(n))
            &&& n < 0 || n > max ==> unsigned_field(v, name, max) is Err
            &&& n < min || n > max ==> signed_field(v, name, min, max) is Err
            &&& max < n <= 0x7fff_ffff_ffff_ffff ==> unsigned_field(v, name, max) == Err::<
                Option<int>,
                Seq<char>,
            >(name + " 超出范围"@) && signed_field(v, name, min, max) == Err::<
                Option<int>,
                Seq<char>,
            >(name + " 超出范围"@)
        },
        !(at(v, name) is Null) && !(at(v, name) is Whole) ==> unsigned_field(v, name, max) == Err::<
            Option<int>,
            Seq<char>,
        >(name + " 必须是整数"@) && signed_field(v, name, min, max) == Err::<
            Option<int>,
            Seq<char>,
        >(name + " 必须是整数"@),
{
}

/// A text in a document is read without the whitespace around it if it is short enough and has no
/// control characters; one of whitespace, null or a missing field give nothing; anything else is
/// refused, with words that name the field. A memory limit is such a text of less than 64 bytes.
pub proof fn law_texts_in_documents(v: JsonV, name: Seq<char>, max: int, allow_max: bool)
    ensures
        at(v, name) is Null ==> text_field(v, name, max) == Ok::<Option<Seq<char>>, Seq<char>>(None)
            && limit_field(v, name, allow_max) == Ok::<Option<Seq<char>>, Seq<char>>(None),
        at(v, name) matches JsonV::Text(s) ==> {
            let t = trim(s);
            &&& t.len() == 0 ==> text_field(v, name, max) == Ok::<Option<Seq<char>>, Seq<char>>(
                None,
            ) && limit_field(v, name, allow_max) == Ok::<Option<Seq<char>>, Seq<char>>(None)
            &&& t.len() > 0 && byte_len(t) < max && !has_control(t) ==> text_field(v, name, max)
                == Ok::<Option<Seq<char>>, Seq<char>>(Some(t))
            &&& t.len() > 0 && (byte_len(t) >= max || has_control(t)) ==> text_field(v, name, max)
                == Err::<Option<Seq<char>>, Seq<char>>(name + " 格式无效"@)
            &&& t.len() > 0 && byte_len(t) < 64 && !has_control(t) ==> (match limit_of(
                t,
                name,
                allow_max,
            ) {
                Ok(bytes) => limit_field(v, name, allow_max) == Ok::<
                    Option<Seq<char>>,
                    Seq<char>,
                >(Some(bytes)),
                Err(e) => limit_field(v, name, allow_max) == Err::<
                    Option<Seq<char>>,
                    Seq<char>,
                >(e),
            })
            &&& t.len() > 0 && (byte_len(t) >= 64 || has_control(t)) ==> limit_field(
                v,
                name,
                allow_max,
            ) is Err
        },
        !(at(v, name) is Null) && !(at(v, name) is Text) ==> text_field(v, name, max) == Err::<
            Option<Seq<char>>,
            Seq<char>,
        >(name + " 必须是字符串"@) && limit_field(v, name, allow_max) is Err,
{
}

// Groups, rules and applications.

/// Whether a value is a number from `min` to `max`, or nothing.
pub open spec fn number_or_none(v: JsonV, min: int, max: int) -> bool {
    v is Null || (v matches JsonV::Whole(n) && min <= n <= max)
}

/// Whether what was read is the number, or nothing.
pub open spec fn same_number(v: JsonV, read: Option<int>) -> bool {
    match v {
        JsonV::Whole(n) => read == Some(n),
        _ => read is None,
    }
}

/// A memory group is accepted exactly if it is an object with the name of a group, a path that a
/// group may have, a swappiness up to 200, limits, and a truth value for the whole group being
/// killed, as far as it states them. What it states is what is read.
#[verifier::rlimit(40)]
#[verifier::spinoff_prover]
pub proof fn law_which_memory_groups_are_accepted(v: JsonV, name: Seq<char>, path: Seq<char>)
    requires
        stated(v, "name"@, name),
        stated(v, "path"@, path),
    ensures
        ({
            let r = group_of(v);
            let oom = at(v, "oom_group"@);
            &&& r is Ok <==> group_name(name) && cgroup_template(path) && number_or_none(
                at(v, "swappiness"@),
                0,
                200,
            ) && limit_field(v, "memory_min"@, false) is Ok && limit_field(
                v,
                "memory_low"@,
                false,
            ) is Ok && limit_field(v, "memory_high"@, false) is Ok && limit_field(
                v,
                "memory_max"@,
                true,
            ) is Ok && (oom is Null || oom is Bool)
            &&& r matches Ok(g) ==> {
                &&& g.name == name
                &&& g.path == path
                &&& same_number(at(v, "swappiness"@), g.swappiness)
                &&& limit_field(v, "memory_min"@, false) == Ok::<Option<Seq<char>>, Seq<char>>(
                    g.memory_min,
                )
                &&& limit_field(v, "memory_low"@, false) == Ok::<Option<Seq<char>>, Seq<char>>(
                    g.memory_low,
                )
                &&& limit_field(v, "memory_high"@, false) == Ok::<Option<Seq<char>>, Seq<char>>(
                    g.memory_high,
                )
                &&& limit_field(v, "memory_max"@, true) == Ok::<Option<Seq<char>>, Seq<char>>(
                    g.memory_max,
                )
                &&& g.oom_group == match oom {
                    JsonV::Bool(b) => Some(b),
                    _ => None,
                }
            }
        }),
{
}

/// A thread rule is accepted exactly if it is an object with a pattern, bounds for the utilization
/// up to 1024 of which the lower is not above the upper, and a nice value from -20 to 19, as far as
/// it states them; it must state one of the three. What it states is what is read.
#[verifier::rlimit(40)]
#[verifier::spinoff_prover]
pub proof fn law_which_thread_rules_are_accepted(v: JsonV, pattern: Seq<char>)
    requires
        stated(v, "pattern"@, pattern),
    ensures
        ({
            let r = rule_of(v);
            let (min, max, nice) = (at(v, "uclamp_min"@), at(v, "uclamp_max"@), at(v, "nice"@));
            let crossing = min matches JsonV::Whole(a) && max matches JsonV::Whole(b) && a > b;
            &&& r is Ok <==> thread_pattern(pattern) && number_or_none(min, 0, 1024)
                && number_or_none(max, 0, 1024) && number_or_none(nice, -20, 19) && !(min is Null
                && max is Null && nice is Null) && !crossing
            &&& r matches Ok(t) ==> t.pattern == pattern && same_number(min, t.uclamp_min)
                && same_number(max, t.uclamp_max) && same_number(nice, t.nice)
        }),
{
}

/// The rules that a list states are those of its items, in their order, if all are accepted.
pub proof fn law_lists_of_rules(items: Seq<JsonV>, n: int)
    requires
        0 <= n <= items.len(),
    ensures
        rules_of_list(items, n) is Ok <==> forall|i: int|
            0 <= i < n ==> rule_of(#[trigger] items[i]) is Ok,
        rules_of_list(items, n) matches Ok(rules) ==> rules.len() == n && forall|i: int|
            0 <= i < n ==> rule_of(#[trigger] items[i]) == Ok::<RuleV, Seq<char>>(rules[i]),
    decreases n,
{
    if n > 0 {
        law_lists_of_rules(items, n - 1);
        assert(0 <= n - 1 < n);
        if rules_of_list(items, n) is Ok {
            let (now, before) = (rules_of_list(items, n)->Ok_0, rules_of_list(items, n - 1)->Ok_0);
            assert forall|i: int| 0 <= i < n implies rule_of(#[trigger] items[i]) == Ok::<
                RuleV,
                Seq<char>,
            >(now[i]) by {
                if i < n - 1 {
                    assert(now[i] == before[i]);
                }
            }
        } else if rules_of_list(items, n - 1) is Err {
            let i = choose|i: int| 0 <= i < n - 1 && !(rule_of(#[trigger] items[i]) is Ok);
            assert(0 <= i < n);
        } else {
            assert(!(rule_of(items[n - 1]) is Ok));
        }
    }
}

/// An application is accepted exactly if it is an object with the name of a package, the name of a
/// memory group and a list of thread rules, as far as it states them; it must state one of the two.
#[verifier::rlimit(40)]
#[verifier::spinoff_prover]
pub proof fn law_which_applications_are_accepted(v: JsonV, pkg: Seq<char>)
    requires
        stated(v, "pkg"@, pkg),
    ensures
        ({
            let r = app_of(v);
            let (group, threads) = (at(v, "memory_group"@), at(v, "threads"@));
            let blank = group is Null || (group matches JsonV::Text(s) && trim(s).len() == 0);
            let named = group matches JsonV::Text(s) && trim(s).len() > 0 && group_name(trim(s));
            let listed = threads matches JsonV::List(items) && forall|i: int|
                0 <= i < items.len() ==> rule_of(#[trigger] items[i]) is Ok;
            let some = threads matches JsonV::List(items) && items.len() > 0;
            &&& r is Ok <==> package_name(pkg) && (blank || named) && (threads is Null || listed)
                && (named || some)
            &&& r matches Ok(a) ==> {
                &&& a.pkg == pkg
                &&& blank ==> a.memory_group is None
                &&& named ==> a.memory_group == Some(trim(group->Text_0))
                &&& threads is Null ==> a.threads.len() == 0
                &&& threads matches JsonV::List(items) ==> a.threads.len() == items.len()
                    && forall|i: int|
                    0 <= i < items.len() ==> rule_of(#[trigger] items[i]) == Ok::<RuleV, Seq<char>>(
                        a.threads[i],
                    )
            }
        }),
{
    if let JsonV::List(items) = at(v, "threads"@) {
        law_lists_of_rules(items, items.len() as int);
    }
}

proof fn lemma_lists_of_groups(items: Seq<JsonV>, n: int)
    requires
        0 <= n <= items.len(),
    ensures
        groups_of_list(items, n) is Ok <==> forall|i: int|
            0 <= i < n ==> group_of(#[trigger] items[i]) is Ok,
        groups_of_list(items, n) matches Ok(groups) ==> groups.len() == n && forall|i: int|
            0 <= i < n ==> group_of(#[trigger] items[i]) == Ok::<GroupV, Seq<char>>(groups[i]),
    decreases n,
{
    if n > 0 {
        lemma_lists_of_groups(items, n - 1);
        assert(0 <= n - 1 < n);
        if groups_of_list(items, n) is Ok {
            let (now, before) = (groups_of_list(items, n)->Ok_0, groups_of_list(items, n - 1)->Ok_0);
            assert forall|i: int| 0 <= i < n implies group_of(#[trigger] items[i]) == Ok::<
                GroupV,
                Seq<char>,
            >(now[i]) by {
                if i < n - 1 {
                    assert(now[i] == before[i]);
                }
            }
        } else if groups_of_list(items, n - 1) is Err {
            let i = choose|i: int| 0 <= i < n - 1 && !(group_of(#[trigger] items[i]) is Ok);
            assert(0 <= i < n);
        } else {
            assert(!(group_of(items[n - 1]) is Ok));
        }
    }
}

proof fn lemma_lists_of_apps(items: Seq<JsonV>, n: int)
    requires
        0 <= n <= items.len(),
    ensures
        apps_of_list(items, n) is Ok <==> forall|i: int|
            0 <= i < n ==> app_of(#[trigger] items[i]) is Ok,
        apps_of_list(items, n) matches Ok(apps) ==> apps.len() == n && forall|i: int|
            0 <= i < n ==> app_of(#[trigger] items[i]) == Ok::<AppV, Seq<char>>(apps[i]),
    decreases n,
{
    if n > 0 {
        lemma_lists_of_apps(items, n - 1);
        assert(0 <= n - 1 < n);
        if apps_of_list(items, n) is Ok {
            let (now, before) = (apps_of_list(items, n)->Ok_0, apps_of_list(items, n - 1)->Ok_0);
            assert forall|i: int| 0 <= i < n implies app_of(#[trigger] items[i]) == Ok::<
                AppV,
                Seq<char>,
            >(now[i]) by {
                if i < n - 1 {
                    assert(now[i] == before[i]);
                }
            }
        } else if apps_of_list(items, n - 1) is Err {
            let i = choose|i: int| 0 <= i < n - 1 && !(app_of(#[trigger] items[i]) is Ok);
            assert(0 <= i < n);
        } else {
            assert(!(app_of(items[n - 1]) is Ok));
        }
    }
}

/// Whether no two groups have one name, no two applications one package, and every group that an
/// application names is there.
pub open spec fn consistent(groups: Seq<GroupV>, apps: Seq<AppV>) -> bool {
    &&& forall|i: int, j: int|
        0 <= i < j < groups.len() ==> (#[trigger] groups[i]).name != (#[trigger] groups[j]).name
    &&& forall|i: int, j: int|
        0 <= i < j < apps.len() ==> (#[trigger] apps[i]).pkg != (#[trigger] apps[j]).pkg
    &&& forall|i: int|
        0 <= i < apps.len() ==> ((#[trigger] apps[i]).memory_group matches Some(g) ==> exists|j: int|
            0 <= j < groups.len() && (#[trigger] groups[j]).name == g)
}

/// A tuning document with a list of memory groups and one of applications is accepted exactly if
/// each of them is, and their names are consistent. What is read are those groups and applications,
/// in their order.
#[verifier::rlimit(40)]
#[verifier::spinoff_prover]
pub proof fn law_which_tunings_are_accepted(v: JsonV, gs: Seq<JsonV>, xs: Seq<JsonV>)
    requires
        at(v, "memory_groups"@) == JsonV::List(gs),
        at(v, "apps"@) == JsonV::List(xs),
    ensures
        ({
            let r = config_of(v);
            let each = (forall|i: int| 0 <= i < gs.len() ==> group_of(#[trigger] gs[i]) is Ok) && (
            forall|i: int| 0 <= i < xs.len() ==> app_of(#[trigger] xs[i]) is Ok);
            let groups = Seq::new(gs.len(), |i: int| group_of(gs[i])->Ok_0);
            let apps = Seq::new(xs.len(), |i: int| app_of(xs[i])->Ok_0);
            &&& r is Ok <==> each && consistent(groups, apps)
            &&& r matches Ok(c) ==> c.memory_groups == groups && c.apps == apps
        }),
{
    let groups = Seq::new(gs.len(), |i: int| group_of(gs[i])->Ok_0);
    let apps = Seq::new(xs.len(), |i: int| app_of(xs[i])->Ok_0);
    lemma_lists_of_groups(gs, gs.len() as int);
    lemma_lists_of_apps(xs, xs.len() as int);
    if groups_of_list(gs, gs.len() as int) is Ok && apps_of_list(xs, xs.len() as int) is Ok {
        let (g, a) = (
            groups_of_list(gs, gs.len() as int)->Ok_0,
            apps_of_list(xs, xs.len() as int)->Ok_0,
        );
        assert forall|i: int| 0 <= i < g.len() implies g[i] == groups[i] by {
            assert(group_of(gs[i]) is Ok);
        }
        assert forall|i: int| 0 <= i < a.len() implies a[i] == apps[i] by {
            assert(app_of(xs[i]) is Ok);
        }
        assert(g =~= groups);
        assert(a =~= apps);
        lemma_groups_distinct(g, g.len() as int);
        lemma_apps_distinct(a, g, a.len() as int);
    }
}

/// A list that is missing or null holds nothing; one that is no list is refused, and so is a
/// document that is no object.
pub proof fn law_tunings_without_lists(v: JsonV)
    ensures
        !(v is Object) ==> config_of(v) is Err,
        v is Object && at(v, "memory_groups"@) is Null && at(v, "apps"@) is Null ==> config_of(v)
            == Ok::<ConfigV, Seq<char>>(ConfigV { memory_groups: seq![], apps: seq![] }),
        !(at(v, "memory_groups"@) is Null) && !(at(v, "memory_groups"@) is List) ==> config_of(
            v,
        ) is Err,
        !(at(v, "apps"@) is Null) && !(at(v, "apps"@) is List) ==> config_of(v) is Err,
{
    let groups = Seq::<GroupV>::empty();
    let apps = Seq::<AppV>::empty();
    assert(groups_wrong(groups, 0) is None);
    assert(apps_wrong(apps, groups, 0) is None);
}

/// A document whose text is no JSON is refused with the words of the reader behind a mark of its
/// own; any other is taken for what it states.
pub proof fn law_texts_that_are_no_documents(e: Seq<char>, v: JsonV)
    ensures
        parsed_config(Err(e)) == Err::<ConfigV, Seq<char>>("JSON 格式错误: "@ + e),
        parsed_config(Ok(v)) == config_of(v),
{
}

// Warnings.

/// A warning whose key was given before changes nothing. A new one becomes the last that is kept; of
/// more than twenty, the oldest goes.
pub proof fn law_warnings_are_given_once(t: TuningV, w: WarningV)
    requires
        t.warnings.len() <= 20,
    ensures
        t.seen.contains(w.key) ==> warned(t, w) == t,
        !t.seen.contains(w.key) ==> {
            let after = warned(t, w);
            &&& after.config == t.config
            &&& after.seen == t.seen.push(w.key)
            &&& t.warnings.len() < 20 ==> after.warnings == t.warnings.push(w.message)
            &&& t.warnings.len() == 20 ==> after.warnings == t.warnings.skip(1).push(w.message)
        },
        warned(warned(t, w), w) == warned(t, w),
{
    if !t.seen.contains(w.key) {
        let after = warned(t, w);
        assert(after.seen[t.seen.len() as int] == w.key);
        if t.warnings.len() == 20 {
            assert(after.warnings =~= t.warnings.skip(1).push(w.message));
        }
    }
}

/// What is said of a file that is damaged or cannot be read names the file and the error, and the two
/// are not taken for each other.
pub proof fn law_messages_name_the_file(path: Seq<char>, error: Seq<char>)
    ensures
        occurs(damaged_message(path, error), path),
        occurs(damaged_message(path, error), error),
        occurs(unread_message(path, error), path),
        occurs(unread_message(path, error), error),
        occurs(invalid_warning(path, error).message, path),
        occurs(invalid_warning(path, error).message, error),
        occurs(unreadable_warning(path, error).message, path),
        occurs(unreadable_warning(path, error).message, error),
        invalid_warning(path, error).key != unreadable_warning(path, error).key,
{
    reveal_strlit("tuning-config-invalid");
    reveal_strlit("tuning-config-read");
    assert("tuning-config-invalid"@.len() == 21 && "tuning-config-read"@.len() == 18);
    let none = Seq::<char>::empty();
    let end = ")，使用默认设置"@;
    lemma_held("警告: "@, path, " 已损坏("@ + error + end);
    lemma_held("警告: "@ + path + " 已损坏("@, error, end);
    assert(damaged_message(path, error) =~= "警告: "@ + path + (" 已损坏("@ + error + end));
    lemma_held("警告: 读取 "@, path, " 失败("@ + error + end);
    lemma_held("警告: 读取 "@ + path + " 失败("@, error, end);
    assert(unread_message(path, error) =~= "警告: 读取 "@ + path + (" 失败("@ + error + end));
    lemma_held(none, path, " 无效，已忽略："@ + error);
    lemma_held(path + " 无效，已忽略："@, error, none);
    assert(invalid_warning(path, error).message =~= none + path + (" 无效，已忽略："@ + error));
    assert(invalid_warning(path, error).message =~= path + " 无效，已忽略："@ + error + none);
    lemma_held("读取 "@, path, " 失败，已忽略调优规则："@ + error);
    lemma_held("读取 "@ + path + " 失败，已忽略调优规则："@, error, none);
    assert(unreadable_warning(path, error).message =~= "读取 "@ + path + (
    " 失败，已忽略调优规则："@ + error));
    assert(unreadable_warning(path, error).message =~= "读取 "@ + path
        + " 失败，已忽略调优规则："@ + error + none);
}

/// A configuration that comes into force brings no warnings with it.
pub proof fn law_new_configurations_bring_no_warnings(c: ConfigV, key: Seq<char>)
    ensures
        fresh(c).config == c,
        fresh(c).warnings.len() == 0,
        !fresh(c).seen.contains(key),
{
}

} // verus!
