//! What holds of every tuning document that is accepted.

use crate::apply::{
    app_at, first_within, group_at, group_step, group_writes, places, roots_of, rule_hits, tune_of,
    tuned_app, within_any,
};
use crate::json::{at, field, json_parsed, JsonV};
use crate::text::{
    all_digits, begins, byte_len, char_bytes, decimal, digits_value, ends, has_control, is_control,
    is_digit, is_space, is_trimmed, lemma_byte_len_step, lemma_decimal, lemma_trim_end_prefix,
    lemma_trim_is_trimmed, lemma_trimmed_fixed, lower, lower_char, trim, trim_end,
};
use crate::tuning::{
    app_json, app_named, app_of, apps_json, apps_of_list, apps_wrong, cgroup_template, config_in,
    config_json, config_of, crossed, distinct_texts, group_json, group_name, group_named, group_of,
    groups_json, groups_of_list, groups_wrong, joined_path, limit_field, limit_of, named_text,
    package_name, packages, rule_json, rule_of, rule_total, rules_json, rules_of_list, signed_field,
    text_field, text_or_null, thread_pattern, unit_of, unsigned_field, whole_or_null, AppV, ConfigV,
    GroupV, RuleV,
};
use vstd::prelude::*;

verus! {

/// Whether `s` is a memory limit as it is kept: plain digits for a number of bytes, or `max` where
/// it is allowed.
pub open spec fn kept_limit(s: Option<Seq<char>>, allow_max: bool) -> bool {
    match s {
        None => true,
        Some(t) => (allow_max && t == "max"@) || exists|n: nat|
            n <= u64::MAX && t == #[trigger] decimal(n),
    }
}

pub open spec fn within_bounds(n: Option<int>, min: int, max: int) -> bool {
    match n {
        Some(k) => min <= k <= max,
        None => true,
    }
}

pub open spec fn valid_group(g: GroupV) -> bool {
    &&& group_name(g.name)
    &&& is_trimmed(g.name)
    &&& cgroup_template(g.path)
    &&& is_trimmed(g.path)
    &&& within_bounds(g.swappiness, 0, 200)
    &&& kept_limit(g.memory_min, false)
    &&& kept_limit(g.memory_low, false)
    &&& kept_limit(g.memory_high, false)
    &&& kept_limit(g.memory_max, true)
}

pub open spec fn valid_rule(r: RuleV) -> bool {
    &&& thread_pattern(r.pattern)
    &&& is_trimmed(r.pattern)
    &&& within_bounds(r.uclamp_min, 0, 1024)
    &&& within_bounds(r.uclamp_max, 0, 1024)
    &&& within_bounds(r.nice, -20, 19)
    &&& !crossed(r.uclamp_min, r.uclamp_max)
    &&& r.uclamp_min is Some || r.uclamp_max is Some || r.nice is Some
}

pub open spec fn valid_app(a: AppV) -> bool {
    &&& package_name(a.pkg)
    &&& is_trimmed(a.pkg)
    &&& a.memory_group matches Some(g) ==> group_name(g) && is_trimmed(g)
    &&& forall|i: int| 0 <= i < a.threads.len() ==> valid_rule(#[trigger] a.threads[i])
    &&& a.memory_group is Some || a.threads.len() > 0
}

/// Whether a configuration can be in force: every part is valid, no name stands twice, and every
/// memory group that an application names is there.
pub open spec fn valid_config(c: ConfigV) -> bool {
    &&& forall|i: int| 0 <= i < c.memory_groups.len() ==> valid_group(#[trigger] c.memory_groups[i])
    &&& forall|i: int| 0 <= i < c.apps.len() ==> valid_app(#[trigger] c.apps[i])
    &&& forall|i: int, j: int|
        0 <= i < j < c.memory_groups.len() ==> (#[trigger] c.memory_groups[i]).name != (
        #[trigger] c.memory_groups[j]).name
    &&& forall|i: int, j: int|
        0 <= i < j < c.apps.len() ==> (#[trigger] c.apps[i]).pkg != (#[trigger] c.apps[j]).pkg
    &&& forall|i: int|
        0 <= i < c.apps.len() ==> ((#[trigger] c.apps[i]).memory_group matches Some(g)
            ==> group_named(c.memory_groups, c.memory_groups.len() as int, g))
}

/// A memory limit that is accepted is kept as plain digits, or as `max` where that is allowed.
pub proof fn law_limits_are_plain_bytes(s: Seq<char>, name: Seq<char>, allow_max: bool)
    ensures
        limit_of(s, name, allow_max) matches Ok(t) ==> kept_limit(Some(t), allow_max),
{
    if limit_of(s, name, allow_max) is Ok && lower(s) != "max"@ {
        let raw = lower(s);
        let (unit, n) = unit_of(raw);
        let digits = raw.take(raw.len() - n);
        let bytes = (digits_value(digits) * unit) as nat;
        assert(digits_value(digits) * unit >= 0) by (nonlinear_arith)
            requires
                digits_value(digits) >= 0,
                unit >= 1,
        ;
        assert(limit_of(s, name, allow_max) == Ok::<Seq<char>, Seq<char>>(decimal(bytes)));
    }
}

proof fn lemma_limit_kept(v: JsonV, name: Seq<char>, allow_max: bool)
    ensures
        limit_field(v, name, allow_max) matches Ok(s) ==> kept_limit(s, allow_max),
{
    if let Ok(Some(s)) = text_field(v, name, 64) {
        law_limits_are_plain_bytes(s, name, allow_max);
    }
}

proof fn lemma_named_trimmed(v: JsonV, name: Seq<char>)
    ensures
        named_text(v, name) matches Some(t) ==> is_trimmed(t),
{
    match field(v, name) {
        Some(JsonV::Text(s)) => {
            lemma_trim_is_trimmed(s);
        },
        _ => {},
    }
}

proof fn lemma_group_valid(v: JsonV)
    ensures
        group_of(v) matches Ok(g) ==> valid_group(g),
{
    lemma_named_trimmed(v, "name"@);
    lemma_named_trimmed(v, "path"@);
    lemma_limit_kept(v, "memory_min"@, false);
    lemma_limit_kept(v, "memory_low"@, false);
    lemma_limit_kept(v, "memory_high"@, false);
    lemma_limit_kept(v, "memory_max"@, true);
}

proof fn lemma_rule_valid(v: JsonV)
    ensures
        rule_of(v) matches Ok(r) ==> valid_rule(r),
{
    lemma_named_trimmed(v, "pattern"@);
}

proof fn lemma_rules_valid(items: Seq<JsonV>, n: int)
    ensures
        rules_of_list(items, n) matches Ok(rules) ==> (forall|i: int|
            0 <= i < rules.len() ==> valid_rule(#[trigger] rules[i])),
    decreases n,
{
    if n > 0 {
        lemma_rules_valid(items, n - 1);
        lemma_rule_valid(items[n - 1]);
    }
}

proof fn lemma_app_valid(v: JsonV)
    ensures
        app_of(v) matches Ok(a) ==> valid_app(a),
{
    lemma_named_trimmed(v, "pkg"@);
    match at(v, "memory_group"@) {
        JsonV::Text(s) => {
            lemma_trim_is_trimmed(s);
        },
        _ => {},
    }
    match at(v, "threads"@) {
        JsonV::List(items) => {
            lemma_rules_valid(items, items.len() as int);
        },
        _ => {},
    }
}

proof fn lemma_groups_valid(items: Seq<JsonV>, n: int)
    ensures
        groups_of_list(items, n) matches Ok(groups) ==> (forall|i: int|
            0 <= i < groups.len() ==> valid_group(#[trigger] groups[i])),
    decreases n,
{
    if n > 0 {
        lemma_groups_valid(items, n - 1);
        lemma_group_valid(items[n - 1]);
    }
}

proof fn lemma_apps_valid(items: Seq<JsonV>, n: int)
    ensures
        apps_of_list(items, n) matches Ok(apps) ==> (forall|i: int|
            0 <= i < apps.len() ==> valid_app(#[trigger] apps[i])),
    decreases n,
{
    if n > 0 {
        lemma_apps_valid(items, n - 1);
        lemma_app_valid(items[n - 1]);
    }
}

/// Nothing is wrong with the names of the groups exactly if no name stands twice.
pub proof fn lemma_groups_distinct(groups: Seq<GroupV>, n: int)
    requires
        0 <= n <= groups.len(),
    ensures
        groups_wrong(groups, n) is None <==> (forall|i: int, j: int|
            0 <= i < j < n ==> (#[trigger] groups[i]).name != (#[trigger] groups[j]).name),
    decreases n,
{
    if n > 0 {
        lemma_groups_distinct(groups, n - 1);
        if groups_wrong(groups, n - 1) is None && group_named(groups, n - 1, groups[n - 1].name) {
            let j = choose|j: int|
                0 <= j < n - 1 && (#[trigger] groups[j]).name == groups[n - 1].name;
            assert(groups[j].name == groups[n - 1].name);
        }
    }
}

/// Nothing is wrong with the applications exactly if no package stands twice and every memory group
/// that they name is there.
pub proof fn lemma_apps_distinct(apps: Seq<AppV>, groups: Seq<GroupV>, n: int)
    requires
        0 <= n <= apps.len(),
    ensures
        apps_wrong(apps, groups, n) is None <==> ((forall|i: int, j: int|
            0 <= i < j < n ==> (#[trigger] apps[i]).pkg != (#[trigger] apps[j]).pkg) && (forall|
            i: int,
        |
            0 <= i < n ==> ((#[trigger] apps[i]).memory_group matches Some(g) ==> group_named(
                groups,
                groups.len() as int,
                g,
            )))),
    decreases n,
{
    if n > 0 {
        lemma_apps_distinct(apps, groups, n - 1);
        if apps_wrong(apps, groups, n - 1) is None && app_named(apps, n - 1, apps[n - 1].pkg) {
            let j = choose|j: int| 0 <= j < n - 1 && (#[trigger] apps[j]).pkg == apps[n - 1].pkg;
            assert(apps[j].pkg == apps[n - 1].pkg);
        }
    }
}

/// Every document that is accepted gives a valid configuration.
pub proof fn law_accepted_config_is_valid(v: JsonV)
    ensures
        config_of(v) matches Ok(c) ==> valid_config(c),
{
    if config_of(v) is Ok {
        match at(v, "memory_groups"@) {
            JsonV::List(items) => {
                lemma_groups_valid(items, items.len() as int);
            },
            _ => {},
        }
        match at(v, "apps"@) {
            JsonV::List(items) => {
                lemma_apps_valid(items, items.len() as int);
            },
            _ => {},
        }
        let c = config_of(v)->Ok_0;
        lemma_groups_distinct(c.memory_groups, c.memory_groups.len() as int);
        lemma_apps_distinct(c.apps, c.memory_groups, c.apps.len() as int);
    }
}

// Reading what was written.

spec fn ten(k: nat) -> nat
    decreases k,
{
    if k == 0 {
        1
    } else {
        10 * ten((k - 1) as nat)
    }
}

proof fn lemma_decimal_len(n: nat, k: nat)
    requires
        k >= 1,
        n < ten(k),
    ensures
        decimal(n).len() <= k,
    decreases n,
{
    if n >= 10 {
        assert(k >= 2) by {
            if k == 1 {
                assert(ten(0) == 1);
            }
        }
        lemma_decimal_len(n / 10, (k - 1) as nat);
    }
}

/// Plain digits take one byte each, and hold neither whitespace nor control characters nor capital
/// letters.
proof fn lemma_digits_plain(s: Seq<char>)
    requires
        all_digits(s),
    ensures
        byte_len(s) == s.len(),
        !has_control(s),
        is_trimmed(s),
        lower(s) == s,
{
    assert forall|i: int| 0 <= i < s.len() implies !is_control(#[trigger] s[i]) && !is_space(s[i])
        && lower_char(s[i]) == s[i] && char_bytes(s[i]) == 1 by {
        assert(is_digit(s[i]));
    }
    if s.len() > 0 {
        assert(s[s.len() - 1] == s.last());
    }
    assert(lower(s) =~= s);
    lemma_bytes(s, 0);
    assert(s.skip(0) =~= s);
}

proof fn lemma_bytes(s: Seq<char>, i: int)
    requires
        0 <= i <= s.len(),
        forall|k: int| 0 <= k < s.len() ==> char_bytes(#[trigger] s[k]) == 1,
    ensures
        byte_len(s.skip(i)) == s.len() - i,
    decreases s.len() - i,
{
    if i < s.len() {
        lemma_bytes(s, i + 1);
        lemma_byte_len_step(s, i);
        assert(char_bytes(s[i]) == 1);
    } else {
        assert(s.skip(i) =~= seq![]);
    }
}

/// Digits have no unit behind them.
proof fn lemma_no_unit(s: Seq<char>)
    requires
        all_digits(s),
        s.len() > 0,
    ensures
        unit_of(s) == (1int, 0int),
        s != "max"@,
{
    reveal_strlit("max");
    reveal_strlit("tib");
    reveal_strlit("tb");
    reveal_strlit("t");
    reveal_strlit("gib");
    reveal_strlit("gb");
    reveal_strlit("g");
    reveal_strlit("mib");
    reveal_strlit("mb");
    reveal_strlit("m");
    reveal_strlit("kib");
    reveal_strlit("kb");
    reveal_strlit("k");
    assert(is_digit(s[0]));
    assert(is_digit(s[s.len() - 1]));
    lemma_ends_last(s, "tib"@);
    lemma_ends_last(s, "tb"@);
    lemma_ends_last(s, "t"@);
    lemma_ends_last(s, "gib"@);
    lemma_ends_last(s, "gb"@);
    lemma_ends_last(s, "g"@);
    lemma_ends_last(s, "mib"@);
    lemma_ends_last(s, "mb"@);
    lemma_ends_last(s, "m"@);
    lemma_ends_last(s, "kib"@);
    lemma_ends_last(s, "kb"@);
    lemma_ends_last(s, "k"@);
}

proof fn lemma_ends_last(s: Seq<char>, p: Seq<char>)
    requires
        s.len() > 0,
        p.len() > 0,
    ensures
        ends(s, p) ==> s[s.len() - 1] == p[p.len() - 1],
{
    if ends(s, p) {
        assert(s.skip(s.len() - p.len())[p.len() - 1] == s[s.len() - 1]);
    }
}

/// Whether `u` is a unit behind a number of bytes, in capital or small letters, and stands for
/// `size` bytes.
pub open spec fn unit_size(u: Seq<char>, size: int) -> bool {
    let l = lower(u);
    ||| size == 1 && l == ""@
    ||| size == 1024 && (l == "k"@ || l == "kb"@ || l == "kib"@)
    ||| size == 1048576 && (l == "m"@ || l == "mb"@ || l == "mib"@)
    ||| size == 1073741824 && (l == "g"@ || l == "gb"@ || l == "gib"@)
    ||| size == 1099511627776 && (l == "t"@ || l == "tb"@ || l == "tib"@)
}

proof fn lemma_ends_with(d: Seq<char>, u: Seq<char>)
    ensures
        ends(d + u, u),
        (d + u).take((d + u).len() - u.len()) == d,
{
    let s = d + u;
    assert(s.skip(s.len() - u.len()) =~= u);
    assert(s.take(s.len() - u.len()) =~= d);
}

/// What stands behind the digits decides the last characters.
proof fn lemma_ends_char(s: Seq<char>, p: Seq<char>, k: int)
    requires
        0 <= k < p.len(),
    ensures
        ends(s, p) ==> p.len() <= s.len() && s[s.len() - p.len() + k] == p[k],
{
    if ends(s, p) {
        assert(s.skip(s.len() - p.len())[k] == s[s.len() - p.len() + k]);
    }
}

#[verifier::rlimit(40)]
#[verifier::spinoff_prover]
proof fn lemma_unit_found(d: Seq<char>, u: Seq<char>, size: int)
    requires
        d.len() > 0,
        all_digits(d),
        unit_size(u, size),
        lower(u) == u,
    ensures
        unit_of(d + u) == (size, u.len() as int),
{
    reveal_strlit("");
    reveal_strlit("tib");
    reveal_strlit("tb");
    reveal_strlit("t");
    reveal_strlit("gib");
    reveal_strlit("gb");
    reveal_strlit("g");
    reveal_strlit("mib");
    reveal_strlit("mb");
    reveal_strlit("m");
    reveal_strlit("kib");
    reveal_strlit("kb");
    reveal_strlit("k");
    let s = d + u;
    assert(is_digit(d[d.len() - 1]));
    assert(s[d.len() - 1] == d[d.len() - 1]);
    lemma_ends_with(d, u);
    if u.len() == 0 {
        assert(s =~= d);
        lemma_no_unit(d);
    } else {
        assert(s[d.len() as int] == u[0]);
        assert(s[s.len() - 1] == u[u.len() - 1]);
        if u.len() > 1 {
            assert(s[(d.len() + 1) as int] == u[1]);
        }
        if u.len() > 2 {
            assert(s[(d.len() + 2) as int] == u[2]);
        }
        lemma_ends_char(s, "tib"@, 0);
        lemma_ends_char(s, "tib"@, 1);
        lemma_ends_char(s, "tib"@, 2);
        lemma_ends_char(s, "tb"@, 0);
        lemma_ends_char(s, "tb"@, 1);
        lemma_ends_char(s, "t"@, 0);
        lemma_ends_char(s, "gib"@, 0);
        lemma_ends_char(s, "gib"@, 1);
        lemma_ends_char(s, "gib"@, 2);
        lemma_ends_char(s, "gb"@, 0);
        lemma_ends_char(s, "gb"@, 1);
        lemma_ends_char(s, "g"@, 0);
        lemma_ends_char(s, "mib"@, 0);
        lemma_ends_char(s, "mib"@, 1);
        lemma_ends_char(s, "mib"@, 2);
        lemma_ends_char(s, "mb"@, 0);
        lemma_ends_char(s, "mb"@, 1);
        lemma_ends_char(s, "m"@, 0);
        lemma_ends_char(s, "kib"@, 0);
        lemma_ends_char(s, "kib"@, 1);
        lemma_ends_char(s, "kib"@, 2);
        lemma_ends_char(s, "kb"@, 0);
        lemma_ends_char(s, "kb"@, 1);
        lemma_ends_char(s, "k"@, 0);
    }
}

proof fn lemma_lower_twice(s: Seq<char>)
    ensures
        lower(lower(s)) == lower(s),
{
    assert forall|c: char| #[trigger] lower_char(lower_char(c)) == lower_char(c) by {}
    assert(lower(lower(s)) =~= lower(s));
}

/// A memory limit is digits with an optional unit behind them, in capital or small letters: `k`,
/// `m`, `g` and `t`, each alone, with `b` or with `ib`, stand for 2^10, 2^20, 2^30 and 2^40 bytes,
/// and no unit for single bytes. It is kept as that number of bytes, and refused only where the
/// number does not fit.
pub proof fn law_limits_count_bytes(
    d: Seq<char>,
    u: Seq<char>,
    size: int,
    name: Seq<char>,
    allow_max: bool,
)
    requires
        d.len() > 0,
        all_digits(d),
        unit_size(u, size),
    ensures
        digits_value(d) * size <= 0xffff_ffff_ffff_ffff ==> limit_of(d + u, name, allow_max) == Ok::<
            Seq<char>,
            Seq<char>,
        >(decimal((digits_value(d) * size) as nat)),
        digits_value(d) * size > 0xffff_ffff_ffff_ffff ==> limit_of(d + u, name, allow_max) == Err::<
            Seq<char>,
            Seq<char>,
        >(name + " 数值过大"@),
{
    let l = lower(u);
    let raw = lower(d + u);
    lemma_digits_plain(d);
    lemma_lower_twice(u);
    assert(raw =~= d + l);
    lemma_unit_found(d, l, size);
    lemma_ends_with(d, l);
    reveal_strlit("max");
    assert(is_digit(d[0]));
    assert(raw[0] == d[0]);
    assert(raw != "max"@);
}

/// The word `max` is a limit, in capital or small letters, exactly where it is allowed.
pub proof fn law_max_is_a_limit_where_allowed(s: Seq<char>, name: Seq<char>)
    requires
        lower(s) == "max"@,
    ensures
        limit_of(s, name, true) == Ok::<Seq<char>, Seq<char>>("max"@),
        limit_of(s, name, false) == Err::<Seq<char>, Seq<char>>(name + " 不支持 max"@),
{
}

/// Nothing but `max` and digits with a unit behind them is a limit.
#[verifier::rlimit(40)]
#[verifier::spinoff_prover]
pub proof fn law_limits_are_digits_with_a_unit(s: Seq<char>, name: Seq<char>, allow_max: bool) -> (r:
    (Seq<char>, Seq<char>, int))
    requires
        limit_of(s, name, allow_max) is Ok,
    ensures
        lower(s) == "max"@ || (s == r.0 + r.1 && r.0.len() > 0 && all_digits(r.0) && unit_size(
            r.1,
            r.2,
        )),
{
    reveal_strlit("");
    let raw = lower(s);
    let (size, n) = unit_of(raw);
    let d = s.take(s.len() - n);
    let u = s.skip(s.len() - n);
    if raw != "max"@ {
        reveal_strlit("tib");
        reveal_strlit("tb");
        reveal_strlit("t");
        reveal_strlit("gib");
        reveal_strlit("gb");
        reveal_strlit("g");
        reveal_strlit("mib");
        reveal_strlit("mb");
        reveal_strlit("m");
        reveal_strlit("kib");
        reveal_strlit("kb");
        reveal_strlit("k");
        assert(lower(u) =~= raw.skip(raw.len() - n));
        assert(s =~= d + u);
        let digits = raw.take(raw.len() - n);
        assert forall|i: int| 0 <= i < d.len() implies is_digit(#[trigger] d[i]) by {
            assert(is_digit(digits[i]));
            assert(digits[i] == lower_char(s[i]));
        }
        if n == 0 {
            assert(lower(u) =~= ""@);
        }
    }
    (d, u, size)
}

/// A limit as it is kept is read as it is.
proof fn lemma_limit_read(v: JsonV, name: Seq<char>, t: Seq<char>, allow_max: bool)
    requires
        field(v, name) == Some(JsonV::Text(t)),
        kept_limit(Some(t), allow_max),
    ensures
        limit_field(v, name, allow_max) == Ok::<Option<Seq<char>>, Seq<char>>(Some(t)),
{
    reveal_strlit("max");
    if t == "max"@ {
        assert forall|i: int| 0 <= i < t.len() implies !is_control(#[trigger] t[i]) && !is_space(
            t[i],
        ) && lower_char(t[i]) == t[i] && char_bytes(t[i]) == 1 by {}
        assert(lower(t) =~= t);
        lemma_bytes(t, 0);
        assert(t.skip(0) =~= t);
        lemma_trimmed_fixed(t);
        if !allow_max {
            let n = choose|n: nat| n <= u64::MAX && t == #[trigger] decimal(n);
            lemma_decimal(n);
            lemma_no_unit(t);
        }
    } else {
        let n = choose|n: nat| n <= u64::MAX && t == #[trigger] decimal(n);
        lemma_decimal(n);
        lemma_digits_plain(t);
        lemma_trimmed_fixed(t);
        lemma_no_unit(t);
        assert(n < ten(20)) by {
            reveal_with_fuel(ten, 21);
        }
        lemma_decimal_len(n, 20);
        assert(t.take(t.len() as int) =~= t);
        assert(digits_value(t) * 1 == n);
    }
}

proof fn lemma_optional_limit(v: JsonV, name: Seq<char>, t: Option<Seq<char>>, allow_max: bool)
    requires
        field(v, name) == Some(text_or_null(t)),
        kept_limit(t, allow_max),
    ensures
        limit_field(v, name, allow_max) == Ok::<Option<Seq<char>>, Seq<char>>(t),
{
    if let Some(s) = t {
        lemma_limit_read(v, name, s, allow_max);
    }
}

proof fn lemma_group_fields(g: GroupV)
    ensures
        field(group_json(g), "name"@) == Some(JsonV::Text(g.name)),
        field(group_json(g), "path"@) == Some(JsonV::Text(g.path)),
        field(group_json(g), "swappiness"@) == Some(whole_or_null(g.swappiness)),
        field(group_json(g), "memory_min"@) == Some(text_or_null(g.memory_min)),
        field(group_json(g), "memory_low"@) == Some(text_or_null(g.memory_low)),
        field(group_json(g), "memory_high"@) == Some(text_or_null(g.memory_high)),
        field(group_json(g), "memory_max"@) == Some(text_or_null(g.memory_max)),
        field(group_json(g), "oom_group"@) == Some(crate::tuning::bool_or_null(g.oom_group)),
{
    reveal_strlit("name");
    assert("name"@.len() == 4);
    reveal_strlit("path");
    assert("path"@.len() == 4);
    reveal_strlit("swappiness");
    assert("swappiness"@.len() == 10);
    reveal_strlit("memory_min");
    assert("memory_min"@.len() == 10);
    reveal_strlit("memory_low");
    assert("memory_low"@.len() == 10);
    reveal_strlit("memory_high");
    assert("memory_high"@.len() == 11);
    reveal_strlit("memory_max");
    assert("memory_max"@.len() == 10);
    reveal_strlit("oom_group");
    assert("oom_group"@.len() == 9);
    assert("name"@[0] != "path"@[0]);
    assert("swappiness"@[0] != "memory_min"@[0]);
    assert("swappiness"@[0] != "memory_low"@[0]);
    assert("swappiness"@[0] != "memory_max"@[0]);
    assert("memory_min"@[7] != "memory_low"@[7]);
    assert("memory_min"@[8] != "memory_max"@[8]);
    assert("memory_low"@[7] != "memory_max"@[7]);
}

proof fn lemma_group_read(g: GroupV)
    requires
        valid_group(g),
    ensures
        group_of(group_json(g)) == Ok::<GroupV, Seq<char>>(g),
{
    let v = group_json(g);
    lemma_group_fields(g);
    lemma_trimmed_fixed(g.name);
    lemma_trimmed_fixed(g.path);
    lemma_optional_limit(v, "memory_min"@, g.memory_min, false);
    lemma_optional_limit(v, "memory_low"@, g.memory_low, false);
    lemma_optional_limit(v, "memory_high"@, g.memory_high, false);
    lemma_optional_limit(v, "memory_max"@, g.memory_max, true);
    assert(unsigned_field(v, "swappiness"@, 200) == Ok::<Option<int>, Seq<char>>(g.swappiness));
}

proof fn lemma_rule_read(r: RuleV)
    requires
        valid_rule(r),
    ensures
        rule_of(rule_json(r)) == Ok::<RuleV, Seq<char>>(r),
{
    reveal_strlit("pattern");
    assert("pattern"@.len() == 7);
    reveal_strlit("uclamp_min");
    assert("uclamp_min"@.len() == 10);
    reveal_strlit("uclamp_max");
    assert("uclamp_max"@.len() == 10);
    reveal_strlit("nice");
    assert("nice"@.len() == 4);
    assert("uclamp_min"@[8] != "uclamp_max"@[8]);
    let v = rule_json(r);
    assert(field(v, "pattern"@) == Some(JsonV::Text(r.pattern)));
    assert(field(v, "uclamp_min"@) == Some(whole_or_null(r.uclamp_min)));
    assert(field(v, "uclamp_max"@) == Some(whole_or_null(r.uclamp_max)));
    assert(field(v, "nice"@) == Some(whole_or_null(r.nice)));
    lemma_trimmed_fixed(r.pattern);
    assert(unsigned_field(v, "uclamp_min"@, 1024) == Ok::<Option<int>, Seq<char>>(r.uclamp_min));
    assert(unsigned_field(v, "uclamp_max"@, 1024) == Ok::<Option<int>, Seq<char>>(r.uclamp_max));
    assert(signed_field(v, "nice"@, -20, 19) == Ok::<Option<int>, Seq<char>>(r.nice));
}

proof fn lemma_rules_read(rules: Seq<RuleV>, n: int)
    requires
        0 <= n <= rules.len(),
        forall|i: int| 0 <= i < rules.len() ==> valid_rule(#[trigger] rules[i]),
    ensures
        rules_of_list(rules_json(rules), n) == Ok::<Seq<RuleV>, Seq<char>>(rules.take(n)),
    decreases n,
{
    if n == 0 {
        assert(rules.take(0) =~= seq![]);
    } else {
        lemma_rules_read(rules, n - 1);
        lemma_rule_read(rules[n - 1]);
        assert(rules_json(rules)[n - 1] == rule_json(rules[n - 1]));
        assert(rules.take(n) =~= rules.take(n - 1).push(rules[n - 1]));
    }
}

proof fn lemma_app_read(a: AppV)
    requires
        valid_app(a),
    ensures
        app_of(app_json(a)) == Ok::<AppV, Seq<char>>(a),
{
    reveal_strlit("pkg");
    assert("pkg"@.len() == 3);
    reveal_strlit("memory_group");
    assert("memory_group"@.len() == 12);
    reveal_strlit("threads");
    assert("threads"@.len() == 7);
    let v = app_json(a);
    let items = rules_json(a.threads);
    assert(field(v, "pkg"@) == Some(JsonV::Text(a.pkg)));
    assert(field(v, "memory_group"@) == Some(text_or_null(a.memory_group)));
    assert(field(v, "threads"@) == Some(JsonV::List(items)));
    lemma_trimmed_fixed(a.pkg);
    if let Some(g) = a.memory_group {
        lemma_trimmed_fixed(g);
    }
    lemma_rules_read(a.threads, a.threads.len() as int);
    assert(a.threads.take(a.threads.len() as int) =~= a.threads);
    assert(items.len() == a.threads.len());
}

proof fn lemma_groups_read(groups: Seq<GroupV>, n: int)
    requires
        0 <= n <= groups.len(),
        forall|i: int| 0 <= i < groups.len() ==> valid_group(#[trigger] groups[i]),
    ensures
        groups_of_list(groups_json(groups), n) == Ok::<Seq<GroupV>, Seq<char>>(groups.take(n)),
    decreases n,
{
    if n == 0 {
        assert(groups.take(0) =~= seq![]);
    } else {
        lemma_groups_read(groups, n - 1);
        lemma_group_read(groups[n - 1]);
        assert(groups_json(groups)[n - 1] == group_json(groups[n - 1]));
        assert(groups.take(n) =~= groups.take(n - 1).push(groups[n - 1]));
    }
}

proof fn lemma_apps_read(apps: Seq<AppV>, n: int)
    requires
        0 <= n <= apps.len(),
        forall|i: int| 0 <= i < apps.len() ==> valid_app(#[trigger] apps[i]),
    ensures
        apps_of_list(apps_json(apps), n) == Ok::<Seq<AppV>, Seq<char>>(apps.take(n)),
    decreases n,
{
    if n == 0 {
        assert(apps.take(0) =~= seq![]);
    } else {
        lemma_apps_read(apps, n - 1);
        lemma_app_read(apps[n - 1]);
        assert(apps_json(apps)[n - 1] == app_json(apps[n - 1]));
        assert(apps.take(n) =~= apps.take(n - 1).push(apps[n - 1]));
    }
}

/// A valid configuration is read back from the document that states it.
pub proof fn law_config_is_read_back(c: ConfigV)
    requires
        valid_config(c),
    ensures
        config_of(config_json(c)) == Ok::<ConfigV, Seq<char>>(c),
{
    reveal_strlit("version");
    assert("version"@.len() == 7);
    reveal_strlit("memory_groups");
    assert("memory_groups"@.len() == 13);
    reveal_strlit("apps");
    assert("apps"@.len() == 4);
    let v = config_json(c);
    let groups = groups_json(c.memory_groups);
    let apps = apps_json(c.apps);
    assert(field(v, "memory_groups"@) == Some(JsonV::List(groups)));
    assert(field(v, "apps"@) == Some(JsonV::List(apps)));
    lemma_groups_read(c.memory_groups, groups.len() as int);
    lemma_apps_read(c.apps, apps.len() as int);
    assert(c.memory_groups.take(groups.len() as int) =~= c.memory_groups);
    assert(c.apps.take(apps.len() as int) =~= c.apps);
    lemma_groups_distinct(c.memory_groups, c.memory_groups.len() as int);
    lemma_apps_distinct(c.apps, c.memory_groups, c.apps.len() as int);
}

/// What is saved is loaded: the text written for an accepted document gives the same configuration.
pub proof fn law_saved_config_is_loaded(v: JsonV, text: Seq<char>)
    requires
        config_of(v) is Ok,
        json_parsed(text) == Ok::<JsonV, Seq<char>>(config_json(config_of(v)->Ok_0)),
    ensures
        config_in(text) == config_of(v),
{
    law_accepted_config_is_valid(v);
    law_config_is_read_back(config_of(v)->Ok_0);
}

// Applying a configuration.

/// Whether rule `i` is the last of the first `n` that matches a thread and sets what `pick` takes.
pub open spec fn decides(
    rules: Seq<RuleV>,
    comm: Seq<char>,
    globs: Seq<bool>,
    n: int,
    i: int,
    pick: spec_fn(RuleV) -> Option<int>,
) -> bool {
    &&& 0 <= i < n
    &&& rule_hits(rules, comm, globs, i)
    &&& pick(rules[i]) is Some
    &&& forall|j: int|
        i < j < n && #[trigger] rule_hits(rules, comm, globs, j) ==> pick(rules[j]) is None
}

/// Rules are ordered: of what several matching rules set, the last one counts, field by field.
pub proof fn law_last_matching_rule_counts(
    rules: Seq<RuleV>,
    comm: Seq<char>,
    globs: Seq<bool>,
    n: int,
    i: int,
)
    requires
        0 <= n <= rules.len(),
    ensures
        decides(rules, comm, globs, n, i, |r: RuleV| r.uclamp_min) ==> (tune_of(
            rules,
            comm,
            globs,
            n,
        ) matches Some(t) && t.uclamp_min == rules[i].uclamp_min),
        decides(rules, comm, globs, n, i, |r: RuleV| r.uclamp_max) ==> (tune_of(
            rules,
            comm,
            globs,
            n,
        ) matches Some(t) && t.uclamp_max == rules[i].uclamp_max),
        decides(rules, comm, globs, n, i, |r: RuleV| r.nice) ==> (tune_of(
            rules,
            comm,
            globs,
            n,
        ) matches Some(t) && t.nice == rules[i].nice),
    decreases n,
{
    if n > 0 {
        law_last_matching_rule_counts(rules, comm, globs, n - 1, i);
        let min = |r: RuleV| r.uclamp_min;
        let max = |r: RuleV| r.uclamp_max;
        let nice = |r: RuleV| r.nice;
        if i < n - 1 {
            assert(decides(rules, comm, globs, n, i, min) ==> decides(
                rules,
                comm,
                globs,
                n - 1,
                i,
                min,
            ));
            assert(decides(rules, comm, globs, n, i, max) ==> decides(
                rules,
                comm,
                globs,
                n - 1,
                i,
                max,
            ));
            assert(decides(rules, comm, globs, n, i, nice) ==> decides(
                rules,
                comm,
                globs,
                n - 1,
                i,
                nice,
            ));
            if rule_hits(rules, comm, globs, n - 1) {
                assert(decides(rules, comm, globs, n, i, min) ==> min(rules[n - 1]) is None);
                assert(decides(rules, comm, globs, n, i, max) ==> max(rules[n - 1]) is None);
                assert(decides(rules, comm, globs, n, i, nice) ==> nice(rules[n - 1]) is None);
            }
        }
    }
}

/// Whether no rule of the first `n` that matches a thread sets what `pick` takes.
pub open spec fn undecided(
    rules: Seq<RuleV>,
    comm: Seq<char>,
    globs: Seq<bool>,
    n: int,
    pick: spec_fn(RuleV) -> Option<int>,
) -> bool {
    forall|j: int|
        0 <= j < n && #[trigger] rule_hits(rules, comm, globs, j) ==> pick(rules[j]) is None
}

/// What no matching rule sets stays unset, field by field: nothing is made up for it.
pub proof fn law_unset_fields_stay_unset(
    rules: Seq<RuleV>,
    comm: Seq<char>,
    globs: Seq<bool>,
    n: int,
)
    requires
        0 <= n <= rules.len(),
    ensures
        undecided(rules, comm, globs, n, |r: RuleV| r.uclamp_min) ==> (tune_of(
            rules,
            comm,
            globs,
            n,
        ) matches Some(t) ==> t.uclamp_min is None),
        undecided(rules, comm, globs, n, |r: RuleV| r.uclamp_max) ==> (tune_of(
            rules,
            comm,
            globs,
            n,
        ) matches Some(t) ==> t.uclamp_max is None),
        undecided(rules, comm, globs, n, |r: RuleV| r.nice) ==> (tune_of(
            rules,
            comm,
            globs,
            n,
        ) matches Some(t) ==> t.nice is None),
    decreases n,
{
    if n > 0 {
        law_unset_fields_stay_unset(rules, comm, globs, n - 1);
        let min = |r: RuleV| r.uclamp_min;
        let max = |r: RuleV| r.uclamp_max;
        let nice = |r: RuleV| r.nice;
        assert(undecided(rules, comm, globs, n, min) ==> undecided(rules, comm, globs, n - 1, min));
        assert(undecided(rules, comm, globs, n, max) ==> undecided(rules, comm, globs, n - 1, max));
        assert(undecided(rules, comm, globs, n, nice) ==> undecided(
            rules,
            comm,
            globs,
            n - 1,
            nice,
        ));
        if rule_hits(rules, comm, globs, n - 1) {
            assert(undecided(rules, comm, globs, n, min) ==> min(rules[n - 1]) is None);
            assert(undecided(rules, comm, globs, n, max) ==> max(rules[n - 1]) is None);
            assert(undecided(rules, comm, globs, n, nice) ==> nice(rules[n - 1]) is None);
        }
    }
}

/// A thread matches a rule exactly if the shell pattern fits its name, the name has between 1 and
/// 31 bytes, and no zero byte stands in the name or the pattern.
pub proof fn law_which_rules_match(rules: Seq<RuleV>, comm: Seq<char>, globs: Seq<bool>, i: int)
    requires
        0 <= i < rules.len(),
        globs.len() == rules.len(),
    ensures
        rule_hits(rules, comm, globs, i) <==> globs[i] && 1 <= comm.len() && byte_len(comm) <= 31
            && (forall|k: int| 0 <= k < comm.len() ==> (#[trigger] comm[k]) as int != 0) && (forall|
            k: int,
        |
            0 <= k < rules[i].pattern.len() ==> (#[trigger] rules[i].pattern[k]) as int != 0),
{
    let p = rules[i].pattern;
    if comm.contains('\0') {
        let k = choose|k: int| 0 <= k < comm.len() && comm[k] == '\0';
        assert(comm[k] as int == 0);
    }
    if p.contains('\0') {
        let k = choose|k: int| 0 <= k < p.len() && p[k] == '\0';
        assert(p[k] as int == 0);
    }
    assert forall|k: int| 0 <= k < comm.len() && !comm.contains('\0') implies (
    #[trigger] comm[k]) as int != 0 by {
        assert(comm[k] != '\0');
    }
    assert forall|k: int| 0 <= k < p.len() && !p.contains('\0') implies (#[trigger] p[k]) as int
        != 0 by {
        assert(p[k] != '\0');
    }
}

/// A thread is tuned exactly if one of the rules matches it.
pub proof fn law_tuned_where_a_rule_matches(
    rules: Seq<RuleV>,
    comm: Seq<char>,
    globs: Seq<bool>,
    n: int,
)
    requires
        0 <= n <= rules.len(),
    ensures
        tune_of(rules, comm, globs, n) is Some <==> exists|i: int|
            0 <= i < n && rule_hits(rules, comm, globs, i),
    decreases n,
{
    if n > 0 {
        law_tuned_where_a_rule_matches(rules, comm, globs, n - 1);
        if rule_hits(rules, comm, globs, n - 1) {
            assert(0 <= n - 1 < n);
        }
    }
}

/// Under a valid configuration, the memory group of a tuned application is always there.
pub proof fn law_memory_group_is_there(c: ConfigV, pkg: Seq<char>, leads: bool)
    requires
        valid_config(c),
    ensures
        tuned_app(c, pkg) matches Some(i) ==> !(group_step(c, c.apps[i], leads) is Missing),
{
    if let Some(i) = tuned_app(c, pkg) {
        lemma_app_at(c.apps, pkg, c.apps.len() as int);
        if let Some(g) = c.apps[i].memory_group {
            lemma_group_at(c.memory_groups, g, c.memory_groups.len() as int);
        }
    }
}

proof fn lemma_app_at(apps: Seq<AppV>, pkg: Seq<char>, n: int)
    requires
        0 <= n <= apps.len(),
    ensures
        app_at(apps, pkg, n) matches Some(i) ==> 0 <= i < n && apps[i].pkg == pkg,
    decreases n,
{
    if n > 0 {
        lemma_app_at(apps, pkg, n - 1);
    }
}

proof fn lemma_group_at(groups: Seq<GroupV>, name: Seq<char>, n: int)
    requires
        0 <= n <= groups.len(),
    ensures
        group_named(groups, n, name) <==> group_at(groups, name, n) is Some,
    decreases n,
{
    if n > 0 {
        lemma_group_at(groups, name, n - 1);
        if group_named(groups, n, name) {
            let j = choose|j: int| 0 <= j < n && (#[trigger] groups[j]).name == name;
            if j < n - 1 {
                assert(groups[j].name == name);
            }
        }
        if group_at(groups, name, n) is Some {
            if group_named(groups, n - 1, name) {
                let j = choose|j: int| 0 <= j < n - 1 && (#[trigger] groups[j]).name == name;
                assert(groups[j].name == name);
            } else {
                assert(groups[n - 1].name == name);
            }
        }
    }
}

/// The directory that a memory group resolves to is one of the places where it may be, and stands
/// below a root.
pub proof fn law_resolved_group_is_below_a_root(
    dirs: Seq<Option<Seq<char>>>,
    roots: Seq<Seq<char>>,
    n: int,
)
    requires
        0 <= n <= dirs.len(),
    ensures
        first_within(dirs, roots, n) matches Some(d) ==> within_any(d, roots) && dirs.contains(
            Some(d),
        ),
    decreases n,
{
    if n > 0 {
        law_resolved_group_is_below_a_root(dirs, roots, n - 1);
        assert(dirs.contains(dirs[n - 1]));
    }
}

/// Whether a path is written below the cgroup file systems.
pub open spec fn below_cgroup(p: Seq<char>) -> bool {
    begins(p, "/dev/memcg/"@) || begins(p, "/sys/fs/cgroup/"@)
}

/// A memory group is only looked for below the cgroup file systems.
pub proof fn law_group_is_sought_below_cgroup(
    path: Seq<char>,
    memcg: bool,
    memory: bool,
    unified: bool,
    k: int,
)
    requires
        cgroup_template(path),
        0 <= k < places(path, roots_of(memcg, memory, unified)).len(),
    ensures
        below_cgroup(places(path, roots_of(memcg, memory, unified))[k]),
{
    reveal_strlit("/");
    reveal_strlit("/dev/memcg/");
    reveal_strlit("/sys/fs/cgroup/");
    reveal_strlit("/dev/memcg");
    reveal_strlit("/sys/fs/cgroup");
    reveal_strlit("/sys/fs/cgroup/memory");
    let roots = roots_of(memcg, memory, unified);
    if begins(path, "/"@) {
        // trimming leaves the front of the path alone
        assert(path.take(1)[0] == '/');
        assert(path[0] == '/');
        lemma_trim_end_prefix(path);
        let t = trim(path);
        assert(t == trim_end(path));
        assert(t.len() > 0);
        assert(t[0] == '/');
        assert(t.take(1) =~= "/"@);
        if begins(t, "/dev/memcg/"@) {
            assert(path.take(11) =~= t.take(11));
        } else {
            assert(path.take(15) =~= t.take(15));
        }
    } else {
        let root = roots[k];
        let place = joined_path(root, path);
        assert(root == "/dev/memcg"@ || root == "/sys/fs/cgroup/memory"@ || root
            == "/sys/fs/cgroup"@);
        lemma_ends_last(root, "/"@);
        assert(place == root + "/"@ + path);
        if root == "/dev/memcg"@ {
            assert(place.take(11) =~= "/dev/memcg/"@);
        } else {
            assert(place.take(15) =~= "/sys/fs/cgroup/"@);
        }
    }
}

/// Every control that a memory group sets is a `memory.` file of the group's own directory; only
/// `memory.swappiness` takes the swappiness, so that no setting of the whole system is touched.
pub proof fn law_controls_stay_in_the_group(g: GroupV, k: int, j: int)
    requires
        0 <= k < group_writes(g).len(),
        0 <= j < group_writes(g)[k].names.len(),
    ensures
        begins(group_writes(g)[k].names[j], "memory."@),
        !group_writes(g)[k].names[j].contains('/'),
        g.swappiness is Some ==> group_writes(g)[0].names == seq!["memory.swappiness"@],
{
    reveal_strlit("memory.");
    reveal_strlit("memory.swappiness");
    reveal_strlit("memory.min");
    reveal_strlit("memory.low");
    reveal_strlit("memory.soft_limit_in_bytes");
    reveal_strlit("memory.high");
    reveal_strlit("memory.max");
    reveal_strlit("memory.limit_in_bytes");
    reveal_strlit("memory.oom.group");
    let name = group_writes(g)[k].names[j];
    assert(name == "memory.swappiness"@ || name == "memory.min"@ || name == "memory.low"@ || name
        == "memory.soft_limit_in_bytes"@ || name == "memory.high"@ || name == "memory.max"@ || name
        == "memory.limit_in_bytes"@ || name == "memory.oom.group"@);
    assert(name.take(7) =~= "memory."@);
    assert forall|i: int| 0 <= i < name.len() implies #[trigger] name[i] != '/' by {}
}


proof fn lemma_distinct_count(apps: Seq<AppV>)
    ensures
        distinct_texts(packages(apps, true)).len() <= rule_total(apps),
        packages(apps, true).len() == 0 <==> rule_total(apps) == 0,
        distinct_texts(packages(apps, true)).len() == 0 <==> rule_total(apps) == 0,
    decreases apps.len(),
{
    if apps.len() > 0 {
        let init = apps.drop_last();
        lemma_distinct_count(init);
        let all = packages(apps, true);
        if apps.last().threads.len() > 0 {
            assert(all.drop_last() =~= packages(init, true));
            assert(distinct_texts(packages(init, true)).contains(all.last()) ==> distinct_texts(
                packages(init, true),
            ).len() > 0);
        }
    }
}

/// There are at least as many thread rules as packages with thread rules, and none exactly where
/// there is no such package.
pub proof fn law_thread_rules_cover_their_packages(c: ConfigV)
    ensures
        rule_total(c.apps) >= distinct_texts(packages(c.apps, true)).len(),
        rule_total(c.apps) == 0 <==> distinct_texts(packages(c.apps, true)).len() == 0,
{
    lemma_distinct_count(c.apps);
}

} // verus!
