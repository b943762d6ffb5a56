//! When the rules of a package can be cloned, and what the file states then.

use crate::config::braced;
use crate::delete_laws::{lemma_first_block, lone_brace};
use crate::edit_laws::{
    come_off, cpus_for, gathers, law_clone_takes_the_first_package_rule, law_normalized_keeps_rules,
    lemma_first_pkg_line,
};
use crate::plain_laws::{
    braces_named, law_plain_files_gather, lemma_as_many, lemma_block_takes, lemma_none_met,
    lemma_own_rule, openers_named, remarked, rules_plain,
};
use crate::repeat_laws::{
    counts, head_of, heads, lemma_counted, lemma_end_normalized, lemma_line_named,
    lemma_tally_normalized, lemma_tests, nameless_opener, picked, silent, single_of, tally,
};
use crate::rule_edit::{
    clone_base, clone_rules, cloned, close_upto, found, lemma_block, lemma_pkg_upto,
    lemma_place_step, locs_removed, next, normalized, package_spec, place_at, singles, stay, Cloned,
    Place, RuleEdit,
};
use crate::rule_laws::{
    copies, law_clone_adds_copies, law_scan_finds_thread_rules, lemma_found_threads, rules_of, says,
    threads_of, tidy, Said,
};
use vstd::prelude::*;

verus! {

// Tests of lines that a clone reads.

spec fn stray() -> spec_fn(Place, Seq<char>) -> bool {
    |place: Place, raw: Seq<char>| place is Top && lone_brace(raw)
}

spec fn nameless_of(pkg: Seq<char>) -> spec_fn(Place, Seq<char>) -> bool {
    |place: Place, raw: Seq<char>| !(place is Block) && nameless_opener(raw, pkg)
}

spec fn closes_of(pkg: Seq<char>) -> spec_fn(Place, Seq<char>) -> bool {
    |place: Place, raw: Seq<char>|
        place == Place::Block(pkg) && !(next(Place::Block(pkg), raw) is Block)
}

spec fn remarked_of(pkg: Seq<char>) -> spec_fn(Place, Seq<char>) -> bool {
    |place: Place, raw: Seq<char>| remarked(place, raw, pkg)
}

proof fn lemma_clone_tests(pkg: Seq<char>, other: Seq<char>)
    ensures
        counts(stray(), pkg, false),
        silent(stray()),
        counts(nameless_of(pkg), pkg, false),
        counts(nameless_of(other), pkg, false),
        silent(nameless_of(pkg)),
        silent(nameless_of(other)),
        pkg != other ==> counts(closes_of(other), pkg, false),
        silent(closes_of(other)),
        pkg != other ==> counts(remarked_of(other), pkg, false),
{
}

/// Bringing the rules of a package into one block keeps the lines that a test meets.
proof fn lemma_carried(
    lines: Seq<Seq<char>>,
    pkg: Seq<char>,
    test: spec_fn(Place, Seq<char>) -> bool,
)
    requires
        tidy(pkg),
        come_off(lines, pkg),
        counts(test, pkg, false),
        silent(test) || gathers(lines, pkg),
    ensures
        picked(Place::Top, normalized(lines, pkg), test) == picked(Place::Top, lines, test),
{
    if !stay(found(lines, pkg)) {
        lemma_tally_normalized(lines, test, pkg, false);
    }
}

proof fn lemma_closed(lines: Seq<Seq<char>>, pkg: Seq<char>, n: int)
    requires
        0 <= n <= lines.len(),
    ensures
        (close_upto(lines, pkg, n) is Some) == (tally(Place::Top, lines.take(n), closes_of(pkg))
            > 0),
    decreases n,
{
    if n > 0 {
        lemma_closed(lines, pkg, n - 1);
        lemma_place_step(lines, n - 1);
        assert(lines.take(n).drop_last() =~= lines.take(n - 1));
        assert(lines.take(n).last() == lines[n - 1]);
    } else {
        assert(lines.take(0) =~= seq![]);
    }
}

// Packages that no line names.

/// No rule of a package is stated where no line names it.
proof fn lemma_no_rules(lines: Seq<Seq<char>>, pkg: Seq<char>, n: int)
    requires
        0 <= n <= lines.len(),
        !found(lines, pkg).any_line(),
        tally(Place::Top, lines, nameless_of(pkg)) == 0,
    ensures
        place_at(lines, n) != Place::Block(pkg),
        forall|k: int|
            0 <= k < rules_of(lines.take(n)).len() ==> (#[trigger] rules_of(lines.take(n))[k]).pkg
                != pkg,
    decreases n,
{
    if n == 0 {
        assert(lines.take(0) =~= seq![]);
        assert(rules_of(lines.take(0)) =~= seq![]);
    } else {
        let i = n - 1;
        let all = lines.len() as int;
        let place = place_at(lines, i);
        lemma_no_rules(lines, pkg, i);
        lemma_place_step(lines, i);
        lemma_counted(lines, pkg);
        assert(lines.take(all) =~= lines);
        assert(lines.take(n).drop_last() =~= lines.take(i));
        assert(!nameless_of(pkg)(place, lines[i])) by {
            lemma_none_met(lines, nameless_of(pkg), all);
        }
        assert(!head_of(pkg)(place, lines[i])) by {
            lemma_none_met(lines, head_of(pkg), all);
        }
        assert(!single_of(pkg)(place, lines[i])) by {
            lemma_none_met(lines, single_of(pkg), all);
        }
        assert(!heads(place, lines[i], pkg));
        let (now, before) = (rules_of(lines.take(n)), rules_of(lines.take(i)));
        assert(lines.take(n).last() == lines[i]);
        match says(place, lines[i]) {
            Some(rule) => {
                assert(rule.pkg != pkg);
                assert(now == before.push(rule));
            },
            None => {
                assert(now == before);
            },
        }
        assert forall|k: int| 0 <= k < now.len() implies (#[trigger] now[k]).pkg != pkg by {
            if k < before.len() {
                assert(now[k] == before[k]);
            }
        }
    }
}

/// A package that a line names is still named once its rules are brought into one block.
proof fn lemma_named_still(lines: Seq<Seq<char>>, pkg: Seq<char>)
    requires
        tidy(pkg),
        come_off(lines, pkg),
        found(lines, pkg).any_line(),
        tally(Place::Top, lines, nameless_of(pkg)) == 0,
    ensures
        found(normalized(lines, pkg), pkg).any_line(),
{
    let t = found(lines, pkg);
    let now = normalized(lines, pkg);
    let m = now.len() as int;
    if !stay(t) && !found(now, pkg).any_line() {
        let rest = locs_removed(lines, pkg, singles(t.threads));
        lemma_block_takes(lines, pkg);
        lemma_first_block(rest, pkg);
        lemma_block(rest, pkg, rest.len() as int);
        let o = found(rest, pkg).block_open->0;
        let close = found(rest, pkg).block_close->0;
        assert(now.take(o) =~= rest.take(o));
        assert(now.take(o + 1) =~= rest.take(o + 1));
        lemma_clone_tests(pkg, pkg);
        lemma_carried(lines, pkg, nameless_of(pkg));
        lemma_no_rules(now, pkg, o + 1);
    }
}

// Cloning.

/// The file without stray braces keeps that when the rules of a package are brought into one block.
#[verifier::rlimit(40)]
#[verifier::spinoff_prover]
proof fn lemma_still_plain(lines: Seq<Seq<char>>, source: Seq<char>, target: Seq<char>)
    requires
        tidy(source),
        source != target,
        braces_named(lines),
        openers_named(lines, target),
    ensures
        braces_named(normalized(lines, source)),
        tally(Place::Top, lines, nameless_of(target)) == 0,
        tally(Place::Top, normalized(lines, source), nameless_of(target)) == 0,
        rules_plain(lines, source) && rules_plain(lines, target) ==> rules_plain(
            normalized(lines, source),
            target,
        ),
{
    let now = normalized(lines, source);
    let (n, m) = (lines.len() as int, now.len() as int);
    assert(lines.take(n) =~= lines);
    assert(now.take(m) =~= now);
    law_plain_files_gather(lines, source);
    lemma_clone_tests(source, target);
    lemma_carried(lines, source, stray());
    lemma_carried(lines, source, nameless_of(target));
    lemma_carried(lines, source, closes_of(target));
    assert forall|i: int| 0 <= i < n implies !stray()(place_at(lines, i), #[trigger] lines[i]) by {}
    assert forall|i: int| 0 <= i < n implies !nameless_of(target)(
        place_at(lines, i),
        #[trigger] lines[i],
    ) by {}
    lemma_none_met(lines, stray(), n);
    lemma_none_met(now, stray(), m);
    lemma_none_met(lines, nameless_of(target), n);
    lemma_closed(lines, target, n);
    lemma_closed(now, target, m);
    assert forall|i: int| 0 <= i < m && lone_brace(#[trigger] now[i]) implies !(place_at(
        now,
        i,
    ) is Top) by {
        assert(!stray()(place_at(now, i), now[i]));
    }
    if rules_plain(lines, source) && rules_plain(lines, target) && found(now, target).block_close is None {
        lemma_carried(lines, source, remarked_of(target));
        assert forall|i: int| 0 <= i < n implies !remarked_of(target)(
            place_at(lines, i),
            #[trigger] lines[i],
        ) by {}
        lemma_none_met(lines, remarked_of(target), n);
        lemma_none_met(now, remarked_of(target), m);
        assert forall|i: int| 0 <= i < m implies !remarked(
            place_at(now, i),
            #[trigger] now[i],
            target,
        ) by {
            assert(!remarked_of(target)(place_at(now, i), now[i]));
        }
    }
}

/// The lines that cloning reads name the target exactly where the file does.
#[verifier::rlimit(40)]
#[verifier::spinoff_prover]
proof fn lemma_base_named(lines: Seq<Seq<char>>, source: Seq<char>, target: Seq<char>)
    requires
        tidy(source),
        tidy(target),
        source != target,
        braces_named(lines),
        openers_named(lines, target),
        rules_plain(lines, source),
        rules_plain(lines, target),
    ensures
        found(clone_base(lines, source, target), target).any_line() <==> found(
            lines,
            target,
        ).any_line(),
        tally(Place::Top, clone_base(lines, source, target), nameless_of(target)) == 0,
        (place_at(
            clone_base(lines, source, target),
            clone_base(lines, source, target).len() as int,
        ) is Block) <==> (place_at(lines, lines.len() as int) is Block),
        rules_of(clone_base(lines, source, target)).to_multiset() == rules_of(lines).to_multiset(),
{
    let now = normalized(lines, source);
    let base = normalized(now, target);
    assert(lines.take(lines.len() as int) =~= lines);
    assert(base.take(base.len() as int) =~= base);
    law_plain_files_gather(lines, source);
    lemma_still_plain(lines, source, target);
    law_plain_files_gather(now, target);
    lemma_tests(source, target);
    lemma_carried(lines, source, single_of(target));
    lemma_carried(lines, source, head_of(target));
    lemma_counted(lines, target);
    lemma_counted(now, target);
    if found(now, target).any_line() {
        lemma_named_still(now, target);
    }
    lemma_clone_tests(target, target);
    lemma_carried(now, target, nameless_of(target));
    lemma_end_normalized(lines, source);
    lemma_end_normalized(now, target);
    law_normalized_keeps_rules(lines, source);
    law_normalized_keeps_rules(now, target);
}

/// Whether a package itself first stands on a line that is a rule.
pub open spec fn led_by_a_rule(lines: Seq<Seq<char>>, pkg: Seq<char>) -> bool {
    found(lines, pkg).pkg_line matches Some(at) && (at is Standalone || at is OpenInline)
}

/// Cloning is refused where the file ends inside a block; else where a line names the target, and so
/// wherever the file states a rule of it; else where the source has none of the rules that were
/// selected. It succeeds otherwise.
#[verifier::rlimit(40)]
#[verifier::spinoff_prover]
pub proof fn law_when_cloning_succeeds(
    lines: Seq<Seq<char>>,
    source: Seq<char>,
    target: Seq<char>,
    copy_package: bool,
    copy_threads: bool,
)
    requires
        tidy(source),
        tidy(target),
        source != target,
        braces_named(lines),
        openers_named(lines, target),
        rules_plain(lines, source),
        rules_plain(lines, target),
    ensures
        ({
            let r = cloned(lines, source, target, copy_package, copy_threads);
            let open_end = place_at(lines, lines.len() as int) is Block;
            let taken = found(lines, target).any_line();
            let missing = (copy_threads && threads_of(rules_of(lines), source).len() == 0) || (
            copy_package && !led_by_a_rule(clone_base(lines, source, target), source));
            &&& r == Err::<Seq<Seq<char>>, RuleEdit>(RuleEdit::Malformed) <==> open_end
            &&& r == Err::<Seq<Seq<char>>, RuleEdit>(RuleEdit::Conflict) <==> !open_end && taken
            &&& r == Err::<Seq<Seq<char>>, RuleEdit>(RuleEdit::NotFound) <==> !open_end && !taken
                && missing
            &&& r is Ok <==> !open_end && !taken && !missing
            &&& (exists|k: int|
                0 <= k < rules_of(lines).len() && (#[trigger] rules_of(lines)[k]).pkg == target)
                ==> taken
            &&& copy_package && cpus_for(rules_of(lines), source, seq![]).len() == 0 ==> missing
        }),
{
    let base = clone_base(lines, source, target);
    let n = base.len() as int;
    lemma_base_named(lines, source, target);
    lemma_still_plain(lines, source, target);
    law_scan_finds_thread_rules(base, source);
    lemma_as_many_threads(rules_of(base), rules_of(lines), source);
    assert(base.take(n) =~= base);
    assert(lines.take(lines.len() as int) =~= lines);
    if !found(lines, target).any_line() {
        lemma_no_rules(lines, target, lines.len() as int);
    }
    lemma_led(base, source);
    lemma_as_many(rules_of(base), rules_of(lines), source, seq![]);
}

/// A package has a rule to clone exactly if its first line is one.
proof fn lemma_led(lines: Seq<Seq<char>>, pkg: Seq<char>)
    requires
        tidy(pkg),
    ensures
        package_spec(lines, found(lines, pkg)) is Some <==> led_by_a_rule(lines, pkg),
        led_by_a_rule(lines, pkg) ==> cpus_for(rules_of(lines), pkg, seq![]).len() > 0,
{
    lemma_pkg_upto(lines, pkg, lines.len() as int);
    lemma_own_rule(lines, pkg);
}

/// Rules that are stated as often hold as many of the threads of a package.
proof fn lemma_as_many_threads(a: Seq<Said>, b: Seq<Said>, pkg: Seq<char>)
    requires
        a.to_multiset() == b.to_multiset(),
    ensures
        threads_of(a, pkg).len() == 0 <==> threads_of(b, pkg).len() == 0,
{
    lemma_threads_stated(a, pkg);
    lemma_threads_stated(b, pkg);
    a.to_multiset_ensures();
    b.to_multiset_ensures();
    if threads_of(a, pkg).len() > 0 {
        let k = choose|k: int| 0 <= k < a.len() && (#[trigger] a[k]).pkg == pkg && a[k].thread.len() > 0;
        assert(a.contains(a[k]));
        assert(b.to_multiset().count(a[k]) > 0);
        assert(b.contains(a[k]));
        let j = choose|j: int| 0 <= j < b.len() && b[j] == a[k];
        assert(b[j].pkg == pkg);
    }
    if threads_of(b, pkg).len() > 0 {
        let k = choose|k: int| 0 <= k < b.len() && (#[trigger] b[k]).pkg == pkg && b[k].thread.len() > 0;
        assert(b.contains(b[k]));
        assert(a.to_multiset().count(b[k]) > 0);
        assert(a.contains(b[k]));
        let j = choose|j: int| 0 <= j < a.len() && a[j] == b[k];
        assert(a[j].pkg == pkg);
    }
}

proof fn lemma_threads_stated(rules: Seq<Said>, pkg: Seq<char>)
    ensures
        threads_of(rules, pkg).len() > 0 <==> exists|k: int|
            0 <= k < rules.len() && (#[trigger] rules[k]).pkg == pkg && rules[k].thread.len() > 0,
    decreases rules.len(),
{
    if rules.len() > 0 {
        let init = rules.drop_last();
        lemma_threads_stated(init, pkg);
        if exists|k: int| 0 <= k < init.len() && (#[trigger] init[k]).pkg == pkg && init[k].thread.len() > 0 {
            let k = choose|k: int| 0 <= k < init.len() && (#[trigger] init[k]).pkg == pkg && init[k].thread.len() > 0;
            assert(rules[k] == init[k]);
        }
        if exists|k: int| 0 <= k < rules.len() && (#[trigger] rules[k]).pkg == pkg && rules[k].thread.len() > 0 {
            let k = choose|k: int| 0 <= k < rules.len() && (#[trigger] rules[k]).pkg == pkg && rules[k].thread.len() > 0;
            if k < init.len() {
                assert(init[k] == rules[k]);
            } else {
                assert(rules[k] == rules.last());
            }
        }
    }
}

/// Wherever a clone succeeds, no line that it read named the target: neither a line of the package
/// itself nor a rule `target{thread}=cpus`. So the file stated no package rule of the target.
pub proof fn law_cloned_targets_were_free(
    lines: Seq<Seq<char>>,
    source: Seq<char>,
    target: Seq<char>,
    copy_package: bool,
    copy_threads: bool,
    i: int,
)
    requires
        tidy(target),
        cloned(lines, source, target, copy_package, copy_threads) is Ok,
    ensures
        ({
            let base = clone_base(lines, source, target);
            &&& !(place_at(base, base.len() as int) is Block)
            &&& 0 <= i < base.len() ==> !heads(place_at(base, i), base[i], target) && !single_of(
                target,
            )(place_at(base, i), base[i])
            &&& cpus_for(rules_of(base), target, seq![]).len() == 0
        }),
{
    let base = clone_base(lines, source, target);
    let n = base.len() as int;
    assert(base.take(n) =~= base);
    lemma_counted(base, target);
    lemma_none_met(base, head_of(target), n);
    lemma_none_met(base, single_of(target), n);
    if 0 <= i < n {
        assert(!head_of(target)(place_at(base, i), base[i]));
        assert(!single_of(target)(place_at(base, i), base[i]));
    }
    let j = lemma_first_pkg_line(base, target, n);
}

/// Wherever a line that a clone reads names the target, and those lines do not end inside a block,
/// the clone is refused for that reason.
pub proof fn law_named_targets_are_refused(
    lines: Seq<Seq<char>>,
    source: Seq<char>,
    target: Seq<char>,
    copy_package: bool,
    copy_threads: bool,
    i: int,
)
    requires
        ({
            let base = clone_base(lines, source, target);
            &&& 0 <= i < base.len()
            &&& heads(place_at(base, i), base[i], target) || single_of(target)(
                place_at(base, i),
                base[i],
            )
            &&& !(place_at(base, base.len() as int) is Block)
        }),
    ensures
        cloned(lines, source, target, copy_package, copy_threads) == Err::<
            Seq<Seq<char>>,
            RuleEdit,
        >(RuleEdit::Conflict),
{
    lemma_line_named(clone_base(lines, source, target), target, i);
}

/// How often a list of threads with their CPUs holds one.
proof fn lemma_copied_often(rules: Seq<Said>, source: Seq<char>, target: Seq<char>, rule: Said)
    requires
        rule.pkg == target,
        rule.thread.len() > 0,
    ensures
        copies(
            target,
            Cloned { package: None, threads: threads_of(rules, source) },
        ).to_multiset().count(rule) == rules.to_multiset().count(
            Said { pkg: source, thread: rule.thread, cpus: rule.cpus },
        ),
    decreases rules.len(),
{
    let threads = threads_of(rules, source);
    let list = copies(target, Cloned { package: None, threads });
    rules.to_multiset_ensures();
    list.to_multiset_ensures();
    if rules.len() == 0 {
        assert(list =~= seq![]);
    } else {
        let init = rules.drop_last();
        let last = rules.last();
        lemma_copied_often(init, source, target, rule);
        init.to_multiset_ensures();
        assert(init.push(last) =~= rules);
        let before = threads_of(init, source);
        let fewer = copies(target, Cloned { package: None, threads: before });
        fewer.to_multiset_ensures();
        if last.pkg == source && last.thread.len() > 0 {
            assert(list =~= fewer.push(Said { pkg: target, thread: last.thread, cpus: last.cpus }));
        }
    }
}

/// A clone leaves every rule of the other packages stated as often as before. For the target it
/// states each selected thread rule as often as the file stated it for the source, the first
/// package rule of the source once where that was selected, and nothing else.
#[verifier::rlimit(40)]
#[verifier::spinoff_prover]
pub proof fn law_what_a_clone_states(
    lines: Seq<Seq<char>>,
    source: Seq<char>,
    target: Seq<char>,
    copy_package: bool,
    copy_threads: bool,
    rule: Said,
)
    requires
        tidy(source),
        tidy(target),
        braced(target) is None,
        source != target,
        braces_named(lines),
        openers_named(lines, target),
        rules_plain(lines, source),
        rules_plain(lines, target),
        cloned(lines, source, target, copy_package, copy_threads) is Ok,
    ensures
        ({
            let before = rules_of(lines).to_multiset();
            let after = rules_of(
                cloned(lines, source, target, copy_package, copy_threads)->Ok_0,
            ).to_multiset();
            let first = cpus_for(rules_of(clone_base(lines, source, target)), source, seq![])[0];
            &&& rule.pkg != target ==> after.count(rule) == before.count(rule)
            &&& rule.pkg == target && rule.thread.len() > 0 ==> after.count(rule)
                == if copy_threads {
                before.count(Said { pkg: source, thread: rule.thread, cpus: rule.cpus })
            } else {
                0
            }
            &&& rule.pkg == target && rule.thread.len() == 0 ==> after.count(rule)
                == if copy_package && rule.cpus == first {
                1
            } else {
                0nat
            }
            &&& copy_package ==> before.count(Said { pkg: source, thread: seq![], cpus: first }) > 0
        }),
{
    let base = clone_base(lines, source, target);
    let n = base.len() as int;
    let rules = clone_rules(base, source, target, copy_package, copy_threads)->Ok_0;
    let list = copies(target, rules);
    let all = rules_of(base);
    let none = Seq::<char>::empty();
    lemma_base_named(lines, source, target);
    law_clone_adds_copies(lines, source, target, copy_package, copy_threads);
    law_clone_takes_the_first_package_rule(lines, source, target, copy_package, copy_threads);
    assert(base.take(n) =~= base);
    lemma_no_rules(base, target, n);
    all.to_multiset_ensures();
    list.to_multiset_ensures();
    vstd::seq_lib::lemma_multiset_commutative(all, list);
    if rule.pkg == target {
        assert(!all.contains(rule));
        assert(all.to_multiset().count(rule) == 0);
    } else {
        assert(!list.contains(rule));
    }
    let threads = copies(target, Cloned { package: None, threads: rules.threads });
    threads.to_multiset_ensures();
    if rule.pkg == target && rule.thread.len() > 0 {
        if copy_threads {
            lemma_copied_often(all, source, target, rule);
        } else {
            assert(threads =~= seq![]);
        }
    }
    let own: Seq<Said> = match rules.package {
        Some(cpus) => seq![Said { pkg: target, thread: none, cpus }],
        None => seq![],
    };
    own.to_multiset_ensures();
    assert(list =~= own + threads);
    vstd::seq_lib::lemma_multiset_commutative(own, threads);
    if rule.pkg == target && rule.thread.len() == 0 {
        assert(rule.thread =~= none);
        law_scan_finds_thread_rules(base, source);
        lemma_found_threads(base, source, n);
        assert(!threads.contains(rule)) by {
            if threads.contains(rule) {
                let k = choose|k: int| 0 <= k < threads.len() && threads[k] == rule;
                assert(tidy(rules.threads[k].0));
            }
        }
    }
    if let Some(cpus) = rules.package {
        let one = Said { pkg: target, thread: none, cpus };
        assert(own.to_multiset().count(rule) == if rule == one {
            1
        } else {
            0nat
        }) by {
            assert(Seq::<Said>::empty().push(one) =~= own);
            Seq::<Said>::empty().to_multiset_ensures();
        }
        lemma_first_stated(all, source, 0);
    } else {
        assert(own =~= seq![]);
    }
}

/// What is stated of a package is one of the rules.
proof fn lemma_first_stated(rules: Seq<Said>, pkg: Seq<char>, k: int)
    requires
        0 <= k < cpus_for(rules, pkg, seq![]).len(),
    ensures
        rules.to_multiset().count(
            Said { pkg, thread: seq![], cpus: cpus_for(rules, pkg, seq![])[k] },
        ) > 0,
    decreases rules.len(),
{
    let none = Seq::<char>::empty();
    if rules.len() > 0 {
        let init = rules.drop_last();
        rules.to_multiset_ensures();
        init.to_multiset_ensures();
        assert(init.push(rules.last()) =~= rules);
        if k < cpus_for(init, pkg, none).len() {
            lemma_first_stated(init, pkg, k);
        }
    }
}

} // verus!
