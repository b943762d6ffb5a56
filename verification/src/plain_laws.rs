//! What the edits do to a file, under conditions that can be read off its lines.

use crate::config::{braced, cut, like_spec, outer, Outer};
use crate::delete_laws::{
    blocks_stay_whole, braces_stay_idle, inside, law_deleted_package_leaves_the_others,
    lemma_block_end, lemma_brace_kept, lemma_first_block, lemma_round, lone_brace,
    open_end_is_silent, parts_at, rest_at, separable,
};
use crate::edit_laws::{
    apart, calm, clean_braces, come_off, cpus_for, firm, gathers, law_normalized_keeps_rules,
    law_upserted_package_rule_holds, lemma_around, lemma_first_open, lemma_first_pkg,
    lemma_first_pkg_line, lemma_loc_removed, lemma_moved_all, lemma_parted, lemma_reopened,
    lemma_same_front, lemma_shuts_concat, lemma_shuts_found, lemma_single_rule,
    lemma_singles_removed, lemma_told, plain_rule, shuts,
};
use crate::file_laws::{
    law_deleting_a_package_twice_finds_nothing_in_the_file,
    law_deleting_twice_finds_nothing_in_the_file,
    law_upserting_a_package_rule_twice_writes_the_same_file,
    law_upserting_twice_writes_the_same_file, plain_ends, unbroken,
};
use crate::rename_laws::{
    law_renamed_keeps_rules, law_renamed_package_is_found, law_renaming_to_a_fitting_name_ends,
    one_name_rules, plain_name, rounds_fit,
};
use crate::repeat_laws::{
    about, counts, heads, law_deleting_a_package_finds_its_lines, law_deleting_finds_what_is_stated,
    law_deleting_takes_one_thread_away, law_normalizing_twice_changes_nothing,
    law_renaming_finds_its_lines, law_renaming_meets_names_in_use, law_upserting_sets_one_rule,
    lemma_besides_count, lemma_counted, lemma_end_normalized, lemma_none_before, lemma_part_between,
    lemma_part_of_itself, lemma_part_of_part, lemma_picked_part, lemma_round_others,
    lemma_rule_stays, lemma_tally_concat, lemma_tally_normalized, lemma_tally_one,
    lemma_tally_removed, lemma_tally_singles, lemma_tests, nameless_opener, not_about, others,
    part_of, passes, silent, single_of, tally,
};
use crate::rule_edit::{
    bare_open, blank, block_added, block_end, deleted, doomed, found, lemma_block, lemma_doomed,
    lemma_locs, lemma_named, lemma_pkg_upto, lemma_place_step, lemma_singles, loc_in, loc_removed,
    locs_removed, locs_upto, moved_all, next, normalized, opens_in, pkg_deleted, pkg_idx, pkg_in,
    pkg_upto, place_at, purged, reach, rename_ends, rename_ends_soon, rename_round, renamed,
    rule_line, shuts_in, singles, spliced, stay, survivors, told_before, upserted, Found, PkgAt,
    Place, RuleEdit,
};
use crate::rule_laws::{
    law_deleted_package_is_gone, law_renamed_package_is_gone, lemma_bare_open, lemma_close_line,
    lemma_concat, lemma_one, lemma_outer_tidy, lemma_rule_line, rules_from, rules_of, says, tidy,
    Said,
};
use crate::text::{lines_of, text_of, trim, trim_end};
use vstd::prelude::*;

verus! {

// Conditions on the lines.

/// Whether every `{` alone that is read outside of the blocks stands behind a bare name.
pub open spec fn braces_named(lines: Seq<Seq<char>>) -> bool {
    forall|i: int|
        0 <= i < lines.len() && lone_brace(#[trigger] lines[i]) ==> !(place_at(lines, i) is Top)
}

/// Whether no line opens a block of `pkg` with a rule for a thread without a name.
pub open spec fn openers_named(lines: Seq<Seq<char>>, pkg: Seq<char>) -> bool {
    forall|i: int| 0 <= i < lines.len() ==> !nameless_opener(#[trigger] lines[i], pkg)
}

/// Whether a line is a rule of `pkg` that opens no block, with a comment behind it.
pub open spec fn remarked(place: Place, raw: Seq<char>, pkg: Seq<char>) -> bool {
    &&& !(place is Block)
    &&& !blank(trim(raw))
    &&& outer(trim(raw)) matches Outer::Rule { pkg: owner, open, .. } && owner == pkg && !open
    &&& cut(raw) != raw.len()
}

/// Whether no rule of `pkg` that opens no block has a comment behind it, unless some block of `pkg`
/// is closed.
pub open spec fn rules_plain(lines: Seq<Seq<char>>, pkg: Seq<char>) -> bool {
    found(lines, pkg).block_close is None ==> forall|i: int|
        0 <= i < lines.len() ==> !remarked(place_at(lines, i), #[trigger] lines[i], pkg)
}

// The same as tests of lines.

spec fn stray() -> spec_fn(Place, Seq<char>) -> bool {
    |place: Place, raw: Seq<char>| place is Top && lone_brace(raw)
}

/// A stray `{`, or a line that opens a block of `pkg` with a rule for a thread without a name.
spec fn odd(place: Place, raw: Seq<char>, pkg: Seq<char>) -> bool {
    (place is Top && lone_brace(raw)) || (!(place is Block) && nameless_opener(raw, pkg))
}

spec fn odd_of(pkg: Seq<char>) -> spec_fn(Place, Seq<char>) -> bool {
    |place: Place, raw: Seq<char>| odd(place, raw, pkg)
}

spec fn remarked_of(pkg: Seq<char>) -> spec_fn(Place, Seq<char>) -> bool {
    |place: Place, raw: Seq<char>| remarked(place, raw, pkg)
}

proof fn lemma_plain_tests(pkg: Seq<char>)
    ensures
        counts(stray(), pkg, false),
        silent(stray()),
        counts(odd_of(pkg), pkg, false),
        silent(odd_of(pkg)),
        passes(remarked_of(pkg), pkg, false),
{
}

/// No line is met exactly where each is passed over.
pub proof fn lemma_none_met(
    lines: Seq<Seq<char>>,
    test: spec_fn(Place, Seq<char>) -> bool,
    n: int,
)
    requires
        0 <= n <= lines.len(),
    ensures
        tally(Place::Top, lines.take(n), test) == 0 <==> forall|i: int|
            0 <= i < n ==> !test(place_at(lines, i), #[trigger] lines[i]),
    decreases n,
{
    if n == 0 {
        assert(lines.take(0) =~= seq![]);
    } else {
        lemma_none_met(lines, test, n - 1);
        assert(lines.take(n).drop_last() =~= lines.take(n - 1));
        assert(lines.take(n).last() == lines[n - 1]);
    }
}

// Gathering the rules of a package.

/// Lines without a stray `{` do not begin with one.
proof fn lemma_calm_tail(lines: Seq<Seq<char>>)
    requires
        tally(Place::Top, lines, stray()) == 0,
    ensures
        calm(lines),
    decreases lines.len(),
{
    if lines.len() > 0 {
        let one = seq![lines[0]];
        let rest = lines.drop_first();
        assert(lines =~= one + rest);
        lemma_one(Place::Top, lines[0]);
        lemma_tally_one(Place::Top, lines[0], stray());
        lemma_tally_concat(Place::Top, one, rest, stray());
        if blank(trim(lines[0])) {
            lemma_calm_tail(rest);
        } else {
            assert(!stray()(Place::Top, lines[0]));
        }
    }
}

/// Lines without a stray `{` do not begin with one behind a line that leads outside of the blocks.
pub proof fn lemma_calm_behind(lines: Seq<Seq<char>>, n: int)
    requires
        braces_named(lines),
        0 <= n <= lines.len(),
        place_at(lines, n) is Top,
    ensures
        calm(lines.skip(n)),
{
    let all = lines.len() as int;
    assert(lines.take(all) =~= lines);
    assert forall|i: int| 0 <= i < all implies !stray()(place_at(lines, i), #[trigger] lines[i]) by {}
    lemma_none_met(lines, stray(), all);
    assert(lines =~= lines.take(n) + lines.skip(n));
    lemma_tally_concat(Place::Top, lines.take(n), lines.skip(n), stray());
    lemma_calm_tail(lines.skip(n));
}

/// No stray `{` comes from bringing the rules of a package into one block.
pub proof fn lemma_braces_stay(lines: Seq<Seq<char>>, pkg: Seq<char>)
    requires
        tidy(pkg),
        braces_named(lines),
    ensures
        braces_named(normalized(lines, pkg)),
{
    let now = normalized(lines, pkg);
    let (n, m) = (lines.len() as int, now.len() as int);
    assert(lines.take(n) =~= lines);
    assert(now.take(m) =~= now);
    law_plain_files_gather(lines, pkg);
    lemma_plain_tests(pkg);
    assert forall|i: int| 0 <= i < n implies !stray()(place_at(lines, i), #[trigger] lines[i]) by {}
    lemma_none_met(lines, stray(), n);
    if !stay(found(lines, pkg)) {
        lemma_tally_normalized(lines, stray(), pkg, false);
    }
    lemma_none_met(now, stray(), m);
    assert forall|i: int| 0 <= i < m && lone_brace(#[trigger] now[i]) implies !(place_at(
        now,
        i,
    ) is Top) by {
        assert(!stray()(place_at(now, i), now[i]));
    }
}

/// The rules `pkg{thread}=cpus` before line `n` can be taken from where they stand.
proof fn lemma_firm(lines: Seq<Seq<char>>, pkg: Seq<char>, n: int)
    requires
        0 <= n <= lines.len(),
        tally(Place::Top, lines, stray()) == 0,
    ensures
        firm(lines, pkg, singles(locs_upto(lines, pkg, n))),
    decreases n,
{
    let all = locs_upto(lines, pkg, n);
    let locs = singles(all);
    if n > 0 {
        let i = n - 1;
        let here = loc_in(place_at(lines, i), lines[i], pkg, i);
        if here is Some {
            assert(all.drop_last() =~= locs_upto(lines, pkg, i));
            assert(all.last() == here->0);
        }
        if here is Some && here->0.single {
            let loc = here->0;
            let fewer = loc_removed(lines, pkg, loc);
            let init = singles(locs_upto(lines, pkg, i));
            assert(locs =~= init.push(loc));
            assert(locs.drop_last() =~= init);
            if !loc.open {
                let tail = lines.skip(n);
                lemma_place_step(lines, i);
                assert(lines =~= lines.take(n) + tail);
                lemma_tally_concat(Place::Top, lines.take(n), tail, stray());
                assert(place_at(lines, n) is Top);
                lemma_calm_tail(tail);
            }
            lemma_plain_tests(pkg);
            lemma_tally_removed(lines, loc, stray(), pkg, false);
            lemma_loc_removed(lines, pkg, loc);
            lemma_same_front(lines, fewer, pkg, i);
            lemma_firm(fewer, pkg, i);
        } else {
            assert(locs =~= singles(locs_upto(lines, pkg, i)));
            lemma_firm(lines, pkg, i);
        }
    }
}

/// Where every `{` alone stands behind a bare name, the rules `pkg{thread}=cpus` of a package can be
/// taken from where they stand. Where, besides, no rule of the package has a comment, they arrive
/// in a block, and the rule behind which another edit opens a block has none either.
pub proof fn law_plain_files_gather(lines: Seq<Seq<char>>, pkg: Seq<char>)
    requires
        tidy(pkg),
        braces_named(lines),
    ensures
        come_off(lines, pkg),
        rules_plain(lines, pkg) ==> gathers(lines, pkg) && plain_rule(
            normalized(lines, pkg),
            found(normalized(lines, pkg), pkg),
        ),
{
    let n = lines.len() as int;
    let t = found(lines, pkg);
    let locs = singles(t.threads);
    assert(lines.take(n) =~= lines);
    assert forall|i: int| 0 <= i < n implies !stray()(place_at(lines, i), #[trigger] lines[i]) by {}
    lemma_none_met(lines, stray(), n);
    lemma_firm(lines, pkg, n);
    if rules_plain(lines, pkg) {
        lemma_pkg_upto(lines, pkg, n);
        if stay(t) {
            if t.block_close is None {
                if let Some(PkgAt::Standalone(i)) = t.pkg_line {
                    assert(!remarked(place_at(lines, i), lines[i], pkg));
                }
            }
        } else {
            lemma_rest_plain(lines, pkg);
            lemma_normalized_shuts(lines, pkg);
        }
    }
}

proof fn lemma_rest_plain(lines: Seq<Seq<char>>, pkg: Seq<char>)
    requires
        firm(lines, pkg, singles(found(lines, pkg).threads)),
        rules_plain(lines, pkg),
    ensures
        ({
            let rest = locs_removed(lines, pkg, singles(found(lines, pkg).threads));
            plain_rule(rest, found(rest, pkg))
        }),
{
    let n = lines.len() as int;
    let rest = locs_removed(lines, pkg, singles(found(lines, pkg).threads));
    let m = rest.len() as int;
    let test = remarked_of(pkg);
    assert(lines.take(n) =~= lines);
    assert(rest.take(m) =~= rest);
    lemma_singles_removed(lines, pkg, n);
    lemma_shuts_found(lines, pkg, n);
    lemma_shuts_found(rest, pkg, m);
    lemma_pkg_upto(rest, pkg, m);
    if found(rest, pkg).block_close is None {
        lemma_plain_tests(pkg);
        assert forall|i: int| 0 <= i < n implies !test(place_at(lines, i), #[trigger] lines[i]) by {}
        lemma_none_met(lines, test, n);
        lemma_tally_singles(lines, n, test, pkg, false);
        lemma_none_met(rest, test, m);
        if let Some(PkgAt::Standalone(i)) = found(rest, pkg).pkg_line {
            assert(!test(place_at(rest, i), rest[i]));
        }
    }
}

/// A line that closes a block, with the block before it.
proof fn lemma_shut_here(a: Seq<Seq<char>>, raw: Seq<char>, b: Seq<Seq<char>>, pkg: Seq<char>)
    requires
        reach(Place::Top, a) == Place::Block(pkg),
        !(next(Place::Block(pkg), raw) is Block),
    ensures
        shuts(Place::Top, a + (seq![raw] + b), pkg),
{
    let block = Place::Block(pkg);
    let none = Seq::<Seq<char>>::empty();
    assert(seq![raw].drop_last() =~= none);
    assert(reach(block, none) == block);
    lemma_one(block, raw);
    assert(shuts(block, seq![raw], pkg));
    lemma_shuts_concat(block, seq![raw], b, pkg);
    lemma_shuts_concat(Place::Top, a, seq![raw] + b, pkg);
}

/// A new block behind the first `i` lines.
proof fn lemma_shut_block(
    lines: Seq<Seq<char>>,
    i: int,
    fresh: Seq<char>,
    items: Seq<Seq<char>>,
    tail: Seq<Seq<char>>,
    pkg: Seq<char>,
)
    requires
        0 <= i <= lines.len(),
        next(place_at(lines, i), fresh) == Place::Block(pkg),
        reach(Place::Block(pkg), items) == Place::Block(pkg),
    ensures
        shuts(Place::Top, lines.take(i) + (seq![fresh] + items) + (seq!["}"@] + tail), pkg),
{
    let none = Seq::<char>::empty();
    let a = lines.take(i) + (seq![fresh] + items);
    assert("}"@ + none =~= "}"@);
    lemma_close_line(none, pkg);
    lemma_one(place_at(lines, i), fresh);
    lemma_concat(place_at(lines, i), seq![fresh], items);
    lemma_concat(Place::Top, lines.take(i), seq![fresh] + items);
    lemma_shut_here(a, "}"@, tail, pkg);
}

/// More lines before the line that closes a block.
proof fn lemma_shut_grown(lines: Seq<Seq<char>>, close: int, items: Seq<Seq<char>>, pkg: Seq<char>)
    requires
        0 <= close < lines.len(),
        shuts_in(lines, pkg, close),
        reach(Place::Block(pkg), items) == Place::Block(pkg),
    ensures
        shuts(Place::Top, spliced(lines, close, items), pkg),
{
    let a = lines.take(close) + items;
    let tail = lines.skip(close + 1);
    lemma_place_step(lines, close);
    lemma_concat(Place::Top, lines.take(close), items);
    assert(spliced(lines, close, items) =~= a + (seq![lines[close]] + tail));
    lemma_shut_here(a, lines[close], tail, pkg);
}

/// Where rules were brought into a block, a block of the package is closed.
#[verifier::rlimit(40)]
#[verifier::spinoff_prover]
proof fn lemma_normalized_shuts(lines: Seq<Seq<char>>, pkg: Seq<char>)
    requires
        tidy(pkg),
        gathers(lines, pkg),
        !stay(found(lines, pkg)),
    ensures
        found(normalized(lines, pkg), pkg).block_close is Some,
{
    let t = found(lines, pkg);
    let n = lines.len() as int;
    let locs = singles(t.threads);
    let items = moved_all(lines, locs);
    let rest = locs_removed(lines, pkg, locs);
    let u = found(rest, pkg);
    let m = rest.len() as int;
    let now = normalized(lines, pkg);
    lemma_locs(lines, pkg, n);
    lemma_singles(t.threads, n);
    lemma_singles_removed(lines, pkg, n);
    assert forall|k: int| 0 <= k < locs.len() implies (#[trigger] locs[k]).single && loc_in(
        place_at(lines, locs[k].idx),
        lines[locs[k].idx],
        pkg,
        locs[k].idx,
    ) == Some(locs[k]) by {
        let j = choose|j: int| 0 <= j < t.threads.len() && t.threads[j] == locs[k];
        assert(t.threads[j] == locs[k]);
    }
    lemma_moved_all(lines, pkg, locs);
    lemma_block(rest, pkg, m);
    lemma_pkg_upto(rest, pkg, m);
    if let Some(close) = u.block_close {
        lemma_shut_grown(rest, close, items, pkg);
        assert(now == spliced(rest, close, items));
    } else if let Some(PkgAt::Standalone(i)) = u.pkg_line {
        let fresh = trim_end(rest[i]) + " {"@;
        let tail = rest.skip(i + 1);
        assert(next(place_at(rest, i), fresh) == Place::Block(pkg)) by {
            lemma_reopened(rest[i], pkg, outer(trim(rest[i]))->Rule_cpus);
        }
        lemma_shut_block(rest, i, fresh, items, tail, pkg);
        assert(now == block_added(rest, i, items));
        assert(now =~= rest.take(i) + (seq![fresh] + items) + (seq!["}"@] + tail));
    } else {
        let first = locs[0].idx;
        let open = bare_open(pkg);
        let tail = rest.skip(first);
        assert(!(place_at(lines, first) is Block));
        assert(place_at(rest, first) == place_at(lines, first));
        assert(next(place_at(rest, first), open) == Place::Block(pkg)) by {
            let none = Seq::<char>::empty();
            assert(open + none =~= open);
            lemma_bare_open(pkg, none);
        }
        lemma_shut_block(rest, first, open, items, tail, pkg);
        assert(now == spliced(rest, first, seq![open] + items.push("}"@)));
        assert(now =~= rest.take(first) + (seq![open] + items) + (seq!["}"@] + tail));
    }
    lemma_shuts_found(now, pkg, now.len() as int);
    assert(now.take(now.len() as int) =~= now);
}


// Taking a package out.

/// Whether none of the first `h` lines is a stray `{`, or opens a block of `pkg` with a rule for a
/// thread without a name.
#[verifier::opaque]
spec fn clear_upto(lines: Seq<Seq<char>>, pkg: Seq<char>, h: int) -> bool {
    forall|i: int| 0 <= i < h ==> !odd(place_at(lines, i), #[trigger] lines[i], pkg)
}

/// Whether none of the first `h` lines is a rule `pkg{thread}=cpus`, or no block of `pkg` is closed.
#[verifier::opaque]
spec fn gathered_upto(lines: Seq<Seq<char>>, pkg: Seq<char>, h: int) -> bool {
    ||| found(lines, pkg).block_close is None
    ||| forall|i: int|
        0 <= i < h ==> !single_of(pkg)(place_at(lines, i), #[trigger] lines[i])
}

proof fn lemma_clear_at(lines: Seq<Seq<char>>, pkg: Seq<char>, h: int, i: int)
    requires
        0 <= i < h <= lines.len(),
        clear_upto(lines, pkg, h),
        gathered_upto(lines, pkg, h),
    ensures
        !odd(place_at(lines, i), lines[i], pkg),
        found(lines, pkg).block_close is None || !single_of(pkg)(place_at(lines, i), lines[i]),
{
    reveal(clear_upto);
    reveal(gathered_upto);
}

/// A rule `pkg{thread}=cpus` is found.
proof fn lemma_single_found(lines: Seq<Seq<char>>, pkg: Seq<char>, i: int, n: int)
    requires
        0 <= i < n <= lines.len(),
        single_of(pkg)(place_at(lines, i), lines[i]),
    ensures
        exists|k: int|
            0 <= k < singles(locs_upto(lines, pkg, n)).len() && (#[trigger] singles(
                locs_upto(lines, pkg, n),
            )[k]).idx == i,
    decreases n,
{
    let all = locs_upto(lines, pkg, n);
    let here = loc_in(place_at(lines, n - 1), lines[n - 1], pkg, n - 1);
    if here is Some {
        assert(all.drop_last() =~= locs_upto(lines, pkg, n - 1));
        assert(all.last() == here->0);
    }
    let init = singles(locs_upto(lines, pkg, n - 1));
    if i < n - 1 {
        lemma_single_found(lines, pkg, i, n - 1);
        let k = choose|k: int| 0 <= k < init.len() && (#[trigger] init[k]).idx == i;
        assert(singles(all)[k] == init[k]);
    } else {
        assert(singles(all)[init.len() as int].idx == i);
    }
}

/// The line on which the package is found first, where one line opens a block of it: no later.
proof fn lemma_found_by(lines: Seq<Seq<char>>, pkg: Seq<char>, o: int) -> (k: int)
    requires
        0 <= o < lines.len(),
        opens_in(lines, pkg, o),
        !odd(place_at(lines, o), lines[o], pkg),
        !single_of(pkg)(place_at(lines, o), lines[o]),
    ensures
        0 <= k <= o,
        !blank(trim(lines[k])),
        found(lines, pkg).pkg_line == pkg_in(lines, pkg, k),
        found(lines, pkg).pkg_line matches Some(at) && pkg_idx(at) <= k,
        found(lines, pkg).pkg_line matches Some(PkgAt::BarePending(b)) ==> b == told_before(
            lines,
            k,
        ),
{
    let n = lines.len() as int;
    lemma_place_step(lines, o);
    assert(pkg_in(lines, pkg, o) is Some);
    lemma_first_pkg(lines, pkg, o, n);
    let k = choose|k: int|
        0 <= k <= o && #[trigger] pkg_in(lines, pkg, k) == pkg_upto(lines, pkg, n);
    lemma_told(lines, k);
    k
}

/// A block of the package behind its first one: where the first is closed, and what opens it.
proof fn lemma_blocks(lines: Seq<Seq<char>>, pkg: Seq<char>, i: int, h: int) -> (o: int)
    requires
        0 <= i < h <= lines.len(),
        clear_upto(lines, pkg, h),
        gathered_upto(lines, pkg, h),
        place_at(lines, h) != Place::Block(pkg),
        opens_in(lines, pkg, i),
        found(lines, pkg).block_open != Some(i),
    ensures
        found(lines, pkg).block_open == Some(o),
        found(lines, pkg).block_close is Some,
        0 <= o < i,
        opens_in(lines, pkg, o),
        !odd(place_at(lines, o), lines[o], pkg),
        !single_of(pkg)(place_at(lines, o), lines[o]),
        !inside(found(lines, pkg), i),
{
    let t = found(lines, pkg);
    let n = lines.len() as int;
    lemma_first_open(lines, pkg, i, n);
    lemma_first_block(lines, pkg);
    let o = t.block_open->0;
    if t.block_close is None {
        assert(inside(t, h));
        assert(false);
    }
    lemma_clear_at(lines, pkg, h, o);
    o
}

/// A line that opens a block of the package behind its first one is neither the package's line nor
/// in its first block, and neither is the name before it.
proof fn lemma_second_block(lines: Seq<Seq<char>>, pkg: Seq<char>, i: int, h: int)
    requires
        pkg.len() > 0,
        0 <= i < h <= lines.len(),
        clear_upto(lines, pkg, h),
        gathered_upto(lines, pkg, h),
        place_at(lines, h) != Place::Block(pkg),
        opens_in(lines, pkg, i),
        found(lines, pkg).block_open != Some(i),
    ensures
        !doomed(found(lines, pkg), i),
        lone_brace(lines[i]) ==> !doomed(found(lines, pkg), told_before(lines, i)),
{
    let t = found(lines, pkg);
    let o = lemma_blocks(lines, pkg, i, h);
    let k = lemma_found_by(lines, pkg, o);
    assert(!doomed(t, i)) by {
        lemma_not_single(lines, pkg, i, h);
    }
    if lone_brace(lines[i]) {
        let b = told_before(lines, i);
        assert(place_at(lines, i) is Named) by {
            lemma_place_step(lines, i);
        }
        lemma_named(lines, i);
        assert(!inside(t, b)) by {
            lemma_first_block(lines, pkg);
        }
        assert(b != o) by {
            lemma_place_step(lines, o);
        }
        assert(pkg_idx(t.pkg_line->0) != b) by {
            lemma_told(lines, i);
            lemma_told(lines, k);
            lemma_pkg_upto(lines, pkg, lines.len() as int);
        }
        lemma_not_single(lines, pkg, b, h);
    }
}

proof fn lemma_not_single(lines: Seq<Seq<char>>, pkg: Seq<char>, i: int, h: int)
    requires
        0 <= i < h <= lines.len(),
        clear_upto(lines, pkg, h),
        gathered_upto(lines, pkg, h),
        found(lines, pkg).block_close is Some,
    ensures
        !(exists|k: int|
            0 <= k < singles(found(lines, pkg).threads).len() && (#[trigger] singles(
                found(lines, pkg).threads,
            )[k]).idx == i),
{
    let t = found(lines, pkg);
    let n = lines.len() as int;
    if exists|k: int|
        0 <= k < singles(t.threads).len() && (#[trigger] singles(t.threads)[k]).idx == i {
        let k = choose|k: int|
            0 <= k < singles(t.threads).len() && (#[trigger] singles(t.threads)[k]).idx == i;
        lemma_locs(lines, pkg, n);
        lemma_singles(t.threads, n);
        let loc = singles(t.threads)[k];
        let j = choose|j: int| 0 <= j < t.threads.len() && t.threads[j] == loc;
        assert(t.threads[j] == loc);
        assert(single_of(pkg)(place_at(lines, i), lines[i]));
        lemma_clear_at(lines, pkg, h, i);
    }
}

/// A round of removal reads the first `h` lines as they were.
proof fn lemma_parts(lines: Seq<Seq<char>>, pkg: Seq<char>, h: int)
    requires
        pkg.len() > 0,
        0 <= h <= lines.len(),
        clear_upto(lines, pkg, h),
        gathered_upto(lines, pkg, h),
        place_at(lines, h) != Place::Block(pkg),
    ensures
        forall|i: int| 0 <= i < h ==> #[trigger] parts_at(lines, pkg, found(lines, pkg), i),
{
    let t = found(lines, pkg);
    lemma_first_block(lines, pkg);
    lemma_block_end(lines, pkg);
    assert forall|i: int| 0 <= i < h implies #[trigger] parts_at(lines, pkg, t, i) by {
        lemma_clear_at(lines, pkg, h, i);
        if opens_in(lines, pkg, i) && t.block_open != Some(i) {
            lemma_second_block(lines, pkg, i, h);
        }
        if t.block_open is Some && t.block_close is None && block_end(t, t.block_open->0) < i {
            assert(inside(t, h));
        }
    }
}

/// What stays of the first lines is as clear, and holds no rule `pkg{thread}=cpus`.
proof fn lemma_head_stays(lines: Seq<Seq<char>>, pkg: Seq<char>, n: int, h: int)
    requires
        pkg.len() > 0,
        0 <= n <= h <= lines.len(),
        clear_upto(lines, pkg, h),
        gathered_upto(lines, pkg, h),
        place_at(lines, h) != Place::Block(pkg),
    ensures
        tally(Place::Top, survivors(lines, found(lines, pkg), n), odd_of(pkg)) == 0,
        tally(Place::Top, survivors(lines, found(lines, pkg), n), single_of(pkg)) == 0,
    decreases n,
{
    let t = found(lines, pkg);
    if n > 0 {
        let i = n - 1;
        let raw = lines[i];
        lemma_head_stays(lines, pkg, i, h);
        if !doomed(t, i) {
            let p = place_at(lines, i);
            let q = rest_at(lines, t, i);
            let kept = survivors(lines, t, n);
            assert(kept.drop_last() =~= survivors(lines, t, i));
            lemma_parts(lines, pkg, h);
            lemma_round(lines, pkg, i);
            lemma_first_block(lines, pkg);
            lemma_block_end(lines, pkg);
            assert(parts_at(lines, pkg, t, i));
            lemma_clear_at(lines, pkg, h, i);
            if single_of(pkg)(p, raw) {
                lemma_single_found(lines, pkg, i, lines.len() as int);
                assert(false);
            }
            if inside(t, i) {
                assert(blank(trim(raw)));
            } else if lone_brace(raw) && !(p is Block) {
                lemma_brace_kept(lines, pkg, i);
            }
            assert(!odd(q, raw, pkg) && !single_of(pkg)(q, raw));
        }
    }
}

/// The lines that stay begin with those of the first lines that stay.
proof fn lemma_survivors_front(lines: Seq<Seq<char>>, t: Found, h: int, n: int)
    requires
        0 <= h <= n <= lines.len(),
    ensures
        survivors(lines, t, h).len() <= survivors(lines, t, n).len(),
        survivors(lines, t, n).take(survivors(lines, t, h).len() as int) == survivors(lines, t, h),
    decreases n,
{
    let front = survivors(lines, t, h);
    if h < n {
        lemma_survivors_front(lines, t, h, n - 1);
        let fewer = survivors(lines, t, n - 1);
        assert(survivors(lines, t, n).take(front.len() as int) =~= fewer.take(front.len() as int));
    } else {
        assert(front.take(front.len() as int) =~= front);
    }
}

/// Of the first `h` lines, those that are not about the package stay, in their order.
proof fn lemma_purged_front(lines: Seq<Seq<char>>, pkg: Seq<char>, h: int)
    requires
        pkg.len() > 0,
        0 <= h <= lines.len(),
        clear_upto(lines, pkg, h),
        gathered_upto(lines, pkg, h),
        place_at(lines, h) != Place::Block(pkg),
    ensures
        part_of(others(lines.take(h), pkg), purged(lines, pkg)),
        h == lines.len() ==> separable(lines, pkg),
    decreases lines.len(),
{
    let t = found(lines, pkg);
    let n = lines.len() as int;
    if t.any_line() {
        let kept = survivors(lines, t, n);
        let front = survivors(lines, t, h);
        let m = front.len() as int;
        lemma_doomed(lines, pkg);
        lemma_survivors_front(lines, t, h, n);
        lemma_parts(lines, pkg, h);
        lemma_round(lines, pkg, h);
        lemma_round_others(lines, pkg, h);
        lemma_head_stays(lines, pkg, h, h);
        lemma_none_met(kept, odd_of(pkg), m);
        lemma_none_met(kept, single_of(pkg), m);
        assert(gathered_upto(kept, pkg, m)) by {
            reveal(gathered_upto);
        }
        assert(clear_upto(kept, pkg, m)) by {
            reveal(clear_upto);
            assert forall|i: int| 0 <= i < m implies !odd(
                place_at(kept, i),
                #[trigger] kept[i],
                pkg,
            ) by {
                assert(!odd_of(pkg)(place_at(kept, i), kept[i]));
            }
        }
        assert(place_at(kept, m) == rest_at(lines, t, h));
        lemma_purged_front(kept, pkg, m);
        lemma_part_of_part(
            others(lines.take(h), pkg),
            others(front, pkg),
            purged(kept, pkg),
        );
        if h == n {
            lemma_parts_all(lines, pkg);
        }
    } else {
        let front = lines.take(h);
        let none = Seq::<Seq<char>>::empty();
        lemma_picked_part(Place::Top, front, not_about(pkg));
        lemma_part_between(front, lines.skip(h), none);
        assert(front + none =~= front);
        assert(front + (lines.skip(h) + none) =~= lines);
        lemma_part_of_part(others(front, pkg), front, lines);
    }
}

proof fn lemma_parts_all(lines: Seq<Seq<char>>, pkg: Seq<char>)
    requires
        forall|i: int|
            0 <= i < lines.len() ==> #[trigger] parts_at(lines, pkg, found(lines, pkg), i),
    ensures
        braces_stay_idle(lines, found(lines, pkg)),
        blocks_stay_whole(lines, pkg, found(lines, pkg)),
        open_end_is_silent(lines, found(lines, pkg)),
{
    let t = found(lines, pkg);
    assert forall|i: int|
        0 <= i < lines.len() && lone_brace(#[trigger] lines[i]) && place_at(lines, i) is Top
            && !doomed(t, i) implies !(rest_at(lines, t, i) is Named) by {
        assert(parts_at(lines, pkg, t, i));
    }
    assert forall|i: int|
        0 <= i < lines.len() && #[trigger] opens_in(lines, pkg, i) && t.block_open != Some(
            i,
        ) implies !doomed(t, i) && (lone_brace(lines[i]) ==> !doomed(t, told_before(lines, i))) by {
        assert(parts_at(lines, pkg, t, i));
    }
    if t.block_open is Some && t.block_close is None {
        lemma_first_block(lines, pkg);
        lemma_block_end(lines, pkg);
        assert forall|i: int| block_end(t, t.block_open->0) < i < lines.len() implies blank(
            trim(#[trigger] lines[i]),
        ) by {
            assert(parts_at(lines, pkg, t, i));
        }
    }
}


/// The last line before `n` that is read outside of the blocks, where the next ones stand in a block
/// of the package: all lines from there on are about it.
proof fn lemma_last_outside(lines: Seq<Seq<char>>, pkg: Seq<char>, n: int) -> (h: int)
    requires
        0 <= n <= lines.len(),
        place_at(lines, n) == Place::Block(pkg),
    ensures
        0 <= h < n,
        !(place_at(lines, h) is Block),
        others(lines.take(n), pkg) == others(lines.take(h), pkg),
    decreases n,
{
    assert(lines.take(0) =~= seq![]);
    let i = n - 1;
    lemma_place_step(lines, i);
    assert(lines.take(n).drop_last() =~= lines.take(i));
    assert(about(place_at(lines, i), lines[i], pkg));
    if place_at(lines, i) is Block {
        lemma_last_outside(lines, pkg, i)
    } else {
        i
    }
}

/// The lines once the rules of the package are brought into one block: as clear as they were.
proof fn lemma_now_clear(lines: Seq<Seq<char>>, pkg: Seq<char>, h: int)
    requires
        tidy(pkg),
        braces_named(lines),
        openers_named(lines, pkg),
        0 <= h <= normalized(lines, pkg).len(),
    ensures
        clear_upto(normalized(lines, pkg), pkg, h),
        gathered_upto(normalized(lines, pkg), pkg, h),
        part_of(others(lines, pkg), others(normalized(lines, pkg), pkg)),
{
    let t = found(lines, pkg);
    let n = lines.len() as int;
    let now = normalized(lines, pkg);
    let m = now.len() as int;
    law_plain_files_gather(lines, pkg);
    lemma_plain_tests(pkg);
    lemma_tests(pkg, pkg);
    assert(lines.take(n) =~= lines);
    assert(now.take(m) =~= now);
    assert forall|i: int| 0 <= i < n implies !odd_of(pkg)(
        place_at(lines, i),
        #[trigger] lines[i],
    ) by {}
    lemma_none_met(lines, odd_of(pkg), n);
    lemma_counted(lines, pkg);
    if stay(t) {
        lemma_part_of_itself(others(lines, pkg));
    } else {
        lemma_tally_normalized(lines, odd_of(pkg), pkg, false);
        lemma_tally_normalized(lines, single_of(pkg), pkg, true);
        lemma_tally_normalized(lines, not_about(pkg), pkg, false);
    }
    lemma_none_met(now, odd_of(pkg), m);
    lemma_none_met(now, single_of(pkg), m);
    assert(clear_upto(now, pkg, h)) by {
        reveal(clear_upto);
        assert forall|i: int| 0 <= i < h implies !odd(place_at(now, i), #[trigger] now[i], pkg) by {
            assert(!odd_of(pkg)(place_at(now, i), now[i]));
        }
    }
    assert(gathered_upto(now, pkg, h)) by {
        reveal(gathered_upto);
    }
}

/// Where every `{` alone stands behind a bare name, and no line opens a block of the package with a
/// rule for a thread without a name, all lines that are not about the package stay, in their order.
proof fn lemma_others_stay(lines: Seq<Seq<char>>, pkg: Seq<char>)
    requires
        tidy(pkg),
        braces_named(lines),
        openers_named(lines, pkg),
    ensures
        part_of(others(lines, pkg), purged(normalized(lines, pkg), pkg)),
{
    let now = normalized(lines, pkg);
    let m = now.len() as int;
    assert(now.take(m) =~= now);
    let h = if place_at(now, m) == Place::Block(pkg) {
        lemma_last_outside(now, pkg, m)
    } else {
        m
    };
    lemma_now_clear(lines, pkg, h);
    lemma_purged_front(now, pkg, h);
    lemma_part_of_part(others(lines, pkg), others(now, pkg), purged(now, pkg));
}

/// Where, besides, no rule of the package has a comment and the file does not end inside a block of
/// the package, the package can be taken out without touching the others.
pub proof fn law_plain_files_part(lines: Seq<Seq<char>>, pkg: Seq<char>)
    requires
        tidy(pkg),
        braces_named(lines),
        openers_named(lines, pkg),
        rules_plain(lines, pkg),
        place_at(lines, lines.len() as int) != Place::Block(pkg),
    ensures
        separable(normalized(lines, pkg), pkg),
{
    let n = lines.len() as int;
    let now = normalized(lines, pkg);
    let m = now.len() as int;
    assert(lines.take(n) =~= lines);
    assert(now.take(m) =~= now);
    law_plain_files_gather(lines, pkg);
    lemma_end_normalized(lines, pkg);
    lemma_now_clear(lines, pkg, m);
    lemma_purged_front(now, pkg, m);
}

// The edits of a file.

/// Setting the rule of a thread in a file whose blocks are closed succeeds. The new file states
/// `cpus` as the one rule of the thread and every other rule as often as before, and setting the
/// rule again writes the same file.
pub proof fn law_setting_a_thread_rule(
    text: Seq<char>,
    pkg: Seq<char>,
    thread: Seq<char>,
    cpus: Seq<char>,
)
    requires
        tidy(pkg),
        unbroken(pkg),
        tidy(thread),
        unbroken(thread),
        like_spec(cpus),
        plain_ends(text),
        braces_named(lines_of(text)),
        rules_plain(lines_of(text), pkg),
        !(place_at(lines_of(text), lines_of(text).len() as int) is Block),
    ensures
        upserted(lines_of(text), pkg, thread, cpus) is Ok,
        ({
            let after = upserted(lines_of(text), pkg, thread, cpus)->Ok_0;
            &&& cpus_for(rules_of(after), pkg, thread) == seq![cpus]
            &&& forall|rule: Said|
                !(rule.pkg == pkg && rule.thread == thread) ==> #[trigger] rules_of(
                    after,
                ).to_multiset().count(rule) == rules_of(lines_of(text)).to_multiset().count(rule)
            &&& lines_of(text_of(after)) == after
            &&& upserted(lines_of(text_of(after)), pkg, thread, cpus) == Ok::<
                Seq<Seq<char>>,
                RuleEdit,
            >(after)
        }),
{
    let lines = lines_of(text);
    law_plain_files_gather(lines, pkg);
    law_upserting_sets_one_rule(lines, pkg, thread, cpus);
    law_upserting_twice_writes_the_same_file(text, pkg, thread, cpus);
}

/// A `{` alone behind the name of a package goes with the name where no earlier line opens a block
/// of the package.
proof fn lemma_brace_goes(now: Seq<Seq<char>>, pkg: Seq<char>)
    requires
        singles(found(now, pkg).threads).len() == 0,
        clear_upto(now, pkg, now.len() as int),
    ensures
        clean_braces(now, found(now, pkg)),
{
    let n = now.len() as int;
    let t = found(now, pkg);
    if let Some(PkgAt::BarePending(i)) = t.pkg_line {
        let j = lemma_none_before(now, pkg, PkgAt::BarePending(i), n);
        lemma_place_step(now, j);
        lemma_first_open(now, pkg, j, n);
        lemma_block(now, pkg, n);
        let o = t.block_open->0;
        lemma_place_step(now, o);
        if o < j {
            let place = place_at(now, o);
            assert(!odd(place, now[o], pkg)) by {
                reveal(clear_upto);
            }
            if single_of(pkg)(place, now[o]) {
                lemma_counted(now, pkg);
                assert(now.take(n) =~= now);
                lemma_none_met(now, single_of(pkg), n);
            }
            assert(heads(place, now[o], pkg));
            lemma_first_pkg(now, pkg, o, n);
            lemma_found_early(now, pkg, o, j);
        }
        if let Outer::BareOpen { pkg: owner } = outer(trim(now[j])) {
            assert(owner =~= seq![]);
        }
    }
}

proof fn lemma_found_early(lines: Seq<Seq<char>>, pkg: Seq<char>, o: int, j: int)
    requires
        0 <= o < j,
        pkg_in(lines, pkg, o) is Some,
    ensures
        pkg_upto(lines, pkg, j) is Some,
    decreases j,
{
    if o < j - 1 {
        lemma_found_early(lines, pkg, o, j - 1);
    }
}

/// Setting the rule of a package is refused only where the file ends inside a block.
#[verifier::rlimit(40)]
#[verifier::spinoff_prover]
pub proof fn law_package_rules_can_be_set(lines: Seq<Seq<char>>, pkg: Seq<char>, cpus: Seq<char>)
    requires
        tidy(pkg),
        braces_named(lines),
    ensures
        !(place_at(lines, lines.len() as int) is Block) ==> upserted(lines, pkg, seq![], cpus) is Ok,
        upserted(lines, pkg, seq![], cpus) is Err ==> upserted(lines, pkg, seq![], cpus) == Err::<
            Seq<Seq<char>>,
            RuleEdit,
        >(RuleEdit::Malformed),
{
    let t = found(lines, pkg);
    let now = normalized(lines, pkg);
    let n = lines.len() as int;
    assert(lines.take(n) =~= lines);
    assert(now.take(now.len() as int) =~= now);
    law_plain_files_gather(lines, pkg);
    if !stay(t) && !(place_at(lines, n) is Block) && found(now, pkg).pkg_line is None {
        lemma_block_takes(lines, pkg);
        assert(gathers(lines, pkg));
        lemma_end_normalized(lines, pkg);
    }
}

/// Setting the rule of a package that no line names succeeds wherever the file does not end inside a
/// block: the rule is one more line behind all others, and nothing else changes.
pub proof fn law_new_package_rules_can_be_set(
    lines: Seq<Seq<char>>,
    pkg: Seq<char>,
    cpus: Seq<char>,
)
    requires
        tidy(pkg),
        braced(pkg) is None,
        like_spec(cpus),
        !found(lines, pkg).any_line(),
        !(place_at(lines, lines.len() as int) is Block),
    ensures
        upserted(lines, pkg, seq![], cpus) == Ok::<Seq<Seq<char>>, RuleEdit>(
            lines.push(pkg + "="@ + cpus),
        ),
        rules_of(lines.push(pkg + "="@ + cpus)) == rules_of(lines).push(
            Said { pkg, thread: seq![], cpus },
        ),
{
    assert(normalized(lines, pkg) == lines);
    lemma_one_more_line(lines, pkg, cpus);
}

/// Setting the rule of a package that its first line states, alone or with a block, always succeeds.
pub proof fn law_stated_package_rules_can_be_set(
    lines: Seq<Seq<char>>,
    pkg: Seq<char>,
    cpus: Seq<char>,
    i: int,
)
    requires
        0 <= i < normalized(lines, pkg).len(),
        heads(place_at(normalized(lines, pkg), i), normalized(lines, pkg)[i], pkg),
    ensures
        upserted(lines, pkg, seq![], cpus) is Ok,
{
    let now = normalized(lines, pkg);
    lemma_first_pkg(now, pkg, i, now.len() as int);
}

/// Rules of a package without a line of its own are brought into a block that is there.
#[verifier::rlimit(40)]
#[verifier::spinoff_prover]
pub proof fn lemma_block_takes(lines: Seq<Seq<char>>, pkg: Seq<char>)
    requires
        tidy(pkg),
        !stay(found(lines, pkg)),
        come_off(lines, pkg),
        found(normalized(lines, pkg), pkg).pkg_line is None,
    ensures
        ({
            let rest = locs_removed(lines, pkg, singles(found(lines, pkg).threads));
            found(rest, pkg).block_close is Some
        }),
{
    let t = found(lines, pkg);
    let locs = singles(t.threads);
    let rest = locs_removed(lines, pkg, locs);
    let u = found(rest, pkg);
    let now = normalized(lines, pkg);
    let m = rest.len() as int;
    lemma_pkg_upto(rest, pkg, m);
    if u.block_close is None {
        if let Some(PkgAt::Standalone(i)) = u.pkg_line {
            assert(now.take(i) =~= rest.take(i));
            assert(now[i] == trim_end(rest[i]) + " {"@);
            lemma_rule_stays(rest[i], pkg);
            assert(heads(place_at(now, i), now[i], pkg));
            lemma_first_pkg(now, pkg, i, now.len() as int);
        } else {
            let first = locs[0].idx;
            let none = Seq::<char>::empty();
            let n = lines.len() as int;
            assert(bare_open(pkg) + none =~= bare_open(pkg));
            lemma_bare_open(pkg, none);
            lemma_singles_removed(lines, pkg, n);
            lemma_locs(lines, pkg, n);
            lemma_singles(t.threads, n);
            let j = choose|j: int| 0 <= j < t.threads.len() && t.threads[j] == locs[0];
            assert(t.threads[j] == locs[0]);
            assert(place_at(rest, first) == place_at(lines, first));
            assert(now[first] == bare_open(pkg));
            assert(now.take(first) =~= rest.take(first));
            assert(heads(place_at(now, first), now[first], pkg));
            lemma_first_pkg(now, pkg, first, now.len() as int);
        }
    }
}

/// Rules that are stated as often hold as many of each thread.
pub proof fn lemma_as_many(a: Seq<Said>, b: Seq<Said>, pkg: Seq<char>, thread: Seq<char>)
    requires
        a.to_multiset() == b.to_multiset(),
    ensures
        cpus_for(a, pkg, thread).len() == cpus_for(b, pkg, thread).len(),
    decreases a.len(),
{
    a.to_multiset_ensures();
    b.to_multiset_ensures();
    assert(a.len() == b.len());
    if a.len() == 0 {
        assert(a =~= b);
    } else {
        let i = a.len() - 1;
        assert(a.contains(a[i]));
        assert(b.to_multiset().count(a[i]) > 0);
        let j = choose|j: int| 0 <= j < b.len() && b[j] == a[i];
        assert(a.remove(i).to_multiset() =~= a.to_multiset().remove(a[i]));
        assert(b.remove(j).to_multiset() =~= b.to_multiset().remove(b[j]));
        lemma_as_many(a.remove(i), b.remove(j), pkg, thread);
        let (x, y) = (b.take(j), b.skip(j + 1));
        let one = seq![b[j]];
        assert(a =~= a.remove(i) + one);
        assert(b =~= x + one + y);
        assert(b.remove(j) =~= x + y);
        lemma_parted(a.remove(i), one, pkg, thread);
        lemma_parted(x, y, pkg, thread);
        lemma_parted(x, one, pkg, thread);
        lemma_parted(x + one, y, pkg, thread);
    }
}

/// Setting the rule of a package in a file whose blocks are closed succeeds. The new file states
/// `cpus` as the first rule of the package, and as the only one where it stated none; every other
/// rule it states as often as before, and setting the rule again writes the same file. Where no line
/// named the package, the rule is one more line at the end.
#[verifier::rlimit(40)]
#[verifier::spinoff_prover]
pub proof fn law_setting_a_package_rule(text: Seq<char>, pkg: Seq<char>, cpus: Seq<char>)
    requires
        tidy(pkg),
        unbroken(pkg),
        braced(pkg) is None,
        like_spec(cpus),
        plain_ends(text),
        braces_named(lines_of(text)),
        openers_named(lines_of(text), pkg),
        rules_plain(lines_of(text), pkg),
        !(place_at(lines_of(text), lines_of(text).len() as int) is Block),
    ensures
        upserted(lines_of(text), pkg, seq![], cpus) is Ok,
        ({
            let lines = lines_of(text);
            let after = upserted(lines, pkg, seq![], cpus)->Ok_0;
            let had = cpus_for(rules_of(lines), pkg, seq![]);
            let has = cpus_for(rules_of(after), pkg, seq![]);
            &&& has.len() > 0 && has[0] == cpus
            &&& had.len() <= has.len() <= had.len() + 1
            &&& had.len() == 0 ==> has == seq![cpus]
            &&& forall|rule: Said|
                !(rule.pkg == pkg && rule.thread == Seq::<char>::empty()) ==> #[trigger] rules_of(
                    after,
                ).to_multiset().count(rule) == rules_of(lines).to_multiset().count(rule)
            &&& lines_of(text_of(after)) == after
            &&& upserted(lines_of(text_of(after)), pkg, seq![], cpus) == Ok::<
                Seq<Seq<char>>,
                RuleEdit,
            >(after)
            &&& !found(lines, pkg).any_line() ==> after == lines.push(pkg + "="@ + cpus)
                && rules_of(after) == rules_of(lines).push(Said { pkg, thread: seq![], cpus })
        }),
{
    let lines = lines_of(text);
    let now = normalized(lines, pkg);
    let n = lines.len() as int;
    let t = found(lines, pkg);
    let own = Seq::<char>::empty();
    assert(lines.take(n) =~= lines);
    assert(now.take(now.len() as int) =~= now);
    law_package_rules_can_be_set(lines, pkg, cpus);
    law_plain_files_gather(lines, pkg);
    law_normalizing_twice_changes_nothing(lines, pkg);
    lemma_now_clear(lines, pkg, now.len() as int);
    lemma_brace_goes(now, pkg);
    law_upserted_package_rule_holds(lines, pkg, cpus);
    law_upserting_a_package_rule_twice_writes_the_same_file(text, pkg, cpus);
    law_normalized_keeps_rules(lines, pkg);
    let after = upserted(lines, pkg, seq![], cpus)->Ok_0;
    let had = cpus_for(rules_of(lines), pkg, own);
    let kept = cpus_for(rules_of(now), pkg, own);
    lemma_as_many(rules_of(lines), rules_of(now), pkg, own);
    assert forall|rule: Said|
        !(rule.pkg == pkg && rule.thread == own) implies #[trigger] rules_of(
        after,
    ).to_multiset().count(rule) == rules_of(lines).to_multiset().count(rule) by {
        lemma_besides_count(rules_of(after), pkg, own, rule);
        lemma_besides_count(rules_of(now), pkg, own, rule);
    }
    lemma_own_rule(now, pkg);
    if !t.any_line() {
        lemma_one_more_line(lines, pkg, cpus);
    }
}

/// A rule of a package that a scan finds is stated.
pub proof fn lemma_own_rule(lines: Seq<Seq<char>>, pkg: Seq<char>)
    requires
        tidy(pkg),
    ensures
        found(lines, pkg).pkg_line matches Some(at) ==> (at is Standalone || at is OpenInline
            ==> cpus_for(rules_of(lines), pkg, seq![]).len() > 0),
{
    let n = lines.len() as int;
    let own = Seq::<char>::empty();
    let j = lemma_first_pkg_line(lines, pkg, n);
    if let Some(at) = found(lines, pkg).pkg_line {
        if at is Standalone || at is OpenInline {
            lemma_around(lines, j);
            lemma_outer_tidy(trim(lines[j]));
            let rule = says(place_at(lines, j), lines[j])->0;
            let before = rules_of(lines.take(j));
            let rest = rules_from(place_at(lines, j + 1), lines.skip(j + 1));
            lemma_single_rule(rule, pkg, own);
            lemma_parted(before, seq![rule], pkg, own);
            lemma_parted(before + seq![rule], rest, pkg, own);
        }
    }
}

/// A package rule on a line behind all others.
proof fn lemma_one_more_line(lines: Seq<Seq<char>>, pkg: Seq<char>, cpus: Seq<char>)
    requires
        tidy(pkg),
        braced(pkg) is None,
        like_spec(cpus),
        !(place_at(lines, lines.len() as int) is Block),
    ensures
        rules_of(lines.push(pkg + "="@ + cpus)) == rules_of(lines).push(
            Said { pkg, thread: seq![], cpus },
        ),
{
    let none = Seq::<char>::empty();
    let line = rule_line(pkg, cpus);
    let start = reach(Place::Top, lines);
    assert(lines.take(lines.len() as int) =~= lines);
    lemma_rule_line(pkg, cpus, none);
    assert(line + none =~= line);
    lemma_one(start, line);
    assert(lines.push(line) =~= lines + seq![line]);
    lemma_concat(Place::Top, lines, seq![line]);
}

/// Removing the rule of a thread from a file that does not end inside a block of the package finds
/// none exactly where the file states none. Otherwise the new file states none of the thread and
/// every other rule as often as before, and removing the rule again finds none.
pub proof fn law_removing_a_thread_rule(text: Seq<char>, pkg: Seq<char>, thread: Seq<char>)
    requires
        tidy(pkg),
        unbroken(pkg),
        thread.len() > 0,
        plain_ends(text),
        braces_named(lines_of(text)),
        rules_plain(lines_of(text), pkg),
        place_at(lines_of(text), lines_of(text).len() as int) != Place::Block(pkg),
    ensures
        deleted(lines_of(text), pkg, thread) == Err::<Seq<Seq<char>>, RuleEdit>(RuleEdit::NotFound)
            <==> cpus_for(rules_of(lines_of(text)), pkg, thread).len() == 0,
        deleted(lines_of(text), pkg, thread) is Err ==> deleted(lines_of(text), pkg, thread)
            == Err::<Seq<Seq<char>>, RuleEdit>(RuleEdit::NotFound),
        deleted(lines_of(text), pkg, thread) matches Ok(after) ==> {
            &&& cpus_for(rules_of(after), pkg, thread).len() == 0
            &&& forall|rule: Said|
                !(rule.pkg == pkg && rule.thread == thread) ==> #[trigger] rules_of(
                    after,
                ).to_multiset().count(rule) == rules_of(lines_of(text)).to_multiset().count(rule)
            &&& deleted(lines_of(text_of(after)), pkg, thread) == Err::<Seq<Seq<char>>, RuleEdit>(
                RuleEdit::NotFound,
            )
        },
{
    let lines = lines_of(text);
    law_plain_files_gather(lines, pkg);
    law_deleting_finds_what_is_stated(lines, pkg, thread);
    if deleted(lines, pkg, thread) is Ok {
        law_deleting_takes_one_thread_away(lines, pkg, thread);
        law_deleting_twice_finds_nothing_in_the_file(text, pkg, thread);
    }
}

/// Removing a package finds nothing exactly where no line of the file names it. Otherwise no line of
/// the new lines names it, all lines that are not about it stay, in their order, and removing it
/// again finds nothing. The rules of all other packages stay as they were, in their order, where no
/// rule of the package has a comment and the file does not end inside a block of the package.
pub proof fn law_removing_a_package(text: Seq<char>, pkg: Seq<char>)
    requires
        tidy(pkg),
        unbroken(pkg),
        plain_ends(text),
        braces_named(lines_of(text)),
        openers_named(lines_of(text), pkg),
    ensures
        pkg_deleted(lines_of(text), pkg) == Err::<Seq<Seq<char>>, RuleEdit>(RuleEdit::NotFound)
            <==> !found(lines_of(text), pkg).any_line(),
        pkg_deleted(lines_of(text), pkg) is Err ==> pkg_deleted(lines_of(text), pkg) == Err::<
            Seq<Seq<char>>,
            RuleEdit,
        >(RuleEdit::NotFound),
        pkg_deleted(lines_of(text), pkg) matches Ok(after) ==> {
            &&& !found(after, pkg).any_line()
            &&& part_of(others(lines_of(text), pkg), after)
            &&& pkg_deleted(lines_of(text_of(after)), pkg) == Err::<Seq<Seq<char>>, RuleEdit>(
                RuleEdit::NotFound,
            )
            &&& rules_plain(lines_of(text), pkg) && place_at(
                lines_of(text),
                lines_of(text).len() as int,
            ) != Place::Block(pkg) ==> apart(rules_of(after), pkg) == apart(
                rules_of(lines_of(text)),
                pkg,
            )
        },
{
    let lines = lines_of(text);
    law_deleting_a_package_finds_its_lines(lines, pkg);
    law_deleted_package_is_gone(lines, pkg);
    law_deleting_a_package_twice_finds_nothing_in_the_file(text, pkg);
    lemma_others_stay(lines, pkg);
    if rules_plain(lines, pkg) && place_at(lines, lines.len() as int) != Place::Block(pkg) {
        law_plain_files_gather(lines, pkg);
        law_plain_files_part(lines, pkg);
        law_deleted_package_leaves_the_others(lines, pkg);
        law_normalized_keeps_rules(lines, pkg);
    }
}


/// Whether `name` can stand on every line about a package: it holds no `=`, ends in neither `/` nor
/// `{`, and is no `}`.
pub open spec fn fits_anywhere(name: Seq<char>) -> bool {
    plain_name(name) && !name.contains('=') && name.last() != '/' && name.last() != '{' && name
        != seq!['}']
}

proof fn lemma_rounds_fit(lines: Seq<Seq<char>>, old_name: Seq<char>, name: Seq<char>, k: nat)
    requires
        fits_anywhere(name),
    ensures
        rounds_fit(lines, old_name, name, k),
    decreases k,
{
    if found(lines, old_name).any_line() && k > 0 {
        lemma_rounds_fit(rename_round(lines, old_name, name), old_name, name, (k - 1) as nat);
    }
}

/// Rules that are stated as often are stated as often up to the two names.
proof fn lemma_one_name_often(
    a: Seq<Said>,
    b: Seq<Said>,
    old_name: Seq<char>,
    name: Seq<char>,
)
    requires
        a.to_multiset() == b.to_multiset(),
    ensures
        one_name_rules(a, old_name, name).to_multiset() == one_name_rules(
            b,
            old_name,
            name,
        ).to_multiset(),
    decreases a.len(),
{
    let (x, y) = (one_name_rules(a, old_name, name), one_name_rules(b, old_name, name));
    a.to_multiset_ensures();
    b.to_multiset_ensures();
    x.to_multiset_ensures();
    y.to_multiset_ensures();
    assert(a.len() == b.len());
    if a.len() == 0 {
        assert(x =~= y);
    } else {
        let i = a.len() - 1;
        assert(a.contains(a[i]));
        assert(b.to_multiset().count(a[i]) > 0);
        let j = choose|j: int| 0 <= j < b.len() && b[j] == a[i];
        assert(a.remove(i).to_multiset() =~= a.to_multiset().remove(a[i]));
        assert(b.remove(j).to_multiset() =~= b.to_multiset().remove(b[j]));
        lemma_one_name_often(a.remove(i), b.remove(j), old_name, name);
        assert(one_name_rules(a.remove(i), old_name, name) =~= x.remove(i));
        assert(one_name_rules(b.remove(j), old_name, name) =~= y.remove(j));
        assert(x[i] == y[j]);
        assert(x.remove(i).to_multiset() =~= x.to_multiset().remove(x[i]));
        assert(y.remove(j).to_multiset() =~= y.to_multiset().remove(y[j]));
        assert(x.contains(x[i]) && y.contains(y[j]));
        assert(x.to_multiset() =~= x.remove(i).to_multiset().insert(x[i]));
        assert(y.to_multiset() =~= y.remove(j).to_multiset().insert(y[j]));
    }
}

/// Renaming a package to a name that fits anywhere comes to an end. It finds nothing exactly where no
/// line of the file names the package, and is refused exactly where one does and another names the
/// new name. Otherwise the package is found by its new name only, and up to the two names every
/// rule is stated as often as before.
pub proof fn law_renaming_a_package(lines: Seq<Seq<char>>, old_name: Seq<char>, name: Seq<char>)
    requires
        tidy(old_name),
        fits_anywhere(name),
        name != old_name,
        braces_named(lines),
        openers_named(lines, old_name),
        rules_plain(lines, old_name),
    ensures
        rename_ends_soon(lines, old_name, name),
        rename_ends(lines, old_name, name),
        renamed(lines, old_name, name) == Err::<Seq<Seq<char>>, RuleEdit>(RuleEdit::NotFound)
            <==> !found(lines, old_name).any_line(),
        renamed(lines, old_name, name) == Err::<Seq<Seq<char>>, RuleEdit>(RuleEdit::Conflict)
            <==> found(lines, old_name).any_line() && found(lines, name).any_line(),
        renamed(lines, old_name, name) is Ok <==> found(lines, old_name).any_line() && !found(
            lines,
            name,
        ).any_line(),
        renamed(lines, old_name, name) matches Ok(after) ==> {
            &&& !found(after, old_name).any_line()
            &&& found(after, name).any_line()
            &&& one_name_rules(rules_of(after), old_name, name).to_multiset() == one_name_rules(
                rules_of(lines),
                old_name,
                name,
            ).to_multiset()
        },
{
    let now = normalized(lines, old_name);
    law_plain_files_gather(lines, old_name);
    law_renaming_to_a_fitting_name_ends(lines, old_name, name);
    law_renaming_finds_its_lines(lines, old_name, name);
    if found(lines, old_name).any_line() {
        law_renaming_meets_names_in_use(lines, old_name, name);
    }
    if renamed(lines, old_name, name) is Ok {
        assert forall|k: nat| rounds_fit(now, old_name, name, k) by {
            lemma_rounds_fit(now, old_name, name, k);
        }
        law_renamed_package_is_gone(lines, old_name, name);
        law_renamed_package_is_found(lines, old_name, name);
        law_renamed_keeps_rules(lines, old_name, name);
        law_normalized_keeps_rules(lines, old_name);
        lemma_one_name_often(rules_of(now), rules_of(lines), old_name, name);
    }
}

} // verus!
