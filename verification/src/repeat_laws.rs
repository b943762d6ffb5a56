//! What an edit does when it is made a second time, and what it answers of the file as it was.

use crate::config::{
    braced, closes, cut, lemma_cut, lemma_cut_at, like_spec, mark_at, outer, single_parts, stripped,
    uncommented, Outer,
};
use crate::delete_laws::{
    inside, lemma_all_parts, lemma_brace_kept, lemma_doomed_kind, lemma_first_block, lemma_round,
    lone_brace, parts_at, rest_at, separable,
};
use crate::edit_laws::{
    all_space, besides, calm, clean_braces, come_off, cpus_for, firm, gathers,
    law_deleted_thread_rule_is_gone, law_normalized_keeps_rules, law_upserted_thread_rule_holds,
    lemma_around, lemma_bare_body, lemma_blank_lines, lemma_first_pkg_line, lemma_last_of_thread,
    lemma_lead, lemma_loc_removed, lemma_loc_says, lemma_lone_inside, lemma_moved_all, lemma_opener,
    lemma_parted, lemma_reopened, lemma_same_front, lemma_shape, lemma_shuts_found,
    lemma_single_rule, lemma_singles_removed, lemma_stops_all, lemma_swapped_member,
    lemma_swapped_outer, lemma_take_apart, lemma_thread_rules, lemma_told, lemma_trim_start_lead,
    lemma_value_len, plain_rule, stand_in,
};
use crate::rule_edit::{
    any_open, ascending, bare_open, blank, block_added, deleted, doomed, found, is_stop,
    lemma_block, lemma_doomed, lemma_locs, lemma_named, lemma_pkg_upto, lemma_place_step,
    lemma_singles, loc_in, loc_removed, locs_removed, locs_upto, member_line, moved, moved_all,
    next, normalized, of_thread, open_rule_line, open_upto, opens_in, pkg_deleted, pkg_idx, pkg_in,
    pkg_upto, place_at, purged, reach, renamed, rule_line, singles, spliced, stay, stops_of,
    survivors, swapped, told_before, upserted, value_len, with_comment_of, within, Found, Loc,
    PkgAt, Place, RuleEdit,
};
use crate::rule_laws::{
    is_note, law_deleted_package_is_gone, lemma_bare_open, lemma_close_line, lemma_concat,
    lemma_cut_no_mark, lemma_member_line, lemma_member_tidy, lemma_no_mark_sub, lemma_noted,
    lemma_one, lemma_open_rule_line, lemma_outer_tidy, lemma_rule_line, lemma_spec_chars,
    lemma_trim_end_keeps, lemma_trim_sub, no_mark, rules_from, rules_of, says, tidy, Said,
};
use crate::text::{
    begins, is_space, last_of, lemma_last_of, lemma_last_of_at, lemma_trim_end_prefix, trim,
    trim_end, trim_start,
};
use vstd::prelude::*;

verus! {

// Lines of one kind.

/// Those of the lines, read from `start`, that meet `test`.
pub open spec fn picked(
    start: Place,
    lines: Seq<Seq<char>>,
    test: spec_fn(Place, Seq<char>) -> bool,
) -> Seq<Seq<char>>
    decreases lines.len(),
{
    if lines.len() == 0 {
        seq![]
    } else {
        let front = picked(start, lines.drop_last(), test);
        if test(reach(start, lines.drop_last()), lines.last()) {
            front.push(lines.last())
        } else {
            front
        }
    }
}

/// How many of the lines, read from `start`, meet `test`.
pub open spec fn tally(
    start: Place,
    lines: Seq<Seq<char>>,
    test: spec_fn(Place, Seq<char>) -> bool,
) -> nat {
    picked(start, lines, test).len()
}

/// Whether a line is a rule `pkg{thread}=cpus` of `pkg`.
pub open spec fn single_of(pkg: Seq<char>) -> spec_fn(Place, Seq<char>) -> bool {
    |place: Place, raw: Seq<char>|
        match loc_in(place, raw, pkg, 0) {
            Some(loc) => loc.single,
            None => false,
        }
}

/// Whether `pkg` itself stands on a line: a rule of the package, or a `{` behind its name.
pub open spec fn heads(place: Place, raw: Seq<char>, pkg: Seq<char>) -> bool {
    !blank(trim(raw)) && !(place is Block) && match outer(trim(raw)) {
        Outer::Rule { pkg: owner, .. } => owner == pkg,
        Outer::BareOpen { pkg: owner } => if owner.len() > 0 {
            owner == pkg
        } else {
            place == Place::Named(pkg)
        },
        _ => false,
    }
}

pub open spec fn head_of(pkg: Seq<char>) -> spec_fn(Place, Seq<char>) -> bool {
    |place: Place, raw: Seq<char>| heads(place, raw, pkg)
}

/// Whether a line is about `pkg`: it stands in a block of the package, names it, or opens a block
/// behind its name.
pub open spec fn about(place: Place, raw: Seq<char>, pkg: Seq<char>) -> bool {
    ||| place == Place::Block(pkg)
    ||| !blank(trim(raw)) && !(place is Block) && match outer(trim(raw)) {
        Outer::Rule { pkg: owner, .. } => owner == pkg,
        Outer::Single { pkg: owner, .. } => owner == pkg,
        Outer::BareOpen { pkg: owner } => if owner.len() > 0 {
            owner == pkg
        } else {
            place == Place::Named(pkg)
        },
        Outer::Pending { pkg: owner } => owner == pkg,
        Outer::Junk => false,
    }
}

pub open spec fn not_about(pkg: Seq<char>) -> spec_fn(Place, Seq<char>) -> bool {
    |place: Place, raw: Seq<char>| !about(place, raw, pkg)
}

/// The lines that are not about `pkg`.
pub open spec fn others(lines: Seq<Seq<char>>, pkg: Seq<char>) -> Seq<Seq<char>> {
    picked(Place::Top, lines, not_about(pkg))
}

/// Whether a test passes over what stands in a block of `pkg` and what opens one with the name
/// alone, reads a line behind a bare name as without it, and meets the rules `pkg{thread}=cpus` of
/// `pkg` or not (`hit`).
pub open spec fn passes(
    test: spec_fn(Place, Seq<char>) -> bool,
    pkg: Seq<char>,
    hit: bool,
) -> bool {
    &&& forall|raw: Seq<char>| !#[trigger] test(Place::Block(pkg), raw)
    &&& forall|name: Seq<char>, raw: Seq<char>|
        !lone_brace(raw) ==> #[trigger] test(Place::Named(name), raw) == test(Place::Top, raw)
    &&& forall|place: Place, raw: Seq<char>|
        !(place is Block) && !blank(trim(raw)) ==> (match outer(trim(raw)) {
            Outer::Single { pkg: owner, thread, .. } => owner == pkg && thread.len() > 0
                ==> #[trigger] test(place, raw) == hit,
            Outer::BareOpen { pkg: owner } => owner == pkg && owner.len() > 0 ==> !test(place, raw),
            _ => true,
        })
}

/// Whether the test also passes over the rules of the package.
pub open spec fn counts(
    test: spec_fn(Place, Seq<char>) -> bool,
    pkg: Seq<char>,
    hit: bool,
) -> bool {
    &&& passes(test, pkg, hit)
    &&& forall|place: Place, raw: Seq<char>|
        !(place is Block) && !blank(trim(raw)) && (outer(trim(raw)) matches Outer::Rule {
            pkg: owner,
            ..
        } && owner == pkg) ==> !#[trigger] test(place, raw)
}

/// Whether a test passes over rules that open no block and over lines that say nothing, read
/// outside of the blocks.
pub open spec fn silent(test: spec_fn(Place, Seq<char>) -> bool) -> bool {
    forall|raw: Seq<char>|
        !blank(trim(raw)) && (outer(trim(raw)) is Junk || (outer(trim(raw)) matches Outer::Rule {
            open,
            ..
        } && !open)) ==> !#[trigger] test(Place::Top, raw)
}

pub proof fn lemma_tests(pkg: Seq<char>, other: Seq<char>)
    ensures
        counts(single_of(pkg), pkg, true),
        other != pkg ==> counts(single_of(other), pkg, false),
        other != pkg ==> counts(head_of(other), pkg, false),
        counts(not_about(pkg), pkg, false),
        silent(single_of(pkg)),
{
    assert forall|name: Seq<char>, raw: Seq<char>| !lone_brace(raw) implies #[trigger] not_about(
        pkg,
    )(Place::Named(name), raw) == not_about(pkg)(Place::Top, raw) by {
        if !blank(trim(raw)) {
            if let Outer::BareOpen { pkg: owner } = outer(trim(raw)) {
                if owner.len() == 0 {
                    assert(owner =~= seq![]);
                }
            }
        }
    }
    assert forall|name: Seq<char>, raw: Seq<char>| !lone_brace(raw) implies #[trigger] head_of(
        other,
    )(Place::Named(name), raw) == head_of(other)(Place::Top, raw) by {
        if !blank(trim(raw)) {
            if let Outer::BareOpen { pkg: owner } = outer(trim(raw)) {
                if owner.len() == 0 {
                    assert(owner =~= seq![]);
                }
            }
        }
    }
}

pub proof fn lemma_tally_concat(
    start: Place,
    a: Seq<Seq<char>>,
    b: Seq<Seq<char>>,
    test: spec_fn(Place, Seq<char>) -> bool,
)
    ensures
        picked(start, a + b, test) == picked(start, a, test) + picked(reach(start, a), b, test),
    decreases b.len(),
{
    if b.len() == 0 {
        assert(a + b =~= a);
    } else {
        let c = b.drop_last();
        lemma_tally_concat(start, a, c, test);
        lemma_concat(start, a, c);
        assert((a + b).drop_last() =~= a + c);
    }
}

pub proof fn lemma_tally_one(start: Place, raw: Seq<char>, test: spec_fn(Place, Seq<char>) -> bool)
    ensures
        picked(start, seq![raw], test) == if test(start, raw) {
            seq![raw]
        } else {
            Seq::<Seq<char>>::empty()
        },
{
    let none = Seq::<Seq<char>>::empty();
    assert(seq![raw].drop_last() =~= none);
    assert(picked(start, none, test) =~= none);
    assert(reach(start, none) == start);
}

/// Of lines that do not begin with a `{` alone, the same are met behind a bare name as without it.
proof fn lemma_tally_calm(
    name: Seq<char>,
    lines: Seq<Seq<char>>,
    test: spec_fn(Place, Seq<char>) -> bool,
    pkg: Seq<char>,
    hit: bool,
)
    requires
        calm(lines),
        passes(test, pkg, hit),
    ensures
        picked(Place::Named(name), lines, test) == picked(Place::Top, lines, test),
    decreases lines.len(),
{
    if lines.len() > 0 {
        let one = seq![lines[0]];
        let rest = lines.drop_first();
        let (named, top) = (Place::Named(name), Place::Top);
        assert(lines =~= one + rest);
        lemma_one(named, lines[0]);
        lemma_one(top, lines[0]);
        lemma_tally_one(named, lines[0], test);
        lemma_tally_one(top, lines[0], test);
        lemma_tally_concat(named, one, rest, test);
        lemma_tally_concat(top, one, rest, test);
        assert(!lone_brace(lines[0]));
        assert(test(named, lines[0]) == test(top, lines[0]));
        if blank(trim(lines[0])) {
            lemma_tally_calm(name, rest, test, pkg, hit);
        } else if let Outer::BareOpen { pkg: owner } = outer(trim(lines[0])) {
            if owner.len() == 0 {
                assert(owner =~= seq![]);
            }
        }
    }
}

/// Removing a thread rule takes its line out of the count and puts in what stands in for it.
pub proof fn lemma_tally_removed(
    lines: Seq<Seq<char>>,
    loc: Loc,
    test: spec_fn(Place, Seq<char>) -> bool,
    pkg: Seq<char>,
    hit: bool,
)
    requires
        0 <= loc.idx < lines.len(),
        loc_in(place_at(lines, loc.idx), lines[loc.idx], pkg, loc.idx) == Some(loc),
        loc.single && !loc.open ==> place_at(lines, loc.idx) is Top || calm(
            lines.skip(loc.idx + 1),
        ),
        passes(test, pkg, hit),
    ensures
        loc.single && hit ==> tally(Place::Top, loc_removed(lines, pkg, loc), test) + 1 == tally(
            Place::Top,
            lines,
            test,
        ),
        !(loc.single && hit) ==> picked(Place::Top, loc_removed(lines, pkg, loc), test) == picked(
            Place::Top,
            lines,
            test,
        ),
{
    let i = loc.idx;
    let raw = lines[i];
    let place = place_at(lines, i);
    let head = lines.take(i);
    let tail = lines.skip(i + 1);
    let one = seq![raw];
    let items = stand_in(raw, pkg, loc);
    lemma_loc_removed(lines, pkg, loc);
    lemma_place_step(lines, i);
    lemma_one(place, raw);
    lemma_tally_one(place, raw, test);
    assert(loc_removed(lines, pkg, loc) =~= head + (items + tail));
    assert(lines =~= head + (one + tail));
    lemma_tally_concat(Place::Top, head, one + tail, test);
    lemma_tally_concat(Place::Top, head, items + tail, test);
    lemma_tally_concat(place, one, tail, test);
    lemma_tally_concat(place, items, tail, test);
    lemma_outer_tidy(trim(raw));
    lemma_cut_no_mark(raw);
    let note = raw.skip(cut(raw));
    if loc.open {
        lemma_bare_open(pkg, note);
        lemma_tally_one(place, bare_open(pkg) + note, test);
    } else if loc.closed {
        lemma_tally_one(place, "}"@ + note, test);
    } else {
        assert(items =~= seq![]);
        assert(picked(place, items, test) =~= seq![]);
        assert(reach(place, items) == place);
        if place is Named {
            lemma_tally_calm(place->Named_0, tail, test, pkg, hit);
        }
    }
    let none = Seq::<Seq<char>>::empty();
    let rest = picked(place_at(lines, i + 1), tail, test);
    assert(picked(place, items, test) =~= none);
    assert(none + rest =~= rest);
}

/// Removing the rules `pkg{thread}=cpus` before line `n`.
pub proof fn lemma_tally_singles(
    lines: Seq<Seq<char>>,
    n: int,
    test: spec_fn(Place, Seq<char>) -> bool,
    pkg: Seq<char>,
    hit: bool,
)
    requires
        0 <= n <= lines.len(),
        firm(lines, pkg, singles(locs_upto(lines, pkg, n))),
        passes(test, pkg, hit),
    ensures
        ({
            let locs = singles(locs_upto(lines, pkg, n));
            let rest = locs_removed(lines, pkg, locs);
            &&& hit ==> tally(Place::Top, rest, test) + locs.len() == tally(Place::Top, lines, test)
            &&& !hit ==> picked(Place::Top, rest, test) == picked(Place::Top, lines, test)
        }),
    decreases n,
{
    let all = locs_upto(lines, pkg, n);
    let locs = singles(all);
    if n > 0 {
        let i = n - 1;
        let here = loc_in(place_at(lines, i), lines[i], pkg, i);
        if here is Some {
            assert(all.drop_last() =~= locs_upto(lines, pkg, i));
            assert(all.last() == here->0);
        }
        if here is Some && here->0.single {
            let loc = here->0;
            let fewer = loc_removed(lines, pkg, loc);
            let init = singles(locs_upto(lines, pkg, i));
            assert(locs =~= init.push(loc));
            assert(locs.drop_last() =~= init);
            lemma_tally_removed(lines, loc, test, pkg, hit);
            lemma_loc_removed(lines, pkg, loc);
            lemma_same_front(lines, fewer, pkg, i);
            lemma_tally_singles(fewer, i, test, pkg, hit);
        } else {
            assert(locs =~= singles(locs_upto(lines, pkg, i)));
            lemma_tally_singles(lines, i, test, pkg, hit);
        }
    }
}


/// More lines before the line that closes a block.
proof fn lemma_tally_into_block(
    lines: Seq<Seq<char>>,
    close: int,
    items: Seq<Seq<char>>,
    test: spec_fn(Place, Seq<char>) -> bool,
    pkg: Seq<char>,
)
    requires
        0 <= close <= lines.len(),
        place_at(lines, close) == Place::Block(pkg),
        reach(Place::Block(pkg), items) == Place::Block(pkg),
        tally(Place::Block(pkg), items, test) == 0,
    ensures
        picked(Place::Top, spliced(lines, close, items), test) == picked(Place::Top, lines, test),
{
    let a = lines.take(close);
    let b = lines.skip(close);
    assert(lines =~= a + b);
    lemma_tally_concat(Place::Top, a, b, test);
    assert(spliced(lines, close, items) =~= a + (items + b));
    lemma_tally_concat(Place::Top, a, items + b, test);
    lemma_tally_concat(Place::Block(pkg), items, b, test);
    let rest = picked(Place::Block(pkg), b, test);
    assert(picked(Place::Block(pkg), items, test) + rest =~= rest);
}

/// A block behind a package rule without a comment.
proof fn lemma_tally_block_added(
    lines: Seq<Seq<char>>,
    i: int,
    items: Seq<Seq<char>>,
    test: spec_fn(Place, Seq<char>) -> bool,
    pkg: Seq<char>,
    hit: bool,
)
    requires
        0 <= i < lines.len(),
        !blank(trim(lines[i])),
        !(place_at(lines, i) is Block),
        outer(trim(lines[i])) matches Outer::Rule { pkg: owner, open, .. } && owner == pkg && !open,
        cut(lines[i]) == lines[i].len(),
        reach(Place::Block(pkg), items) == Place::Block(pkg),
        tally(Place::Block(pkg), items, test) == 0,
        counts(test, pkg, hit),
    ensures
        picked(Place::Top, block_added(lines, i, items), test) == picked(Place::Top, lines, test),
{
    reveal_strlit("}");
    let raw = lines[i];
    let place = place_at(lines, i);
    let block = Place::Block(pkg);
    let fresh = trim_end(raw) + " {"@;
    lemma_reopened(raw, pkg, outer(trim(raw))->Rule_cpus);
    let head = lines.take(i);
    let tail = lines.skip(i + 1);
    let close = seq!["}"@];
    let inner = items + (close + tail);
    lemma_one(place, raw);
    lemma_one(place, fresh);
    lemma_tally_one(place, raw, test);
    lemma_tally_one(place, fresh, test);
    assert("}"@ + Seq::<char>::empty() =~= "}"@);
    lemma_close_line(Seq::<char>::empty(), pkg);
    lemma_one(block, "}"@);
    lemma_tally_one(block, "}"@, test);
    assert(!test(place, raw) && !test(place, fresh));
    assert(block_added(lines, i, items) =~= head + (seq![fresh] + inner));
    assert(lines =~= head + (seq![raw] + tail));
    lemma_tally_concat(Place::Top, head, seq![raw] + tail, test);
    lemma_tally_concat(Place::Top, head, seq![fresh] + inner, test);
    lemma_tally_concat(place, seq![raw], tail, test);
    lemma_tally_concat(place, seq![fresh], inner, test);
    lemma_tally_concat(block, items, close + tail, test);
    lemma_tally_concat(block, close, tail, test);
    let none = Seq::<Seq<char>>::empty();
    let rest = picked(Place::Top, tail, test);
    assert(picked(block, items, test) =~= none);
    assert(none + rest =~= rest);
}

/// A thread rule rewritten for the inside of a block is a package rule outside of one.
proof fn lemma_moved_outside(place: Place, raw: Seq<char>, pkg: Seq<char>, loc: Loc)
    requires
        !(place is Block),
        loc.single,
        loc_in(place, raw, pkg, loc.idx) == Some(loc),
    ensures
        !blank(trim(moved(raw))),
        outer(trim(moved(raw))) matches Outer::Rule { open, .. } && !open,
{
    reveal_strlit("\t");
    reveal_strlit("=");
    let p = trim(raw);
    lemma_outer_tidy(p);
    lemma_cut_no_mark(p);
    let note = p.skip(cut(p));
    let core = stripped(p, '{');
    let (owner, thread, cpus) = single_parts(core)->0;
    // the name of the thread stands behind the last `{`
    let name = trim(core.take(last_of(core, '=')->0));
    lemma_last_of(name, '{');
    let b = last_of(name, '{')->0;
    let inner = name.subrange(b + 1, name.len() - 1);
    let (x, y) = lemma_trim_sub(inner);
    assert forall|i: int| 0 <= i < thread.len() implies #[trigger] thread[i] != '{' by {
        assert(thread[i] == name[b + 1 + x + i]);
    }
    lemma_last_of(thread, '{');
    assert(braced(thread) is None);
    lemma_rule_line(thread, cpus, note);
    let line = rule_line(thread, cpus) + note;
    assert(moved(raw) =~= seq!['\t'] + line);
    assert(moved(raw).drop_first() =~= line);
    assert(is_space('\t'));
    assert(trim(moved(raw)) == trim(line));
}

/// Rules that were to go into a block, behind a package rule whose comment takes its `{` in.
proof fn lemma_tally_block_commented(
    lines: Seq<Seq<char>>,
    i: int,
    items: Seq<Seq<char>>,
    test: spec_fn(Place, Seq<char>) -> bool,
    pkg: Seq<char>,
    hit: bool,
)
    requires
        0 <= i < lines.len(),
        !blank(trim(lines[i])),
        !(place_at(lines, i) is Block),
        outer(trim(lines[i])) matches Outer::Rule { pkg: owner, open, .. } && owner == pkg && !open,
        cut(lines[i]) != lines[i].len(),
        reach(Place::Top, items) is Top,
        counts(test, pkg, hit),
    ensures
        picked(Place::Top, lines, test) == picked(Place::Top, lines.take(i), test) + picked(
            Place::Top,
            lines.skip(i + 1),
            test,
        ),
        picked(Place::Top, block_added(lines, i, items), test) == picked(
            Place::Top,
            lines.take(i),
            test,
        ) + (picked(Place::Top, items.push("}"@), test) + picked(
            Place::Top,
            lines.skip(i + 1),
            test,
        )),
{
    let raw = lines[i];
    let place = place_at(lines, i);
    let top = Place::Top;
    let fresh = trim_end(raw) + " {"@;
    let (head, tail) = (lines.take(i), lines.skip(i + 1));
    let chunk = items.push("}"@);
    let inner = chunk + tail;
    lemma_rule_stays(raw, pkg);
    lemma_one(place, raw);
    lemma_one(place, fresh);
    lemma_tally_one(place, raw, test);
    lemma_tally_one(place, fresh, test);
    lemma_close_outside();
    assert(chunk.drop_last() =~= items);
    assert(reach(top, chunk) == top);
    assert(block_added(lines, i, items) =~= head + (seq![fresh] + inner));
    assert(lines =~= head + (seq![raw] + tail));
    lemma_tally_concat(top, head, seq![raw] + tail, test);
    lemma_tally_concat(top, head, seq![fresh] + inner, test);
    lemma_tally_concat(place, seq![raw], tail, test);
    lemma_tally_concat(place, seq![fresh], inner, test);
    lemma_tally_concat(top, chunk, tail, test);
    let none = Seq::<Seq<char>>::empty();
    assert(none + picked(top, tail, test) =~= picked(top, tail, test));
    assert(none + picked(top, inner, test) =~= picked(top, inner, test));
}

/// A `}` alone says nothing outside of the blocks.
proof fn lemma_close_outside()
    ensures
        !blank(trim("}"@)),
        outer(trim("}"@)) is Junk,
        next(Place::Top, "}"@) is Top,
{
    reveal_strlit("}");
    reveal_strlit("//");
    let none = Seq::<char>::empty();
    assert("}"@ =~= seq!['}']);
    assert("}"@ + none =~= "}"@);
    lemma_noted("}"@, none);
    assert(closes(trim("}"@)));
}

/// Rules rewritten for the inside of a block, read outside of one.
proof fn lemma_tally_outside(
    lines: Seq<Seq<char>>,
    locs: Seq<Loc>,
    test: spec_fn(Place, Seq<char>) -> bool,
    pkg: Seq<char>,
)
    requires
        forall|k: int|
            0 <= k < locs.len() ==> (#[trigger] locs[k]).single && loc_in(
                place_at(lines, locs[k].idx),
                lines[locs[k].idx],
                pkg,
                locs[k].idx,
            ) == Some(locs[k]),
    ensures
        silent(test) ==> tally(Place::Top, moved_all(lines, locs), test) == 0,
        reach(Place::Top, moved_all(lines, locs)) is Top,
    decreases locs.len(),
{
    if locs.len() > 0 {
        let init = locs.drop_last();
        assert forall|k: int| 0 <= k < init.len() implies (#[trigger] init[k]).single && loc_in(
            place_at(lines, init[k].idx),
            lines[init[k].idx],
            pkg,
            init[k].idx,
        ) == Some(init[k]) by {
            assert(init[k] == locs[k]);
        }
        lemma_tally_outside(lines, init, test, pkg);
        let items = moved_all(lines, locs);
        assert(items.drop_last() =~= moved_all(lines, init));
        let loc = locs[locs.len() - 1];
        lemma_moved_outside(place_at(lines, loc.idx), lines[loc.idx], pkg, loc);
        assert(items.last() == moved(lines[loc.idx]));
    }
}

/// A new block between two lines, outside any block and not between a bare name and its `{`.
proof fn lemma_tally_new_block(
    lines: Seq<Seq<char>>,
    at: int,
    items: Seq<Seq<char>>,
    test: spec_fn(Place, Seq<char>) -> bool,
    pkg: Seq<char>,
    hit: bool,
)
    requires
        0 <= at <= lines.len(),
        !(place_at(lines, at) is Block),
        place_at(lines, at) is Top || calm(lines.skip(at)),
        tidy(pkg),
        reach(Place::Block(pkg), items) == Place::Block(pkg),
        tally(Place::Block(pkg), items, test) == 0,
        counts(test, pkg, hit),
    ensures
        picked(Place::Top, spliced(lines, at, seq![bare_open(pkg)] + items.push("}"@)), test)
            == picked(Place::Top, lines, test),
{
    let none = Seq::<char>::empty();
    let block = Place::Block(pkg);
    let a = lines.take(at);
    let b = lines.skip(at);
    let close = seq!["}"@];
    let open = seq![bare_open(pkg)];
    let inner = items + (close + b);
    assert(bare_open(pkg) + none =~= bare_open(pkg));
    assert("}"@ + none =~= "}"@);
    lemma_bare_open(pkg, none);
    lemma_close_line(none, pkg);
    let start = place_at(lines, at);
    lemma_one(start, bare_open(pkg));
    lemma_tally_one(start, bare_open(pkg), test);
    lemma_one(block, "}"@);
    lemma_tally_one(block, "}"@, test);
    assert(spliced(lines, at, open + items.push("}"@)) =~= a + (open + inner));
    assert(lines =~= a + b);
    lemma_tally_concat(Place::Top, a, b, test);
    lemma_tally_concat(Place::Top, a, open + inner, test);
    lemma_tally_concat(start, open, inner, test);
    lemma_tally_concat(block, items, close + b, test);
    lemma_tally_concat(block, close, b, test);
    if let Place::Named(name) = start {
        lemma_tally_calm(name, b, test, pkg, hit);
    }
    let none = Seq::<Seq<char>>::empty();
    let rest = picked(Place::Top, b, test);
    assert(picked(block, items, test) =~= none);
    assert(none + rest =~= rest);
}

/// Rules rewritten for the inside of a block are passed over there.
proof fn lemma_tally_moved(
    lines: Seq<Seq<char>>,
    locs: Seq<Loc>,
    test: spec_fn(Place, Seq<char>) -> bool,
    pkg: Seq<char>,
    hit: bool,
)
    requires
        counts(test, pkg, hit),
        forall|k: int|
            0 <= k < locs.len() ==> (#[trigger] locs[k]).single && loc_in(
                place_at(lines, locs[k].idx),
                lines[locs[k].idx],
                pkg,
                locs[k].idx,
            ) == Some(locs[k]),
    ensures
        tally(Place::Block(pkg), moved_all(lines, locs), test) == 0,
    decreases locs.len(),
{
    if locs.len() > 0 {
        let init = locs.drop_last();
        assert forall|k: int| 0 <= k < init.len() implies (#[trigger] init[k]).single && loc_in(
            place_at(lines, init[k].idx),
            lines[init[k].idx],
            pkg,
            init[k].idx,
        ) == Some(init[k]) by {
            assert(init[k] == locs[k]);
        }
        lemma_tally_moved(lines, init, test, pkg, hit);
        lemma_moved_all(lines, pkg, init);
        assert(moved_all(lines, locs).drop_last() =~= moved_all(lines, init));
    }
}

/// Bringing the rules of a package into one block takes its rules `pkg{thread}=cpus` out of the
/// count, and nothing else.
#[verifier::rlimit(40)]
#[verifier::spinoff_prover]
pub proof fn lemma_tally_normalized(
    lines: Seq<Seq<char>>,
    test: spec_fn(Place, Seq<char>) -> bool,
    pkg: Seq<char>,
    hit: bool,
)
    requires
        tidy(pkg),
        come_off(lines, pkg),
        !stay(found(lines, pkg)),
        counts(test, pkg, hit),
    ensures
        hit && (gathers(lines, pkg) || silent(test)) ==> tally(
            Place::Top,
            normalized(lines, pkg),
            test,
        ) + singles(found(lines, pkg).threads).len() == tally(Place::Top, lines, test),
        !hit && (gathers(lines, pkg) || silent(test)) ==> picked(
            Place::Top,
            normalized(lines, pkg),
            test,
        ) == picked(Place::Top, lines, test),
        !hit ==> part_of(
            picked(Place::Top, lines, test),
            picked(Place::Top, normalized(lines, pkg), test),
        ),
{
    let t = found(lines, pkg);
    let n = lines.len() as int;
    let locs = singles(t.threads);
    let items = moved_all(lines, locs);
    let rest = locs_removed(lines, pkg, locs);
    let u = found(rest, pkg);
    let m = rest.len() as int;
    lemma_tally_singles(lines, n, test, pkg, hit);
    lemma_singles_removed(lines, pkg, n);
    lemma_locs(lines, pkg, n);
    lemma_singles(t.threads, n);
    assert forall|k: int| 0 <= k < locs.len() implies (#[trigger] locs[k]).single && loc_in(
        place_at(lines, locs[k].idx),
        lines[locs[k].idx],
        pkg,
        locs[k].idx,
    ) == Some(locs[k]) by {
        let j = choose|j: int| 0 <= j < t.threads.len() && t.threads[j] == locs[k];
        assert(t.threads[j] == locs[k]);
    }
    lemma_moved_all(lines, pkg, locs);
    lemma_tally_moved(lines, locs, test, pkg, hit);
    lemma_part_of_itself(picked(Place::Top, rest, test));
    lemma_block(rest, pkg, m);
    lemma_pkg_upto(rest, pkg, m);
    match u.block_close {
        Some(close) => {
            lemma_tally_into_block(rest, close, items, test, pkg);
        },
        None => match u.pkg_line {
            Some(PkgAt::Standalone(i)) => {
                if cut(rest[i]) == rest[i].len() {
                    lemma_tally_block_added(rest, i, items, test, pkg, hit);
                } else {
                    lemma_tally_outside(lines, locs, test, pkg);
                    lemma_tally_block_commented(rest, i, items, test, pkg, hit);
                    lemma_close_outside();
                    let chunk = items.push("}"@);
                    assert(chunk.drop_last() =~= items);
                    let (a, b) = (
                        picked(Place::Top, rest.take(i), test),
                        picked(Place::Top, rest.skip(i + 1), test),
                    );
                    lemma_part_between(a, picked(Place::Top, chunk, test), b);
                    if silent(test) {
                        assert(picked(Place::Top, chunk, test) + b =~= b);
                    }
                }
            },
            _ => {
                let first = locs[0].idx;
                assert(!locs[0].open) by {
                    lemma_shuts_found(lines, pkg, n);
                    lemma_shuts_found(rest, pkg, m);
                    assert(lines.take(n) =~= lines);
                    assert(rest.take(m) =~= rest);
                    assert(t.block_close is None);
                }
                assert(place_at(rest, first) == place_at(lines, first));
                lemma_tally_new_block(rest, first, items, test, pkg, hit);
            },
        },
    }
}

/// Bringing the rules of a package into one block keeps all lines that are not about it, in their
/// order.
pub proof fn law_normalized_keeps_other_lines(lines: Seq<Seq<char>>, pkg: Seq<char>)
    requires
        tidy(pkg),
        gathers(lines, pkg),
    ensures
        others(normalized(lines, pkg), pkg) == others(lines, pkg),
{
    if !stay(found(lines, pkg)) {
        lemma_tests(pkg, pkg);
        lemma_tally_normalized(lines, not_about(pkg), pkg, false);
    }
}

/// The rules `pkg{thread}=cpus` that a scan finds are those that are counted.
pub proof fn lemma_tally_found(lines: Seq<Seq<char>>, pkg: Seq<char>, n: int)
    requires
        0 <= n <= lines.len(),
    ensures
        singles(locs_upto(lines, pkg, n)).len() == tally(
            Place::Top,
            lines.take(n),
            single_of(pkg),
        ),
        (pkg_upto(lines, pkg, n) is Some) == (tally(Place::Top, lines.take(n), head_of(pkg)) > 0),
    decreases n,
{
    if n > 0 {
        let i = n - 1;
        lemma_tally_found(lines, pkg, i);
        assert(lines.take(n).drop_last() =~= lines.take(i));
        let all = locs_upto(lines, pkg, n);
        let here = loc_in(place_at(lines, i), lines[i], pkg, i);
        if here is Some {
            assert(all.drop_last() =~= locs_upto(lines, pkg, i));
            assert(all.last() == here->0);
        }
        assert((pkg_in(lines, pkg, i) is Some) == heads(place_at(lines, i), lines[i], pkg));
    } else {
        assert(lines.take(0) =~= seq![]);
    }
}

pub proof fn lemma_counted(lines: Seq<Seq<char>>, pkg: Seq<char>)
    ensures
        singles(found(lines, pkg).threads).len() == tally(Place::Top, lines, single_of(pkg)),
        (found(lines, pkg).pkg_line is Some) == (tally(Place::Top, lines, head_of(pkg)) > 0),
{
    let n = lines.len() as int;
    lemma_tally_found(lines, pkg, n);
    assert(lines.take(n) =~= lines);
}

/// Whether a file with rules `pkg{thread}=cpus` of a package ends outside the blocks of the
/// package.
pub open spec fn ends_outside(lines: Seq<Seq<char>>, pkg: Seq<char>) -> bool {
    singles(found(lines, pkg).threads).len() > 0 ==> place_at(lines, lines.len() as int)
        != Place::Block(pkg)
}

/// Bringing the rules of a package into one block a second time changes nothing. No rule
/// `pkg{thread}=cpus` is left, unless the file ends inside a block of the package.
pub proof fn law_normalizing_twice_changes_nothing(lines: Seq<Seq<char>>, pkg: Seq<char>)
    requires
        tidy(pkg),
        come_off(lines, pkg),
    ensures
        normalized(normalized(lines, pkg), pkg) == normalized(lines, pkg),
        ends_outside(lines, pkg) ==> singles(found(normalized(lines, pkg), pkg).threads).len() == 0,
{
    let t = found(lines, pkg);
    let now = normalized(lines, pkg);
    lemma_counted(lines, pkg);
    lemma_counted(now, pkg);
    if stay(t) {
        if singles(t.threads).len() > 0 {
            lemma_stays(lines, pkg);
        }
    } else {
        lemma_tests(pkg, pkg);
        lemma_tally_normalized(lines, single_of(pkg), pkg, true);
    }
}

/// Where rules `pkg{thread}=cpus` have to stay where they are, the file ends inside a block of the
/// package.
pub proof fn lemma_stays(lines: Seq<Seq<char>>, pkg: Seq<char>)
    requires
        stay(found(lines, pkg)),
        singles(found(lines, pkg).threads).len() > 0,
    ensures
        place_at(lines, lines.len() as int) == Place::Block(pkg),
{
    let t = found(lines, pkg);
    let n = lines.len() as int;
    let locs = singles(t.threads);
    lemma_locs(lines, pkg, n);
    lemma_singles(t.threads, n);
    lemma_pkg_upto(lines, pkg, n);
    lemma_first_block(lines, pkg);
    if any_open(locs) {
        let k = choose|k: int| 0 <= k < locs.len() && (#[trigger] locs[k]).open;
        let j = choose|j: int| 0 <= j < t.threads.len() && t.threads[j] == locs[k];
        assert(t.threads[j] == locs[k]);
        lemma_place_step(lines, locs[k].idx);
        lemma_opened(lines, pkg, locs[k].idx, n);
    } else {
        lemma_opening_pkg_line(lines, pkg, n);
    }
    assert(inside(t, n));
}

proof fn lemma_opened(lines: Seq<Seq<char>>, pkg: Seq<char>, i: int, n: int)
    requires
        0 <= i < n,
        opens_in(lines, pkg, i),
    ensures
        open_upto(lines, pkg, n) is Some,
    decreases n,
{
    if i < n - 1 {
        lemma_opened(lines, pkg, i, n - 1);
    }
}

/// A package line that is no rule alone comes with a block.
proof fn lemma_opening_pkg_line(lines: Seq<Seq<char>>, pkg: Seq<char>, n: int)
    requires
        0 <= n <= lines.len(),
        pkg_upto(lines, pkg, n) is Some,
        !(pkg_upto(lines, pkg, n) matches Some(PkgAt::Standalone(_))),
    ensures
        open_upto(lines, pkg, n) is Some,
    decreases n,
{
    if pkg_upto(lines, pkg, n - 1) is Some {
        lemma_opening_pkg_line(lines, pkg, n - 1);
    } else {
        lemma_place_step(lines, n - 1);
        assert(opens_in(lines, pkg, n - 1));
    }
}


// Setting and removing a rule again.

/// Setting the CPUs that a line states already leaves the line as it is.
proof fn lemma_same_value(raw: Seq<char>, b: char, cpus: Seq<char>)
    requires
        !blank(trim(raw)),
        b == '{' || b == '}',
        last_of(stripped(trim(raw), b), '=') matches Some(e) && like_spec(cpus) && cpus == trim(
            stripped(trim(raw), b).skip(e + 1),
        ),
    ensures
        swapped(raw, cpus) == raw,
{
    let (x, v, t, note) = lemma_take_apart(raw, b, cpus);
    lemma_shape(x, v, t, note, b);
}

/// Setting the CPUs that a thread rule states already leaves its line as it is.
proof fn lemma_same_rule(place: Place, raw: Seq<char>)
    requires
        says(place, raw) is Some,
    ensures
        swapped(raw, says(place, raw)->0.cpus) == raw,
{
    let p = trim(raw);
    let rule = says(place, raw)->0;
    lemma_outer_tidy(p);
    lemma_member_tidy(p);
    if place is Block {
        lemma_same_value(raw, '}', rule.cpus);
    } else {
        lemma_same_value(raw, '{', rule.cpus);
    }
}

/// Setting the one rule that a thread has already, where no rule `pkg{thread}=cpus` is left.
proof fn lemma_set_again(
    lines: Seq<Seq<char>>,
    pkg: Seq<char>,
    thread: Seq<char>,
    cpus: Seq<char>,
)
    requires
        thread.len() > 0,
        singles(found(lines, pkg).threads).len() == 0,
        cpus_for(rules_of(lines), pkg, thread) == seq![cpus],
    ensures
        upserted(lines, pkg, thread, cpus) == Ok::<Seq<Seq<char>>, RuleEdit>(lines),
{
    let n = lines.len() as int;
    let locs = of_thread(found(lines, pkg).threads, thread);
    assert(lines.take(n) =~= lines);
    lemma_thread_rules(lines, pkg, thread, n);
    lemma_last_of_thread(lines, pkg, thread, n);
    let i = locs.last().idx;
    let place = place_at(lines, i);
    lemma_loc_says(place, lines[i], pkg, thread, i);
    let rule = says(place, lines[i])->0;
    lemma_around(lines, i);
    let before = rules_of(lines.take(i));
    let rest = rules_from(place_at(lines, i + 1), lines.skip(i + 1));
    lemma_single_rule(rule, pkg, thread);
    lemma_parted(before, seq![rule], pkg, thread);
    lemma_parted(before + seq![rule], rest, pkg, thread);
    let all = cpus_for(rules_of(lines), pkg, thread);
    assert(all == cpus_for(before, pkg, thread) + seq![rule.cpus] + cpus_for(rest, pkg, thread));
    assert(all.len() == 1);
    assert(cpus_for(before, pkg, thread).len() == 0);
    assert(all[0] == rule.cpus);
    lemma_same_rule(place, lines[i]);
    assert(lines.update(i, lines[i]) =~= lines);
}

/// Rules inside blocks can always be taken away.
proof fn lemma_firm_inner(lines: Seq<Seq<char>>, pkg: Seq<char>, locs: Seq<Loc>)
    requires
        forall|k: int| 0 <= k < locs.len() ==> !(#[trigger] locs[k]).single,
    ensures
        firm(lines, pkg, locs),
    decreases locs.len(),
{
    if locs.len() > 0 {
        let init = locs.drop_last();
        assert forall|k: int| 0 <= k < init.len() implies !(#[trigger] init[k]).single by {
            assert(init[k] == locs[k]);
        }
        assert(!locs[locs.len() - 1].single);
        lemma_firm_inner(loc_removed(lines, pkg, locs.last()), pkg, init);
    }
}

proof fn lemma_no_singles(locs: Seq<Loc>, thread: Seq<char>)
    requires
        singles(locs).len() == 0,
    ensures
        forall|k: int|
            0 <= k < of_thread(locs, thread).len() ==> !(#[trigger] of_thread(
                locs,
                thread,
            )[k]).single,
    decreases locs.len(),
{
    if locs.len() > 0 {
        let init = locs.drop_last();
        let (part, fewer) = (of_thread(locs, thread), of_thread(init, thread));
        lemma_no_singles(init, thread);
        assert(!locs.last().single);
        assert forall|k: int| 0 <= k < part.len() implies !(#[trigger] part[k]).single by {
            if k < fewer.len() {
                assert(part[k] == fewer[k]);
            }
        }
    }
}

/// Removing rules of a thread from blocks brings no rule `pkg{thread}=cpus`.
proof fn lemma_tally_thread(lines: Seq<Seq<char>>, pkg: Seq<char>, thread: Seq<char>, n: int)
    requires
        0 <= n <= lines.len(),
        tally(Place::Top, lines, single_of(pkg)) == 0,
    ensures
        tally(
            Place::Top,
            locs_removed(lines, pkg, of_thread(locs_upto(lines, pkg, n), thread)),
            single_of(pkg),
        ) == 0,
    decreases n,
{
    let all = locs_upto(lines, pkg, n);
    let locs = of_thread(all, thread);
    if n > 0 {
        let i = n - 1;
        let here = loc_in(place_at(lines, i), lines[i], pkg, i);
        if here is Some {
            assert(all.drop_last() =~= locs_upto(lines, pkg, i));
            assert(all.last() == here->0);
        }
        if here is Some && here->0.name == thread {
            let loc = here->0;
            let fewer = loc_removed(lines, pkg, loc);
            let init = of_thread(locs_upto(lines, pkg, i), thread);
            assert(locs =~= init.push(loc));
            assert(locs.drop_last() =~= init);
            assert(!loc.single) by {
                lemma_tally_found(lines, pkg, n);
                lemma_tally_concat(Place::Top, lines.take(n), lines.skip(n), single_of(pkg));
                assert(lines =~= lines.take(n) + lines.skip(n));
            }
            lemma_tests(pkg, pkg);
            lemma_tally_removed(lines, loc, single_of(pkg), pkg, true);
            lemma_loc_removed(lines, pkg, loc);
            lemma_same_front(lines, fewer, pkg, i);
            lemma_tally_thread(fewer, pkg, thread, i);
        } else {
            assert(locs =~= of_thread(locs_upto(lines, pkg, i), thread));
            lemma_tally_thread(lines, pkg, thread, i);
        }
    }
}

/// A thread whose last rule is set and whose other rules go.
proof fn lemma_tally_set(
    now: Seq<Seq<char>>,
    pkg: Seq<char>,
    thread: Seq<char>,
    cpus: Seq<char>,
)
    requires
        thread.len() > 0,
        like_spec(cpus),
        singles(found(now, pkg).threads).len() == 0,
        of_thread(found(now, pkg).threads, thread).len() > 0,
    ensures
        ({
            let locs = of_thread(found(now, pkg).threads, thread);
            let idx = locs.last().idx;
            let set = now.update(idx, swapped(now[idx], cpus));
            tally(Place::Top, locs_removed(set, pkg, locs.drop_last()), single_of(pkg)) == 0
        }),
{
    let n = now.len() as int;
    let t = found(now, pkg);
    let locs = of_thread(t.threads, thread);
    let test = single_of(pkg);
    lemma_counted(now, pkg);
    lemma_last_of_thread(now, pkg, thread, n);
    lemma_no_singles(t.threads, thread);
    let i = locs.last().idx;
    assert(!locs[locs.len() - 1].single);
    let raw = now[i];
    let place = place_at(now, i);
    let fresh = swapped(raw, cpus);
    let set = now.update(i, fresh);
    lemma_swapped_member(raw, cpus);
    lemma_one(place, raw);
    lemma_one(place, fresh);
    assert(next(place, fresh) == next(place, raw));
    lemma_tally_one(place, raw, test);
    lemma_tally_one(place, fresh, test);
    let head = now.take(i);
    let tail = now.skip(i + 1);
    assert(now =~= head + (seq![raw] + tail));
    assert(set =~= head + (seq![fresh] + tail));
    lemma_tally_concat(Place::Top, head, seq![raw] + tail, test);
    lemma_tally_concat(Place::Top, head, seq![fresh] + tail, test);
    lemma_tally_concat(place, seq![raw], tail, test);
    lemma_tally_concat(place, seq![fresh], tail, test);
    assert(set.take(i) =~= now.take(i));
    lemma_same_front(now, set, pkg, i);
    lemma_tally_thread(set, pkg, thread, i);
}

/// A rule inside a block is passed over.
proof fn lemma_tally_member(pkg: Seq<char>, thread: Seq<char>, cpus: Seq<char>)
    requires
        tidy(thread),
        like_spec(cpus),
    ensures
        reach(Place::Block(pkg), seq![member_line(thread, cpus)]) == Place::Block(pkg),
        tally(Place::Block(pkg), seq![member_line(thread, cpus)], single_of(pkg)) == 0,
{
    let line = member_line(thread, cpus);
    let none = Seq::<char>::empty();
    let block = Place::Block(pkg);
    assert(line + none =~= line);
    lemma_member_line(thread, cpus, none, pkg);
    lemma_one(block, line);
    lemma_tally_one(block, line, single_of(pkg));
}

/// Setting a rule of a thread brings no rule `pkg{thread}=cpus`.
proof fn lemma_tally_upserted(
    now: Seq<Seq<char>>,
    pkg: Seq<char>,
    thread: Seq<char>,
    cpus: Seq<char>,
)
    requires
        tidy(pkg),
        tidy(thread),
        like_spec(cpus),
        singles(found(now, pkg).threads).len() == 0,
        plain_rule(now, found(now, pkg)),
    ensures
        upserted(now, pkg, thread, cpus) matches Ok(after) ==> tally(
            Place::Top,
            after,
            single_of(pkg),
        ) == 0,
{
    let n = now.len() as int;
    let t = found(now, pkg);
    let test = single_of(pkg);
    let items = seq![member_line(thread, cpus)];
    lemma_counted(now, pkg);
    lemma_tests(pkg, pkg);
    lemma_block(now, pkg, n);
    lemma_pkg_upto(now, pkg, n);
    if of_thread(t.threads, thread).len() > 0 {
        lemma_tally_set(now, pkg, thread, cpus);
    } else if let Some(close) = t.block_close {
        lemma_tally_member(pkg, thread, cpus);
        lemma_tally_into_block(now, close, items, test, pkg);
    } else if let Some(PkgAt::Standalone(i)) = t.pkg_line {
        lemma_tally_member(pkg, thread, cpus);
        lemma_tally_block_added(now, i, items, test, pkg, true);
    } else if !t.unterminated {
        lemma_tally_member(pkg, thread, cpus);
        assert(calm(now.skip(n)));
        lemma_tally_new_block(now, n, items, test, pkg, true);
        assert(spliced(now, n, seq![bare_open(pkg)] + items.push("}"@)) =~= now + seq![
            bare_open(pkg),
            member_line(thread, cpus),
            "}"@,
        ]);
    }
}

/// Setting the rule of a thread a second time changes nothing.
pub proof fn law_upserting_twice_changes_nothing(
    lines: Seq<Seq<char>>,
    pkg: Seq<char>,
    thread: Seq<char>,
    cpus: Seq<char>,
)
    requires
        tidy(pkg),
        tidy(thread),
        like_spec(cpus),
        come_off(lines, pkg),
        ends_outside(lines, pkg),
        plain_rule(normalized(lines, pkg), found(normalized(lines, pkg), pkg)),
    ensures
        upserted(lines, pkg, thread, cpus) matches Ok(after) ==> upserted(after, pkg, thread, cpus)
            == Ok::<Seq<Seq<char>>, RuleEdit>(after),
{
    let now = normalized(lines, pkg);
    let t = found(now, pkg);
    law_normalizing_twice_changes_nothing(lines, pkg);
    if let Ok(after) = upserted(lines, pkg, thread, cpus) {
        let locs = of_thread(t.threads, thread);
        lemma_no_singles(t.threads, thread);
        if locs.len() > 0 {
            let idx = locs.last().idx;
            let init = locs.drop_last();
            assert forall|k: int| 0 <= k < init.len() implies !(#[trigger] init[k]).single by {
                assert(init[k] == locs[k]);
            }
            lemma_firm_inner(now.update(idx, swapped(now[idx], cpus)), pkg, init);
        }
        law_upserted_thread_rule_holds(lines, pkg, thread, cpus);
        lemma_tally_upserted(now, pkg, thread, cpus);
        lemma_counted(after, pkg);
        lemma_set_again(after, pkg, thread, cpus);
    }
}

// Setting the rule of a package again.

/// Two files with the same front: the same line of the package is found there.
proof fn lemma_same_pkg_line(a: Seq<Seq<char>>, b: Seq<Seq<char>>, pkg: Seq<char>, n: int)
    requires
        0 <= n <= a.len(),
        n <= b.len(),
        a.take(n) == b.take(n),
    ensures
        pkg_upto(a, pkg, n) == pkg_upto(b, pkg, n),
        told_before(a, n) == told_before(b, n),
    decreases n,
{
    if n > 0 {
        assert(a.take(n - 1) =~= b.take(n - 1)) by {
            assert(a.take(n).take(n - 1) =~= a.take(n - 1));
            assert(b.take(n).take(n - 1) =~= b.take(n - 1));
        }
        assert(a[n - 1] == b[n - 1]) by {
            assert(a.take(n)[n - 1] == b.take(n)[n - 1]);
        }
        lemma_same_pkg_line(a, b, pkg, n - 1);
    }
}

/// The first line of a package stays the first.
proof fn lemma_pkg_line_stays(lines: Seq<Seq<char>>, pkg: Seq<char>, m: int, n: int)
    requires
        m <= n,
        pkg_upto(lines, pkg, m) is Some,
    ensures
        pkg_upto(lines, pkg, n) == pkg_upto(lines, pkg, m),
    decreases n,
{
    if m < n && 0 < n {
        lemma_pkg_line_stays(lines, pkg, m, n - 1);
    }
}

/// No line before the first line of a package is found.
pub proof fn lemma_none_before(lines: Seq<Seq<char>>, pkg: Seq<char>, at: PkgAt, n: int) -> (j: int)
    requires
        0 <= n <= lines.len(),
        pkg_upto(lines, pkg, n) == Some(at),
    ensures
        0 <= j < n,
        pkg_in(lines, pkg, j) == Some(at),
        pkg_upto(lines, pkg, j) is None,
    decreases n,
{
    if pkg_upto(lines, pkg, n - 1) is Some {
        lemma_none_before(lines, pkg, at, n - 1)
    } else {
        n - 1
    }
}

proof fn lemma_none_before_either(lines: Seq<Seq<char>>, pkg: Seq<char>, i: int, j: int)
    requires
        i <= j,
        pkg_upto(lines, pkg, j) is None,
    ensures
        pkg_upto(lines, pkg, i) is None,
{
    if pkg_upto(lines, pkg, i) is Some {
        lemma_pkg_line_stays(lines, pkg, i, j);
    }
}

/// Setting the rule of a package that its first line states already, where no rule
/// `pkg{thread}=cpus` is left.
proof fn lemma_package_set_again(
    lines: Seq<Seq<char>>,
    pkg: Seq<char>,
    cpus: Seq<char>,
    i: int,
)
    requires
        0 <= i < lines.len(),
        singles(found(lines, pkg).threads).len() == 0,
        !(place_at(lines, i) is Block),
        !blank(trim(lines[i])),
        outer(trim(lines[i])) matches Outer::Rule { pkg: owner, cpus: stated, .. } && owner == pkg
            && stated == cpus,
        pkg_upto(lines, pkg, i) is None,
    ensures
        upserted(lines, pkg, seq![], cpus) == Ok::<Seq<Seq<char>>, RuleEdit>(lines),
{
    let n = lines.len() as int;
    assert(pkg_upto(lines, pkg, i + 1) == pkg_in(lines, pkg, i));
    lemma_pkg_line_stays(lines, pkg, i + 1, n);
    lemma_same_rule(place_at(lines, i), lines[i]);
    assert(lines.update(i, lines[i]) =~= lines);
}

/// The line of a package that is written anew brings no rule `pkg{thread}=cpus`.
proof fn lemma_tally_line(now: Seq<Seq<char>>, pkg: Seq<char>, i: int, fresh: Seq<char>)
    requires
        0 <= i < now.len(),
        !single_of(pkg)(place_at(now, i), fresh),
        next(place_at(now, i), fresh) == next(place_at(now, i), now[i]),
        tally(Place::Top, now, single_of(pkg)) == 0,
    ensures
        tally(Place::Top, now.update(i, fresh), single_of(pkg)) == 0,
{
    let test = single_of(pkg);
    let (head, tail) = (now.take(i), now.skip(i + 1));
    let place = place_at(now, i);
    lemma_one(place, now[i]);
    lemma_one(place, fresh);
    lemma_tally_one(place, fresh, test);
    assert(now =~= head + (seq![now[i]] + tail));
    assert(now.update(i, fresh) =~= head + (seq![fresh] + tail));
    lemma_tally_concat(Place::Top, head, seq![now[i]] + tail, test);
    lemma_tally_concat(Place::Top, head, seq![fresh] + tail, test);
    lemma_tally_concat(place, seq![now[i]], tail, test);
    lemma_tally_concat(place, seq![fresh], tail, test);
}

proof fn lemma_tally_blank(start: Place, lines: Seq<Seq<char>>, pkg: Seq<char>)
    requires
        forall|k: int| 0 <= k < lines.len() ==> blank(trim(#[trigger] lines[k])),
    ensures
        tally(start, lines, single_of(pkg)) == 0,
    decreases lines.len(),
{
    if lines.len() > 0 {
        let init = lines.drop_last();
        assert forall|k: int| 0 <= k < init.len() implies blank(trim(#[trigger] init[k])) by {
            assert(init[k] == lines[k]);
        }
        lemma_tally_blank(start, init, pkg);
        assert(blank(trim(lines[lines.len() - 1])));
    }
}

/// The lines after a bare name whose `{` stands on a later line was made a rule.
pub open spec fn pending_set(now: Seq<Seq<char>>, pkg: Seq<char>, i: int, cpus: Seq<char>) -> Seq<
    Seq<char>,
> {
    let named = now.update(i, with_comment_of(open_rule_line(pkg, cpus), now[i]));
    match found(now, pkg).block_open {
        Some(open) => if outer(trim(named[open])) == (Outer::BareOpen { pkg: seq![] }) {
            named.remove(open)
        } else {
            named
        },
        None => named,
    }
}

/// The `{` of a bare name that stands on a later line.
proof fn lemma_pending_brace(now: Seq<Seq<char>>, pkg: Seq<char>, i: int) -> (j: int)
    requires
        tidy(pkg),
        found(now, pkg).pkg_line == Some(PkgAt::BarePending(i)),
    ensures
        0 <= i < j < now.len(),
        forall|m: int| i < m < j ==> blank(trim(#[trigger] now[m])),
        !(place_at(now, i) is Block),
        pkg_upto(now, pkg, i) is None,
        lone_brace(now[j]),
        place_at(now, j + 1) == Place::Block(pkg),
        found(now, pkg).block_open matches Some(open) ==> (lone_brace(now[open]) ==> open == j),
{
    let n = now.len() as int;
    let t = found(now, pkg);
    let j = lemma_first_pkg_line(now, pkg, n);
    let k = lemma_none_before(now, pkg, PkgAt::BarePending(i), n);
    lemma_named(now, k);
    lemma_none_before_either(now, pkg, i, k);
    lemma_named(now, j);
    lemma_told(now, j);
    lemma_place_step(now, j);
    lemma_block(now, pkg, n);
    assert(outer(trim(now[j]))->BareOpen_pkg =~= seq![]);
    if t.block_open is Some && lone_brace(now[t.block_open->0]) {
        lemma_opener(now, pkg, t.block_open->0, j, n);
    }
    j
}

/// The lines around a bare name and its `{`, and what stands between them once it is a rule.
proof fn lemma_pending_parts(now: Seq<Seq<char>>, pkg: Seq<char>, fresh: Seq<char>, i: int, j: int)
    requires
        0 <= i < j < now.len(),
        forall|m: int| i < m < j ==> blank(trim(#[trigger] now[m])),
        place_at(now, j + 1) == Place::Block(pkg),
        next(place_at(now, i), fresh) == Place::Block(pkg),
        !single_of(pkg)(place_at(now, i), fresh),
        tally(Place::Top, now, single_of(pkg)) == 0,
    ensures
        tally(Place::Top, now.take(i), single_of(pkg)) == 0,
        tally(Place::Block(pkg), now.skip(j + 1), single_of(pkg)) == 0,
        reach(place_at(now, i), seq![fresh] + now.subrange(i + 1, j)) == Place::Block(pkg),
        tally(place_at(now, i), seq![fresh] + now.subrange(i + 1, j), single_of(pkg)) == 0,
{
    let test = single_of(pkg);
    let block = Place::Block(pkg);
    let place = place_at(now, i);
    let (head, tail) = (now.take(i), now.skip(j + 1));
    let gap = now.subrange(i + 1, j);
    assert(now =~= now.take(j + 1) + tail);
    lemma_tally_concat(Place::Top, now.take(j + 1), tail, test);
    assert(now.take(j + 1) =~= head + now.subrange(i, j + 1));
    lemma_tally_concat(Place::Top, head, now.subrange(i, j + 1), test);
    assert forall|m: int| 0 <= m < gap.len() implies blank(trim(#[trigger] gap[m])) by {
        assert(gap[m] == now[i + 1 + m]);
    }
    lemma_one(place, fresh);
    lemma_tally_one(place, fresh, test);
    lemma_blank_lines(block, gap);
    lemma_tally_blank(block, gap, pkg);
    lemma_concat(place, seq![fresh], gap);
    lemma_tally_concat(place, seq![fresh], gap, test);
}

/// The lines in which a bare name became a rule: its `{` goes, or stays without a `}` behind it.
proof fn lemma_pending_shape(
    now: Seq<Seq<char>>,
    pkg: Seq<char>,
    cpus: Seq<char>,
    i: int,
    j: int,
)
    requires
        tidy(pkg),
        braced(pkg) is None,
        like_spec(cpus),
        clean_braces(now, found(now, pkg)),
        found(now, pkg).pkg_line == Some(PkgAt::BarePending(i)),
        0 <= i < j < now.len(),
        lone_brace(now[j]),
        found(now, pkg).block_open matches Some(open) ==> (lone_brace(now[open]) ==> open == j),
    ensures
        ({
            let fresh = with_comment_of(open_rule_line(pkg, cpus), now[i]);
            let fore = seq![fresh] + now.subrange(i + 1, j);
            let after = pending_set(now, pkg, i, cpus);
            let tail = now.skip(j + 1);
            ||| after == now.take(i) + (fore + tail)
            ||| after == now.take(i) + (fore + (seq![now[j]] + tail)) && !trim(now[j]).contains('}')
        }),
{
    let n = now.len() as int;
    let t = found(now, pkg);
    let note = now[i].skip(cut(now[i]));
    lemma_cut_no_mark(now[i]);
    lemma_open_rule_line(pkg, cpus, note);
    lemma_pkg_upto(now, pkg, n);
    lemma_block(now, pkg, n);
    let fresh = open_rule_line(pkg, cpus) + note;
    let named = now.update(i, fresh);
    let fore = seq![fresh] + now.subrange(i + 1, j);
    let tail = now.skip(j + 1);
    assert(named =~= now.take(i) + (fore + (seq![now[j]] + tail)));
    if let Some(open) = t.block_open {
        lemma_place_step(now, open);
        assert(!blank(trim(now[open])));
        if outer(trim(named[open])) == (Outer::BareOpen { pkg: seq![] }) {
            assert(open != i);
            assert(lone_brace(now[open]));
            assert(named.remove(j) =~= now.take(i) + (fore + tail));
        } else {
            assert(open == i ==> outer(trim(now[open])) is Pending);
        }
    }
}

/// A bare name whose `{` stands on a later line.
proof fn lemma_tally_pending(now: Seq<Seq<char>>, pkg: Seq<char>, cpus: Seq<char>, i: int)
    requires
        tidy(pkg),
        braced(pkg) is None,
        like_spec(cpus),
        clean_braces(now, found(now, pkg)),
        found(now, pkg).pkg_line == Some(PkgAt::BarePending(i)),
        tally(Place::Top, now, single_of(pkg)) == 0,
    ensures
        tally(Place::Top, pending_set(now, pkg, i, cpus), single_of(pkg)) == 0,
        0 <= i < now.len(),
        pending_set(now, pkg, i, cpus).len() > i,
        pending_set(now, pkg, i, cpus).take(i) == now.take(i),
        pending_set(now, pkg, i, cpus)[i] == with_comment_of(open_rule_line(pkg, cpus), now[i]),
        pkg_upto(now, pkg, i) is None,
        !(place_at(now, i) is Block),
{
    let test = single_of(pkg);
    let block = Place::Block(pkg);
    let j = lemma_pending_brace(now, pkg, i);
    let note = now[i].skip(cut(now[i]));
    lemma_cut_no_mark(now[i]);
    lemma_open_rule_line(pkg, cpus, note);
    let fresh = open_rule_line(pkg, cpus) + note;
    let place = place_at(now, i);
    let (head, tail) = (now.take(i), now.skip(j + 1));
    let fore = seq![fresh] + now.subrange(i + 1, j);
    let lone = seq![now[j]];
    let after = pending_set(now, pkg, i, cpus);
    lemma_pending_parts(now, pkg, fresh, i, j);
    lemma_pending_shape(now, pkg, cpus, i, j);
    assert(after.take(i) =~= now.take(i));
    if after == head + (fore + tail) {
        lemma_tally_concat(Place::Top, head, fore + tail, test);
        lemma_tally_concat(place, fore, tail, test);
    } else {
        lemma_lone_inside(now[j], pkg);
        lemma_one(block, now[j]);
        lemma_tally_one(block, now[j], test);
        lemma_tally_concat(Place::Top, head, fore + (lone + tail), test);
        lemma_tally_concat(place, fore, lone + tail, test);
        lemma_tally_concat(block, lone, tail, test);
    }
}

/// Setting the rule of a package a second time changes nothing.
pub proof fn law_upserting_a_package_rule_twice_changes_nothing(
    lines: Seq<Seq<char>>,
    pkg: Seq<char>,
    cpus: Seq<char>,
)
    requires
        tidy(pkg),
        braced(pkg) is None,
        like_spec(cpus),
        come_off(lines, pkg),
        ends_outside(lines, pkg),
        clean_braces(normalized(lines, pkg), found(normalized(lines, pkg), pkg)),
    ensures
        upserted(lines, pkg, seq![], cpus) matches Ok(after) ==> upserted(
            after,
            pkg,
            seq![],
            cpus,
        ) == Ok::<Seq<Seq<char>>, RuleEdit>(after),
{
    let now = normalized(lines, pkg);
    let n = now.len() as int;
    let t = found(now, pkg);
    law_normalizing_twice_changes_nothing(lines, pkg);
    lemma_counted(now, pkg);
    lemma_pkg_upto(now, pkg, n);
    if let Ok(after) = upserted(lines, pkg, seq![], cpus) {
        match t.pkg_line {
            None => {
                lemma_package_appended(now, pkg, cpus);
            },
            Some(PkgAt::BarePending(i)) => {
                lemma_tally_pending(now, pkg, cpus, i);
                lemma_counted(after, pkg);
                lemma_same_pkg_line(now, after, pkg, i);
                lemma_cut_no_mark(now[i]);
                lemma_open_rule_line(pkg, cpus, now[i].skip(cut(now[i])));
                lemma_package_set_again(after, pkg, cpus, i);
            },
            Some(at) => {
                lemma_package_rewritten(now, pkg, cpus, at);
            },
        }
    }
}

proof fn lemma_package_appended(now: Seq<Seq<char>>, pkg: Seq<char>, cpus: Seq<char>)
    requires
        tidy(pkg),
        braced(pkg) is None,
        like_spec(cpus),
        tally(Place::Top, now, single_of(pkg)) == 0,
        found(now, pkg).pkg_line is None,
        !found(now, pkg).unterminated,
    ensures
        upserted(now.push(rule_line(pkg, cpus)), pkg, seq![], cpus) == Ok::<
            Seq<Seq<char>>,
            RuleEdit,
        >(now.push(rule_line(pkg, cpus))),
{
    let n = now.len() as int;
    let line = rule_line(pkg, cpus);
    let after = now.push(line);
    let none = Seq::<char>::empty();
    lemma_rule_line(pkg, cpus, none);
    assert(line + none =~= line);
    assert(after.take(n) =~= now.take(n));
    assert(after.drop_last() =~= now);
    assert(now.take(n) =~= now);
    lemma_same_pkg_line(now, after, pkg, n);
    lemma_counted(after, pkg);
    lemma_package_set_again(after, pkg, cpus, n);
}

proof fn lemma_package_rewritten(now: Seq<Seq<char>>, pkg: Seq<char>, cpus: Seq<char>, at: PkgAt)
    requires
        tidy(pkg),
        braced(pkg) is None,
        like_spec(cpus),
        tally(Place::Top, now, single_of(pkg)) == 0,
        !(at is BarePending),
        found(now, pkg).pkg_line == Some(at),
    ensures
        ({
            let i = pkg_idx(at);
            let fresh = if at is BareOpen {
                with_comment_of(open_rule_line(pkg, cpus), now[i])
            } else {
                swapped(now[i], cpus)
            };
            let after = now.update(i, fresh);
            upserted(after, pkg, seq![], cpus) == Ok::<Seq<Seq<char>>, RuleEdit>(after)
        }),
{
    let n = now.len() as int;
    lemma_pkg_upto(now, pkg, n);
    let j = lemma_none_before(now, pkg, at, n);
    let i = pkg_idx(at);
    assert(i == j);
    let raw = now[i];
    lemma_outer_tidy(trim(raw));
    lemma_cut_no_mark(raw);
    let fresh = if at is BareOpen {
        with_comment_of(open_rule_line(pkg, cpus), raw)
    } else {
        swapped(raw, cpus)
    };
    if at is BareOpen {
        lemma_open_rule_line(pkg, cpus, raw.skip(cut(raw)));
    } else {
        lemma_swapped_outer(raw, cpus);
    }
    let after = now.update(i, fresh);
    assert(next(place_at(now, i), fresh) == next(place_at(now, i), raw));
    lemma_tally_line(now, pkg, i, fresh);
    lemma_counted(after, pkg);
    assert(after.take(i) =~= now.take(i));
    lemma_same_pkg_line(now, after, pkg, i);
    lemma_package_set_again(after, pkg, cpus, i);
}

/// Removing the rule of a thread a second time finds none.
pub proof fn law_deleting_twice_finds_nothing(
    lines: Seq<Seq<char>>,
    pkg: Seq<char>,
    thread: Seq<char>,
)
    requires
        tidy(pkg),
        thread.len() > 0,
        come_off(lines, pkg),
        ends_outside(lines, pkg),
    ensures
        deleted(lines, pkg, thread) matches Ok(after) ==> deleted(after, pkg, thread) == Err::<
            Seq<Seq<char>>,
            RuleEdit,
        >(RuleEdit::NotFound),
{
    let now = normalized(lines, pkg);
    let t = found(now, pkg);
    law_normalizing_twice_changes_nothing(lines, pkg);
    if let Ok(after) = deleted(lines, pkg, thread) {
        let m = after.len() as int;
        lemma_no_singles(t.threads, thread);
        lemma_firm_inner(now, pkg, of_thread(t.threads, thread));
        law_deleted_thread_rule_is_gone(lines, pkg, thread);
        lemma_counted(now, pkg);
        lemma_tally_thread(now, pkg, thread, now.len() as int);
        lemma_counted(after, pkg);
        lemma_thread_rules(after, pkg, thread, m);
        assert(after.take(m) =~= after);
    }
}

proof fn lemma_stated(rules: Seq<Said>, pkg: Seq<char>, thread: Seq<char>)
    ensures
        cpus_for(rules, pkg, thread).len() > 0 ==> exists|i: int|
            0 <= i < rules.len() && (#[trigger] rules[i]).pkg == pkg && rules[i].thread == thread,
        forall|i: int|
            0 <= i < rules.len() && (#[trigger] rules[i]).pkg == pkg && rules[i].thread == thread
                ==> cpus_for(rules, pkg, thread).len() > 0,
    decreases rules.len(),
{
    if rules.len() > 0 {
        let init = rules.drop_last();
        let n = init.len() as int;
        lemma_stated(init, pkg, thread);
        if cpus_for(init, pkg, thread).len() > 0 {
            let i = choose|i: int|
                0 <= i < init.len() && (#[trigger] init[i]).pkg == pkg && init[i].thread == thread;
            assert(rules[i] == init[i]);
        } else {
            assert(rules[n] == rules.last());
        }
        assert forall|i: int|
            0 <= i < rules.len() && (#[trigger] rules[i]).pkg == pkg && rules[i].thread
                == thread implies cpus_for(rules, pkg, thread).len() > 0 by {
            if i < n {
                assert(init[i] == rules[i]);
            }
        }
    }
}

/// A rule that one of two lists with the same rules states, the other states too.
proof fn lemma_stated_too(a: Seq<Said>, b: Seq<Said>, pkg: Seq<char>, thread: Seq<char>)
    requires
        a.to_multiset() == b.to_multiset(),
        cpus_for(a, pkg, thread).len() > 0,
    ensures
        cpus_for(b, pkg, thread).len() > 0,
{
    lemma_stated(a, pkg, thread);
    lemma_stated(b, pkg, thread);
    a.to_multiset_ensures();
    b.to_multiset_ensures();
    let i = choose|i: int|
        0 <= i < a.len() && (#[trigger] a[i]).pkg == pkg && a[i].thread == thread;
    assert(a.contains(a[i]));
    assert(a.to_multiset().count(a[i]) > 0);
    assert(b.contains(a[i]));
    let j = choose|j: int| 0 <= j < b.len() && b[j] == a[i];
    assert(b[j] == a[i]);
}

/// Removing the rule of a thread finds none exactly where the file states none.
pub proof fn law_deleting_finds_what_is_stated(
    lines: Seq<Seq<char>>,
    pkg: Seq<char>,
    thread: Seq<char>,
)
    requires
        tidy(pkg),
        thread.len() > 0,
        gathers(lines, pkg),
    ensures
        deleted(lines, pkg, thread) == Err::<Seq<Seq<char>>, RuleEdit>(RuleEdit::NotFound)
            <==> cpus_for(rules_of(lines), pkg, thread).len() == 0,
{
    let now = normalized(lines, pkg);
    let n = now.len() as int;
    law_normalized_keeps_rules(lines, pkg);
    lemma_thread_rules(now, pkg, thread, n);
    assert(now.take(n) =~= now);
    if cpus_for(rules_of(lines), pkg, thread).len() > 0 {
        lemma_stated_too(rules_of(lines), rules_of(now), pkg, thread);
    }
    if cpus_for(rules_of(now), pkg, thread).len() > 0 {
        lemma_stated_too(rules_of(now), rules_of(lines), pkg, thread);
    }
}


// The rules of the file as it was.

/// Whether two places are the same block, or both outside of the blocks.
pub open spec fn same_end(p: Place, q: Place) -> bool {
    p == q || (!(p is Block) && !(q is Block))
}

/// Lines that do not begin with a `{` alone end inside a block behind a bare name where they do
/// without it.
proof fn lemma_end_calm(name: Seq<char>, lines: Seq<Seq<char>>)
    requires
        calm(lines),
    ensures
        same_end(reach(Place::Named(name), lines), reach(Place::Top, lines)),
    decreases lines.len(),
{
    if lines.len() > 0 {
        let one = seq![lines[0]];
        let rest = lines.drop_first();
        let (named, top) = (Place::Named(name), Place::Top);
        assert(lines =~= one + rest);
        lemma_one(named, lines[0]);
        lemma_one(top, lines[0]);
        lemma_concat(named, one, rest);
        lemma_concat(top, one, rest);
        if blank(trim(lines[0])) {
            lemma_end_calm(name, rest);
        } else if let Outer::BareOpen { pkg: owner } = outer(trim(lines[0])) {
            if owner.len() == 0 {
                assert(owner =~= seq![]);
            }
        }
    }
}

#[verifier::rlimit(40)]
#[verifier::spinoff_prover]
proof fn lemma_end_removed(lines: Seq<Seq<char>>, pkg: Seq<char>, loc: Loc)
    requires
        0 <= loc.idx < lines.len(),
        loc_in(place_at(lines, loc.idx), lines[loc.idx], pkg, loc.idx) == Some(loc),
        loc.single && !loc.open ==> place_at(lines, loc.idx) is Top || calm(
            lines.skip(loc.idx + 1),
        ),
    ensures
        same_end(reach(Place::Top, loc_removed(lines, pkg, loc)), reach(Place::Top, lines)),
{
    let i = loc.idx;
    let raw = lines[i];
    let place = place_at(lines, i);
    let (head, tail) = (lines.take(i), lines.skip(i + 1));
    let one = seq![raw];
    let items = stand_in(raw, pkg, loc);
    let behind = reach(place, items);
    assert(loc_removed(lines, pkg, loc) =~= head + (items + tail)) by {
        lemma_loc_removed(lines, pkg, loc);
    }
    assert(same_end(reach(behind, tail), reach(next(place, raw), tail))) by {
        lemma_loc_removed(lines, pkg, loc);
        lemma_place_step(lines, i);
        if loc.single && !loc.open {
            assert(behind == place);
            assert(next(place, raw) is Top);
            if place is Named {
                lemma_end_calm(place->Named_0, tail);
            }
        }
    }
    assert(reach(Place::Top, lines) == reach(next(place, raw), tail)) by {
        assert(lines =~= head + (one + tail));
        lemma_concat(Place::Top, head, one + tail);
        lemma_concat(place, one, tail);
        lemma_one(place, raw);
    }
    lemma_concat(Place::Top, head, items + tail);
    lemma_concat(place, items, tail);
}

proof fn lemma_end_singles(lines: Seq<Seq<char>>, pkg: Seq<char>, n: int)
    requires
        0 <= n <= lines.len(),
        firm(lines, pkg, singles(locs_upto(lines, pkg, n))),
    ensures
        same_end(
            reach(Place::Top, locs_removed(lines, pkg, singles(locs_upto(lines, pkg, n)))),
            reach(Place::Top, lines),
        ),
    decreases n,
{
    let all = locs_upto(lines, pkg, n);
    let locs = singles(all);
    if n > 0 {
        let i = n - 1;
        let here = loc_in(place_at(lines, i), lines[i], pkg, i);
        if here is Some {
            assert(all.drop_last() =~= locs_upto(lines, pkg, i));
            assert(all.last() == here->0);
        }
        if here is Some && here->0.single {
            let loc = here->0;
            let fewer = loc_removed(lines, pkg, loc);
            let init = singles(locs_upto(lines, pkg, i));
            assert(locs =~= init.push(loc));
            assert(locs.drop_last() =~= init);
            lemma_end_removed(lines, pkg, loc);
            lemma_loc_removed(lines, pkg, loc);
            lemma_same_front(lines, fewer, pkg, i);
            lemma_end_singles(fewer, pkg, i);
        } else {
            assert(locs =~= singles(locs_upto(lines, pkg, i)));
            lemma_end_singles(lines, pkg, i);
        }
    }
}

/// A new block between two lines leaves the end of the file inside a block or not.
proof fn lemma_end_new_block(
    lines: Seq<Seq<char>>,
    at: int,
    items: Seq<Seq<char>>,
    pkg: Seq<char>,
)
    requires
        0 <= at <= lines.len(),
        !(place_at(lines, at) is Block),
        place_at(lines, at) is Top || calm(lines.skip(at)),
        tidy(pkg),
        reach(Place::Block(pkg), items) == Place::Block(pkg),
    ensures
        same_end(
            reach(Place::Top, spliced(lines, at, seq![bare_open(pkg)] + items.push("}"@))),
            reach(Place::Top, lines),
        ),
{
    let none = Seq::<char>::empty();
    let block = Place::Block(pkg);
    let (a, b) = (lines.take(at), lines.skip(at));
    let close = seq!["}"@];
    let open = seq![bare_open(pkg)];
    let inner = items + (close + b);
    assert(bare_open(pkg) + none =~= bare_open(pkg));
    assert("}"@ + none =~= "}"@);
    lemma_bare_open(pkg, none);
    lemma_close_line(none, pkg);
    let start = place_at(lines, at);
    lemma_one(start, bare_open(pkg));
    lemma_one(block, "}"@);
    assert(spliced(lines, at, open + items.push("}"@)) =~= a + (open + inner));
    assert(lines =~= a + b);
    lemma_concat(Place::Top, a, b);
    lemma_concat(Place::Top, a, open + inner);
    lemma_concat(start, open, inner);
    lemma_concat(block, items, close + b);
    lemma_concat(block, close, b);
    if let Place::Named(name) = start {
        lemma_end_calm(name, b);
    }
}

/// A block behind a package rule leaves the end of the file inside a block or not.
proof fn lemma_end_block_added(
    lines: Seq<Seq<char>>,
    i: int,
    items: Seq<Seq<char>>,
    pkg: Seq<char>,
)
    requires
        0 <= i < lines.len(),
        !blank(trim(lines[i])),
        !(place_at(lines, i) is Block),
        outer(trim(lines[i])) matches Outer::Rule { pkg: owner, open, .. } && owner == pkg && !open,
        cut(lines[i]) == lines[i].len(),
        reach(Place::Block(pkg), items) == Place::Block(pkg),
    ensures
        reach(Place::Top, block_added(lines, i, items)) == reach(Place::Top, lines),
{
    let raw = lines[i];
    let place = place_at(lines, i);
    let block = Place::Block(pkg);
    let fresh = trim_end(raw) + " {"@;
    lemma_reopened(raw, pkg, outer(trim(raw))->Rule_cpus);
    let (head, tail) = (lines.take(i), lines.skip(i + 1));
    let close = seq!["}"@];
    let inner = items + (close + tail);
    lemma_one(place, raw);
    lemma_one(place, fresh);
    assert("}"@ + Seq::<char>::empty() =~= "}"@);
    lemma_close_line(Seq::<char>::empty(), pkg);
    lemma_one(block, "}"@);
    assert(block_added(lines, i, items) =~= head + (seq![fresh] + inner));
    assert(lines =~= head + (seq![raw] + tail));
    lemma_concat(Place::Top, head, seq![raw] + tail);
    lemma_concat(Place::Top, head, seq![fresh] + inner);
    lemma_concat(place, seq![raw], tail);
    lemma_concat(place, seq![fresh], inner);
    lemma_concat(block, items, close + tail);
    lemma_concat(block, close, tail);
}

/// More lines before the line that closes a block.
proof fn lemma_end_into_block(
    lines: Seq<Seq<char>>,
    close: int,
    items: Seq<Seq<char>>,
    pkg: Seq<char>,
)
    requires
        0 <= close <= lines.len(),
        place_at(lines, close) == Place::Block(pkg),
        reach(Place::Block(pkg), items) == Place::Block(pkg),
    ensures
        reach(Place::Top, spliced(lines, close, items)) == reach(Place::Top, lines),
{
    let (a, b) = (lines.take(close), lines.skip(close));
    assert(lines =~= a + b);
    lemma_concat(Place::Top, a, b);
    lemma_concat(Place::Top, a, items);
    lemma_concat(Place::Top, a + items, b);
}

/// A file that ends outside any block still does once the rules of a package are brought into one.
#[verifier::rlimit(40)]
#[verifier::spinoff_prover]
pub proof fn lemma_end_normalized(lines: Seq<Seq<char>>, pkg: Seq<char>)
    requires
        tidy(pkg),
        gathers(lines, pkg),
    ensures
        same_end(reach(Place::Top, normalized(lines, pkg)), reach(Place::Top, lines)),
{
    let t = found(lines, pkg);
    let n = lines.len() as int;
    if !stay(t) {
        let locs = singles(t.threads);
        let items = moved_all(lines, locs);
        let rest = locs_removed(lines, pkg, locs);
        let u = found(rest, pkg);
        let m = rest.len() as int;
        lemma_end_singles(lines, pkg, n);
        lemma_singles_removed(lines, pkg, n);
        lemma_locs(lines, pkg, n);
        lemma_singles(t.threads, n);
        assert forall|k: int| 0 <= k < locs.len() implies (#[trigger] locs[k]).single && loc_in(
            place_at(lines, locs[k].idx),
            lines[locs[k].idx],
            pkg,
            locs[k].idx,
        ) == Some(locs[k]) by {
            let j = choose|j: int| 0 <= j < t.threads.len() && t.threads[j] == locs[k];
            assert(t.threads[j] == locs[k]);
        }
        lemma_moved_all(lines, pkg, locs);
        lemma_block(rest, pkg, m);
        lemma_pkg_upto(rest, pkg, m);
        match u.block_close {
            Some(close) => {
                lemma_end_into_block(rest, close, items, pkg);
            },
            None => match u.pkg_line {
                Some(PkgAt::Standalone(i)) => {
                    lemma_end_block_added(rest, i, items, pkg);
                },
                _ => {
                    let first = locs[0].idx;
                    assert(!locs[0].open) by {
                        lemma_shuts_found(lines, pkg, n);
                        lemma_shuts_found(rest, pkg, m);
                        assert(lines.take(n) =~= lines);
                        assert(rest.take(m) =~= rest);
                        assert(t.block_close is None);
                    }
                    assert(place_at(rest, first) == place_at(lines, first));
                    lemma_end_new_block(rest, first, items, pkg);
                },
            },
        }
    }
}

/// Rules other than those of one thread are stated as often as without that thread.
pub proof fn lemma_besides_count(rules: Seq<Said>, pkg: Seq<char>, thread: Seq<char>, rule: Said)
    requires
        !(rule.pkg == pkg && rule.thread == thread),
    ensures
        besides(rules, pkg, thread).to_multiset().count(rule) == rules.to_multiset().count(rule),
    decreases rules.len(),
{
    rules.to_multiset_ensures();
    besides(rules, pkg, thread).to_multiset_ensures();
    if rules.len() > 0 {
        let init = rules.drop_last();
        lemma_besides_count(init, pkg, thread, rule);
        init.to_multiset_ensures();
        besides(init, pkg, thread).to_multiset_ensures();
        assert(init.push(rules.last()) =~= rules);
        assert(rules.to_multiset() =~= init.to_multiset().insert(rules.last()));
    }
}

/// Setting the rule of a thread succeeds where the file ends outside any block. The file then
/// states `cpus` as the one rule of the thread, and every other rule as often as before.
pub proof fn law_upserting_sets_one_rule(
    lines: Seq<Seq<char>>,
    pkg: Seq<char>,
    thread: Seq<char>,
    cpus: Seq<char>,
)
    requires
        tidy(pkg),
        tidy(thread),
        like_spec(cpus),
        gathers(lines, pkg),
        plain_rule(normalized(lines, pkg), found(normalized(lines, pkg), pkg)),
        !(place_at(lines, lines.len() as int) is Block),
    ensures
        upserted(lines, pkg, thread, cpus) is Ok,
        ({
            let after = upserted(lines, pkg, thread, cpus)->Ok_0;
            &&& cpus_for(rules_of(after), pkg, thread) == seq![cpus]
            &&& forall|rule: Said|
                !(rule.pkg == pkg && rule.thread == thread) ==> #[trigger] rules_of(
                    after,
                ).to_multiset().count(rule) == rules_of(lines).to_multiset().count(rule)
        }),
{
    let now = normalized(lines, pkg);
    let t = found(now, pkg);
    let n = now.len() as int;
    assert(lines.take(lines.len() as int) =~= lines);
    assert(now.take(n) =~= now);
    lemma_end_normalized(lines, pkg);
    law_normalizing_twice_changes_nothing(lines, pkg);
    law_normalized_keeps_rules(lines, pkg);
    let locs = of_thread(t.threads, thread);
    lemma_no_singles(t.threads, thread);
    if locs.len() > 0 {
        let idx = locs.last().idx;
        let init = locs.drop_last();
        assert forall|k: int| 0 <= k < init.len() implies !(#[trigger] init[k]).single by {
            assert(init[k] == locs[k]);
        }
        lemma_firm_inner(now.update(idx, swapped(now[idx], cpus)), pkg, init);
    }
    law_upserted_thread_rule_holds(lines, pkg, thread, cpus);
    let after = upserted(lines, pkg, thread, cpus)->Ok_0;
    assert forall|rule: Said|
        !(rule.pkg == pkg && rule.thread == thread) implies #[trigger] rules_of(
        after,
    ).to_multiset().count(rule) == rules_of(lines).to_multiset().count(rule) by {
        lemma_besides_count(rules_of(after), pkg, thread, rule);
        lemma_besides_count(rules_of(now), pkg, thread, rule);
    }
}

/// Removing the rule of a thread that the file states succeeds. The file then states none of the
/// thread, and every other rule as often as before.
pub proof fn law_deleting_takes_one_thread_away(
    lines: Seq<Seq<char>>,
    pkg: Seq<char>,
    thread: Seq<char>,
)
    requires
        tidy(pkg),
        thread.len() > 0,
        gathers(lines, pkg),
        ends_outside(lines, pkg),
        cpus_for(rules_of(lines), pkg, thread).len() > 0,
    ensures
        deleted(lines, pkg, thread) is Ok,
        ({
            let after = deleted(lines, pkg, thread)->Ok_0;
            &&& cpus_for(rules_of(after), pkg, thread).len() == 0
            &&& forall|rule: Said|
                !(rule.pkg == pkg && rule.thread == thread) ==> #[trigger] rules_of(
                    after,
                ).to_multiset().count(rule) == rules_of(lines).to_multiset().count(rule)
        }),
{
    let now = normalized(lines, pkg);
    let t = found(now, pkg);
    law_normalizing_twice_changes_nothing(lines, pkg);
    law_normalized_keeps_rules(lines, pkg);
    law_deleting_finds_what_is_stated(lines, pkg, thread);
    lemma_no_singles(t.threads, thread);
    lemma_firm_inner(now, pkg, of_thread(t.threads, thread));
    law_deleted_thread_rule_is_gone(lines, pkg, thread);
    let after = deleted(lines, pkg, thread)->Ok_0;
    assert forall|rule: Said|
        !(rule.pkg == pkg && rule.thread == thread) implies #[trigger] rules_of(
        after,
    ).to_multiset().count(rule) == rules_of(lines).to_multiset().count(rule) by {
        lemma_besides_count(rules_of(after), pkg, thread, rule);
        lemma_besides_count(rules_of(now), pkg, thread, rule);
    }
}

// Setting the CPUs on a line.

/// What stands behind the last `=` of a line, up to its comment, without the whitespace before it.
pub open spec fn right_side(raw: Seq<char>) -> Seq<char> {
    let head = raw.take(cut(raw));
    match last_of(head, '=') {
        Some(eq) => trim_start(head.skip(eq + 1)),
        None => seq![],
    }
}

/// The value on a line: the first thing behind its last `=`, up to whitespace or a brace.
pub open spec fn value_of(raw: Seq<char>) -> Seq<char> {
    right_side(raw).take(value_len(right_side(raw)))
}

/// Where the value on a line begins.
pub open spec fn value_start(raw: Seq<char>) -> int {
    cut(raw) - right_side(raw).len()
}

/// Whether a line has a `=`, and nothing but whitespace and braces stands between its value and
/// its comment.
pub open spec fn one_value(raw: Seq<char>) -> bool {
    let side = right_side(raw);
    &&& last_of(raw.take(cut(raw)), '=') is Some
    &&& forall|i: int| value_len(side) <= i < side.len() ==> is_stop(#[trigger] side[i])
}

pub proof fn lemma_value_fits(s: Seq<char>)
    ensures
        0 <= value_len(s) <= s.len(),
    decreases s.len(),
{
    if s.len() > 0 {
        lemma_value_fits(s.drop_first());
    }
}

proof fn lemma_stops(s: Seq<char>)
    ensures
        forall|i: int| 0 <= i < stops_of(s).len() ==> is_stop(#[trigger] stops_of(s)[i]),
    decreases s.len(),
{
    if s.len() > 0 {
        let init = s.drop_last();
        lemma_stops(init);
        assert forall|i: int| 0 <= i < stops_of(s).len() implies is_stop(
            #[trigger] stops_of(s)[i],
        ) by {
            if i < stops_of(init).len() {
                assert(stops_of(s)[i] == stops_of(init)[i]);
            }
        }
    }
}

/// Setting the CPUs on a line touches nothing but its value, and setting the value that the line
/// has leaves the line as it is.
pub proof fn law_swapping_touches_only_the_value(raw: Seq<char>, cpus: Seq<char>)
    requires
        one_value(raw),
    ensures
        0 <= value_start(raw) <= value_start(raw) + value_of(raw).len() <= cut(raw),
        raw.subrange(value_start(raw), value_start(raw) + value_of(raw).len()) == value_of(raw),
        swapped(raw, cpus) == raw.take(value_start(raw)) + cpus + raw.skip(
            value_start(raw) + value_of(raw).len(),
        ),
        swapped(raw, value_of(raw)) == raw,
{
    let head = raw.take(cut(raw));
    let note = raw.skip(cut(raw));
    lemma_cut_no_mark(raw);
    lemma_last_of(head, '=');
    let eq = last_of(head, '=')->0;
    let rhs = head.skip(eq + 1);
    let side = right_side(raw);
    let len = value_len(side);
    lemma_lead(rhs);
    lemma_value_fits(side);
    let k = value_start(raw);
    let t = side.skip(len);
    assert forall|i: int| 0 <= i < t.len() implies is_stop(#[trigger] t[i]) by {
        assert(t[i] == side[i + len]);
    }
    lemma_stops_all(t);
    assert(side =~= raw.subrange(k, cut(raw))) by {
        assert(side =~= rhs.skip(rhs.len() - side.len()));
    }
    assert(raw.skip(k + len) =~= t + note);
    assert(raw.take(k) + cpus + t + note =~= raw.take(k) + cpus + raw.skip(k + len));
    assert(raw.take(k) + value_of(raw) + raw.skip(k + len) =~= raw);
}

/// Of two settings of the CPUs on a line the second wins: the first leaves no trace.
pub proof fn law_swapping_again_wins(raw: Seq<char>, first: Seq<char>, second: Seq<char>)
    requires
        like_spec(first),
    ensures
        swapped(swapped(raw, first), second) == swapped(raw, second),
{
    let head = raw.take(cut(raw));
    let note = raw.skip(cut(raw));
    lemma_cut_no_mark(raw);
    lemma_last_of(head, '=');
    if let Some(eq) = last_of(head, '=') {
        let rhs = head.skip(eq + 1);
        let side = trim_start(rhs);
        lemma_lead(rhs);
        lemma_value_fits(side);
        let k = eq + 1 + (rhs.len() - side.len());
        let x = raw.take(k);
        let t = stops_of(side.skip(value_len(side)));
        lemma_stops(side.skip(value_len(side)));
        lemma_spec_chars(first);
        let body = x + first + t;
        let fresh = body + note;
        assert(swapped(raw, first) == fresh);
        let blanks = x.skip(eq + 1);
        assert(blanks =~= rhs.take(rhs.len() - side.len()));
        lemma_no_mark_sub(head, 0, k);
        assert(x =~= head.subrange(0, k));
        lemma_swapped_cut(x, eq, first, t, note);
        assert(fresh.take(cut(fresh)) =~= body);
        assert(fresh.skip(cut(fresh)) =~= note);
        assert(body[eq] == '=');
        assert forall|i: int| eq < i < body.len() implies #[trigger] body[i] != '=' by {
            if i < x.len() {
                assert(body[i] == head[i]);
            } else if i < x.len() + first.len() {
                assert(body[i] == first[i - x.len()]);
            } else {
                assert(body[i] == t[i - x.len() - first.len()]);
                assert(is_stop(body[i]));
            }
        }
        lemma_last_of_at(body, '=', eq);
        let val = first + t;
        assert(body.skip(eq + 1) =~= blanks + val);
        lemma_trim_start_lead(blanks, val);
        assert(val[0] == first[0]);
        assert(trim_start(val) == val);
        assert forall|i: int| 0 <= i < first.len() implies !is_stop(#[trigger] first[i]) by {}
        lemma_value_len(first, t);
        assert(val.skip(first.len() as int) =~= t);
        lemma_stops_all(t);
        assert(fresh.take(k) =~= x);
    }
}

/// A line whose value was set has its comment where it was.
proof fn lemma_swapped_cut(
    x: Seq<char>,
    eq: int,
    v: Seq<char>,
    t: Seq<char>,
    note: Seq<char>,
)
    requires
        0 <= eq < x.len(),
        no_mark(x),
        x[eq] == '=',
        all_space(x.skip(eq + 1)),
        like_spec(v),
        forall|i: int| 0 <= i < t.len() ==> is_stop(#[trigger] t[i]),
        is_note(note),
    ensures
        cut(x + v + t + note) == x.len() + v.len() + t.len(),
{
    let s = x + v + t + note;
    let n = (x.len() + v.len() + t.len()) as int;
    lemma_spec_chars(v);
    assert forall|i: int| 0 <= i < n implies !#[trigger] mark_at(s, i) by {
        if i < x.len() {
            assert(!mark_at(x, i));
            assert(s[i] == x[i]);
            if i + 1 < x.len() {
                assert(s[i + 1] == x[i + 1]);
            } else if i > eq {
                assert(x.skip(eq + 1)[i - eq - 1] == x[i]);
            }
        } else if i < x.len() + v.len() {
            assert(s[i] == v[i - x.len()]);
        } else {
            assert(s[i] == t[i - x.len() - v.len()]);
            assert(is_stop(s[i]));
        }
    }
    if note.len() > 0 {
        assert(mark_at(note, 0));
        assert(s[n] == note[0]);
        if note.len() > 1 {
            assert(s[n + 1] == note[1]);
        }
        assert(mark_at(s, n));
    }
    lemma_cut_at(s, n);
}


// What an edit of a whole package finds.

/// Whether a line opens a block of the package with a rule for a thread without a name.
pub open spec fn nameless_opener(raw: Seq<char>, pkg: Seq<char>) -> bool {
    !blank(trim(raw)) && (outer(trim(raw)) matches Outer::Single { pkg: owner, thread, open, .. }
        && owner == pkg && thread.len() == 0 && open)
}

/// Lines without rules `pkg{thread}=cpus` are those before the first of them, and bring no line
/// that opens a block for a thread without a name.
proof fn lemma_taken_out(lines: Seq<Seq<char>>, pkg: Seq<char>, locs: Seq<Loc>)
    requires
        tidy(pkg),
        ascending(locs),
        within(locs, lines.len() as int),
        forall|k: int| 0 <= k < locs.len() ==> !(#[trigger] locs[k]).closed,
        forall|i: int| 0 <= i < lines.len() ==> !nameless_opener(#[trigger] lines[i], pkg),
    ensures
        ({
            let r = locs_removed(lines, pkg, locs);
            &&& forall|i: int| 0 <= i < r.len() ==> !nameless_opener(#[trigger] r[i], pkg)
            &&& locs.len() > 0 ==> locs[0].idx <= r.len() && r.take(locs[0].idx) == lines.take(
                locs[0].idx,
            )
        }),
    decreases locs.len(),
{
    if locs.len() > 0 {
        let loc = locs.last();
        let init = locs.drop_last();
        let fewer = loc_removed(lines, pkg, loc);
        assert(loc == locs[locs.len() - 1]);
        lemma_cut_no_mark(lines[loc.idx]);
        lemma_bare_open(pkg, lines[loc.idx].skip(cut(lines[loc.idx])));
        assert forall|i: int| 0 <= i < fewer.len() implies !nameless_opener(
            #[trigger] fewer[i],
            pkg,
        ) by {
            if loc.open {
                assert(i != loc.idx ==> fewer[i] == lines[i]);
            } else if i < loc.idx {
                assert(fewer[i] == lines[i]);
            } else {
                assert(fewer[i] == lines[i + 1]);
            }
        }
        assert forall|k: int| 0 <= k < init.len() implies 0 <= (#[trigger] init[k]).idx
            < fewer.len() && !init[k].closed by {
            assert(init[k] == locs[k]);
        }
        assert(ascending(init)) by {
            assert forall|j: int, k: int| 0 <= j < k < init.len() implies (#[trigger] init[j]).idx
                < (#[trigger] init[k]).idx by {
                assert(init[j] == locs[j] && init[k] == locs[k]);
            }
        }
        lemma_taken_out(fewer, pkg, init);
        let first = locs[0].idx;
        assert(fewer.take(first) =~= lines.take(first));
        if init.len() > 0 {
            assert(init[0] == locs[0]);
        }
    }
}

proof fn lemma_pkg_line_found(lines: Seq<Seq<char>>, pkg: Seq<char>, i: int, n: int)
    requires
        0 <= i < n,
        pkg_in(lines, pkg, i) is Some,
    ensures
        pkg_upto(lines, pkg, n) is Some,
    decreases n,
{
    if i < n - 1 {
        lemma_pkg_line_found(lines, pkg, i, n - 1);
    }
}

/// A line that is the package's own, or one of its rules `pkg{thread}=cpus`, names it.
pub proof fn lemma_line_named(lines: Seq<Seq<char>>, pkg: Seq<char>, i: int)
    requires
        0 <= i < lines.len(),
        heads(place_at(lines, i), lines[i], pkg) || single_of(pkg)(place_at(lines, i), lines[i]),
    ensures
        found(lines, pkg).any_line(),
{
    let n = lines.len() as int;
    let place = place_at(lines, i);
    if heads(place, lines[i], pkg) {
        lemma_pkg_line_found(lines, pkg, i, n);
    } else {
        let test = single_of(pkg);
        lemma_counted(lines, pkg);
        let head = lines.take(i);
        let tail = lines.skip(i + 1);
        assert(lines =~= head + (seq![lines[i]] + tail));
        lemma_tally_concat(Place::Top, head, seq![lines[i]] + tail, test);
        lemma_tally_concat(place, seq![lines[i]], tail, test);
        lemma_tally_one(place, lines[i], test);
    }
}

/// Lines that are the same up to their comments say the same.
proof fn lemma_same_body(raw: Seq<char>, fresh: Seq<char>)
    requires
        !blank(trim(raw)),
        cut(fresh) == cut(raw),
        fresh.take(cut(raw)) == raw.take(cut(raw)),
    ensures
        !blank(trim(fresh)),
        uncommented(trim(fresh)) == uncommented(trim(raw)),
{
    reveal_strlit("//");
    let c = cut(raw);
    let head = raw.take(c);
    lemma_cut(raw);
    lemma_cut(fresh);
    lemma_bare_body(raw);
    lemma_lead(head);
    lemma_trim_end_prefix(trim_start(head));
    let h = head.len() - trim_start(head).len();
    lemma_lead(fresh);
    let y = trim_start(fresh);
    let k = fresh.len() - y.len();
    assert(fresh[h] == head[h]);
    if k > h {
        assert(fresh.take(k)[h] == fresh[h]);
    }
    assert(y =~= fresh.skip(k));
    lemma_trim_end_keeps(y, 1);
    lemma_trim_end_prefix(y);
    let p = trim(fresh);
    assert(p[0] == fresh[k]);
    assert(!mark_at(fresh, k));
    if blank(p) {
        assert(begins(p, "//"@));
        assert(p.take(2)[0] == "//"@[0]);
        assert(p.take(2)[1] == "//"@[1]);
        assert(p[1] == fresh[k + 1]);
        assert(mark_at(fresh, k));
    }
    lemma_bare_body(fresh);
}

/// A package rule with ` {` put behind it is still the package's rule: the brace opens a block, or
/// becomes part of the comment.
pub proof fn lemma_rule_stays(raw: Seq<char>, pkg: Seq<char>)
    requires
        !blank(trim(raw)),
        outer(trim(raw)) matches Outer::Rule { pkg: owner, open, .. } && owner == pkg && !open,
    ensures
        !blank(trim(trim_end(raw) + " {"@)),
        outer(trim(trim_end(raw) + " {"@)) matches Outer::Rule { pkg: owner, .. } && owner == pkg,
        cut(raw) != raw.len() ==> outer(trim(trim_end(raw) + " {"@)) == outer(trim(raw)),
{
    let c = cut(raw);
    lemma_cut(raw);
    if c == raw.len() {
        lemma_reopened(raw, pkg, outer(trim(raw))->Rule_cpus);
    } else {
        let head = raw.take(c);
        let note = raw.skip(c);
        let m: int = if raw[c] == '#' {
            c + 1
        } else {
            c + 2
        };
        lemma_trim_end_keeps(raw, m);
        lemma_trim_end_prefix(raw);
        let short = trim_end(raw);
        let fresh = short + " {"@;
        let rest = fresh.skip(c);
        lemma_bare_body(raw);
        assert(fresh.take(c) =~= head);
        assert(fresh[c] == raw[c]);
        if m == c + 2 {
            assert(fresh[c + 1] == raw[c + 1]);
        }
        assert(mark_at(fresh, c));
        assert forall|i: int| 0 <= i < c implies !#[trigger] mark_at(fresh, i) by {
            assert(!mark_at(raw, i));
            assert(fresh[i] == raw[i]);
            assert(fresh[i + 1] == raw[i + 1]);
        }
        lemma_cut_at(fresh, c);
        lemma_same_body(raw, fresh);
    }
}


/// A package of which the file has a line still has one once its rules are brought into one block.
#[verifier::rlimit(40)]
#[verifier::spinoff_prover]
pub proof fn lemma_still_named(lines: Seq<Seq<char>>, pkg: Seq<char>)
    requires
        tidy(pkg),
        found(lines, pkg).any_line(),
        !stay(found(lines, pkg)) ==> forall|i: int|
            0 <= i < lines.len() ==> !nameless_opener(#[trigger] lines[i], pkg),
    ensures
        found(normalized(lines, pkg), pkg).any_line(),
{
    let t = found(lines, pkg);
    let n = lines.len() as int;
    if !stay(t) {
        let locs = singles(t.threads);
        let items = moved_all(lines, locs);
        let rest = locs_removed(lines, pkg, locs);
        let u = found(rest, pkg);
        let m = rest.len() as int;
        let now = normalized(lines, pkg);
        lemma_locs(lines, pkg, n);
        lemma_singles(t.threads, n);
        assert forall|k: int| 0 <= k < locs.len() implies !(#[trigger] locs[k]).closed && !(
        place_at(lines, locs[k].idx) is Block) by {
            let j = choose|j: int| 0 <= j < t.threads.len() && t.threads[j] == locs[k];
            assert(t.threads[j] == locs[k]);
        }
        lemma_taken_out(lines, pkg, locs);
        lemma_first_block(rest, pkg);
        lemma_block(rest, pkg, m);
        lemma_pkg_upto(rest, pkg, m);
        match u.block_close {
            Some(close) => {
                let o = u.block_open->0;
                lemma_place_step(rest, o);
                assert(now.take(o) =~= rest.take(o));
                assert(now[o] == rest[o]);
                assert(!nameless_opener(rest[o], pkg));
                lemma_line_named(now, pkg, o);
            },
            None => match u.pkg_line {
                Some(PkgAt::Standalone(i)) => {
                    assert(now.take(i) =~= rest.take(i));
                    assert(now[i] == trim_end(rest[i]) + " {"@);
                    lemma_rule_stays(rest[i], pkg);
                    lemma_line_named(now, pkg, i);
                },
                _ => {
                    let first = locs[0].idx;
                    assert(now.take(first) =~= rest.take(first));
                    assert(now[first] == bare_open(pkg));
                    let none = Seq::<char>::empty();
                    assert(bare_open(pkg) + none =~= bare_open(pkg));
                    lemma_bare_open(pkg, none);
                    lemma_line_named(now, pkg, first);
                },
            },
        }
    }
}

/// Removing a package finds nothing exactly where no line of the file names the package.
pub proof fn law_deleting_a_package_finds_its_lines(lines: Seq<Seq<char>>, pkg: Seq<char>)
    requires
        tidy(pkg),
        !stay(found(lines, pkg)) ==> forall|i: int|
            0 <= i < lines.len() ==> !nameless_opener(#[trigger] lines[i], pkg),
    ensures
        pkg_deleted(lines, pkg) == Err::<Seq<Seq<char>>, RuleEdit>(RuleEdit::NotFound) <==> !found(
            lines,
            pkg,
        ).any_line(),
{
    if found(lines, pkg).any_line() {
        lemma_still_named(lines, pkg);
    }
}

/// Removing a package a second time finds nothing.
pub proof fn law_deleting_a_package_twice_finds_nothing(lines: Seq<Seq<char>>, pkg: Seq<char>)
    ensures
        pkg_deleted(lines, pkg) matches Ok(after) ==> pkg_deleted(after, pkg) == Err::<
            Seq<Seq<char>>,
            RuleEdit,
        >(RuleEdit::NotFound),
{
    law_deleted_package_is_gone(lines, pkg);
}

/// Renaming a package finds nothing exactly where no line of the file names the package.
pub proof fn law_renaming_finds_its_lines(
    lines: Seq<Seq<char>>,
    old_name: Seq<char>,
    name: Seq<char>,
)
    requires
        tidy(old_name),
        !stay(found(lines, old_name)) ==> forall|i: int|
            0 <= i < lines.len() ==> !nameless_opener(#[trigger] lines[i], old_name),
    ensures
        renamed(lines, old_name, name) == Err::<Seq<Seq<char>>, RuleEdit>(RuleEdit::NotFound)
            <==> !found(lines, old_name).any_line(),
{
    if found(lines, old_name).any_line() {
        lemma_still_named(lines, old_name);
    }
}

/// A package that is there is refused another name exactly where a line of the file names that.
pub proof fn law_renaming_meets_names_in_use(
    lines: Seq<Seq<char>>,
    old_name: Seq<char>,
    name: Seq<char>,
)
    requires
        tidy(old_name),
        gathers(lines, old_name),
        renamed(lines, old_name, name) != Err::<Seq<Seq<char>>, RuleEdit>(RuleEdit::NotFound),
    ensures
        renamed(lines, old_name, name) == Err::<Seq<Seq<char>>, RuleEdit>(RuleEdit::Conflict)
            <==> found(lines, name).any_line(),
{
    let now = normalized(lines, old_name);
    if name != old_name && !stay(found(lines, old_name)) {
        lemma_tests(old_name, name);
        lemma_tally_normalized(lines, single_of(name), old_name, false);
        lemma_tally_normalized(lines, head_of(name), old_name, false);
        lemma_counted(lines, name);
        lemma_counted(now, name);
    }
}


// Which lines stay when a package goes.

/// Whether all of `part` stand in `whole`, in the same order.
pub open spec fn part_of(part: Seq<Seq<char>>, whole: Seq<Seq<char>>) -> bool
    decreases whole.len(),
{
    part.len() == 0 || (whole.len() > 0 && ((part.last() == whole.last() && part_of(
        part.drop_last(),
        whole.drop_last(),
    )) || part_of(part, whole.drop_last())))
}

pub proof fn lemma_part_pushed(part: Seq<Seq<char>>, whole: Seq<Seq<char>>, line: Seq<char>)
    requires
        part_of(part, whole),
    ensures
        part_of(part.push(line), whole.push(line)),
        part_of(part, whole.push(line)),
{
    assert(part.push(line).drop_last() =~= part);
    assert(whole.push(line).drop_last() =~= whole);
}

pub proof fn lemma_part_of_itself(whole: Seq<Seq<char>>)
    ensures
        part_of(whole, whole),
    decreases whole.len(),
{
    if whole.len() > 0 {
        lemma_part_of_itself(whole.drop_last());
    }
}

pub proof fn lemma_part_of_part(a: Seq<Seq<char>>, b: Seq<Seq<char>>, c: Seq<Seq<char>>)
    requires
        part_of(a, b),
        part_of(b, c),
    ensures
        part_of(a, c),
    decreases c.len(),
{
    if a.len() > 0 {
        let (b0, c0) = (b.drop_last(), c.drop_last());
        if part_of(b, c0) {
            lemma_part_of_part(a, b, c0);
        } else if part_of(a, b0) {
            lemma_part_of_part(a, b0, c0);
        } else {
            lemma_part_of_part(a.drop_last(), b0, c0);
        }
    }
}

/// Lines with others between them.
pub proof fn lemma_part_between(a: Seq<Seq<char>>, x: Seq<Seq<char>>, b: Seq<Seq<char>>)
    ensures
        part_of(a + b, a + (x + b)),
    decreases b.len(), x.len(),
{
    if b.len() > 0 {
        let c = b.drop_last();
        lemma_part_between(a, x, c);
        lemma_part_pushed(a + c, a + (x + c), b.last());
        assert((a + c).push(b.last()) =~= a + b);
        assert((a + (x + c)).push(b.last()) =~= a + (x + b));
    } else if x.len() > 0 {
        let y = x.drop_last();
        lemma_part_between(a, y, b);
        lemma_part_pushed(a + b, a + (y + b), x.last());
        assert((a + (y + b)).push(x.last()) =~= a + (x + b));
    } else {
        assert(a + b =~= a + (x + b));
        lemma_part_of_itself(a + b);
    }
}

/// Whatever is picked from lines is a part of them.
pub proof fn lemma_picked_part(
    start: Place,
    lines: Seq<Seq<char>>,
    test: spec_fn(Place, Seq<char>) -> bool,
)
    ensures
        part_of(picked(start, lines, test), lines),
    decreases lines.len(),
{
    if lines.len() > 0 {
        let init = lines.drop_last();
        lemma_picked_part(start, init, test);
        lemma_part_pushed(picked(start, init, test), init, lines.last());
        assert(init.push(lines.last()) =~= lines);
    }
}

pub proof fn lemma_survivors_part(lines: Seq<Seq<char>>, t: Found, n: int)
    requires
        0 <= n <= lines.len(),
    ensures
        part_of(survivors(lines, t, n), lines.take(n)),
    decreases n,
{
    if n > 0 {
        lemma_survivors_part(lines, t, n - 1);
        lemma_part_pushed(survivors(lines, t, n - 1), lines.take(n - 1), lines[n - 1]);
        assert(lines.take(n - 1).push(lines[n - 1]) =~= lines.take(n));
    }
}

/// A line that goes with a package is about it.
proof fn lemma_doomed_about(lines: Seq<Seq<char>>, pkg: Seq<char>, i: int)
    requires
        0 <= i < lines.len(),
        pkg.len() > 0,
        doomed(found(lines, pkg), i),
    ensures
        about(place_at(lines, i), lines[i], pkg),
{
    let t = found(lines, pkg);
    lemma_first_block(lines, pkg);
    if inside(t, i) {
        assert(place_at(lines, i) == Place::Block(pkg));
    } else if inside(t, i + 1) {
        lemma_place_step(lines, i);
        assert(t.block_open == Some(i));
        assert(opens_in(lines, pkg, i));
    } else {
        lemma_doomed_kind(lines, pkg, i);
    }
}

/// One round of removal keeps the lines that are not about the package, and they are still not.
pub proof fn lemma_round_others(lines: Seq<Seq<char>>, pkg: Seq<char>, n: int)
    requires
        0 <= n <= lines.len(),
        forall|i: int| 0 <= i < n ==> #[trigger] parts_at(lines, pkg, found(lines, pkg), i),
        pkg.len() > 0,
    ensures
        part_of(
            others(lines.take(n), pkg),
            others(survivors(lines, found(lines, pkg), n), pkg),
        ),
    decreases n,
{
    let t = found(lines, pkg);
    if n == 0 {
        assert(lines.take(0) =~= seq![]);
    } else {
        let i = n - 1;
        let p = place_at(lines, i);
        let q = rest_at(lines, t, i);
        let raw = lines[i];
        let (all0, kept0) = (others(lines.take(i), pkg), others(survivors(lines, t, i), pkg));
        lemma_round_others(lines, pkg, i);
        lemma_round(lines, pkg, i);
        assert(lines.take(n).drop_last() =~= lines.take(i));
        lemma_part_pushed(all0, kept0, raw);
        if doomed(t, i) {
            lemma_doomed_about(lines, pkg, i);
        } else {
            let kept = survivors(lines, t, n);
            assert(kept.drop_last() =~= survivors(lines, t, i));
            if !about(p, raw, pkg) {
                lemma_first_block(lines, pkg);
                assert(!inside(t, i));
                if lone_brace(raw) && !(p is Block) {
                    assert(parts_at(lines, pkg, t, i));
                    lemma_brace_kept(lines, pkg, i);
                }
                lemma_still_not_about(p, q, raw, pkg);
            }
        }
    }
}

proof fn lemma_still_not_about(p: Place, q: Place, raw: Seq<char>, pkg: Seq<char>)
    requires
        !about(p, raw, pkg),
        p is Block ==> q == p,
        !(p is Block) ==> !(q is Block),
        lone_brace(raw) && !(p is Block) ==> q == p,
    ensures
        !about(q, raw, pkg),
{
    if !blank(trim(raw)) && !(p is Block) {
        if let Outer::BareOpen { pkg: owner } = outer(trim(raw)) {
            if owner.len() == 0 {
                assert(owner =~= seq![]);
            }
        }
    }
}

proof fn lemma_purged_part(lines: Seq<Seq<char>>, pkg: Seq<char>)
    ensures
        part_of(purged(lines, pkg), lines),
        pkg.len() > 0 && separable(lines, pkg) ==> part_of(
            others(lines, pkg),
            purged(lines, pkg),
        ),
    decreases lines.len(),
{
    let t = found(lines, pkg);
    let n = lines.len() as int;
    if t.any_line() {
        let kept = survivors(lines, t, n);
        lemma_doomed(lines, pkg);
        lemma_survivors_part(lines, t, n);
        assert(lines.take(n) =~= lines);
        lemma_purged_part(kept, pkg);
        lemma_part_of_part(purged(kept, pkg), kept, lines);
        if pkg.len() > 0 && separable(lines, pkg) {
            lemma_all_parts(lines, pkg);
            lemma_round_others(lines, pkg, n);
            lemma_part_of_part(others(lines, pkg), others(kept, pkg), purged(kept, pkg));
        }
    } else {
        lemma_part_of_itself(lines);
        lemma_picked_part(Place::Top, lines, not_about(pkg));
    }
}

/// Removing a package adds no line and moves none: what stays stands in the order in which it
/// stood once the rules of the package were brought into one block.
pub proof fn law_deleting_a_package_keeps_the_order(lines: Seq<Seq<char>>, pkg: Seq<char>)
    ensures
        pkg_deleted(lines, pkg) matches Ok(after) ==> part_of(after, normalized(lines, pkg)),
{
    lemma_purged_part(normalized(lines, pkg), pkg);
}

/// Removing a package keeps all lines that are not about it, in their order.
pub proof fn law_deleting_a_package_keeps_the_other_lines(lines: Seq<Seq<char>>, pkg: Seq<char>)
    requires
        tidy(pkg),
        gathers(lines, pkg),
        separable(normalized(lines, pkg), pkg),
    ensures
        pkg_deleted(lines, pkg) matches Ok(after) ==> part_of(others(lines, pkg), after),
{
    law_normalized_keeps_other_lines(lines, pkg);
    lemma_purged_part(normalized(lines, pkg), pkg);
}

} // verus!
