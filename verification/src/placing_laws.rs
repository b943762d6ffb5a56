//! Where the edits put new lines, and what stays on the lines that they change.

use crate::clone_laws::led_by_a_rule;
use crate::config::{cut, like_spec, outer};
use crate::delete_laws::lemma_first_close;
use crate::edit_laws::{
    all_space, cpus_for, gathers, law_clone_takes_the_first_package_rule,
    law_deleted_package_rule_is_gone, law_normalized_keeps_rules, lemma_block_added,
    lemma_moved_all, lemma_new_block, lemma_same_front, lemma_shuts_found, lemma_singles_removed,
    lemma_thread_rules, said_of,
};
use crate::line_laws::{
    comment, law_comments_reach_the_end, law_names_with_a_thread, lemma_line, lemma_line_cut,
    lemma_tails,
};
use crate::plain_laws::{
    braces_named, law_plain_files_gather, lemma_as_many, lemma_braces_stay, lemma_calm_behind,
    lemma_own_rule, rules_plain,
};
use crate::repeat_laws::{lemma_besides_count, lemma_stays};
use crate::rule_edit::{
    bare_open, block_added, block_end, clone_base, cloned, close_upto, deleted, doomed, found,
    last_inner, lemma_block, lemma_locs, lemma_pkg_upto, lemma_place_step, lemma_singles,
    line_renamed, loc_in, loc_removed, locs_removed, locs_upto, member_line, member_lines, moved,
    moved_all, normalized, of_thread, open_upto, pkg_deleted, pkg_upto, place_at, purged,
    rename_round, rename_rounds, rename_stops, renamed, shuts_in, singles, spaced, stay, survivors,
    told_before, upserted, with_comment_of, Found, Loc, PkgAt, Place, RuleEdit,
};
use crate::rule_laws::{
    law_scan_finds_thread_rules, lemma_bare_open, lemma_concat, lemma_member_line, lemma_outer_tidy,
    no_mark, rules_from, rules_of, says, threads_of, tidy, Said,
};
use crate::text::{begins, is_space, lemma_trimmed_fixed, text_of, trim, trim_end};
use vstd::prelude::*;

verus! {

// The rule of a package.

/// Removing the rule of a package finds none where the file states none, and nothing but that can go
/// wrong. Where one is removed, it is the first of the package; every other rule is stated as often
/// as before.
#[verifier::rlimit(40)]
#[verifier::spinoff_prover]
pub proof fn law_removing_a_package_rule(lines: Seq<Seq<char>>, pkg: Seq<char>)
    requires
        tidy(pkg),
        braces_named(lines),
        rules_plain(lines, pkg),
    ensures
        ({
            let r = deleted(lines, pkg, seq![]);
            let now = normalized(lines, pkg);
            let had = cpus_for(rules_of(now), pkg, seq![]);
            &&& r is Ok <==> led_by_a_rule(now, pkg)
            &&& r is Err ==> r == Err::<Seq<Seq<char>>, RuleEdit>(RuleEdit::NotFound)
            &&& cpus_for(rules_of(lines), pkg, seq![]).len() == 0 ==> r is Err
            &&& r matches Ok(after) ==> {
                &&& had.len() > 0
                &&& cpus_for(rules_of(after), pkg, seq![]) == had.skip(1)
                &&& forall|rule: Said|
                    !(rule.pkg == pkg && rule.thread == Seq::<char>::empty())
                        ==> #[trigger] rules_of(after).to_multiset().count(rule) == rules_of(
                        lines,
                    ).to_multiset().count(rule)
            }
        }),
{
    let now = normalized(lines, pkg);
    let n = now.len() as int;
    let own = Seq::<char>::empty();
    law_plain_files_gather(lines, pkg);
    lemma_braces_stay(lines, pkg);
    law_normalized_keeps_rules(lines, pkg);
    lemma_as_many(rules_of(now), rules_of(lines), pkg, own);
    lemma_own_rule(now, pkg);
    lemma_pkg_upto(now, pkg, n);
    if let Some(PkgAt::Standalone(i)) = found(now, pkg).pkg_line {
        lemma_place_step(now, i);
        lemma_calm_behind(now, i + 1);
    }
    law_deleted_package_rule_is_gone(lines, pkg);
    if deleted(lines, pkg, own) is Ok {
        let after = deleted(lines, pkg, own)->Ok_0;
        let had = cpus_for(rules_of(now), pkg, own);
        assert(had.drop_first() =~= had.skip(1));
        assert forall|rule: Said|
            !(rule.pkg == pkg && rule.thread == own) implies #[trigger] rules_of(
            after,
        ).to_multiset().count(rule) == rules_of(lines).to_multiset().count(rule) by {
            lemma_besides_count(rules_of(after), pkg, own, rule);
            lemma_besides_count(rules_of(now), pkg, own, rule);
        }
    }
}

// Where a new rule of a thread stands.

proof fn lemma_new_thread(lines: Seq<Seq<char>>, pkg: Seq<char>, thread: Seq<char>)
    requires
        thread.len() > 0,
        cpus_for(rules_of(normalized(lines, pkg)), pkg, thread).len() == 0,
    ensures
        of_thread(found(normalized(lines, pkg), pkg).threads, thread).len() == 0,
{
    let now = normalized(lines, pkg);
    let n = now.len() as int;
    lemma_thread_rules(now, pkg, thread, n);
    assert(now.take(n) =~= now);
}

/// A rule for a thread that has none is the last of the first block of the package that is closed.
pub proof fn law_new_thread_rules_end_their_block(
    lines: Seq<Seq<char>>,
    pkg: Seq<char>,
    thread: Seq<char>,
    cpus: Seq<char>,
    c: int,
)
    requires
        thread.len() > 0,
        cpus_for(rules_of(normalized(lines, pkg)), pkg, thread).len() == 0,
        0 <= c < normalized(lines, pkg).len(),
        shuts_in(normalized(lines, pkg), pkg, c),
        forall|j: int| 0 <= j < c ==> !#[trigger] shuts_in(normalized(lines, pkg), pkg, j),
    ensures
        upserted(lines, pkg, thread, cpus) == Ok::<Seq<Seq<char>>, RuleEdit>(
            normalized(lines, pkg).take(c) + seq!["\t"@ + thread + "="@ + cpus] + normalized(
                lines,
                pkg,
            ).skip(c),
        ),
{
    let now = normalized(lines, pkg);
    let n = now.len() as int;
    lemma_new_thread(lines, pkg, thread);
    lemma_first_close(now, pkg, n);
    lemma_block(now, pkg, n);
    let close = found(now, pkg).block_close->0;
    assert(found(now, pkg).block_close is Some);
    assert(shuts_in(now, pkg, close));
    assert(c == close);
}

/// Where no line names the package, a rule for a thread stands in a block of its own behind all
/// other lines.
pub proof fn law_new_thread_rules_get_a_block(
    lines: Seq<Seq<char>>,
    pkg: Seq<char>,
    thread: Seq<char>,
    cpus: Seq<char>,
)
    requires
        thread.len() > 0,
        !pkg.contains('='),
        !found(lines, pkg).any_line(),
        cpus_for(rules_of(lines), pkg, thread).len() == 0,
        !(place_at(lines, lines.len() as int) is Block),
        forall|j: int| 0 <= j < lines.len() ==> !#[trigger] shuts_in(lines, pkg, j),
    ensures
        upserted(lines, pkg, thread, cpus) == Ok::<Seq<Seq<char>>, RuleEdit>(
            lines + seq![pkg + " {"@, "\t"@ + thread + "="@ + cpus, "}"@],
        ),
{
    assert(normalized(lines, pkg) == lines);
    lemma_new_thread(lines, pkg, thread);
    lemma_block(lines, pkg, lines.len() as int);
}

/// Where no block of the package is closed and its first line is a rule without one, a rule for a
/// thread stands in a block behind that rule.
pub proof fn law_new_thread_rules_open_a_block(
    lines: Seq<Seq<char>>,
    pkg: Seq<char>,
    thread: Seq<char>,
    cpus: Seq<char>,
    c: int,
)
    requires
        thread.len() > 0,
        cpus_for(rules_of(normalized(lines, pkg)), pkg, thread).len() == 0,
        found(normalized(lines, pkg), pkg).pkg_line == Some(PkgAt::Standalone(c)),
        forall|j: int|
            0 <= j < normalized(lines, pkg).len() ==> !#[trigger] shuts_in(
                normalized(lines, pkg),
                pkg,
                j,
            ),
    ensures
        ({
            let now = normalized(lines, pkg);
            upserted(lines, pkg, thread, cpus) == Ok::<Seq<Seq<char>>, RuleEdit>(
                now.take(c) + seq![
                    trim_end(now[c]) + " {"@,
                    "\t"@ + thread + "="@ + cpus,
                    "}"@,
                ] + now.skip(c + 1),
            )
        }),
{
    let now = normalized(lines, pkg);
    let n = now.len() as int;
    lemma_new_thread(lines, pkg, thread);
    lemma_block(now, pkg, n);
    lemma_pkg_upto(now, pkg, n);
    let line = member_line(thread, cpus);
    let items = seq![line];
    assert(items.push("}"@) =~= seq![line, "}"@]);
    let opened = now.update(c, trim_end(now[c]) + " {"@);
    assert(opened.take(c + 1) =~= now.take(c).push(trim_end(now[c]) + " {"@));
    assert(opened.skip(c + 1) =~= now.skip(c + 1));
    assert(block_added(now, c, items) =~= now.take(c) + seq![
        trim_end(now[c]) + " {"@,
        line,
        "}"@,
    ] + now.skip(c + 1));
}

// The order of rules that are brought together.

/// The rules of a package that stand outside of its blocks, as `pkg{thread}=cpus`, on the lines
/// before line `n`, in their order.
pub open spec fn scattered(lines: Seq<Seq<char>>, pkg: Seq<char>, n: int) -> Seq<Said>
    decreases n,
{
    if n <= 0 {
        seq![]
    } else {
        let before = scattered(lines, pkg, n - 1);
        let place = place_at(lines, n - 1);
        match says(place, lines[n - 1]) {
            Some(rule) => if !(place is Block) && rule.pkg == pkg && rule.thread.len() > 0 {
                before.push(rule)
            } else {
                before
            },
            None => before,
        }
    }
}

proof fn lemma_scattered(lines: Seq<Seq<char>>, pkg: Seq<char>, n: int)
    requires
        0 <= n <= lines.len(),
    ensures
        scattered(lines, pkg, n) == said_of(lines, pkg, singles(locs_upto(lines, pkg, n))),
    decreases n,
{
    let locs = locs_upto(lines, pkg, n);
    if n == 0 {
        assert(said_of(lines, pkg, singles(locs)) =~= seq![]);
    } else {
        lemma_scattered(lines, pkg, n - 1);
        let place = place_at(lines, n - 1);
        let here = loc_in(place, lines[n - 1], pkg, n - 1);
        let before = locs_upto(lines, pkg, n - 1);
        lemma_outer_tidy(trim(lines[n - 1]));
        if here is Some {
            let loc = here->0;
            assert(locs.drop_last() =~= before);
            assert(locs.last() == loc);
            if loc.single {
                let rule = says(place, lines[n - 1])->0;
                assert(said_of(lines, pkg, singles(locs)) =~= said_of(
                    lines,
                    pkg,
                    singles(before),
                ).push(rule));
            }
        }
    }
}

/// Rules of a package that stand outside of its blocks are brought together in their order, next to
/// each other.
#[verifier::rlimit(60)]
#[verifier::spinoff_prover]
pub proof fn law_gathered_rules_keep_their_order(lines: Seq<Seq<char>>, pkg: Seq<char>) -> (r: (
    Seq<Said>,
    Seq<Said>,
))
    requires
        tidy(pkg),
        gathers(lines, pkg),
        place_at(lines, lines.len() as int) != Place::Block(pkg),
    ensures
        rules_of(normalized(lines, pkg)) == r.0 + scattered(lines, pkg, lines.len() as int) + r.1,
{
    let t = found(lines, pkg);
    let n = lines.len() as int;
    let locs = singles(t.threads);
    let now = normalized(lines, pkg);
    let none = Seq::<Said>::empty();
    lemma_scattered(lines, pkg, n);
    if stay(t) {
        if locs.len() > 0 {
            lemma_stays(lines, pkg);
        }
        assert(said_of(lines, pkg, locs) =~= none);
        assert(rules_of(now) + none + none =~= rules_of(now));
        (rules_of(now), none)
    } else {
        let items = moved_all(lines, locs);
        let said = said_of(lines, pkg, locs);
        let rest = locs_removed(lines, pkg, locs);
        let u = found(rest, pkg);
        let m = rest.len() as int;
        let block = Place::Block(pkg);
        lemma_singles_removed(lines, pkg, n);
        lemma_locs(lines, pkg, n);
        lemma_singles(t.threads, n);
        assert forall|k: int| 0 <= k < locs.len() implies (#[trigger] locs[k]).single && loc_in(
            place_at(lines, locs[k].idx),
            lines[locs[k].idx],
            pkg,
            locs[k].idx,
        ) == Some(locs[k]) by {
            let j = choose|j: int| 0 <= j < t.threads.len() && t.threads[j] == locs[k];
            assert(t.threads[j] == locs[k]);
        }
        lemma_moved_all(lines, pkg, locs);
        lemma_block(rest, pkg, m);
        lemma_pkg_upto(rest, pkg, m);
        match u.block_close {
            Some(close) => {
                let (a, b) = (rest.take(close), rest.skip(close));
                lemma_concat(Place::Top, a, items);
                lemma_concat(Place::Top, a + items, b);
                (rules_of(a), rules_from(block, b))
            },
            None => match u.pkg_line {
                Some(PkgAt::Standalone(i)) => {
                    let cpus = outer(trim(rest[i]))->Rule_cpus;
                    lemma_block_added(rest, i, items, pkg, cpus);
                    (
                        rules_of(rest.take(i)) + seq![Said { pkg, thread: seq![], cpus }],
                        rules_from(Place::Top, rest.skip(i + 1)),
                    )
                },
                _ => {
                    let first = locs[0].idx;
                    assert(!locs[0].open) by {
                        lemma_shuts_found(lines, pkg, n);
                        lemma_shuts_found(rest, pkg, m);
                        assert(lines.take(n) =~= lines);
                        assert(rest.take(m) =~= rest);
                        assert(t.block_close is None);
                    }
                    assert(place_at(rest, first) == place_at(lines, first));
                    lemma_new_block(rest, first, items, pkg);
                    (rules_of(rest.take(first)), rules_from(Place::Top, rest.skip(first)))
                },
            },
        }
    }
}

// The lines of a clone.

/// A clone stands behind all other lines, with an empty line before it unless the file ends with
/// one: a single line for a package rule alone, and else a block with a line for each thread.
#[verifier::rlimit(40)]
#[verifier::spinoff_prover]
pub proof fn law_lines_of_a_clone(
    lines: Seq<Seq<char>>,
    source: Seq<char>,
    target: Seq<char>,
    copy_package: bool,
    copy_threads: bool,
    i: int,
)
    requires
        tidy(source),
        !target.contains('='),
        cloned(lines, source, target, copy_package, copy_threads) is Ok,
    ensures
        ({
            let first = cpus_for(rules_of(clone_base(lines, source, target)), source, seq![])[0];
            let after = cloned(lines, source, target, copy_package, copy_threads)->Ok_0;
            let base = clone_base(lines, source, target);
            let gap: Seq<Seq<char>> = if base.len() > 0 && trim(base[base.len() - 1]).len() > 0 {
                seq![Seq::<char>::empty()]
            } else {
                seq![]
            };
            let start = (base + gap).len() as int;
            let threads = threads_of(rules_of(base), source);
            &&& after.len() >= start && after.take(start) == base + gap
            &&& copy_threads ==> {
                &&& threads.len() > 0
                &&& after.len() == start + threads.len() + 2
                &&& copy_package ==> after[start] == target + "="@ + first + " {"@
                &&& !copy_package ==> after[start] == target + " {"@
                &&& 0 <= i < threads.len() ==> after[start + 1 + i] == "\t"@ + threads[i].0 + "="@
                    + threads[i].1
                &&& after[after.len() - 1] == "}"@
            }
            &&& !copy_threads && copy_package ==> after.len() == start + 1 && after[start] == target
                + "="@ + first
            &&& !copy_threads && !copy_package ==> after.len() == start
        }),
{
    let after = cloned(lines, source, target, copy_package, copy_threads)->Ok_0;
    let base = clone_base(lines, source, target);
    let none = Seq::<char>::empty();
    let gap: Seq<Seq<char>> = if base.len() > 0 && trim(base[base.len() - 1]).len() > 0 {
        seq![none]
    } else {
        seq![]
    };
    assert(spaced(base) =~= base + gap);
    law_scan_finds_thread_rules(base, source);
    law_clone_takes_the_first_package_rule(lines, source, target, copy_package, copy_threads);
    let start = (base + gap).len() as int;
    assert(after.take(start) =~= base + gap);
}

// What stays on a line.

/// A line that is written anew keeps the comment of the line that it stands for.
pub proof fn law_rewritten_lines_keep_their_comment(
    fresh: Seq<char>,
    a: Seq<char>,
    note: Seq<char>,
)
    requires
        forall|i: int| 0 <= i < a.len() ==> (#[trigger] a[i]) != '#' && a[i] != '/',
        comment(note),
    ensures
        with_comment_of(fresh, a + note) == fresh + note,
        with_comment_of(fresh, a) == fresh,
{
    law_comments_reach_the_end(a, note);
    assert((a + note).skip(a.len() as int) =~= note);
    assert(a.skip(a.len() as int) =~= seq![]);
    assert(fresh + Seq::<char>::empty() =~= fresh);
}

/// A line that is renamed keeps all that stands behind the name, unless the new name holds a `=`.
pub proof fn law_renamed_lines_keep_the_rest(
    raw: Seq<char>,
    old_name: Seq<char>,
    name: Seq<char>,
    rest: Seq<char>,
)
    requires
        !name.contains('='),
    ensures
        trim(raw) == old_name + rest ==> line_renamed(raw, old_name, name) == name + rest,
        !begins(trim(raw), old_name) ==> line_renamed(raw, old_name, name) == raw,
{
    if trim(raw) == old_name + rest {
        let p = old_name + rest;
        assert(p.take(old_name.len() as int) =~= old_name);
        assert(p.skip(old_name.len() as int) =~= rest);
    }
}

proof fn lemma_rounds_keep(
    lines: Seq<Seq<char>>,
    old_name: Seq<char>,
    name: Seq<char>,
    k: nat,
)
    ensures
        rename_rounds(lines, old_name, name, k) matches Some(after) ==> after.len() == lines.len()
            && forall|i: int|
            0 <= i < lines.len() && !begins(trim(#[trigger] lines[i]), old_name) ==> after[i]
                == lines[i],
    decreases k,
{
    if found(lines, old_name).any_line() && k > 0 {
        let round = rename_round(lines, old_name, name);
        lemma_rounds_keep(round, old_name, name, (k - 1) as nat);
        if let Some(after) = rename_rounds(lines, old_name, name, k) {
            assert forall|i: int|
                0 <= i < lines.len() && !begins(trim(#[trigger] lines[i]), old_name) implies after[i]
                == lines[i] by {
                assert(round[i] == lines[i]);
            }
        }
    }
}

/// Renaming a package neither adds nor takes away lines, and leaves every line alone that does not
/// begin with the old name.
pub proof fn law_renaming_leaves_other_lines(
    lines: Seq<Seq<char>>,
    old_name: Seq<char>,
    name: Seq<char>,
)
    requires
        rename_stops(normalized(lines, old_name), old_name, name),
    ensures
        renamed(lines, old_name, name) matches Ok(after) ==> {
            let now = normalized(lines, old_name);
            &&& after.len() == now.len()
            &&& forall|i: int|
                0 <= i < now.len() && !begins(trim(#[trigger] now[i]), old_name) ==> after[i]
                    == now[i]
        },
{
    let now = normalized(lines, old_name);
    let k = choose|k: nat| (#[trigger] rename_rounds(now, old_name, name, k)) is Some;
    lemma_rounds_keep(now, old_name, name, k);
}

/// Every line is written with a line feed behind it.
pub proof fn law_lines_are_written_one_by_one(lines: Seq<Seq<char>>, line: Seq<char>)
    ensures
        text_of(seq![]) == "\n"@,
        text_of(seq![line]) == line + "\n"@,
        lines.len() > 0 ==> text_of(lines.push(line)) == text_of(lines) + line + "\n"@,
{
    reveal_strlit("\n");
    let nl = "\n"@;
    assert(nl =~= seq!['\n']);
    assert(text_of(seq![]) =~= nl);
    assert(text_of(seq![line]) =~= line + nl);
    if lines.len() > 0 {
        let all = lines.push(line);
        assert(all.drop_last() =~= lines);
        assert(text_of(all) =~= text_of(lines) + line + nl);
    }
}

/// A rule that is taken from its line leaves there the block that the line began or ended, with the
/// comment of the line; other rules leave nothing.
pub proof fn law_removed_rules_leave_their_block(
    lines: Seq<Seq<char>>,
    pkg: Seq<char>,
    loc: Loc,
    a: Seq<char>,
    note: Seq<char>,
)
    requires
        0 <= loc.idx < lines.len(),
        lines[loc.idx] == a + note,
        forall|i: int| 0 <= i < a.len() ==> (#[trigger] a[i]) != '#' && a[i] != '/',
        comment(note),
        !pkg.contains('='),
    ensures
        loc.open ==> loc_removed(lines, pkg, loc) == lines.update(loc.idx, pkg + " {"@ + note),
        !loc.open && loc.closed ==> loc_removed(lines, pkg, loc) == lines.update(
            loc.idx,
            "}"@ + note,
        ),
        !loc.open && !loc.closed ==> loc_removed(lines, pkg, loc) == lines.take(loc.idx)
            + lines.skip(loc.idx + 1),
{
    law_rewritten_lines_keep_their_comment(bare_open(pkg), a, note);
    law_rewritten_lines_keep_their_comment("}"@, a, note);
    assert(lines.remove(loc.idx) =~= lines.take(loc.idx) + lines.skip(loc.idx + 1));
}

/// A rule `pkg{thread}=cpus` that is brought into a block is written there as `thread=cpus` behind a
/// tab, with its comment.
pub proof fn law_gathered_lines_keep_their_comment(
    pkg: Seq<char>,
    thread: Seq<char>,
    g: Seq<char>,
    h: Seq<char>,
    cpus: Seq<char>,
    s: Seq<char>,
    note: Seq<char>,
)
    requires
        tidy(pkg),
        tidy(thread),
        !thread.contains('{'),
        no_mark(pkg + "{"@ + thread + "}"@),
        all_space(g),
        all_space(h),
        like_spec(cpus),
        all_space(s),
        comment(note),
        !is_space(note.last()),
    ensures
        moved(pkg + "{"@ + thread + "}"@ + g + "="@ + h + cpus + s + note) == "\t"@ + thread + "="@
            + cpus + note,
{
    reveal_strlit("{");
    reveal_strlit("}");
    let none = Seq::<char>::empty();
    let name = pkg + "{"@ + thread + "}"@;
    let raw = name + g + "="@ + h + cpus + s + note;
    assert(none + name + g + "="@ + h + cpus + s + note =~= raw);
    law_names_with_a_thread(pkg, thread);
    lemma_trimmed_fixed(pkg);
    lemma_trimmed_fixed(thread);
    assert(name[0] == pkg[0]);
    assert(name.last() == '}');
    assert(tidy(name));
    lemma_tails(s, none, '{');
    lemma_line(none, name, g, h, cpus, s, note, '{');
    assert(raw[0] == name[0]);
    assert(raw.last() == note.last());
    lemma_trimmed_fixed(raw);
    lemma_line_cut(name, g, h, cpus, s, note);
    assert(raw.skip(cut(raw)) =~= note);
}

// A block without an end.

/// The rules in a block at the end of the lines.
#[verifier::rlimit(40)]
#[verifier::spinoff_prover]
proof fn lemma_last_block(
    front: Seq<Seq<char>>,
    pkg: Seq<char>,
    threads: Seq<(Seq<char>, Seq<char>)>,
    k: int,
)
    requires
        tidy(pkg),
        !found(front, pkg).any_line(),
        found(front, pkg).threads.len() == 0,
        found(front, pkg).block_open is None,
        !(place_at(front, front.len() as int) is Block),
        forall|i: int|
            0 <= i < threads.len() ==> tidy((#[trigger] threads[i]).0) && like_spec(threads[i].1),
        0 <= k <= threads.len(),
    ensures
        ({
            let lines = front.push(bare_open(pkg)) + member_lines(threads);
            let n = front.len() as int;
            let at = n + 1 + k;
            &&& place_at(lines, at) == Place::Block(pkg)
            &&& pkg_upto(lines, pkg, at) == Some(PkgAt::BareOpen(n))
            &&& open_upto(lines, pkg, at) == Some(n)
            &&& close_upto(lines, pkg, at) is None
            &&& singles(locs_upto(lines, pkg, at)).len() == 0
            &&& last_inner(locs_upto(lines, pkg, at), n) == n + k
        }),
    decreases k,
{
    let lines = front.push(bare_open(pkg)) + member_lines(threads);
    let n = front.len() as int;
    let at = n + 1 + k;
    let none = Seq::<char>::empty();
    lemma_place_step(lines, at - 1);
    if k == 0 {
        assert(lines.take(n) =~= front);
        assert(front.take(n) =~= front);
        lemma_same_front(lines, front, pkg, n);
        assert(lines[n] == bare_open(pkg));
        assert(bare_open(pkg) + none =~= bare_open(pkg));
        lemma_bare_open(pkg, none);
        lemma_block(front, pkg, n);
        lemma_upto_front(lines, front, pkg, n);
    } else {
        lemma_last_block(front, pkg, threads, k - 1);
        let (thread, cpus) = threads[k - 1];
        let raw = member_line(thread, cpus);
        assert(lines[at - 1] == raw);
        assert(raw + none =~= raw);
        lemma_member_line(thread, cpus, none, pkg);
        let before = locs_upto(lines, pkg, at - 1);
        let loc = loc_in(Place::Block(pkg), raw, pkg, at - 1);
        assert(says(Place::Block(pkg), raw) is Some);
        assert(loc is Some && !loc->0.single && loc->0.idx == at - 1);
        assert(before.push(loc->0).drop_last() =~= before);
    }
}

proof fn lemma_upto_front(lines: Seq<Seq<char>>, front: Seq<Seq<char>>, pkg: Seq<char>, n: int)
    requires
        0 <= n <= front.len() <= lines.len(),
        lines.take(front.len() as int) == front,
    ensures
        pkg_upto(lines, pkg, n) == pkg_upto(front, pkg, n),
        open_upto(lines, pkg, n) == open_upto(front, pkg, n),
        close_upto(lines, pkg, n) == close_upto(front, pkg, n),
        locs_upto(lines, pkg, n) == locs_upto(front, pkg, n),
    decreases n,
{
    if n > 0 {
        lemma_upto_front(lines, front, pkg, n - 1);
        assert(lines.take(n) =~= front.take(n));
        assert(lines.take(n - 1) =~= front.take(n - 1));
        assert(lines[n - 1] == front[n - 1]);
        lemma_told_front(lines, front, n - 1);
    }
}

proof fn lemma_told_front(lines: Seq<Seq<char>>, front: Seq<Seq<char>>, n: int)
    requires
        n <= front.len() <= lines.len(),
        lines.take(front.len() as int) == front,
    ensures
        told_before(lines, n) == told_before(front, n),
    decreases n,
{
    if n > 0 {
        lemma_told_front(lines, front, n - 1);
        assert(lines.take(front.len() as int)[n - 1] == lines[n - 1]);
    }
}

proof fn lemma_front_survives(lines: Seq<Seq<char>>, t: Found, n: int, m: int)
    requires
        0 <= n <= m <= lines.len(),
        forall|i: int| 0 <= i < n ==> !#[trigger] doomed(t, i),
        forall|i: int| n <= i < m ==> #[trigger] doomed(t, i),
    ensures
        survivors(lines, t, m) == lines.take(n),
    decreases m,
{
    if m == 0 {
        assert(lines.take(0) =~= seq![]);
    } else if m > n {
        assert(doomed(t, m - 1));
        lemma_front_survives(lines, t, n, m - 1);
    } else {
        assert(!doomed(t, m - 1));
        lemma_front_survives(lines, t, n - 1, m - 1);
        assert(lines.take(n) =~= lines.take(n - 1).push(lines[n - 1]));
    }
}

/// A package whose block never ends, at the end of a file that does not name it before, is removed
/// with all rules in that block: none of them is left behind to be read as the rule of a package.
pub proof fn law_removing_a_package_without_an_end(
    front: Seq<Seq<char>>,
    pkg: Seq<char>,
    threads: Seq<(Seq<char>, Seq<char>)>,
)
    requires
        tidy(pkg),
        !pkg.contains('='),
        !found(front, pkg).any_line(),
        found(front, pkg).threads.len() == 0,
        found(front, pkg).block_open is None,
        !(place_at(front, front.len() as int) is Block),
        forall|i: int|
            0 <= i < threads.len() ==> tidy((#[trigger] threads[i]).0) && like_spec(threads[i].1),
    ensures
        pkg_deleted(
            front.push(pkg + " {"@) + Seq::new(
                threads.len(),
                |i: int| "\t"@ + threads[i].0 + "="@ + threads[i].1,
            ),
            pkg,
        ) == Ok::<Seq<Seq<char>>, RuleEdit>(front),
{
    let lines = front.push(bare_open(pkg)) + member_lines(threads);
    let n = front.len() as int;
    let m = lines.len() as int;
    let t = found(lines, pkg);
    assert(member_lines(threads) =~= Seq::new(
        threads.len(),
        |i: int| "\t"@ + threads[i].0 + "="@ + threads[i].1,
    ));
    lemma_last_block(front, pkg, threads, threads.len() as int);
    assert(normalized(lines, pkg) == lines);
    assert(t.block_open == Some(n) && t.block_close is None);
    assert(block_end(t, n) == m - 1);
    assert forall|i: int| 0 <= i < n implies !#[trigger] doomed(t, i) by {}
    assert forall|i: int| n <= i < m implies #[trigger] doomed(t, i) by {}
    lemma_front_survives(lines, t, n, m);
    assert(lines.take(n) =~= front);
    assert(purged(front, pkg) == front);
    assert(purged(lines, pkg) == front);
}

} // verus!
