//! What removing a package does to the rules of the other packages.

use crate::config::{outer, Outer};
use crate::edit_laws::apart;
use crate::rule_edit::{
    blank, block_end, close_upto, doomed, found, last_inner, lemma_block, lemma_doomed, lemma_locs,
    lemma_named, lemma_pkg_upto, lemma_place_step, lemma_singles, loc_in, locs_upto, next,
    normalized, open_upto, opens_in, pkg_deleted, pkg_idx, place_at, purged, reach, shuts_in,
    singles, survivors, told_before, Found, Place,
};
use crate::rule_laws::{lemma_outer_tidy, rules_of, says};
use crate::text::trim;
use vstd::prelude::*;

verus! {

/// Whether the line is a `{` alone.
pub open spec fn lone_brace(raw: Seq<char>) -> bool {
    !blank(trim(raw)) && outer(trim(raw)) == (Outer::BareOpen { pkg: seq![] })
}

/// Where a reader of the lines that stay stands before line `i`.
pub open spec fn rest_at(lines: Seq<Seq<char>>, t: Found, i: int) -> Place {
    reach(Place::Top, survivors(lines, t, i))
}

/// Whether no `{` that did nothing opens a block once the lines before it are gone.
pub open spec fn braces_stay_idle(lines: Seq<Seq<char>>, t: Found) -> bool {
    forall|i: int|
        0 <= i < lines.len() && lone_brace(#[trigger] lines[i]) && place_at(lines, i) is Top
            && !doomed(t, i) ==> !(rest_at(lines, t, i) is Named)
}

/// Whether only the first block of the package loses the line that opens it, or the name before the
/// `{` that opens it.
pub open spec fn blocks_stay_whole(lines: Seq<Seq<char>>, pkg: Seq<char>, t: Found) -> bool {
    forall|i: int|
        0 <= i < lines.len() && #[trigger] opens_in(lines, pkg, i) && t.block_open != Some(i)
            ==> !doomed(t, i) && (lone_brace(lines[i]) ==> !doomed(t, told_before(lines, i)))
}

/// Whether nothing is said behind the last rule of a block that is never closed.
pub open spec fn open_end_is_silent(lines: Seq<Seq<char>>, t: Found) -> bool {
    t.block_open is Some && t.block_close is None ==> forall|i: int|
        block_end(t, t.block_open->0) < i < lines.len() ==> blank(trim(#[trigger] lines[i]))
}

/// Whether a package can be taken out of the lines without touching the others, round by round.
pub open spec fn separable(lines: Seq<Seq<char>>, pkg: Seq<char>) -> bool
    decreases lines.len(),
    via separable_decreases
{
    let t = found(lines, pkg);
    t.any_line() ==> {
        &&& braces_stay_idle(lines, t)
        &&& blocks_stay_whole(lines, pkg, t)
        &&& open_end_is_silent(lines, t)
        &&& separable(survivors(lines, t, lines.len() as int), pkg)
    }
}

/// What the three conditions of a round say of line `i`.
pub open spec fn parts_at(lines: Seq<Seq<char>>, pkg: Seq<char>, t: Found, i: int) -> bool {
    &&& lone_brace(lines[i]) && place_at(lines, i) is Top && !doomed(t, i) ==> !(rest_at(
        lines,
        t,
        i,
    ) is Named)
    &&& opens_in(lines, pkg, i) && t.block_open != Some(i) ==> !doomed(t, i) && (lone_brace(
        lines[i],
    ) ==> !doomed(t, told_before(lines, i)))
    &&& t.block_open is Some && t.block_close is None && block_end(t, t.block_open->0) < i ==> blank(
        trim(lines[i]),
    )
}

pub proof fn lemma_all_parts(lines: Seq<Seq<char>>, pkg: Seq<char>)
    requires
        braces_stay_idle(lines, found(lines, pkg)),
        blocks_stay_whole(lines, pkg, found(lines, pkg)),
        open_end_is_silent(lines, found(lines, pkg)),
    ensures
        forall|i: int|
            0 <= i < lines.len() ==> #[trigger] parts_at(lines, pkg, found(lines, pkg), i),
{
    let t = found(lines, pkg);
    assert forall|i: int| 0 <= i < lines.len() implies #[trigger] parts_at(lines, pkg, t, i) by {
        let raw = lines[i];
        assert(lone_brace(raw) || !lone_brace(raw));
        assert(opens_in(lines, pkg, i) || !opens_in(lines, pkg, i));
    }
}

#[via_fn]
proof fn separable_decreases(lines: Seq<Seq<char>>, pkg: Seq<char>) {
    if found(lines, pkg).any_line() {
        lemma_doomed(lines, pkg);
    }
}

proof fn lemma_first_open(lines: Seq<Seq<char>>, pkg: Seq<char>, m: int, n: int)
    requires
        m <= n,
        open_upto(lines, pkg, m) is Some,
    ensures
        open_upto(lines, pkg, n) == open_upto(lines, pkg, m),
    decreases n,
{
    if m < n && 0 < n {
        lemma_first_open(lines, pkg, m, n - 1);
    }
}

pub proof fn lemma_first_close(lines: Seq<Seq<char>>, pkg: Seq<char>, n: int)
    ensures
        close_upto(lines, pkg, n) matches Some(c) ==> forall|j: int|
            0 <= j < c ==> !#[trigger] shuts_in(lines, pkg, j),
        close_upto(lines, pkg, n) is None ==> forall|j: int|
            0 <= j < n ==> !#[trigger] shuts_in(lines, pkg, j),
    decreases n,
{
    if n > 0 {
        lemma_first_close(lines, pkg, n - 1);
    }
}

/// A reader is in the block of the package from behind its opening line up to its closing line.
proof fn lemma_in_block(lines: Seq<Seq<char>>, pkg: Seq<char>, open: int, j: int, end: int)
    requires
        0 <= open < j <= end <= lines.len(),
        opens_in(lines, pkg, open),
        forall|k: int| 0 <= k < end ==> !#[trigger] shuts_in(lines, pkg, k),
    ensures
        place_at(lines, j) == Place::Block(pkg),
    decreases j,
{
    if j > open + 1 {
        lemma_in_block(lines, pkg, open, j - 1, end);
        lemma_place_step(lines, j - 1);
        assert(!shuts_in(lines, pkg, j - 1));
    }
}

/// Whether a reader of all lines stands in the first block of the package before line `i`.
pub open spec fn inside(t: Found, i: int) -> bool {
    t.block_open matches Some(o) && o < i && (t.block_close matches Some(c) ==> i <= c)
}

/// The first block of a package.
pub proof fn lemma_first_block(lines: Seq<Seq<char>>, pkg: Seq<char>)
    ensures
        ({
            let t = found(lines, pkg);
            t.block_open matches Some(o) ==> {
                &&& 0 <= o < lines.len()
                &&& opens_in(lines, pkg, o)
                &&& t.block_close matches Some(c) ==> o < c < lines.len() && shuts_in(lines, pkg, c)
                &&& forall|j: int| #[trigger]
                    inside(t, j) && j <= lines.len() ==> place_at(lines, j) == Place::Block(pkg)
            }
        }),
{
    let n = lines.len() as int;
    let t = found(lines, pkg);
    lemma_block(lines, pkg, n);
    lemma_first_close(lines, pkg, n);
    if let Some(o) = t.block_open {
        assert forall|j: int| #[trigger] inside(t, j) && j <= n implies place_at(lines, j)
            == Place::Block(pkg) by {
            match t.block_close {
                None => {
                    lemma_in_block(lines, pkg, o, j, n);
                },
                Some(c) => {
                    lemma_in_block(lines, pkg, o, j, c);
                },
            }
        }
    }
}

/// The end of a block that is never closed stands behind its beginning.
proof fn lemma_last_inner(lines: Seq<Seq<char>>, pkg: Seq<char>, n: int)
    requires
        0 <= n <= lines.len(),
        found(lines, pkg).block_open is Some,
    ensures
        ({
            let o = found(lines, pkg).block_open->0;
            o <= last_inner(locs_upto(lines, pkg, n), o)
        }),
    decreases n,
{
    let o = found(lines, pkg).block_open->0;
    if n > 0 {
        lemma_last_inner(lines, pkg, n - 1);
        let place = place_at(lines, n - 1);
        if let Some(loc) = loc_in(place, lines[n - 1], pkg, n - 1) {
            let before = locs_upto(lines, pkg, n - 1);
            assert(before.push(loc).drop_last() =~= before);
            if !loc.single {
                assert(place == Place::Block(pkg));
                lemma_block(lines, pkg, n - 1);
                lemma_first_open(lines, pkg, n - 1, lines.len() as int);
            }
        }
    }
}

/// The first block goes from its beginning.
pub proof fn lemma_block_end(lines: Seq<Seq<char>>, pkg: Seq<char>)
    ensures
        found(lines, pkg).block_open matches Some(o) ==> o <= block_end(found(lines, pkg), o),
{
    let t = found(lines, pkg);
    if t.block_open is Some {
        lemma_first_block(lines, pkg);
        lemma_last_inner(lines, pkg, lines.len() as int);
    }
}

/// How the place in the lines that stay answers to the place in all lines.
pub open spec fn answers(lines: Seq<Seq<char>>, t: Found, i: int) -> bool {
    let p = place_at(lines, i);
    let q = rest_at(lines, t, i);
    if inside(t, i) {
        !(q is Block)
    } else {
        match p {
            Place::Block(_) => q == p,
            Place::Named(_) => !(q is Block) && (!doomed(t, told_before(lines, i)) ==> q == p),
            Place::Top => !(q is Block),
        }
    }
}

/// A rule `pkg{thread}=cpus` of the package stands outside of the blocks.
pub proof fn lemma_single_line(lines: Seq<Seq<char>>, pkg: Seq<char>, k: int)
    requires
        0 <= k < singles(found(lines, pkg).threads).len(),
    ensures
        ({
            let i = singles(found(lines, pkg).threads)[k].idx;
            &&& 0 <= i < lines.len()
            &&& !(place_at(lines, i) is Block)
            &&& !blank(trim(lines[i]))
            &&& outer(trim(lines[i])) matches Outer::Single { pkg: owner, .. } && owner == pkg
        }),
{
    let t = found(lines, pkg);
    let n = lines.len() as int;
    lemma_locs(lines, pkg, n);
    lemma_singles(t.threads, n);
    let loc = singles(t.threads)[k];
    let j = choose|j: int| 0 <= j < t.threads.len() && t.threads[j] == loc;
    assert(loc_in(place_at(lines, loc.idx), lines[loc.idx], pkg, loc.idx) == Some(loc));
}

/// A bare name that goes is the name of the package.
proof fn lemma_name_goes(lines: Seq<Seq<char>>, pkg: Seq<char>, i: int)
    requires
        0 <= i <= lines.len(),
        place_at(lines, i) is Named,
        doomed(found(lines, pkg), told_before(lines, i)),
    ensures
        place_at(lines, i) == Place::Named(pkg),
{
    let t = found(lines, pkg);
    let k = told_before(lines, i);
    lemma_named(lines, i);
    assert(!(place_at(lines, k) is Block) && !(place_at(lines, k + 1) is Block)) by {
        lemma_place_step(lines, k);
    }
    assert(!(t.block_open matches Some(o) && o <= k <= block_end(t, o))) by {
        lemma_first_block(lines, pkg);
        assert(inside(t, k) ==> place_at(lines, k) is Block);
    }
    assert(!(exists|m: int|
        0 <= m < singles(t.threads).len() && (#[trigger] singles(t.threads)[m]).idx == k)) by {
        if exists|m: int|
            0 <= m < singles(t.threads).len() && (#[trigger] singles(t.threads)[m]).idx == k {
            let m = choose|m: int|
                0 <= m < singles(t.threads).len() && (#[trigger] singles(t.threads)[m]).idx == k;
            lemma_single_line(lines, pkg, m);
        }
    }
    lemma_pkg_upto(lines, pkg, lines.len() as int);
}

/// What one line says and where it leads, read in a block or outside of one.
proof fn lemma_line(p: Place, raw: Seq<char>, pkg: Seq<char>)
    ensures
        p == Place::Block(pkg) ==> (next(p, raw) == p || next(p, raw) is Top) && (says(p, raw) matches Some(
            rule,
        ) ==> rule.pkg == pkg),
        !(p is Block) && next(p, raw) == Place::Block(pkg) ==> (says(p, raw) matches Some(rule)
            ==> rule.pkg == pkg),
{
    lemma_outer_tidy(trim(raw));
}

/// The same of a line that names the package outside of its blocks.
proof fn lemma_own_line(p: Place, raw: Seq<char>, pkg: Seq<char>)
    requires
        !(p is Block),
        !blank(trim(raw)),
        match outer(trim(raw)) {
            Outer::Rule { pkg: owner, .. } => owner == pkg,
            Outer::Single { pkg: owner, .. } => owner == pkg,
            Outer::BareOpen { pkg: owner } => owner == pkg && pkg.len() > 0,
            Outer::Pending { pkg: owner } => owner == pkg,
            _ => false,
        },
    ensures
        says(p, raw) matches Some(rule) ==> rule.pkg == pkg,
        next(p, raw) is Top || next(p, raw) is Named || next(p, raw) == Place::Block(pkg),
{
    lemma_outer_tidy(trim(raw));
}

/// A line outside of the first block that goes names the package.
pub proof fn lemma_doomed_kind(lines: Seq<Seq<char>>, pkg: Seq<char>, i: int)
    requires
        0 <= i < lines.len(),
        pkg.len() > 0,
        doomed(found(lines, pkg), i),
        !inside(found(lines, pkg), i),
        !inside(found(lines, pkg), i + 1),
    ensures
        !(place_at(lines, i) is Block),
        !blank(trim(lines[i])),
        match outer(trim(lines[i])) {
            Outer::Rule { pkg: owner, .. } => owner == pkg,
            Outer::Single { pkg: owner, .. } => owner == pkg,
            Outer::BareOpen { pkg: owner } => owner == pkg,
            Outer::Pending { pkg: owner } => owner == pkg,
            _ => false,
        },
{
    let t = found(lines, pkg);
    lemma_first_block(lines, pkg);
    if t.pkg_line matches Some(at) && pkg_idx(at) == i {
        lemma_pkg_upto(lines, pkg, lines.len() as int);
    } else {
        let k = choose|k: int|
            0 <= k < singles(t.threads).len() && (#[trigger] singles(t.threads)[k]).idx == i;
        lemma_single_line(lines, pkg, k);
    }
}

/// A line in the first block of the package is about the package.
proof fn lemma_inside_line(lines: Seq<Seq<char>>, pkg: Seq<char>, i: int)
    requires
        0 <= i < lines.len(),
        inside(found(lines, pkg), i) || inside(found(lines, pkg), i + 1),
    ensures
        says(place_at(lines, i), lines[i]) matches Some(rule) ==> rule.pkg == pkg,
        inside(found(lines, pkg), i) && !inside(found(lines, pkg), i + 1) ==> place_at(lines, i + 1) is Top,
        !inside(found(lines, pkg), i) ==> !(place_at(lines, i) is Block),
{
    lemma_first_block(lines, pkg);
    lemma_place_step(lines, i);
    let t = found(lines, pkg);
    let p = place_at(lines, i);
    let q = place_at(lines, i + 1);
    if inside(t, i) {
        assert(p == Place::Block(pkg));
        assert(!inside(t, i + 1) ==> !(q is Block));
    } else {
        assert(t.block_open == Some(i));
        assert(!(p is Block) && q == Place::Block(pkg));
    }
    lemma_line(p, lines[i], pkg);
}

/// A line outside of the first block that goes is about the package.
proof fn lemma_doomed_line(lines: Seq<Seq<char>>, pkg: Seq<char>, i: int)
    requires
        0 <= i < lines.len(),
        parts_at(lines, pkg, found(lines, pkg), i),
        pkg.len() > 0,
        doomed(found(lines, pkg), i),
        !inside(found(lines, pkg), i),
        !inside(found(lines, pkg), i + 1),
    ensures
        says(place_at(lines, i), lines[i]) matches Some(rule) ==> rule.pkg == pkg,
        !(place_at(lines, i) is Block),
        place_at(lines, i + 1) is Top || place_at(lines, i + 1) is Named,
        told_before(lines, i + 1) == i,
{
    let t = found(lines, pkg);
    lemma_doomed_kind(lines, pkg, i);
    lemma_place_step(lines, i);
    lemma_own_line(place_at(lines, i), lines[i], pkg);
    if place_at(lines, i + 1) == Place::Block(pkg) {
        assert(opens_in(lines, pkg, i));
        assert(t.block_open == Some(i));
        lemma_first_block(lines, pkg);
    }
}

/// A line that stays is read as it was.
proof fn lemma_step_kept(p: Place, q: Place, raw: Seq<char>)
    requires
        p is Block ==> q == p,
        !(p is Block) ==> !(q is Block),
        lone_brace(raw) && !(p is Block) ==> q == p,
    ensures
        says(p, raw) == says(q, raw),
        !blank(trim(raw)) ==> next(q, raw) == next(p, raw),
        blank(trim(raw)) ==> next(q, raw) == q && next(p, raw) == p,
{
    let t = trim(raw);
    if !blank(t) && !(p is Block) {
        if let Outer::BareOpen { pkg } = outer(t) {
            if pkg.len() == 0 {
                assert(pkg =~= seq![]);
            }
        }
    }
}

/// A `{` that stays finds what it found.
pub proof fn lemma_brace_kept(lines: Seq<Seq<char>>, pkg: Seq<char>, i: int)
    requires
        0 <= i < lines.len(),
        parts_at(lines, pkg, found(lines, pkg), i),
        answers(lines, found(lines, pkg), i),
        !inside(found(lines, pkg), i),
        !doomed(found(lines, pkg), i),
        lone_brace(lines[i]),
        !(place_at(lines, i) is Block),
    ensures
        rest_at(lines, found(lines, pkg), i) == place_at(lines, i),
{
    let t = found(lines, pkg);
    if place_at(lines, i) is Named && doomed(t, told_before(lines, i)) {
        lemma_name_goes(lines, pkg, i);
        assert(opens_in(lines, pkg, i)) by {
            lemma_place_step(lines, i);
        }
        lemma_block_end(lines, pkg);
    }
}

/// One round of removal leaves the rules of the other packages as they were.
#[verifier::rlimit(60)]
#[verifier::spinoff_prover]
pub proof fn lemma_round(lines: Seq<Seq<char>>, pkg: Seq<char>, n: int)
    requires
        0 <= n <= lines.len(),
        forall|i: int| 0 <= i < n ==> #[trigger] parts_at(lines, pkg, found(lines, pkg), i),
        pkg.len() > 0,
    ensures
        answers(lines, found(lines, pkg), n),
        apart(rules_of(survivors(lines, found(lines, pkg), n)), pkg) == apart(
            rules_of(lines.take(n)),
            pkg,
        ),
    decreases n,
{
    let t = found(lines, pkg);
    if n == 0 {
        assert(lines.take(0) =~= seq![]);
        lemma_first_block(lines, pkg);
    } else {
        let i = n - 1;
        lemma_round(lines, pkg, i);
        assert(parts_at(lines, pkg, t, i));
        let p = place_at(lines, i);
        let q = rest_at(lines, t, i);
        let raw = lines[i];
        assert(place_at(lines, n) == next(p, raw)) by {
            lemma_place_step(lines, i);
        }
        assert(lines.take(n).drop_last() =~= lines.take(i));
        assert(lines.take(n).last() == raw);
        let all0 = rules_of(lines.take(i));
        let all = rules_of(lines.take(n));
        let kept0 = survivors(lines, t, i);
        let kept = survivors(lines, t, n);
        if doomed(t, i) {
            if inside(t, i) || inside(t, n) {
                lemma_inside_line(lines, pkg, i);
            } else {
                lemma_doomed_line(lines, pkg, i);
            }
            assert(kept == kept0);
            match says(p, raw) {
                Some(rule) => {
                    assert(all == all0.push(rule));
                    assert(all.drop_last() =~= all0);
                },
                None => {},
            }
        } else {
            assert(kept == kept0.push(raw));
            assert(kept.drop_last() =~= kept0);
            assert(kept.last() == raw);
            assert(inside(t, n) == inside(t, i)) by {
                lemma_block_end(lines, pkg);
            }
            if inside(t, i) {
                assert(blank(trim(raw))) by {
                    lemma_block_end(lines, pkg);
                }
            } else {
                if lone_brace(raw) && !(p is Block) {
                    lemma_brace_kept(lines, pkg, i);
                }
                lemma_step_kept(p, q, raw);
            }
            assert(says(p, raw) == says(q, raw));
            match says(p, raw) {
                Some(rule) => {
                    let kr = rules_of(kept);
                    assert(all == all0.push(rule));
                    assert(kr == rules_of(kept0).push(rule));
                    assert(all.drop_last() =~= all0);
                    assert(kr.drop_last() =~= rules_of(kept0));
                },
                None => {},
            }
        }
    }
}

proof fn lemma_purged(lines: Seq<Seq<char>>, pkg: Seq<char>)
    requires
        separable(lines, pkg),
        pkg.len() > 0,
    ensures
        apart(rules_of(purged(lines, pkg)), pkg) == apart(rules_of(lines), pkg),
    decreases lines.len(),
{
    let t = found(lines, pkg);
    let n = lines.len() as int;
    if t.any_line() {
        lemma_doomed(lines, pkg);
        lemma_all_parts(lines, pkg);
        lemma_round(lines, pkg, n);
        assert(lines.take(n) =~= lines);
        lemma_purged(survivors(lines, t, n), pkg);
    }
}

/// Removing a package leaves the rules of every other package as they were, in their order.
pub proof fn law_deleted_package_leaves_the_others(lines: Seq<Seq<char>>, pkg: Seq<char>)
    requires
        pkg.len() > 0,
        separable(normalized(lines, pkg), pkg),
    ensures
        pkg_deleted(lines, pkg) matches Ok(after) ==> apart(rules_of(after), pkg) == apart(
            rules_of(normalized(lines, pkg)),
            pkg,
        ),
{
    lemma_purged(normalized(lines, pkg), pkg);
}

} // verus!
