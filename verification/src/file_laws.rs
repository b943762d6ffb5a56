//! What an edit writes to the rule file, read again.

use crate::config::{braced, cut, like_spec, single_parts, stripped, uncommented};
use crate::edit_laws::{
    clean_braces, come_off, lemma_lead, lemma_loc_says, lemma_take_apart, plain_rule,
};
use crate::repeat_laws::{
    ends_outside, law_deleting_a_package_twice_finds_nothing, law_deleting_twice_finds_nothing,
    law_upserting_a_package_rule_twice_changes_nothing, law_upserting_twice_changes_nothing,
    lemma_value_fits,
};
use crate::rule_edit::{
    ascending, bare_open, block_added, deleted, found, lemma_block, lemma_doomed, lemma_locs,
    lemma_of_thread, lemma_pkg_upto, lemma_singles, loc_in, loc_removed, locs_removed, locs_upto,
    member_line, moved, moved_all, normalized, of_thread, open_rule_line, pkg_deleted, pkg_upto,
    place_at, purged, rule_line, singles, spliced, stay, stops_of, survivors, swapped, upserted,
    value_len, with_comment_of, within, Found, Loc, PkgAt, Place, RuleEdit,
};
use crate::rule_laws::{
    is_line, law_written_lines_are_read_back, lemma_cut_no_mark, lemma_member_tidy,
    lemma_outer_tidy, lemma_spec_chars, lemma_trim_sub, says, tidy,
};
use crate::text::{
    first_of, is_space, last_of, lemma_first_of, lemma_last_of, lemma_trim_end_prefix,
    lemma_trim_is_trimmed, lines_of, text_of, trim, trim_end, trim_start, without_cr,
};
use vstd::prelude::*;

verus! {

/// Whether no line break stands in `s`.
pub open spec fn unbroken(s: Seq<char>) -> bool {
    forall|i: int| 0 <= i < s.len() ==> (#[trigger] s[i]) != '\n'
}

/// Whether `s` comes back as it is when it is written on a line: no line break stands in it, and no
/// carriage return at its end.
pub open spec fn lasting(s: Seq<char>) -> bool {
    unbroken(s) && (s.len() > 0 ==> s.last() != '\r')
}

pub open spec fn all_lasting(lines: Seq<Seq<char>>) -> bool {
    forall|i: int| 0 <= i < lines.len() ==> lasting(#[trigger] lines[i])
}

proof fn lemma_part(s: Seq<char>, a: int, b: int)
    requires
        unbroken(s),
        0 <= a <= b <= s.len(),
    ensures
        unbroken(s.subrange(a, b)),
{
    let t = s.subrange(a, b);
    assert forall|i: int| 0 <= i < t.len() implies #[trigger] t[i] != '\n' by {
        assert(t[i] == s[a + i]);
    }
}

proof fn lemma_ends(s: Seq<char>, k: int)
    requires
        unbroken(s),
        0 <= k <= s.len(),
    ensures
        unbroken(s.take(k)),
        unbroken(s.skip(k)),
{
    lemma_part(s, 0, k);
    lemma_part(s, k, s.len() as int);
    assert(s.take(k) =~= s.subrange(0, k));
    assert(s.skip(k) =~= s.subrange(k, s.len() as int));
}

proof fn lemma_join(a: Seq<char>, b: Seq<char>)
    requires
        unbroken(a),
        unbroken(b),
    ensures
        unbroken(a + b),
{
    let t = a + b;
    assert forall|i: int| 0 <= i < t.len() implies #[trigger] t[i] != '\n' by {
        if i < a.len() {
            assert(t[i] == a[i]);
        } else {
            assert(t[i] == b[i - a.len()]);
        }
    }
}

proof fn lemma_trims(s: Seq<char>)
    requires
        unbroken(s),
    ensures
        unbroken(trim(s)),
        unbroken(trim_end(s)),
{
    let (a, b) = lemma_trim_sub(s);
    lemma_part(s, a, b);
    lemma_trim_end_prefix(s);
    lemma_ends(s, trim_end(s).len() as int);
}

proof fn lemma_literals()
    ensures
        unbroken("\t"@),
        unbroken("="@),
        unbroken(" {"@),
        unbroken("= {"@),
        lasting("}"@),
{
    reveal_strlit("\t");
    reveal_strlit("=");
    reveal_strlit(" {");
    reveal_strlit("= {");
    reveal_strlit("}");
}

proof fn lemma_spec_lasting(cpus: Seq<char>)
    requires
        like_spec(cpus),
    ensures
        lasting(cpus),
{
    lemma_spec_chars(cpus);
    assert forall|i: int| 0 <= i < cpus.len() implies #[trigger] cpus[i] != '\n' && cpus[i]
        != '\r' by {}
    assert(cpus[cpus.len() - 1] == cpus.last());
}

proof fn lemma_commented(fresh: Seq<char>, raw: Seq<char>)
    requires
        lasting(fresh),
        lasting(raw),
    ensures
        lasting(with_comment_of(fresh, raw)),
{
    let note = raw.skip(cut(raw));
    lemma_cut_no_mark(raw);
    lemma_ends(raw, cut(raw));
    lemma_join(fresh, note);
    if note.len() > 0 {
        assert((fresh + note).last() == raw.last());
    } else {
        assert(fresh + note =~= fresh);
    }
}

proof fn lemma_made(pkg: Seq<char>, thread: Seq<char>, cpus: Seq<char>)
    requires
        unbroken(pkg),
        unbroken(thread),
        lasting(cpus),
    ensures
        lasting(bare_open(pkg)),
        lasting(member_line(thread, cpus)),
        lasting(rule_line(pkg, cpus)),
        lasting(open_rule_line(pkg, cpus)),
{
    reveal_strlit("=");
    reveal_strlit(" {");
    reveal_strlit("= {");
    lemma_literals();
    lemma_join(pkg, "= {"@);
    lemma_join(pkg, " {"@);
    lemma_join("\t"@, thread);
    lemma_join("\t"@ + thread, "="@);
    lemma_join("\t"@ + thread + "="@, cpus);
    lemma_join(pkg, "="@);
    lemma_join(pkg + "="@, cpus);
    lemma_join(rule_line(pkg, cpus), " {"@);
}

proof fn lemma_stops_unbroken(s: Seq<char>)
    requires
        unbroken(s),
    ensures
        unbroken(stops_of(s)),
    decreases s.len(),
{
    if s.len() > 0 {
        let init = s.drop_last();
        lemma_ends(s, s.len() - 1);
        assert(init =~= s.take(s.len() - 1));
        lemma_stops_unbroken(init);
        assert(s[s.len() - 1] == s.last());
        let all = stops_of(s);
        assert forall|i: int| 0 <= i < all.len() implies #[trigger] all[i] != '\n' by {
            if i < stops_of(init).len() {
                assert(all[i] == stops_of(init)[i]);
            }
        }
    }
}

proof fn lemma_swapped_unbroken(raw: Seq<char>, cpus: Seq<char>)
    requires
        unbroken(raw),
        unbroken(cpus),
    ensures
        unbroken(swapped(raw, cpus)),
{
    let c = cut(raw);
    let head = raw.take(c);
    lemma_cut_no_mark(raw);
    lemma_ends(raw, c);
    lemma_last_of(head, '=');
    if let Some(eq) = last_of(head, '=') {
        let rhs = head.skip(eq + 1);
        lemma_ends(head, eq + 1);
        lemma_lead(rhs);
        let val = trim_start(rhs);
        let lead = rhs.len() - val.len();
        lemma_ends(rhs, lead);
        lemma_value_fits(val);
        lemma_ends(val, value_len(val));
        lemma_stops_unbroken(val.skip(value_len(val)));
        lemma_ends(raw, eq + 1 + lead);
        lemma_join(raw.take(eq + 1 + lead), cpus);
        lemma_join(raw.take(eq + 1 + lead) + cpus, stops_of(val.skip(value_len(val))));
        lemma_join(
            raw.take(eq + 1 + lead) + cpus + stops_of(val.skip(value_len(val))),
            raw.skip(c),
        );
    }
}

/// A rule whose value is set lasts as it did.
proof fn lemma_swapped_lasting(place: Place, raw: Seq<char>, cpus: Seq<char>)
    requires
        says(place, raw) is Some,
        lasting(raw),
        like_spec(cpus),
    ensures
        lasting(swapped(raw, cpus)),
{
    let p = trim(raw);
    lemma_outer_tidy(p);
    lemma_member_tidy(p);
    lemma_spec_lasting(cpus);
    lemma_swapped_unbroken(raw, cpus);
    let b = if place is Block {
        '}'
    } else {
        '{'
    };
    let (x, v, t, note) = lemma_take_apart(raw, b, cpus);
    let fresh = swapped(raw, cpus);
    if note.len() > 0 {
        assert(fresh.last() == note.last() && raw.last() == note.last());
    } else if t.len() > 0 {
        assert(fresh =~= x + cpus + t);
        assert(fresh.last() == t.last() && raw.last() == t.last());
    } else {
        assert(fresh =~= x + cpus);
        assert(fresh.last() == cpus.last());
    }
}

proof fn lemma_stripped_unbroken(p: Seq<char>, c: char)
    requires
        unbroken(p),
    ensures
        unbroken(stripped(p, c)),
{
    lemma_cut_no_mark(p);
    lemma_ends(p, cut(p));
    lemma_trims(p.take(cut(p)));
    let body = uncommented(p);
    if body.len() > 0 {
        lemma_ends(body, body.len() - 1);
        assert(body.drop_last() =~= body.take(body.len() - 1));
        lemma_trims(body.drop_last());
    }
}

proof fn lemma_moved_lasting(raw: Seq<char>)
    requires
        lasting(raw),
    ensures
        lasting(moved(raw)),
{
    let p = trim(raw);
    lemma_trims(raw);
    lemma_trim_is_trimmed(raw);
    assert(is_space('\r'));
    lemma_stripped_unbroken(p, '{');
    let core = stripped(p, '{');
    if let Some((owner, thread, cpus)) = single_parts(core) {
        lemma_last_of(core, '=');
        let eq = last_of(core, '=')->0;
        lemma_ends(core, eq);
        lemma_trims(core.take(eq));
        let name = trim(core.take(eq));
        lemma_last_of(name, '{');
        let b = last_of(name, '{')->0;
        assert(name[name.len() - 1] == '}');
        lemma_part(name, b + 1, name.len() - 1);
        lemma_trims(name.subrange(b + 1, name.len() - 1));
        lemma_spec_lasting(cpus);
        lemma_made(seq![], thread, cpus);
        lemma_commented(member_line(thread, cpus), p);
    }
}

// Whole files.

proof fn lemma_removed_lasting(lines: Seq<Seq<char>>, pkg: Seq<char>, locs: Seq<Loc>)
    requires
        unbroken(pkg),
        all_lasting(lines),
        ascending(locs),
        within(locs, lines.len() as int),
    ensures
        all_lasting(locs_removed(lines, pkg, locs)),
    decreases locs.len(),
{
    if locs.len() > 0 {
        let loc = locs.last();
        let init = locs.drop_last();
        let fewer = loc_removed(lines, pkg, loc);
        assert(loc == locs[locs.len() - 1]);
        lemma_literals();
        lemma_made(pkg, seq![], seq![]);
        lemma_commented(bare_open(pkg), lines[loc.idx]);
        lemma_commented("}"@, lines[loc.idx]);
        assert forall|i: int| 0 <= i < fewer.len() implies lasting(#[trigger] fewer[i]) by {
            if loc.open || loc.closed {
                assert(i != loc.idx ==> fewer[i] == lines[i]);
            } else if i < loc.idx {
                assert(fewer[i] == lines[i]);
            } else {
                assert(fewer[i] == lines[i + 1]);
            }
        }
        assert forall|k: int| 0 <= k < init.len() implies 0 <= (#[trigger] init[k]).idx
            < fewer.len() by {
            assert(init[k] == locs[k]);
        }
        assert(ascending(init)) by {
            assert forall|j: int, k: int| 0 <= j < k < init.len() implies (#[trigger] init[j]).idx
                < (#[trigger] init[k]).idx by {
                assert(init[j] == locs[j] && init[k] == locs[k]);
            }
        }
        lemma_removed_lasting(fewer, pkg, init);
    }
}

proof fn lemma_spliced_lasting(lines: Seq<Seq<char>>, at: int, items: Seq<Seq<char>>)
    requires
        all_lasting(lines),
        all_lasting(items),
        0 <= at <= lines.len(),
    ensures
        all_lasting(spliced(lines, at, items)),
{
    let r = spliced(lines, at, items);
    assert forall|i: int| 0 <= i < r.len() implies lasting(#[trigger] r[i]) by {
        if i < at {
            assert(r[i] == lines[i]);
        } else if i < at + items.len() {
            assert(r[i] == items[i - at]);
        } else {
            assert(r[i] == lines[i - items.len()]);
        }
    }
}

proof fn lemma_block_lasting(lines: Seq<Seq<char>>, i: int, items: Seq<Seq<char>>)
    requires
        all_lasting(lines),
        all_lasting(items),
        0 <= i < lines.len(),
    ensures
        all_lasting(block_added(lines, i, items)),
{
    reveal_strlit(" {");
    lemma_literals();
    lemma_trims(lines[i]);
    lemma_join(trim_end(lines[i]), " {"@);
    assert((trim_end(lines[i]) + " {"@).last() == '{');
    let set = lines.update(i, trim_end(lines[i]) + " {"@);
    assert(all_lasting(set)) by {
        assert forall|k: int| 0 <= k < set.len() implies lasting(#[trigger] set[k]) by {
            assert(k != i ==> set[k] == lines[k]);
        }
    }
    assert(all_lasting(items.push("}"@)));
    lemma_spliced_lasting(set, i + 1, items.push("}"@));
}

proof fn lemma_normalized_lasting(lines: Seq<Seq<char>>, pkg: Seq<char>)
    requires
        unbroken(pkg),
        all_lasting(lines),
    ensures
        all_lasting(normalized(lines, pkg)),
{
    let t = found(lines, pkg);
    let n = lines.len() as int;
    if !stay(t) {
        let locs = singles(t.threads);
        let items = moved_all(lines, locs);
        let rest = locs_removed(lines, pkg, locs);
        let m = rest.len() as int;
        lemma_locs(lines, pkg, n);
        lemma_singles(t.threads, n);
        lemma_removed_lasting(lines, pkg, locs);
        assert forall|k: int| 0 <= k < items.len() implies lasting(#[trigger] items[k]) by {
            assert(0 <= locs[k].idx < n);
            lemma_moved_lasting(lines[locs[k].idx]);
        }
        lemma_literals();
        lemma_made(pkg, seq![], seq![]);
        lemma_block(rest, pkg, m);
        lemma_pkg_upto(rest, pkg, m);
        match found(rest, pkg).block_close {
            Some(close) => {
                lemma_spliced_lasting(rest, close, items);
            },
            None => match found(rest, pkg).pkg_line {
                Some(PkgAt::Standalone(i)) => {
                    lemma_block_lasting(rest, i, items);
                },
                _ => {
                    let first = locs[0].idx;
                    let at = if first <= rest.len() {
                        first
                    } else {
                        m
                    };
                    let chunk = seq![bare_open(pkg)] + items.push("}"@);
                    assert(all_lasting(chunk)) by {
                        assert forall|k: int| 0 <= k < chunk.len() implies lasting(
                            #[trigger] chunk[k],
                        ) by {
                            if 0 < k && k < chunk.len() - 1 {
                                assert(chunk[k] == items[k - 1]);
                            }
                        }
                    }
                    lemma_spliced_lasting(rest, at, chunk);
                },
            },
        }
    }
}

proof fn lemma_update_lasting(lines: Seq<Seq<char>>, i: int, line: Seq<char>)
    requires
        0 <= i < lines.len(),
        all_lasting(lines),
        lasting(line),
    ensures
        all_lasting(lines.update(i, line)),
{
    let r = lines.update(i, line);
    assert forall|k: int| 0 <= k < r.len() implies lasting(#[trigger] r[k]) by {
        assert(k != i ==> r[k] == lines[k]);
    }
}

proof fn lemma_package_lasting(lines: Seq<Seq<char>>, pkg: Seq<char>, cpus: Seq<char>)
    requires
        unbroken(pkg),
        like_spec(cpus),
        all_lasting(lines),
    ensures
        upserted(lines, pkg, seq![], cpus) matches Ok(after) ==> all_lasting(after),
{
    let now = normalized(lines, pkg);
    let n = now.len() as int;
    let t = found(now, pkg);
    lemma_normalized_lasting(lines, pkg);
    lemma_pkg_upto(now, pkg, n);
    lemma_block(now, pkg, n);
    lemma_spec_lasting(cpus);
    lemma_made(pkg, seq![], cpus);
    match t.pkg_line {
        Some(PkgAt::Standalone(i)) => {
            lemma_swapped_lasting(place_at(now, i), now[i], cpus);
            lemma_update_lasting(now, i, swapped(now[i], cpus));
        },
        Some(PkgAt::OpenInline(i)) => {
            lemma_swapped_lasting(place_at(now, i), now[i], cpus);
            lemma_update_lasting(now, i, swapped(now[i], cpus));
        },
        Some(PkgAt::BareOpen(i)) => {
            lemma_commented(open_rule_line(pkg, cpus), now[i]);
            lemma_update_lasting(now, i, with_comment_of(open_rule_line(pkg, cpus), now[i]));
        },
        Some(PkgAt::BarePending(i)) => {
            let line = with_comment_of(open_rule_line(pkg, cpus), now[i]);
            lemma_commented(open_rule_line(pkg, cpus), now[i]);
            lemma_update_lasting(now, i, line);
            let named = now.update(i, line);
            if let Some(open) = t.block_open {
                let fewer = named.remove(open);
                assert forall|k: int| 0 <= k < fewer.len() implies lasting(#[trigger] fewer[k]) by {
                    if k < open {
                        assert(fewer[k] == named[k]);
                    } else {
                        assert(fewer[k] == named[k + 1]);
                    }
                }
            }
        },
        None => {},
    }
}

/// The last of some thread rules set, and the others taken away.
proof fn lemma_set_lasting(now: Seq<Seq<char>>, pkg: Seq<char>, locs: Seq<Loc>, cpus: Seq<char>)
    requires
        unbroken(pkg),
        like_spec(cpus),
        all_lasting(now),
        locs.len() > 0,
        ({
            let i = locs.last().idx;
            loc_in(place_at(now, i), now[i], pkg, i) == Some(locs.last())
        }),
        ascending(locs),
        within(locs, now.len() as int),
    ensures
        ({
            let idx = locs.last().idx;
            let set = now.update(idx, swapped(now[idx], cpus));
            all_lasting(locs_removed(set, pkg, locs.drop_last()))
        }),
{
    let idx = locs.last().idx;
    assert(locs.last() == locs[locs.len() - 1]);
    lemma_loc_says(place_at(now, idx), now[idx], pkg, locs.last().name, idx);
    lemma_swapped_lasting(place_at(now, idx), now[idx], cpus);
    lemma_update_lasting(now, idx, swapped(now[idx], cpus));
    let init = locs.drop_last();
    assert forall|k: int| 0 <= k < init.len() implies 0 <= (#[trigger] init[k]).idx
        < now.len() by {
        assert(init[k] == locs[k]);
    }
    assert(ascending(init)) by {
        assert forall|j: int, k: int| 0 <= j < k < init.len() implies (#[trigger] init[j]).idx < (
        #[trigger] init[k]).idx by {
            assert(init[j] == locs[j] && init[k] == locs[k]);
        }
    }
    lemma_removed_lasting(now.update(idx, swapped(now[idx], cpus)), pkg, init);
}

proof fn lemma_thread_lasting(
    lines: Seq<Seq<char>>,
    pkg: Seq<char>,
    thread: Seq<char>,
    cpus: Seq<char>,
)
    requires
        unbroken(pkg),
        unbroken(thread),
        like_spec(cpus),
        thread.len() > 0,
        all_lasting(lines),
    ensures
        upserted(lines, pkg, thread, cpus) matches Ok(after) ==> all_lasting(after),
{
    let now = normalized(lines, pkg);
    let n = now.len() as int;
    let t = found(now, pkg);
    let locs = of_thread(t.threads, thread);
    let items = seq![member_line(thread, cpus)];
    lemma_normalized_lasting(lines, pkg);
    lemma_pkg_upto(now, pkg, n);
    lemma_block(now, pkg, n);
    lemma_locs(now, pkg, n);
    lemma_of_thread(t.threads, thread, n);
    lemma_spec_lasting(cpus);
    lemma_made(pkg, thread, cpus);
    lemma_literals();
    if locs.len() > 0 {
        let k = locs.len() - 1;
        assert(t.threads.contains(locs[k]));
        let j = choose|j: int| 0 <= j < t.threads.len() && t.threads[j] == locs[k];
        assert(t.threads[j] == locs.last());
        lemma_set_lasting(now, pkg, locs, cpus);
    } else if let Some(close) = t.block_close {
        lemma_spliced_lasting(now, close, items);
    } else if let Some(PkgAt::Standalone(i)) = t.pkg_line {
        lemma_block_lasting(now, i, items);
    } else {
        let chunk = seq![bare_open(pkg), member_line(thread, cpus), "}"@];
        let after = now + chunk;
        assert forall|k: int| 0 <= k < after.len() implies lasting(#[trigger] after[k]) by {
            if k < n {
                assert(after[k] == now[k]);
            } else {
                assert(after[k] == chunk[k - n]);
            }
        }
    }
}

/// The lines of a text hold no line break.
proof fn lemma_lines_unbroken(text: Seq<char>)
    ensures
        forall|i: int|
            0 <= i < lines_of(text).len() ==> !(#[trigger] lines_of(text)[i]).contains('\n'),
    decreases text.len(),
{
    if text.len() > 0 {
        lemma_first_of(text, '\n');
        let i = first_of(text, '\n');
        if i < text.len() {
            let head = text.take(i);
            let rest = text.skip(i + 1);
            lemma_lines_unbroken(rest);
            let first = without_cr(head);
            assert forall|k: int| 0 <= k < first.len() implies #[trigger] first[k] != '\n' by {
                assert(first[k] == text[k]);
            }
            let all = lines_of(text);
            assert(all =~= seq![first] + lines_of(rest));
            assert forall|k: int| 0 <= k < all.len() implies !(#[trigger] all[k]).contains('\n') by {
                if k > 0 {
                    assert(all[k] == lines_of(rest)[k - 1]);
                }
            }
        } else {
            assert(lines_of(text) =~= seq![text]);
        }
    }
}

/// Whether no line of the text ends in a carriage return; the one before a line break is no part of
/// the line.
pub open spec fn plain_ends(text: Seq<char>) -> bool {
    forall|i: int|
        0 <= i < lines_of(text).len() && (#[trigger] lines_of(text)[i]).len() > 0 ==> lines_of(
            text,
        )[i].last() != '\r'
}

proof fn lemma_read_lasting(text: Seq<char>)
    requires
        plain_ends(text),
    ensures
        all_lasting(lines_of(text)),
{
    lemma_lines_unbroken(text);
    let all = lines_of(text);
    assert forall|i: int| 0 <= i < all.len() implies lasting(#[trigger] all[i]) by {
        let line = all[i];
        assert forall|k: int| 0 <= k < line.len() implies #[trigger] line[k] != '\n' by {
            assert(line.contains(line[k]));
        }
    }
}

proof fn lemma_written_lasting(lines: Seq<Seq<char>>)
    requires
        all_lasting(lines),
        lines.len() > 0,
    ensures
        lines_of(text_of(lines)) == lines,
{
    assert forall|i: int| 0 <= i < lines.len() implies is_line(#[trigger] lines[i]) by {
        let line = lines[i];
        assert(lasting(line));
        if line.len() > 0 {
            assert(line[line.len() - 1] == line.last());
        }
    }
    law_written_lines_are_read_back(lines);
}

/// Setting the rule of a thread again in the file that was written leaves the file as it is.
pub proof fn law_upserting_twice_writes_the_same_file(
    text: Seq<char>,
    pkg: Seq<char>,
    thread: Seq<char>,
    cpus: Seq<char>,
)
    requires
        tidy(pkg),
        tidy(thread),
        like_spec(cpus),
        unbroken(pkg),
        unbroken(thread),
        plain_ends(text),
        ({
            let lines = lines_of(text);
            let now = normalized(lines, pkg);
            &&& come_off(lines, pkg)
            &&& ends_outside(lines, pkg)
            &&& plain_rule(now, found(now, pkg))
        }),
    ensures
        upserted(lines_of(text), pkg, thread, cpus) matches Ok(after) ==> lines_of(text_of(after))
            == after && upserted(lines_of(text_of(after)), pkg, thread, cpus) == Ok::<
            Seq<Seq<char>>,
            RuleEdit,
        >(after),
{
    let lines = lines_of(text);
    lemma_read_lasting(text);
    lemma_thread_lasting(lines, pkg, thread, cpus);
    law_upserting_twice_changes_nothing(lines, pkg, thread, cpus);
    if let Ok(after) = upserted(lines, pkg, thread, cpus) {
        lemma_written_lasting(after);
    }
}

/// Setting the rule of a package again in the file that was written leaves the file as it is.
pub proof fn law_upserting_a_package_rule_twice_writes_the_same_file(
    text: Seq<char>,
    pkg: Seq<char>,
    cpus: Seq<char>,
)
    requires
        tidy(pkg),
        braced(pkg) is None,
        like_spec(cpus),
        unbroken(pkg),
        plain_ends(text),
        ({
            let lines = lines_of(text);
            let now = normalized(lines, pkg);
            &&& come_off(lines, pkg)
            &&& ends_outside(lines, pkg)
            &&& clean_braces(now, found(now, pkg))
        }),
    ensures
        upserted(lines_of(text), pkg, seq![], cpus) matches Ok(after) ==> lines_of(text_of(after))
            == after && upserted(lines_of(text_of(after)), pkg, seq![], cpus) == Ok::<
            Seq<Seq<char>>,
            RuleEdit,
        >(after),
{
    let lines = lines_of(text);
    lemma_read_lasting(text);
    lemma_package_lasting(lines, pkg, cpus);
    law_upserting_a_package_rule_twice_changes_nothing(lines, pkg, cpus);
    if let Ok(after) = upserted(lines, pkg, seq![], cpus) {
        lemma_written_lasting(after);
    }
}


/// A file that was written without lines says nothing of any package.
proof fn lemma_nothing_written(pkg: Seq<char>)
    ensures
        ({
            let read = lines_of(text_of(seq![]));
            &&& !found(read, pkg).any_line()
            &&& found(read, pkg).threads == Seq::<Loc>::empty()
            &&& normalized(read, pkg) == read
        }),
{
    let none = Seq::<char>::empty();
    let text = text_of(seq![]);
    let read = lines_of(text);
    assert(text =~= seq!['\n']);
    lemma_first_of(text, '\n');
    assert(first_of(text, '\n') == 0);
    assert(text.take(0) =~= none);
    assert(text.skip(1) =~= none);
    assert(lines_of(none) =~= seq![]);
    assert(read =~= seq![none]);
    assert(trim(none) =~= none) by {
        assert(trim_end(none) =~= none);
    }
    let locs = locs_upto(read, pkg, 1);
    assert(locs_upto(read, pkg, 0) =~= seq![]);
    assert(locs =~= seq![]);
    assert(singles(locs) =~= seq![]);
    assert(pkg_upto(read, pkg, 0) is None);
    assert(pkg_upto(read, pkg, 1) is None);
}

/// Removing the rule of a thread again from the file that was written finds none.
pub proof fn law_deleting_twice_finds_nothing_in_the_file(
    text: Seq<char>,
    pkg: Seq<char>,
    thread: Seq<char>,
)
    requires
        tidy(pkg),
        thread.len() > 0,
        unbroken(pkg),
        plain_ends(text),
        come_off(lines_of(text), pkg),
        ends_outside(lines_of(text), pkg),
    ensures
        deleted(lines_of(text), pkg, thread) matches Ok(after) ==> deleted(
            lines_of(text_of(after)),
            pkg,
            thread,
        ) == Err::<Seq<Seq<char>>, RuleEdit>(RuleEdit::NotFound),
{
    let lines = lines_of(text);
    let now = normalized(lines, pkg);
    let n = now.len() as int;
    let threads = found(now, pkg).threads;
    lemma_read_lasting(text);
    lemma_normalized_lasting(lines, pkg);
    lemma_locs(now, pkg, n);
    lemma_of_thread(threads, thread, n);
    lemma_removed_lasting(now, pkg, of_thread(threads, thread));
    law_deleting_twice_finds_nothing(lines, pkg, thread);
    if let Ok(after) = deleted(lines, pkg, thread) {
        if after.len() > 0 {
            lemma_written_lasting(after);
        } else {
            assert(after =~= seq![]);
            lemma_nothing_written(pkg);
        }
    }
}

proof fn lemma_survivors_lasting(lines: Seq<Seq<char>>, t: Found, n: int)
    requires
        all_lasting(lines),
        0 <= n <= lines.len(),
    ensures
        all_lasting(survivors(lines, t, n)),
    decreases n,
{
    if n > 0 {
        let fewer = survivors(lines, t, n - 1);
        let kept = survivors(lines, t, n);
        lemma_survivors_lasting(lines, t, n - 1);
        assert(lasting(lines[n - 1]));
        assert forall|i: int| 0 <= i < kept.len() implies lasting(#[trigger] kept[i]) by {
            if i < fewer.len() {
                assert(kept[i] == fewer[i]);
            }
        }
    }
}

proof fn lemma_purged_lasting(lines: Seq<Seq<char>>, pkg: Seq<char>)
    requires
        all_lasting(lines),
    ensures
        all_lasting(purged(lines, pkg)),
    decreases lines.len(),
{
    let t = found(lines, pkg);
    let n = lines.len() as int;
    if t.any_line() {
        lemma_doomed(lines, pkg);
        lemma_survivors_lasting(lines, t, n);
        lemma_purged_lasting(survivors(lines, t, n), pkg);
    }
}

/// Removing a package again from the file that was written finds nothing.
pub proof fn law_deleting_a_package_twice_finds_nothing_in_the_file(
    text: Seq<char>,
    pkg: Seq<char>,
)
    requires
        unbroken(pkg),
        plain_ends(text),
    ensures
        pkg_deleted(lines_of(text), pkg) matches Ok(after) ==> pkg_deleted(
            lines_of(text_of(after)),
            pkg,
        ) == Err::<Seq<Seq<char>>, RuleEdit>(RuleEdit::NotFound),
{
    let lines = lines_of(text);
    lemma_read_lasting(text);
    lemma_normalized_lasting(lines, pkg);
    lemma_purged_lasting(normalized(lines, pkg), pkg);
    law_deleting_a_package_twice_finds_nothing(lines, pkg);
    if let Ok(after) = pkg_deleted(lines, pkg) {
        if after.len() > 0 {
            lemma_written_lasting(after);
        } else {
            assert(after =~= seq![]);
            lemma_nothing_written(pkg);
        }
    }
}

} // verus!
