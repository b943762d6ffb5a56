//! What the edits of the rule file do to the rules that the file states.

use crate::config::{
    braced, closes, cut, ends_in, lemma_cut, lemma_cut_at, like_spec, mark_at, member, outer,
    single_parts, spec_char, stripped, uncommented, Outer,
};
use crate::rule_edit::{
    bare_open, blank, clone_base, clone_chunk, clone_rules, cloned, found, lemma_doomed,
    lemma_pkg_upto, loc_in, locs_upto, member_line, member_lines, next, normalized, open_rule_line,
    pkg_deleted, pkg_idx, place_at, purged, reach, rename_ends, rename_round, rename_rounds,
    renamed, rule_line, spaced, survivors, thread_specs, Cloned, Place,
};
use crate::text::{
    begins, is_space, is_trimmed, joined, last_of, lemma_first_of_at, lemma_last_of,
    lemma_last_of_at, lemma_trim_end_prefix, lemma_trim_is_trimmed, lemma_trimmed_fixed, lines_of,
    text_of, trim, trim_end, trim_start,
};
use vstd::prelude::*;

verus! {

/// A rule that the file states: for a package, or for one of its threads.
pub struct Said {
    pub pkg: Seq<char>,
    pub thread: Seq<char>,
    pub cpus: Seq<char>,
}

/// The rule that the line `raw` states when it is read at `place`; the thread of a package rule is
/// empty.
pub open spec fn says(place: Place, raw: Seq<char>) -> Option<Said> {
    let p = trim(raw);
    if blank(p) {
        None
    } else {
        match place {
            Place::Block(owner) => match member(p) {
                Some((name, cpus, _)) => if !closes(p) && name.len() > 0 {
                    Some(Said { pkg: owner, thread: name, cpus })
                } else {
                    None
                },
                None => None,
            },
            _ => match outer(p) {
                Outer::Single { pkg, thread, cpus, .. } => if thread.len() > 0 {
                    Some(Said { pkg, thread, cpus })
                } else {
                    None
                },
                Outer::Rule { pkg, cpus, .. } => Some(Said { pkg, thread: seq![], cpus }),
                _ => None,
            },
        }
    }
}

/// The rules that `lines` state, read from `start`.
pub open spec fn rules_from(start: Place, lines: Seq<Seq<char>>) -> Seq<Said>
    decreases lines.len(),
{
    if lines.len() == 0 {
        seq![]
    } else {
        match says(reach(start, lines.drop_last()), lines.last()) {
            Some(rule) => rules_from(start, lines.drop_last()).push(rule),
            None => rules_from(start, lines.drop_last()),
        }
    }
}

/// The rules that a file states, in the order of its lines.
pub open spec fn rules_of(lines: Seq<Seq<char>>) -> Seq<Said> {
    rules_from(Place::Top, lines)
}

/// Reading two parts one after the other is reading the whole.
pub proof fn lemma_concat(start: Place, a: Seq<Seq<char>>, b: Seq<Seq<char>>)
    ensures
        reach(start, a + b) == reach(reach(start, a), b),
        rules_from(start, a + b) == rules_from(start, a) + rules_from(reach(start, a), b),
    decreases b.len(),
{
    if b.len() == 0 {
        assert(a + b =~= a);
        assert(rules_from(start, a) + rules_from(reach(start, a), b) =~= rules_from(start, a));
    } else {
        let c = b.drop_last();
        lemma_concat(start, a, c);
        assert((a + b).drop_last() =~= a + c);
        assert((a + b).last() == b.last());
        assert(rules_from(start, a) + rules_from(reach(start, a), b) =~= rules_from(start, a + b));
    }
}

pub proof fn lemma_one(start: Place, raw: Seq<char>)
    ensures
        reach(start, seq![raw]) == next(start, raw),
        rules_from(start, seq![raw]) == match says(start, raw) {
            Some(rule) => seq![rule],
            None => seq![],
        },
{
    let one = seq![raw];
    assert(one.drop_last() =~= seq![]);
    assert(reach(start, one.drop_last()) == start);
    assert(rules_from(start, one.drop_last()) =~= seq![]);
    assert(rules_from(start, one) =~= match says(start, raw) {
        Some(rule) => seq![rule],
        None => seq![],
    });
}

/// The rules of a file are those of its lines, one by one: a line adds the rule that it states where
/// it stands, if it states one, and leads from one place to the next.
pub proof fn law_rules_are_read_line_by_line(lines: Seq<Seq<char>>, raw: Seq<char>)
    ensures
        rules_of(seq![]) == Seq::<Said>::empty(),
        place_at(seq![], 0) is Top,
        ({
            let n = lines.len() as int;
            let place = place_at(lines, n);
            &&& rules_of(lines.push(raw)) == match says(place, raw) {
                Some(rule) => rules_of(lines).push(rule),
                None => rules_of(lines),
            }
            &&& place_at(lines.push(raw), n + 1) == next(place, raw)
            &&& place_at(lines.push(raw), n) == place
        }),
{
    let n = lines.len() as int;
    let all = lines.push(raw);
    assert(all.drop_last() =~= lines);
    assert(lines.take(n) =~= lines);
    assert(all.take(n + 1) =~= all);
    assert(all.take(n) =~= lines);
    assert(rules_of(seq![]) =~= seq![]);
    assert(Seq::<Seq<char>>::empty().take(0) =~= seq![]);
}

// Text without comment marks.

pub open spec fn no_mark(s: Seq<char>) -> bool {
    forall|i: int| 0 <= i < s.len() ==> !#[trigger] mark_at(s, i)
}

/// Whether `s` can be a name in the file: not empty, without whitespace around it, without the
/// mark of a comment.
pub open spec fn tidy(s: Seq<char>) -> bool {
    s.len() > 0 && is_trimmed(s) && no_mark(s)
}

/// Whether `s` is empty or a comment.
pub open spec fn is_note(s: Seq<char>) -> bool {
    s.len() == 0 || mark_at(s, 0)
}

pub proof fn lemma_no_mark_sub(s: Seq<char>, a: int, b: int)
    requires
        no_mark(s),
        0 <= a <= b <= s.len(),
    ensures
        no_mark(s.subrange(a, b)),
{
    let t = s.subrange(a, b);
    assert forall|i: int| 0 <= i < t.len() implies !#[trigger] mark_at(t, i) by {
        assert(!mark_at(s, a + i));
    }
}

pub proof fn lemma_cut_no_mark(s: Seq<char>)
    ensures
        no_mark(s.take(cut(s))),
        is_note(s.skip(cut(s))),
        0 <= cut(s) <= s.len(),
{
    lemma_cut(s);
    let t = s.take(cut(s));
    assert forall|i: int| 0 <= i < t.len() implies !#[trigger] mark_at(t, i) by {
        assert(!mark_at(s, i));
    }
    if cut(s) < s.len() {
        assert(mark_at(s.skip(cut(s)), 0));
    }
}

/// Trimming takes a part out of the middle.
pub proof fn lemma_trim_sub(s: Seq<char>) -> (r: (int, int))
    ensures
        0 <= r.0 <= r.1 <= s.len(),
        trim(s) == s.subrange(r.0, r.1),
    decreases s.len(),
{
    if s.len() > 0 && is_space(s[0]) {
        let t = s.drop_first();
        let (a, b) = lemma_trim_sub(t);
        assert(t.subrange(a, b) =~= s.subrange(a + 1, b + 1));
        (a + 1, b + 1)
    } else {
        lemma_trim_end_prefix(s);
        let n = trim_end(s).len() as int;
        assert(s.take(n) =~= s.subrange(0, n));
        (0, n)
    }
}

/// Text that ends neither in whitespace nor in `/`, with a comment behind it.
pub proof fn lemma_noted(body: Seq<char>, note: Seq<char>)
    requires
        body.len() > 0,
        no_mark(body),
        is_trimmed(body),
        body.last() != '/',
        is_note(note),
    ensures
        trim(body + note) == body + trim_end(note),
        is_note(trim_end(note)),
        cut(body + note) == body.len(),
        uncommented(body + note) == body,
        uncommented(trim(body + note)) == body,
        (body + note).skip(body.len() as int) == note,
        !blank(trim(body + note)),
{
    reveal_strlit("//");
    let s = body + note;
    let n = body.len() as int;
    assert forall|i: int| 0 <= i < n implies !#[trigger] mark_at(s, i) by {
        assert(!mark_at(body, i));
    }
    if note.len() > 0 {
        assert(mark_at(s, n)) by {
            assert(mark_at(note, 0));
            assert(s[n] == note[0]);
            if note.len() > 1 {
                assert(s[n + 1] == note[1]);
            }
        }
    }
    lemma_cut_at(s, n);
    assert(s.take(n) =~= body);
    assert(s.skip(n) =~= note);
    assert(body[n - 1] == body.last());
    lemma_trimmed_fixed(body);
    // trimming
    assert(s[0] == body[0]);
    assert(trim_start(s) == s);
    lemma_trim_end_prefix(note);
    let k = trim_end(note).len() as int;
    let t = body + trim_end(note);
    lemma_trim_end_note(note);
    assert(trim_end(s) == t) by {
        lemma_trim_end_tail(body, note);
    }
    // the trimmed line
    assert forall|i: int| 0 <= i < n implies !#[trigger] mark_at(t, i) by {
        assert(!mark_at(body, i));
    }
    if k > 0 {
        assert(mark_at(t, n)) by {
            assert(mark_at(trim_end(note), 0));
            assert(t[n] == trim_end(note)[0]);
            if k > 1 {
                assert(t[n + 1] == trim_end(note)[1]);
            }
        }
    }
    lemma_cut_at(t, n);
    assert(t.take(n) =~= body);
    assert(!mark_at(body, 0));
    assert(t[0] == body[0]);
    if begins(t, "//"@) {
        assert(t.take(2)[0] == '/' && t.take(2)[1] == '/');
        assert(mark_at(t, 0));
    }
}

proof fn lemma_trim_end_note(note: Seq<char>)
    requires
        is_note(note),
    ensures
        is_note(trim_end(note)),
{
    lemma_trim_end_prefix(note);
    let k = trim_end(note).len() as int;
    if note.len() > 0 {
        assert(mark_at(note, 0));
        // neither character of the mark is whitespace
        if note[0] == '#' {
            lemma_trim_end_keeps(note, 1);
            assert(trim_end(note)[0] == note[0]);
        } else {
            lemma_trim_end_keeps(note, 2);
            assert(trim_end(note)[0] == note[0]);
            assert(trim_end(note)[1] == note[1]);
        }
        assert(mark_at(trim_end(note), 0));
    }
}

/// Trimming the end keeps everything up to a character that is no whitespace.
pub proof fn lemma_trim_end_keeps(s: Seq<char>, n: int)
    requires
        0 < n <= s.len(),
        !is_space(s[n - 1]),
    ensures
        n <= trim_end(s).len() <= s.len(),
    decreases s.len(),
{
    if s.len() > n && is_space(s.last()) {
        lemma_trim_end_keeps(s.drop_last(), n);
    }
}

/// Trimming the end of a text behind a body that ends in no whitespace.
pub proof fn lemma_trim_end_tail(body: Seq<char>, tail: Seq<char>)
    requires
        body.len() > 0,
        !is_space(body.last()),
    ensures
        trim_end(body + tail) == body + trim_end(tail),
    decreases tail.len(),
{
    let s = body + tail;
    if tail.len() == 0 {
        assert(s =~= body);
        assert(body + trim_end(tail) =~= body);
    } else {
        assert(s.last() == tail.last());
        if is_space(tail.last()) {
            assert(s.drop_last() =~= body + tail.drop_last());
            lemma_trim_end_tail(body, tail.drop_last());
        }
    }
}

/// A specification holds no whitespace, brace, `=`, `/` or `#`.
pub proof fn lemma_spec_chars(s: Seq<char>)
    requires
        like_spec(s),
    ensures
        is_trimmed(s),
        no_mark(s),
        !s.contains('='),
        !s.contains('{'),
        !s.contains('}'),
        s.last() != '/' && s.last() != '{' && s.last() != '}',
        forall|i: int|
            0 <= i < s.len() ==> !is_space(#[trigger] s[i]) && s[i] != '=' && s[i] != '{' && s[i]
                != '}' && s[i] != '/' && s[i] != '#',
{
    assert forall|i: int| 0 <= i < s.len() implies !is_space(#[trigger] s[i]) && s[i] != '=' && s[i]
        != '{' && s[i] != '}' && s[i] != '/' && s[i] != '#' by {
        assert(spec_char(s[i]));
    }
    assert forall|i: int| 0 <= i < s.len() implies !#[trigger] mark_at(s, i) by {
        assert(spec_char(s[i]));
    }
    assert(s[s.len() - 1] == s.last());
}

/// `name=cpus` without its comment.
pub proof fn lemma_assignment(name: Seq<char>, cpus: Seq<char>)
    requires
        tidy(name),
        like_spec(cpus),
    ensures
        no_mark(rule_line(name, cpus)),
        is_trimmed(rule_line(name, cpus)),
        rule_line(name, cpus).len() == name.len() + 1 + cpus.len(),
        rule_line(name, cpus).last() == cpus.last(),
        rule_line(name, cpus)[0] == name[0],
        last_of(rule_line(name, cpus), '=') == Some(name.len() as int),
        rule_line(name, cpus).take(name.len() as int) == name,
        rule_line(name, cpus).skip(name.len() as int + 1) == cpus,
        trim(name) == name,
        trim(cpus) == cpus,
{
    reveal_strlit("=");
    lemma_spec_chars(cpus);
    let s = rule_line(name, cpus);
    let n = name.len() as int;
    assert("="@ =~= seq!['=']);
    assert(s.len() == n + 1 + cpus.len());
    assert(s[n] == '=');
    assert forall|i: int| n < i < s.len() implies #[trigger] s[i] == cpus[i - n - 1] by {}
    assert forall|i: int| 0 <= i < n implies #[trigger] s[i] == name[i] by {}
    assert(s.take(n) =~= name);
    assert(s.skip(n + 1) =~= cpus);
    assert(s.last() == s[s.len() - 1]);
    assert forall|i: int| n < i < s.len() implies #[trigger] s[i] != '=' by {
        assert(s[i] == cpus[i - n - 1]);
    }
    lemma_last_of_at(s, '=', n);
    assert forall|i: int| 0 <= i < s.len() implies !#[trigger] mark_at(s, i) by {
        if i < n {
            assert(!mark_at(name, i));
            if i + 1 == n {
                assert(s[i + 1] == '=');
            } else {
                assert(s[i + 1] == name[i + 1]);
            }
        } else if i > n {
            assert(s[i] == cpus[i - n - 1]);
        }
    }
    lemma_trimmed_fixed(name);
    lemma_trimmed_fixed(cpus);
}

/// A rule inside a block is read as it was written, with any comment behind it.
pub proof fn lemma_member_line(thread: Seq<char>, cpus: Seq<char>, note: Seq<char>, owner: Seq<char>)
    requires
        tidy(thread),
        like_spec(cpus),
        is_note(note),
    ensures
        next(Place::Block(owner), member_line(thread, cpus) + note) == Place::Block(owner),
        says(Place::Block(owner), member_line(thread, cpus) + note) == Some(
            Said { pkg: owner, thread, cpus },
        ),
{
    reveal_strlit("\t");
    let body = rule_line(thread, cpus);
    let raw = member_line(thread, cpus) + note;
    lemma_assignment(thread, cpus);
    lemma_spec_chars(cpus);
    lemma_noted(body, note);
    assert("\t"@ =~= seq!['\t']);
    assert(raw =~= seq!['\t'] + (body + note));
    assert(raw.drop_first() =~= body + note);
    assert(is_space('\t'));
    assert(trim_start(raw) == trim_start(body + note));
    let p = trim(raw);
    assert(p == trim(body + note));
    assert(uncommented(p) == body);
    assert(!closes(p)) by {
        assert(body.len() > 1);
    }
    assert(!ends_in(p, '}'));
    assert(stripped(p, '}') == body);
    assert(member(p) == Some((thread, cpus, false)));
}

/// A package rule is read as it was written, with any comment behind it.
pub proof fn lemma_rule_line(pkg: Seq<char>, cpus: Seq<char>, note: Seq<char>)
    requires
        tidy(pkg),
        braced(pkg) is None,
        like_spec(cpus),
        is_note(note),
    ensures
        !blank(trim(rule_line(pkg, cpus) + note)),
        outer(trim(rule_line(pkg, cpus) + note)) == (Outer::Rule { pkg, cpus, open: false }),
{
    let body = rule_line(pkg, cpus);
    lemma_assignment(pkg, cpus);
    lemma_spec_chars(cpus);
    lemma_noted(body, note);
    let p = trim(body + note);
    assert(!closes(p)) by {
        assert(body.len() > 1);
    }
    assert(stripped(p, '{') == body);
}

/// A package rule that opens a block is read as it was written.
pub proof fn lemma_open_rule_line(pkg: Seq<char>, cpus: Seq<char>, note: Seq<char>)
    requires
        tidy(pkg),
        braced(pkg) is None,
        like_spec(cpus),
        is_note(note),
    ensures
        !blank(trim(open_rule_line(pkg, cpus) + note)),
        outer(trim(open_rule_line(pkg, cpus) + note)) == (Outer::Rule { pkg, cpus, open: true }),
{
    let core = rule_line(pkg, cpus);
    lemma_assignment(pkg, cpus);
    lemma_spec_chars(cpus);
    lemma_opening(core, note);
    let p = trim(open_rule_line(pkg, cpus) + note);
    assert(stripped(p, '{') == core);
}

/// A line that ends in ` {`, without its comment.
pub proof fn lemma_opening(core: Seq<char>, note: Seq<char>)
    requires
        tidy(core),
        is_note(note),
    ensures
        !blank(trim(core + " {"@ + note)),
        ends_in(trim(core + " {"@ + note), '{'),
        stripped(trim(core + " {"@ + note), '{') == core,
        !closes(trim(core + " {"@ + note)),
{
    reveal_strlit(" {");
    let body = core + " {"@;
    let n = core.len() as int;
    assert(" {"@ =~= seq![' ', '{']);
    assert(body.len() == n + 2);
    assert(body[n] == ' ');
    assert(body[n + 1] == '{');
    assert(body.last() == '{');
    assert(body[0] == core[0]);
    assert forall|i: int| 0 <= i < body.len() implies !#[trigger] mark_at(body, i) by {
        if i < n {
            assert(!mark_at(core, i));
        }
    }
    lemma_noted(body, note);
    let p = trim(body + note);
    assert(uncommented(p) == body);
    assert(body.drop_last() =~= core + seq![' ']);
    assert(core[n - 1] == core.last());
    lemma_trim_end_tail(core, seq![' ']);
    assert(trim_end(seq![' ']) =~= seq![]) by {
        assert(seq![' '].drop_last() =~= seq![]);
        assert(is_space(' '));
        assert(trim_end(seq![' '].drop_last()) =~= seq![]);
    }
    assert(core + trim_end(seq![' ']) =~= core);
    assert(!closes(p));
}

/// The line that opens a block of a package is read as it was written.
pub proof fn lemma_bare_open(pkg: Seq<char>, note: Seq<char>)
    requires
        tidy(pkg),
        is_note(note),
    ensures
        !blank(trim(bare_open(pkg) + note)),
        outer(trim(bare_open(pkg) + note)) == (Outer::BareOpen { pkg }),
{
    reveal_strlit("= {");
    reveal_strlit(" {");
    lemma_last_of(pkg, '=');
    if pkg.contains('=') {
        let core = pkg.push('=');
        let n = pkg.len() as int;
        assert(bare_open(pkg) =~= core + " {"@);
        assert forall|i: int| 0 <= i < core.len() implies !#[trigger] mark_at(core, i) by {
            if i < n {
                assert(!mark_at(pkg, i));
            }
        }
        assert(core[0] == pkg[0]);
        lemma_opening(core, note);
        lemma_last_of_at(core, '=', n);
        assert(core.take(n) =~= pkg);
        lemma_trimmed_fixed(pkg);
        assert(core.skip(n + 1) =~= seq![]);
        assert(trim(core.skip(n + 1)).len() == 0);
    } else {
        lemma_opening(pkg, note);
    }
}

/// A `}` alone closes the block, with any comment behind it.
pub proof fn lemma_close_line(note: Seq<char>, owner: Seq<char>)
    requires
        is_note(note),
    ensures
        next(Place::Block(owner), "}"@ + note) == Place::Top,
        says(Place::Block(owner), "}"@ + note) is None,
{
    reveal_strlit("}");
    let body = "}"@;
    assert(body =~= seq!['}']);
    lemma_noted(body, note);
}

/// The parts of a line inside a block are tidy.
pub proof fn lemma_member_tidy(p: Seq<char>)
    ensures
        member(p) matches Some((name, cpus, _)) ==> no_mark(name) && is_trimmed(name) && like_spec(
            cpus,
        ),
{
    if member(p) is Some {
        lemma_stripped_no_mark(p, '}');
        let core = stripped(p, '}');
        lemma_last_of(core, '=');
        let eq = last_of(core, '=')->0;
        lemma_trim_no_mark(core, 0, eq);
        assert(core.take(eq) =~= core.subrange(0, eq));
    }
}

/// The parts of a line outside a block are tidy.
pub proof fn lemma_outer_tidy(p: Seq<char>)
    ensures
        match outer(p) {
            Outer::Single { pkg, thread, cpus, .. } => tidy(pkg) && no_mark(thread) && is_trimmed(
                thread,
            ) && like_spec(cpus) && single_parts(stripped(p, '{')) == Some((pkg, thread, cpus)),
            Outer::Rule { pkg, cpus, .. } => tidy(pkg) && like_spec(cpus) && braced(pkg) is None,
            _ => true,
        },
{
    lemma_stripped_no_mark(p, '{');
    let core = stripped(p, '{');
    lemma_last_of(core, '=');
    match last_of(core, '=') {
        Some(eq) => {
            lemma_trim_no_mark(core, 0, eq);
            assert(core.take(eq) =~= core.subrange(0, eq));
            let lhs = trim(core.take(eq));
            lemma_last_of(lhs, '{');
            match last_of(lhs, '{') {
                Some(b) => {
                    lemma_trim_no_mark(lhs, 0, b);
                    assert(lhs.take(b) =~= lhs.subrange(0, b));
                    if lhs.last() == '}' {
                        assert(lhs[lhs.len() - 1] == '}');
                        lemma_trim_no_mark(lhs, b + 1, lhs.len() - 1);
                    }
                },
                None => {},
            }
        },
        None => {},
    }
}

proof fn lemma_stripped_no_mark(p: Seq<char>, c: char)
    ensures
        no_mark(stripped(p, c)),
        no_mark(uncommented(p)),
{
    lemma_cut_no_mark(p);
    let head = p.take(cut(p));
    lemma_trim_end_prefix(head);
    let n = trim_end(head).len() as int;
    lemma_no_mark_sub(head, 0, n);
    assert(head.take(n) =~= head.subrange(0, n));
    let body = uncommented(p);
    if body.len() > 0 {
        let short = body.drop_last();
        lemma_no_mark_sub(body, 0, body.len() - 1);
        assert(short =~= body.subrange(0, body.len() - 1));
        lemma_trim_end_prefix(short);
        let m = trim_end(short).len() as int;
        lemma_no_mark_sub(short, 0, m);
        assert(short.take(m) =~= short.subrange(0, m));
    }
}

proof fn lemma_trim_no_mark(s: Seq<char>, a: int, b: int)
    requires
        no_mark(s),
        0 <= a <= b <= s.len(),
    ensures
        no_mark(trim(s.subrange(a, b))),
        is_trimmed(trim(s.subrange(a, b))),
{
    lemma_no_mark_sub(s, a, b);
    let t = s.subrange(a, b);
    let (x, y) = lemma_trim_sub(t);
    lemma_no_mark_sub(t, x, y);
    lemma_trim_is_trimmed(t);
}

/// Every thread rule found has a tidy name and a specification.
pub proof fn lemma_found_threads(lines: Seq<Seq<char>>, pkg: Seq<char>, n: int)
    requires
        0 <= n <= lines.len(),
    ensures
        forall|k: int|
            0 <= k < thread_specs(lines, locs_upto(lines, pkg, n)).len() ==> tidy(
                (#[trigger] thread_specs(lines, locs_upto(lines, pkg, n))[k]).0,
            ) && like_spec(thread_specs(lines, locs_upto(lines, pkg, n))[k].1),
    decreases n,
{
    if n > 0 {
        lemma_found_threads(lines, pkg, n - 1);
        let p = trim(lines[n - 1]);
        lemma_member_tidy(p);
        lemma_outer_tidy(p);
        match loc_in(place_at(lines, n - 1), lines[n - 1], pkg, n - 1) {
            Some(loc) => {
                let locs = locs_upto(lines, pkg, n);
                assert(locs.drop_last() =~= locs_upto(lines, pkg, n - 1));
                assert(locs.last() == loc);
                let now = thread_specs(lines, locs);
                let before = thread_specs(lines, locs.drop_last());
                assert forall|k: int| 0 <= k < now.len() implies tidy((#[trigger] now[k]).0)
                    && like_spec(now[k].1) by {
                    if k < before.len() {
                        assert(now[k] == before[k]);
                    }
                }
            },
            None => {},
        }
    }
}

/// The thread rules among `rules` of one package.
pub open spec fn threads_of(rules: Seq<Said>, pkg: Seq<char>) -> Seq<(Seq<char>, Seq<char>)>
    decreases rules.len(),
{
    if rules.len() == 0 {
        seq![]
    } else if rules.last().pkg == pkg && rules.last().thread.len() > 0 {
        threads_of(rules.drop_last(), pkg).push((rules.last().thread, rules.last().cpus))
    } else {
        threads_of(rules.drop_last(), pkg)
    }
}

/// A scan for a package finds exactly the thread rules that the file states for it.
pub proof fn law_scan_finds_thread_rules(lines: Seq<Seq<char>>, pkg: Seq<char>)
    ensures
        thread_specs(lines, found(lines, pkg).threads) == threads_of(rules_of(lines), pkg),
{
    lemma_scan_threads(lines, pkg, lines.len() as int);
    assert(lines.take(lines.len() as int) =~= lines);
}

proof fn lemma_scan_threads(lines: Seq<Seq<char>>, pkg: Seq<char>, n: int)
    requires
        0 <= n <= lines.len(),
    ensures
        thread_specs(lines, locs_upto(lines, pkg, n)) == threads_of(rules_of(lines.take(n)), pkg),
    decreases n,
{
    if n == 0 {
        assert(rules_of(lines.take(0)) =~= seq![]);
    } else {
        lemma_scan_threads(lines, pkg, n - 1);
        let head = lines.take(n);
        assert(head.drop_last() =~= lines.take(n - 1));
        assert(head.last() == lines[n - 1]);
        let place = place_at(lines, n - 1);
        let p = trim(lines[n - 1]);
        lemma_outer_tidy(p);
        match loc_in(place, lines[n - 1], pkg, n - 1) {
            Some(loc) => {
                let locs = locs_upto(lines, pkg, n);
                assert(locs.drop_last() =~= locs_upto(lines, pkg, n - 1));
                assert(locs.last() == loc);
            },
            None => {},
        }
        match says(place, lines[n - 1]) {
            Some(rule) => {
                let rules = rules_of(head);
                assert(rules.drop_last() =~= rules_of(lines.take(n - 1)));
                assert(rules.last() == rule);
            },
            None => {},
        }
    }
}

/// The rules that cloning adds for `target`.
pub open spec fn copies(target: Seq<char>, rules: Cloned) -> Seq<Said> {
    (match rules.package {
        Some(cpus) => seq![Said { pkg: target, thread: seq![], cpus }],
        None => seq![],
    }) + Seq::new(
        rules.threads.len(),
        |i: int| Said { pkg: target, thread: rules.threads[i].0, cpus: rules.threads[i].1 },
    )
}

proof fn lemma_member_lines(owner: Seq<char>, threads: Seq<(Seq<char>, Seq<char>)>)
    requires
        forall|k: int|
            0 <= k < threads.len() ==> tidy((#[trigger] threads[k]).0) && like_spec(threads[k].1),
    ensures
        reach(Place::Block(owner), member_lines(threads)) == Place::Block(owner),
        rules_from(Place::Block(owner), member_lines(threads)) == copies(
            owner,
            Cloned { package: None, threads },
        ),
    decreases threads.len(),
{
    let all = member_lines(threads);
    let want = copies(owner, Cloned { package: None, threads });
    if threads.len() == 0 {
        assert(all =~= seq![]);
        assert(want =~= seq![]);
    } else {
        let init = threads.drop_last();
        assert forall|k: int| 0 <= k < init.len() implies tidy((#[trigger] init[k]).0) && like_spec(
            init[k].1,
        ) by {
            assert(init[k] == threads[k]);
        }
        lemma_member_lines(owner, init);
        assert(all.drop_last() =~= member_lines(init));
        let (thread, cpus) = threads.last();
        assert(threads[threads.len() - 1] == threads.last());
        let raw = member_line(thread, cpus);
        assert(all.last() == raw);
        lemma_member_line(thread, cpus, seq![], owner);
        assert(raw + seq![] =~= raw);
        assert(want =~= copies(owner, Cloned { package: None, threads: init }).push(
            Said { pkg: owner, thread, cpus },
        ));
    }
}

/// Cloning leaves every rule of the file as it is, and adds for the target exactly the selected
/// rules of the source, in their order.
pub proof fn law_clone_adds_copies(
    lines: Seq<Seq<char>>,
    source: Seq<char>,
    target: Seq<char>,
    copy_package: bool,
    copy_threads: bool,
)
    requires
        tidy(target),
        braced(target) is None,
        cloned(lines, source, target, copy_package, copy_threads) is Ok,
    ensures
        ({
            let base = clone_base(lines, source, target);
            let rules = clone_rules(base, source, target, copy_package, copy_threads)->Ok_0;
            &&& rules_of(cloned(lines, source, target, copy_package, copy_threads)->Ok_0)
                == rules_of(base) + copies(target, rules)
            &&& rules.threads == if copy_threads {
                threads_of(rules_of(base), source)
            } else {
                seq![]
            }
        }),
{
    reveal_strlit("}");
    let base = clone_base(lines, source, target);
    let rules = clone_rules(base, source, target, copy_package, copy_threads)->Ok_0;
    let chunk = clone_chunk(target, rules);
    let n = base.len() as int;
    law_scan_finds_thread_rules(base, source);
    lemma_found_threads(base, source, n);
    lemma_pkg_upto(base, source, n);
    // the blank line
    let whole = spaced(base);
    assert(base.take(n) =~= base);
    if whole != base {
        let empty: Seq<char> = seq![];
        assert(trim(empty) =~= seq![]);
        assert(whole.drop_last() =~= base);
        assert(blank(trim(whole.last())));
    }
    let start = reach(Place::Top, whole);
    assert(start == reach(Place::Top, base));
    assert(rules_of(whole) == rules_of(base));
    assert(!(start is Block));
    // the clone
    match rules.package {
        Some(cpus) => {
            let i = pkg_idx(found(base, source).pkg_line->0);
            lemma_outer_tidy(trim(base[i]));
            assert(like_spec(cpus));
            lemma_rule_line(target, cpus, seq![]);
            lemma_open_rule_line(target, cpus, seq![]);
            assert(rule_line(target, cpus) + seq![] =~= rule_line(target, cpus));
            assert(open_rule_line(target, cpus) + seq![] =~= open_rule_line(target, cpus));
        },
        None => {
            lemma_bare_open(target, seq![]);
            assert(bare_open(target) + seq![] =~= bare_open(target));
        },
    }
    if rules.threads.len() == 0 {
        match rules.package {
            Some(cpus) => {
                lemma_one(start, rule_line(target, cpus));
            },
            None => {},
        }
        assert(rules_from(start, chunk) =~= copies(target, rules));
    } else {
        let head = chunk[0];
        let inner = member_lines(rules.threads);
        lemma_one(start, head);
        lemma_member_lines(target, rules.threads);
        lemma_close_line(seq![], target);
        assert("}"@ + seq![] =~= "}"@);
        lemma_one(Place::Block(target), "}"@);
        assert(chunk =~= seq![head] + (inner + seq!["}"@]));
        lemma_concat(start, seq![head], inner + seq!["}"@]);
        lemma_concat(Place::Block(target), inner, seq!["}"@]);
        assert(rules_from(start, chunk) =~= copies(target, rules));
    }
    lemma_concat(Place::Top, whole, chunk);
}

/// Removing a package leaves no line that names it.
pub proof fn law_deleted_package_is_gone(lines: Seq<Seq<char>>, pkg: Seq<char>)
    ensures
        pkg_deleted(lines, pkg) matches Ok(after) ==> !found(after, pkg).any_line(),
{
    lemma_purged(normalized(lines, pkg), pkg);
}

proof fn lemma_purged(lines: Seq<Seq<char>>, pkg: Seq<char>)
    ensures
        !found(purged(lines, pkg), pkg).any_line(),
    decreases lines.len(),
{
    let t = found(lines, pkg);
    if t.any_line() {
        lemma_doomed(lines, pkg);
        lemma_purged(survivors(lines, t, lines.len() as int), pkg);
    }
}

/// Renaming a package leaves no line that names it by the old name.
pub proof fn law_renamed_package_is_gone(
    lines: Seq<Seq<char>>,
    old_name: Seq<char>,
    name: Seq<char>,
)
    requires
        rename_ends(lines, old_name, name),
    ensures
        renamed(lines, old_name, name) matches Ok(after) ==> !found(after, old_name).any_line(),
{
    if renamed(lines, old_name, name) is Ok {
        let now = normalized(lines, old_name);
        let k = choose|k: nat| (#[trigger] rename_rounds(now, old_name, name, k)) is Some;
        lemma_rename_rounds(now, old_name, name, k);
    }
}

proof fn lemma_rename_rounds(
    lines: Seq<Seq<char>>,
    old_name: Seq<char>,
    name: Seq<char>,
    k: nat,
)
    ensures
        rename_rounds(lines, old_name, name, k) matches Some(after) ==> !found(
            after,
            old_name,
        ).any_line(),
    decreases k,
{
    if found(lines, old_name).any_line() && k > 0 {
        lemma_rename_rounds(rename_round(lines, old_name, name), old_name, name, (k - 1) as nat);
    }
}

/// Whether `s` can stand on a line of its own and be read back: it holds no line break, and no
/// carriage return at its end.
pub open spec fn is_line(s: Seq<char>) -> bool {
    !s.contains('\n') && (s.len() > 0 ==> s.last() != '\r')
}

/// The text written for some lines is read back as those lines.
pub proof fn law_written_lines_are_read_back(lines: Seq<Seq<char>>)
    requires
        lines.len() > 0,
        forall|i: int| 0 <= i < lines.len() ==> is_line(#[trigger] lines[i]),
    ensures
        lines_of(text_of(lines)) == lines,
    decreases lines.len(),
{
    let first = lines[0];
    assert(is_line(lines[0]));
    if lines.len() == 1 {
        let rest: Seq<char> = seq![];
        assert(text_of(lines) =~= first.push('\n') + rest);
        lemma_first_line(first, rest);
        assert(lines =~= seq![first]);
        assert(seq![first] + lines_of(rest) =~= lines);
    } else {
        let tail = lines.drop_first();
        assert forall|i: int| 0 <= i < tail.len() implies is_line(#[trigger] tail[i]) by {
            assert(tail[i] == lines[i + 1]);
        }
        law_written_lines_are_read_back(tail);
        lemma_joined_front(lines);
        assert(text_of(lines) =~= first.push('\n') + text_of(tail));
        lemma_first_line(first, text_of(tail));
        assert(lines =~= seq![first] + tail);
    }
}

proof fn lemma_first_line(first: Seq<char>, rest: Seq<char>)
    requires
        is_line(first),
    ensures
        lines_of(first.push('\n') + rest) == seq![first] + lines_of(rest),
{
    let s = first.push('\n') + rest;
    let n = first.len() as int;
    assert(s[n] == '\n');
    assert forall|i: int| 0 <= i < n implies #[trigger] s[i] != '\n' by {
        assert(s[i] == first[i]);
    }
    lemma_first_of_at(s, '\n', n);
    assert(s.take(n) =~= first);
    assert(s.skip(n + 1) =~= rest);
}

proof fn lemma_joined_front(lines: Seq<Seq<char>>)
    requires
        lines.len() > 1,
    ensures
        joined(lines) == lines[0].push('\n') + joined(lines.drop_first()),
    decreases lines.len(),
{
    let tail = lines.drop_first();
    if lines.len() == 2 {
        assert(lines.drop_last() =~= seq![lines[0]]);
        assert(tail =~= seq![lines[1]]);
        assert(joined(lines.drop_last()) == lines[0]);
        assert(joined(tail) == lines.last());
    } else {
        let init = lines.drop_last();
        lemma_joined_front(init);
        assert(init.drop_first() =~= tail.drop_last());
        assert(tail.last() == lines.last());
        assert(joined(lines) =~= lines[0].push('\n') + joined(tail));
    }
}

} // verus!
