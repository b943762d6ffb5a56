//! How the lines of a rule file are read, in terms of the characters on them.

use crate::config::{
    braced, closes, cut, ends_in, lemma_cut_at, like_spec, mark_at, member, spec_char, stripped,
};
use crate::edit_laws::{all_space, brace_tail, lemma_framed, lemma_shape, value_head};
use crate::rule_edit::{blank, next, Place};
use crate::rule_laws::{is_note, lemma_no_mark_sub, lemma_trim_end_keeps, no_mark, says, tidy, Said};
use crate::text::{
    is_space, is_trimmed, last_of, lemma_last_of, lemma_last_of_at, lemma_trim_end_at,
    lemma_trim_end_prefix, lemma_trim_start_at, trim, trim_end, trim_start,
};
use crate::text_laws::law_trimming;
use vstd::prelude::*;

verus! {

/// A CPU specification is one or more digits, letters, hyphens and commas.
pub proof fn law_shape_of_a_specification(s: Seq<char>)
    ensures
        like_spec(s) <==> s.len() > 0 && forall|i: int|
            0 <= i < s.len() ==> 48 <= (#[trigger] s[i]) as int <= 57 || 65 <= s[i] as int <= 90
                || 97 <= s[i] as int <= 122 || s[i] as int == 45 || s[i] as int == 44,
{
    if like_spec(s) {
        assert forall|i: int| 0 <= i < s.len() implies 48 <= (#[trigger] s[i]) as int <= 57 || 65
            <= s[i] as int <= 90 || 97 <= s[i] as int <= 122 || s[i] as int == 45 || s[i] as int
            == 44 by {
            assert(spec_char(s[i]));
        }
    }
    if s.len() > 0 && forall|i: int|
        0 <= i < s.len() ==> 48 <= (#[trigger] s[i]) as int <= 57 || 65 <= s[i] as int <= 90 || 97
            <= s[i] as int <= 122 || s[i] as int == 45 || s[i] as int == 44 {
        assert forall|i: int| 0 <= i < s.len() implies spec_char(#[trigger] s[i]) by {}
    }
}

/// Whether a comment stands at the start of `s`.
pub open spec fn comment(s: Seq<char>) -> bool {
    s.len() > 0 && (s[0] == '#' || (s.len() > 1 && s[0] == '/' && s[1] == '/'))
}

/// A comment goes from a `#` or `//` to the end of the line.
pub proof fn law_comments_reach_the_end(a: Seq<char>, note: Seq<char>)
    requires
        forall|i: int| 0 <= i < a.len() ==> (#[trigger] a[i]) != '#' && a[i] != '/',
        comment(note),
    ensures
        cut(a + note) == a.len(),
        cut(a) == a.len(),
{
    let s = a + note;
    assert forall|i: int| 0 <= i < a.len() implies !#[trigger] mark_at(s, i) by {
        assert(s[i] == a[i]);
    }
    assert(s[a.len() as int] == note[0]);
    if note.len() > 1 {
        assert(s[(a.len() + 1) as int] == note[1]);
    }
    lemma_cut_at(s, a.len() as int);
    lemma_cut_at(a, a.len() as int);
}

/// A line of whitespace, with or without a comment, says nothing and changes nothing.
pub proof fn law_empty_lines_say_nothing(place: Place, lead: Seq<char>, note: Seq<char>)
    requires
        all_space(lead),
        note.len() == 0 || comment(note),
    ensures
        next(place, lead + note) == place,
        says(place, lead + note) is None,
{
    reveal_strlit("//");
    let raw = lead + note;
    let n = lead.len() as int;
    assert forall|i: int| 0 <= i < n implies is_space(#[trigger] raw[i]) by {
        assert(raw[i] == lead[i]);
    }
    if note.len() > 0 {
        assert(raw[n] == note[0]);
    }
    lemma_trim_start_at(raw, n);
    assert(raw.skip(n) =~= note);
    let p = trim(raw);
    if note.len() > 0 {
        let m: int = if note[0] == '#' {
            1
        } else {
            2
        };
        lemma_trim_end_keeps(note, m);
        lemma_trim_end_prefix(note);
        if m == 2 {
            assert(p.take(2) =~= "//"@);
        }
    } else {
        assert(p =~= seq![]);
    }
}

proof fn lemma_name_before(name: Seq<char>, gap: Seq<char>)
    requires
        is_trimmed(name),
        all_space(gap),
    ensures
        trim(name + gap) == name,
{
    let none = Seq::<char>::empty();
    assert(none + name + gap =~= name + gap);
    if name.len() > 0 {
        assert(name[name.len() - 1] == name.last());
    }
    law_trimming(none, name, gap);
}

/// The parts of a line `name = cpus`, with whitespace anywhere between them, a brace and a comment
/// behind.
#[verifier::rlimit(40)]
#[verifier::spinoff_prover]
pub proof fn lemma_line(
    lead: Seq<char>,
    name: Seq<char>,
    g: Seq<char>,
    h: Seq<char>,
    cpus: Seq<char>,
    t: Seq<char>,
    note: Seq<char>,
    b: char,
)
    requires
        all_space(lead),
        tidy(name),
        all_space(g),
        all_space(h),
        like_spec(cpus),
        brace_tail(t, b),
        b == '{' || b == '}',
        is_note(note),
    ensures
        ({
            let p = trim(lead + name + g + "="@ + h + cpus + t + note);
            let core = stripped(p, b);
            &&& !blank(p)
            &&& !closes(p)
            &&& ends_in(p, b) == (trim_end(t).len() > 0)
            &&& last_of(core, '=') matches Some(e) && trim(core.take(e)) == name && trim(
                core.skip(e + 1),
            ) == cpus
        }),
{
    reveal_strlit("=");
    let front = lead + name + g;
    let x = front + "="@ + h;
    let n = front.len() as int;
    assert(x[n] == '=');
    assert forall|i: int| n < i < x.len() implies #[trigger] x[i] != '=' by {
        assert(x[i] == h[i - n - 1]);
        assert(is_space(h[i - n - 1]));
    }
    lemma_last_of_at(x, '=', n);
    assert(x.skip(n + 1) =~= h);
    assert forall|i: int| 0 <= i < x.len() implies !#[trigger] mark_at(x, i) by {
        if i < lead.len() {
            assert(x[i] == lead[i]);
            assert(is_space(lead[i]));
        } else if i < lead.len() + name.len() {
            let k = i - lead.len();
            assert(x[i] == name[k]);
            assert(!mark_at(name, k));
            if k + 1 < name.len() {
                assert(x[i + 1] == name[k + 1]);
            } else if g.len() > 0 {
                assert(x[i + 1] == g[0]);
                assert(is_space(g[0]));
            } else {
                assert(x[i + 1] == '=');
            }
        } else if i < n {
            assert(x[i] == g[i - lead.len() - name.len()]);
            assert(is_space(g[i - lead.len() - name.len()]));
        } else if i > n {
            assert(x[i] == h[i - n - 1]);
            assert(is_space(h[i - n - 1]));
        }
    }
    assert(value_head(x));
    lemma_shape(x, cpus, t, note, b);
    assert(lead + name + g + "="@ + h + cpus + t + note =~= x + cpus + t + note);
    let k = lead.len() as int;
    assert forall|i: int| 0 <= i < k implies is_space(#[trigger] x[i]) by {
        assert(x[i] == lead[i]);
    }
    assert(x[k] == name[0]);
    lemma_trim_start_at(x, k);
    let e = n - k;
    assert(trim_start(x).take(e) =~= name + g);
    lemma_name_before(name, g);
}

/// Where the comment of a line `name = cpus` begins.
pub proof fn lemma_line_cut(
    name: Seq<char>,
    g: Seq<char>,
    h: Seq<char>,
    cpus: Seq<char>,
    s: Seq<char>,
    note: Seq<char>,
)
    requires
        tidy(name),
        all_space(g),
        all_space(h),
        like_spec(cpus),
        all_space(s),
        is_note(note),
    ensures
        cut(name + g + "="@ + h + cpus + s + note) == (name + g + "="@ + h + cpus + s).len(),
{
    reveal_strlit("=");
    let front = name + g;
    let x = front + "="@ + h;
    let n = front.len() as int;
    assert(x[n] == '=');
    assert forall|i: int| n < i < x.len() implies #[trigger] x[i] != '=' by {
        assert(x[i] == h[i - n - 1]);
        assert(is_space(h[i - n - 1]));
    }
    lemma_last_of_at(x, '=', n);
    assert(x.skip(n + 1) =~= h);
    assert forall|i: int| 0 <= i < x.len() implies !#[trigger] mark_at(x, i) by {
        if i < name.len() {
            assert(x[i] == name[i]);
            assert(!mark_at(name, i));
            if i + 1 < name.len() {
                assert(x[i + 1] == name[i + 1]);
            } else if g.len() > 0 {
                assert(x[i + 1] == g[0]);
                assert(is_space(g[0]));
            } else {
                assert(x[i + 1] == '=');
            }
        } else if i < n {
            assert(x[i] == g[i - name.len()]);
            assert(is_space(g[i - name.len()]));
        } else if i > n {
            assert(x[i] == h[i - n - 1]);
            assert(is_space(h[i - n - 1]));
        }
    }
    assert(value_head(x));
    lemma_tails(s, Seq::<char>::empty(), '{');
    lemma_shape(x, cpus, s, note, '{');
}

/// What stands behind the CPUs on a line: whitespace, and a brace where there is one.
pub proof fn lemma_tails(s: Seq<char>, u: Seq<char>, b: char)
    requires
        all_space(s),
        all_space(u),
        b == '{' || b == '}',
    ensures
        brace_tail(s, b),
        trim_end(s).len() == 0,
        brace_tail(s.push(b) + u, b),
        trim_end(s.push(b) + u).len() > 0,
{
    lemma_trim_end_at(s, 0);
    let t = s.push(b) + u;
    let n = s.len() as int;
    assert(t[n] == b);
    assert forall|i: int| n + 1 <= i < t.len() implies is_space(#[trigger] t[i]) by {
        assert(t[i] == u[i - n - 1]);
    }
    lemma_trim_end_at(t, n + 1);
    assert(t.take(n + 1) =~= s.push(b));
}

/// Outside a block, a line `pkg = cpus` is a rule of the package, with whitespace anywhere between
/// its parts and a comment behind it. With a `{` behind the CPUs, the block of the package begins.
pub proof fn law_package_rules_are_read(
    place: Place,
    lead: Seq<char>,
    pkg: Seq<char>,
    g: Seq<char>,
    h: Seq<char>,
    cpus: Seq<char>,
    s: Seq<char>,
    u: Seq<char>,
    note: Seq<char>,
)
    requires
        !(place is Block),
        all_space(lead),
        tidy(pkg),
        braced(pkg) is None,
        all_space(g),
        all_space(h),
        like_spec(cpus),
        all_space(s),
        all_space(u),
        is_note(note),
    ensures
        ({
            let raw = lead + pkg + g + "="@ + h + cpus + s + note;
            &&& says(place, raw) == Some(Said { pkg, thread: seq![], cpus })
            &&& next(place, raw) is Top
        }),
        ({
            let raw = lead + pkg + g + "="@ + h + cpus + (s + "{"@ + u) + note;
            &&& says(place, raw) == Some(Said { pkg, thread: seq![], cpus })
            &&& next(place, raw) == Place::Block(pkg)
        }),
{
    reveal_strlit("{");
    lemma_tails(s, u, '{');
    assert(s + "{"@ + u =~= s.push('{') + u);
    lemma_line(lead, pkg, g, h, cpus, s, note, '{');
    lemma_line(lead, pkg, g, h, cpus, s.push('{') + u, note, '{');
}

/// Outside a block, a line `pkg{thread} = cpus` is a rule of the thread, with whitespace anywhere
/// between its parts and a comment behind it. With a `{` behind the CPUs, the block of the package
/// begins.
#[verifier::rlimit(40)]
#[verifier::spinoff_prover]
pub proof fn law_thread_rules_are_read(
    place: Place,
    lead: Seq<char>,
    pkg: Seq<char>,
    i: Seq<char>,
    j: Seq<char>,
    thread: Seq<char>,
    k: Seq<char>,
    g: Seq<char>,
    h: Seq<char>,
    cpus: Seq<char>,
    s: Seq<char>,
    u: Seq<char>,
    note: Seq<char>,
)
    requires
        !(place is Block),
        all_space(lead),
        tidy(pkg),
        tidy(thread),
        !thread.contains('{'),
        all_space(i),
        all_space(j),
        all_space(k),
        no_mark(pkg + i + "{"@ + j + thread + k + "}"@),
        all_space(g),
        all_space(h),
        like_spec(cpus),
        all_space(s),
        all_space(u),
        is_note(note),
    ensures
        ({
            let name = pkg + i + "{"@ + j + thread + k + "}"@;
            let raw = lead + name + g + "="@ + h + cpus + s + note;
            &&& says(place, raw) == Some(Said { pkg, thread, cpus })
            &&& next(place, raw) is Top
        }),
        ({
            let name = pkg + i + "{"@ + j + thread + k + "}"@;
            let raw = lead + name + g + "="@ + h + cpus + (s + "{"@ + u) + note;
            &&& says(place, raw) == Some(Said { pkg, thread, cpus })
            &&& next(place, raw) == Place::Block(pkg)
        }),
{
    reveal_strlit("{");
    reveal_strlit("}");
    let a = pkg + i;
    let t = j + thread + k;
    let name = pkg + i + "{"@ + j + thread + k + "}"@;
    assert(name =~= a + "{"@ + t + "}"@);
    assert(!t.contains('{')) by {
        if t.contains('{') {
            let x = choose|x: int| 0 <= x < t.len() && t[x] == '{';
            if x < j.len() {
                assert(is_space(j[x]));
            } else if x < j.len() + thread.len() {
                assert(thread[x - j.len()] == '{');
            } else {
                assert(is_space(k[x - j.len() - thread.len()]));
            }
        }
    }
    law_names_with_a_thread(a, t);
    lemma_name_before(pkg, i);
    assert(thread[thread.len() - 1] == thread.last());
    law_trimming(j, thread, k);
    assert(name[0] == pkg[0]);
    assert(name.last() == '}');
    assert(!is_space('}'));
    assert(tidy(name));
    lemma_tails(s, u, '{');
    assert(s + "{"@ + u =~= s.push('{') + u);
    lemma_line(lead, name, g, h, cpus, s, note, '{');
    lemma_line(lead, name, g, h, cpus, s.push('{') + u, note, '{');
}

/// A name `a{t}` is taken apart at its last `{`; only a name that ends with `}` and holds a `{` is.
pub proof fn law_names_with_a_thread(a: Seq<char>, t: Seq<char>)
    requires
        !t.contains('{'),
    ensures
        braced(a + "{"@ + t + "}"@) == Some((trim(a), trim(t))),
        a.len() > 0 && a.last() != '}' ==> braced(a) is None,
        braced(t) is None,
{
    reveal_strlit("{");
    reveal_strlit("}");
    let s = a + "{"@ + t + "}"@;
    let b = a.len() as int;
    assert(s.last() == '}');
    assert(s[b] == '{');
    assert forall|i: int| b < i < s.len() implies #[trigger] s[i] != '{' by {
        if i < s.len() - 1 {
            assert(s[i] == t[i - b - 1]);
        }
    }
    lemma_last_of_at(s, '{', b);
    assert(s.take(b) =~= a);
    assert(s.subrange(b + 1, s.len() - 1) =~= t);
    lemma_last_of(t, '{');
}

/// Inside a block, a line `thread = cpus` is a rule of the thread, with whitespace anywhere between
/// its parts and a comment behind it. With a `}` behind the CPUs, the block ends.
pub proof fn law_rules_in_a_block_are_read(
    owner: Seq<char>,
    lead: Seq<char>,
    thread: Seq<char>,
    g: Seq<char>,
    h: Seq<char>,
    cpus: Seq<char>,
    s: Seq<char>,
    u: Seq<char>,
    note: Seq<char>,
)
    requires
        all_space(lead),
        tidy(thread),
        all_space(g),
        all_space(h),
        like_spec(cpus),
        all_space(s),
        all_space(u),
        is_note(note),
    ensures
        ({
            let raw = lead + thread + g + "="@ + h + cpus + s + note;
            &&& says(Place::Block(owner), raw) == Some(Said { pkg: owner, thread, cpus })
            &&& next(Place::Block(owner), raw) == Place::Block(owner)
        }),
        ({
            let raw = lead + thread + g + "="@ + h + cpus + (s + "}"@ + u) + note;
            &&& says(Place::Block(owner), raw) == Some(Said { pkg: owner, thread, cpus })
            &&& next(Place::Block(owner), raw) is Top
        }),
{
    reveal_strlit("}");
    lemma_tails(s, u, '}');
    assert(s + "}"@ + u =~= s.push('}') + u);
    lemma_line(lead, thread, g, h, cpus, s, note, '}');
    lemma_line(lead, thread, g, h, cpus, s.push('}') + u, note, '}');
}

/// A `}` alone ends a block; a `{` alone begins the block of the name before it; a name alone waits
/// for one, and begins its block at once with a `{` behind it. None of them states a rule.
#[verifier::rlimit(40)]
#[verifier::spinoff_prover]
pub proof fn law_names_and_braces_are_read(
    place: Place,
    owner: Seq<char>,
    lead: Seq<char>,
    name: Seq<char>,
    g: Seq<char>,
    s: Seq<char>,
    note: Seq<char>,
)
    requires
        !(place is Block),
        all_space(lead),
        tidy(name),
        !name.contains('='),
        name.last() != '{',
        name.last() != '/',
        name != seq!['}'],
        all_space(g),
        all_space(s),
        is_note(note),
    ensures
        ({
            let raw = lead + "}"@ + s + note;
            &&& next(Place::Block(owner), raw) is Top
            &&& says(Place::Block(owner), raw) is None
            &&& next(place, raw) is Top
            &&& says(place, raw) is None
        }),
        ({
            let raw = lead + "{"@ + s + note;
            &&& next(Place::Named(name), raw) == Place::Block(name)
            &&& next(Place::Top, raw) is Top
            &&& says(place, raw) is None
        }),
        ({
            let raw = lead + name + s + note;
            &&& next(place, raw) == Place::Named(name)
            &&& says(place, raw) is None
        }),
        ({
            let raw = lead + (name + g + "{"@) + s + note;
            &&& next(place, raw) == Place::Block(name)
            &&& says(place, raw) is None
        }),
{
    reveal_strlit("{");
    reveal_strlit("}");
    let (shut, brace) = ("}"@, "{"@);
    let none = Seq::<char>::empty();
    assert(shut =~= seq!['}']);
    assert(brace =~= seq!['{']);
    lemma_framed(lead, shut, s, note);
    lemma_framed(lead, brace, s, note);
    lemma_framed(lead, name, s, note);
    lemma_last_of(name, '=');
    lemma_last_of(none, '=');
    assert(brace.drop_last() =~= none);
    assert(trim_end(none) =~= none);
    let front = name + g;
    let body = name + g + brace;
    let n = name.len() as int;
    assert(body.drop_last() =~= front);
    assert(body[0] == name[0]);
    assert forall|i: int| 0 <= i < body.len() implies !#[trigger] mark_at(body, i) by {
        if i < n {
            assert(body[i] == name[i]);
            assert(!mark_at(name, i));
            if i + 1 < n {
                assert(body[i + 1] == name[i + 1]);
            } else {
                assert(body[i] == name.last());
            }
        } else if i < n + g.len() {
            assert(body[i] == g[i - n]);
            assert(is_space(g[i - n]));
        }
    }
    assert(name[n - 1] == name.last());
    assert forall|i: int| n <= i < front.len() implies is_space(#[trigger] front[i]) by {
        assert(front[i] == g[i - n]);
    }
    assert(front[n - 1] == name.last());
    lemma_trim_end_at(front, n);
    assert(front.take(n) =~= name);
    lemma_framed(lead, body, s, note);
    assert(body.len() > 1);
}

/// A line inside a block without a `=` states no rule; it ends the block exactly if a `}` stands on
/// it, and be it in the comment.
pub proof fn law_other_lines_in_a_block(
    owner: Seq<char>,
    lead: Seq<char>,
    body: Seq<char>,
    s: Seq<char>,
    note: Seq<char>,
)
    requires
        all_space(lead),
        tidy(body),
        !body.contains('='),
        body.last() != '/',
        all_space(s),
        is_note(note),
    ensures
        ({
            let raw = lead + body + s + note;
            &&& says(Place::Block(owner), raw) is None
            &&& next(Place::Block(owner), raw) == if trim(raw).contains('}') {
                Place::Top
            } else {
                Place::Block(owner)
            }
        }),
{
    let p = trim(lead + body + s + note);
    lemma_framed(lead, body, s, note);
    let core = stripped(p, '}');
    let short = body.drop_last();
    lemma_trim_end_prefix(short);
    assert(!core.contains('=')) by {
        if core.contains('=') {
            let i = choose|i: int| 0 <= i < core.len() && core[i] == '=';
            assert(body[i] == '=');
        }
    }
    lemma_last_of(core, '=');
    assert(member(p) is None);
    if closes(p) {
        assert(body[0] == '}');
        lemma_trim_holds(lead, body, s, note);
    }
}

/// Trimming keeps what is no whitespace.
proof fn lemma_trim_holds(lead: Seq<char>, body: Seq<char>, s: Seq<char>, note: Seq<char>)
    requires
        all_space(lead),
        tidy(body),
        all_space(s),
        is_note(note),
        body.last() != '/',
    ensures
        trim(lead + body + s + note).contains(body[0]),
{
    let raw = lead + body + s + note;
    let n = lead.len() as int;
    assert forall|i: int| 0 <= i < n implies is_space(#[trigger] raw[i]) by {
        assert(raw[i] == lead[i]);
    }
    assert(raw[n] == body[0]);
    lemma_trim_start_at(raw, n);
    let t = raw.skip(n);
    assert(t[0] == body[0]);
    lemma_trim_end_keeps(t, 1);
    lemma_trim_end_prefix(t);
    assert(trim(raw)[0] == body[0]);
}

proof fn lemma_equation(name: Seq<char>, g: Seq<char>, rest: Seq<char>)
    requires
        tidy(name),
        all_space(g),
        !rest.contains('='),
    ensures
        last_of(name + g + "="@ + rest, '=') == Some((name + g).len() as int),
        trim((name + g + "="@ + rest).take((name + g).len() as int)) == name,
        (name + g + "="@ + rest).skip((name + g).len() as int + 1) == rest,
{
    reveal_strlit("=");
    let front = name + g;
    let n = front.len() as int;
    let x = front + "="@ + rest;
    assert(x[n] == '=');
    assert forall|i: int| n < i < x.len() implies #[trigger] x[i] != '=' by {
        assert(x[i] == rest[i - n - 1]);
    }
    lemma_last_of_at(x, '=', n);
    assert(x.take(n) =~= front);
    assert(x.skip(n + 1) =~= rest);
    lemma_name_before(name, g);
}

/// A line whose value has not the shape of a CPU specification states no rule; outside of a block it
/// leads to nothing, and inside of one it leaves the block as any other line does.
pub proof fn law_values_of_another_shape(
    place: Place,
    owner: Seq<char>,
    lead: Seq<char>,
    name: Seq<char>,
    g: Seq<char>,
    h: Seq<char>,
    value: Seq<char>,
    s: Seq<char>,
    note: Seq<char>,
)
    requires
        !(place is Block),
        all_space(lead),
        tidy(name),
        all_space(g),
        all_space(h),
        tidy(value),
        !like_spec(value),
        !value.contains('='),
        value.last() != '{',
        value.last() != '}',
        value.last() != '/',
        no_mark(name + g + "="@ + (h + value)),
        all_space(s),
        is_note(note),
    ensures
        ({
            let raw = lead + (name + g + "="@ + (h + value)) + s + note;
            &&& says(place, raw) is None
            &&& next(place, raw) is Top
            &&& says(Place::Block(owner), raw) is None
            &&& next(Place::Block(owner), raw) == if trim(raw).contains('}') {
                Place::Top
            } else {
                Place::Block(owner)
            }
        }),
{
    reveal_strlit("=");
    let rest = h + value;
    let body = name + g + "="@ + rest;
    let none = Seq::<char>::empty();
    let p = trim(lead + body + s + note);
    assert(!rest.contains('=')) by {
        if rest.contains('=') {
            let i = choose|i: int| 0 <= i < rest.len() && rest[i] == '=';
            if i < h.len() {
                assert(is_space(h[i]));
            } else {
                assert(value[i - h.len()] == '=');
            }
        }
    }
    assert(body[0] == name[0]);
    assert(value[value.len() - 1] == value.last());
    assert(body.last() == value.last());
    assert(tidy(body));
    lemma_framed(lead, body, s, note);
    lemma_equation(name, g, rest);
    law_trimming(h, value, none);
    assert(h + value + none =~= rest);
    assert(body.len() > 1);
    assert(!ends_in(p, '{') && !ends_in(p, '}'));
    assert(stripped(p, '{') == body && stripped(p, '}') == body);
}

/// A name with a `=` behind it and no value is a name alone: it waits for a `{`, or begins its block
/// with one.
pub proof fn law_names_without_a_value(
    place: Place,
    lead: Seq<char>,
    name: Seq<char>,
    g: Seq<char>,
    h: Seq<char>,
    s: Seq<char>,
    note: Seq<char>,
)
    requires
        !(place is Block),
        all_space(lead),
        tidy(name),
        no_mark(name + g + "="@ + h + "{"@),
        all_space(g),
        all_space(h),
        all_space(s),
        is_note(note),
    ensures
        ({
            let raw = lead + (name + g + "="@) + s + note;
            &&& says(place, raw) is None
            &&& next(place, raw) == Place::Named(name)
        }),
        ({
            let raw = lead + (name + g + "="@ + h + "{"@) + s + note;
            &&& says(place, raw) is None
            &&& next(place, raw) == Place::Block(name)
        }),
{
    reveal_strlit("=");
    reveal_strlit("{");
    let none = Seq::<char>::empty();
    let core = name + g + "="@;
    let front = core + h;
    let body = front + "{"@;
    let n = core.len() as int;
    assert(core + none =~= core);
    assert(body =~= name + g + "="@ + h + "{"@);
    lemma_equation(name, g, none);
    assert(core.last() == '=');
    assert(core[0] == name[0] && body[0] == name[0]);
    assert(body.last() == '{');
    assert(core =~= body.subrange(0, n));
    lemma_no_mark_sub(body, 0, n);
    lemma_framed(lead, core, s, note);
    lemma_framed(lead, body, s, note);
    assert(body.drop_last() =~= front);
    assert forall|i: int| n <= i < front.len() implies is_space(#[trigger] front[i]) by {
        assert(front[i] == h[i - n]);
    }
    assert(front[n - 1] == '=');
    lemma_trim_end_at(front, n);
    assert(front.take(n) =~= core);
    assert(trim(none) =~= none) by {
        assert(trim_end(none) =~= none);
    }
    assert(core.len() > 1 && body.len() > 1);
}

/// A value without a name before it states nothing.
pub proof fn law_values_without_a_name(
    place: Place,
    owner: Seq<char>,
    lead: Seq<char>,
    h: Seq<char>,
    cpus: Seq<char>,
    s: Seq<char>,
    note: Seq<char>,
)
    requires
        !(place is Block),
        all_space(lead),
        all_space(h),
        like_spec(cpus),
        all_space(s),
        is_note(note),
    ensures
        ({
            let raw = lead + ("="@ + h + cpus) + s + note;
            &&& says(place, raw) is None
            &&& next(place, raw) is Top
            &&& says(Place::Block(owner), raw) is None
            &&& next(Place::Block(owner), raw) == Place::Block(owner)
        }),
{
    reveal_strlit("=");
    let none = Seq::<char>::empty();
    let body = "="@ + h + cpus;
    let p = trim(lead + body + s + note);
    let x = lead + "="@ + h;
    let n = lead.len() as int;
    assert(x[n] == '=');
    assert forall|i: int| n < i < x.len() implies #[trigger] x[i] != '=' by {
        assert(x[i] == h[i - n - 1]);
        assert(is_space(h[i - n - 1]));
    }
    lemma_last_of_at(x, '=', n);
    assert(x.skip(n + 1) =~= h);
    assert forall|i: int| 0 <= i < x.len() implies !#[trigger] mark_at(x, i) by {
        if i < n {
            assert(x[i] == lead[i]);
            assert(is_space(lead[i]));
        } else if i > n {
            assert(x[i] == h[i - n - 1]);
            assert(is_space(h[i - n - 1]));
        }
    }
    assert(value_head(x));
    lemma_tails(s, none, '{');
    lemma_tails(s, none, '}');
    assert(lead + body + s + note =~= x + cpus + s + note);
    lemma_shape(x, cpus, s, note, '{');
    lemma_shape(x, cpus, s, note, '}');
    assert forall|i: int| 0 <= i < n implies is_space(#[trigger] x[i]) by {
        assert(x[i] == lead[i]);
    }
    lemma_trim_start_at(x, n);
    assert(trim_start(x).take(0) =~= none);
    assert(trim(none) =~= none) by {
        assert(trim_end(none) =~= none);
    }
}

} // verus!
