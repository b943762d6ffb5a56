//! What renaming a package does to the rules that the file states.

use crate::config::{
    braced, closes, cut, ends_in, lemma_cut, lemma_cut_at, mark_at, outer, stripped, uncommented,
    Outer,
};
use crate::edit_laws::{
    all_space, lemma_lead, lemma_trail, lemma_trim_all_space, lemma_trim_start_lead,
};
use crate::repeat_laws::{heads, lemma_line_named, lemma_none_before, single_of};
use crate::rule_edit::{
    bare_open, blank, found, lemma_locs, lemma_names_pkg, lemma_pkg_upto, lemma_place_step,
    lemma_singles, line_renamed, loc_in, names_pkg, next, normalized, owned, pkg_idx, place_at,
    rename_ends, rename_ends_soon, rename_limit, rename_round, rename_rounds, renamed, singles,
    Place,
};
use crate::rule_laws::{
    lemma_bare_open, lemma_cut_no_mark, lemma_no_mark_sub, lemma_trim_end_tail, rules_of, says,
    tidy, Said,
};
use crate::text::{
    begins, is_space, is_trimmed, last_of, lemma_last_of, lemma_last_of_at, lemma_trim_is_trimmed,
    lemma_trimmed_fixed, trim, trim_end, trim_start,
};
use vstd::prelude::*;

verus! {

/// Whether `name` can be the name of a package with a rule of its own.
pub open spec fn plain_name(name: Seq<char>) -> bool {
    tidy(name) && braced(name) is None
}

/// Whether a line states nothing but a name, without `=`, and perhaps a `{`.
pub open spec fn bare_line(p: Seq<char>) -> bool {
    last_of(stripped(p, '{'), '=') is None
}

/// Whether a line about the package `x` can take another name: no slash of the name joins a comment
/// behind it, and a bare name stays one. A name with `=` is set off by another `=`, for which there
/// must be no comment; any other name must not end in `{`, or be a `}`.
pub open spec fn line_fits(raw: Seq<char>, x: Seq<char>, name: Seq<char>) -> bool {
    let p = trim(raw);
    let rest = p.skip(x.len() as int);
    &&& name.last() == '/' ==> !(rest.len() > 0 && rest[0] == '/')
    &&& bare_line(p) && name.contains('=') ==> cut(p) == p.len()
    &&& bare_line(p) && !name.contains('=') && !ends_in(p, '{') ==> name.last() != '{' && name
        != seq!['}']
}

/// A text that begins with no whitespace, trimmed after `k` characters: a front part of it, and
/// whitespace.
proof fn lemma_trim_front(s: Seq<char>, k: int)
    requires
        0 <= k <= s.len(),
        s.len() > 0,
        !is_space(s[0]),
    ensures
        trim(s.take(k)) == s.take(trim(s.take(k)).len() as int),
        trim(s.take(k)).len() <= k,
        all_space(s.subrange(trim(s.take(k)).len() as int, k)),
{
    let t = s.take(k);
    if k > 0 {
        assert(t[0] == s[0]);
    }
    assert(trim_start(t) == t);
    lemma_trail(t);
    let m = trim_end(t).len() as int;
    assert(t.take(m) =~= s.take(m));
    assert(t.skip(m) =~= s.subrange(m, k));
}

/// A name with whitespace behind it, trimmed.
proof fn lemma_name_spaced(name: Seq<char>, blanks: Seq<char>)
    requires
        name.len() > 0,
        is_trimmed(name),
        all_space(blanks),
    ensures
        trim(name + blanks) == name,
{
    let s = name + blanks;
    assert(s[0] == name[0]);
    lemma_trim_end_tail(name, blanks);
    lemma_trim_all_space(blanks);
    assert(name + Seq::<char>::empty() =~= name);
}

/// The body of a line that begins with a name: the name, and a rest that does not depend on it.
proof fn lemma_body_split(x: Seq<char>, rest: Seq<char>, c: int)
    requires
        tidy(x),
        0 <= c <= rest.len(),
        forall|i: int| 0 <= i < c ==> !#[trigger] mark_at(rest, i),
        c < rest.len() ==> mark_at(rest, c),
        x.last() != '/' || !(rest.len() > 0 && rest[0] == '/'),
    ensures
        cut(x + rest) == x.len() + c,
        uncommented(x + rest) == x + trim_end(rest.take(c)),
{
    let s = x + rest;
    let n = x.len() as int;
    assert forall|i: int| 0 <= i < n + c implies !#[trigger] mark_at(s, i) by {
        if i < n {
            assert(!mark_at(x, i));
            assert(s[i] == x[i]);
            if i + 1 < n {
                assert(s[i + 1] == x[i + 1]);
            } else if i + 1 < s.len() {
                assert(s[i + 1] == rest[0]);
                assert(x.last() == x[i]);
            }
        } else {
            assert(!mark_at(rest, i - n));
            assert(s[i] == rest[i - n]);
            if i + 1 < s.len() {
                assert(s[i + 1] == rest[i + 1 - n]);
            }
        }
    }
    if c < rest.len() {
        assert(mark_at(s, n + c)) by {
            assert(s[n + c] == rest[c]);
            if c + 1 < rest.len() {
                assert(s[n + c + 1] == rest[c + 1]);
            }
        }
    }
    lemma_cut_at(s, n + c);
    assert(s.take(n + c) =~= x + rest.take(c));
    lemma_trim_end_tail(x, rest.take(c));
}

/// What stands behind the name when the brace is taken off.
spec fn behind(r: Seq<char>) -> Seq<char> {
    if r.len() > 0 && r.last() == '{' {
        trim_end(r.drop_last())
    } else {
        r
    }
}

/// The stripped line that begins with a name, for a name that ends in no brace.
proof fn lemma_core_split(p: Seq<char>, x: Seq<char>, r: Seq<char>)
    requires
        tidy(x),
        uncommented(p) == x + r,
        r.len() == 0 ==> x.last() != '{',
    ensures
        ends_in(p, '{') == (r.len() > 0 && r.last() == '{'),
        stripped(p, '{') == x + behind(r),
{
    let body = x + r;
    if r.len() > 0 {
        assert(body.last() == r.last());
        if r.last() == '{' {
            assert(body.drop_last() =~= x + r.drop_last());
            lemma_trim_end_tail(x, r.drop_last());
        }
    } else {
        assert(body =~= x);
    }
}

/// Whether `=` stands last in `s` at `k` characters behind a name `x`, for any name without `=`.
proof fn lemma_eq_behind(x: Seq<char>, s: Seq<char>, k: int)
    requires
        0 <= k < s.len(),
        s[k] == '=',
        forall|i: int| k < i < s.len() ==> #[trigger] s[i] != '=',
    ensures
        last_of(x + s, '=') == Some(x.len() + k),
        (x + s).take(x.len() + k) == x + s.take(k),
        (x + s).skip(x.len() + k + 1) == s.skip(k + 1),
{
    let t = x + s;
    let n = x.len() as int;
    assert(t[n + k] == s[k]);
    assert forall|i: int| n + k < i < t.len() implies #[trigger] t[i] != '=' by {
        assert(t[i] == s[i - n]);
    }
    lemma_last_of_at(t, '=', n + k);
    assert(t.take(n + k) =~= x + s.take(k));
    assert(t.skip(n + k + 1) =~= s.skip(k + 1));
}

/// What a line says when the name of its package is another one.
pub open spec fn with_owner(o: Outer, name: Seq<char>) -> Outer {
    match o {
        Outer::Single { thread, cpus, open, .. } => Outer::Single { pkg: name, thread, cpus, open },
        Outer::Rule { cpus, open, .. } => Outer::Rule { pkg: name, cpus, open },
        Outer::BareOpen { .. } => Outer::BareOpen { pkg: name },
        Outer::Pending { .. } => Outer::Pending { pkg: name },
        Outer::Junk => Outer::Junk,
    }
}

/// The name of a package stands at the start of every line about it.
proof fn lemma_begins_with_owner(p: Seq<char>, pkg: Seq<char>)
    requires
        p.len() > 0,
        !is_space(p[0]),
        is_trimmed(p),
        pkg.len() > 0,
        ({
            match outer(p) {
                Outer::Single { pkg: owner, .. } => owner == pkg,
                Outer::Rule { pkg: owner, .. } => owner == pkg,
                Outer::BareOpen { pkg: owner } => owner == pkg,
                Outer::Pending { pkg: owner } => owner == pkg,
                Outer::Junk => false,
            }
        }),
    ensures
        begins(stripped(p, '{'), pkg),
        tidy(pkg),
{
    let head = p.take(cut(p));
    lemma_cut_no_mark(p);
    lemma_trail(head);
    let body = uncommented(p);
    let core = stripped(p, '{');
    let short = body.drop_last();
    if ends_in(p, '{') {
        lemma_trail(short);
        assert(core =~= body.take(core.len() as int));
    } else {
        assert(core =~= body.take(core.len() as int));
    }
    assert(core =~= p.take(core.len() as int));
    assert(core.len() > 0) by {
        lemma_last_of(core, '=');
    }
    assert(core[0] == p[0]);
    lemma_no_mark_sub(head, 0, core.len() as int);
    assert(core =~= head.subrange(0, core.len() as int));
    lemma_last_of(core, '=');
    match last_of(core, '=') {
        None => {
            assert(core.take(core.len() as int) =~= core);
            assert(is_trimmed(core)) by {
                if ends_in(p, '{') {
                } else {
                }
            }
        },
        Some(eq) => {
            lemma_trim_front(core, eq);
            let lhs = trim(core.take(eq));
            lemma_trim_is_trimmed(core.take(eq));
            lemma_no_mark_sub(core, 0, lhs.len() as int);
            assert(core.take(lhs.len() as int) =~= core.subrange(0, lhs.len() as int));
            if outer(p) is Single {
                lemma_last_of(lhs, '{');
                let b = last_of(lhs, '{')->0;
                assert(lhs[0] == core[0]);
                lemma_trim_front(lhs, b);
                lemma_trim_is_trimmed(lhs.take(b));
                assert(pkg == lhs.take(pkg.len() as int));
                assert(core.take(pkg.len() as int) =~= lhs.take(pkg.len() as int));
                lemma_no_mark_sub(core, 0, pkg.len() as int);
                assert(core.take(pkg.len() as int) =~= core.subrange(0, pkg.len() as int));
            }
        },
    }
}

/// `name{thread}` with another name before the brace.
proof fn lemma_braced_renamed(x: Seq<char>, name: Seq<char>, u: Seq<char>)
    requires
        tidy(x),
        tidy(name),
        braced(x + u) matches Some((pkg, _)) && pkg == x,
    ensures
        match braced(x + u) {
            Some((_, thread)) => braced(name + u) == Some((name, thread)),
            None => true,
        },
{
    let a = x + u;
    let c = name + u;
    let b = last_of(a, '{')->0;
    lemma_last_of(a, '{');
    assert(a[0] == x[0]);
    lemma_trim_front(a, b);
    let n = x.len() as int;
    let m = name.len() as int;
    assert(n <= b);
    let k = b - n;
    assert(u.len() > 0);
    assert(a.last() == u.last());
    assert(c.last() == u.last());
    assert(c[m + k] == u[k]);
    assert(a[b] == u[k]);
    assert forall|i: int| m + k < i < c.len() implies #[trigger] c[i] != '{' by {
        assert(c[i] == u[i - m]);
        assert(a[i - m + n] == u[i - m]);
    }
    lemma_last_of_at(c, '{', m + k);
    assert(a.subrange(n, b) =~= u.take(k));
    assert(c.take(m + k) =~= name + u.take(k));
    lemma_name_spaced(name, u.take(k));
    assert(a.subrange(b + 1, a.len() - 1) =~= u.subrange(k + 1, u.len() - 1));
    assert(c.subrange(m + k + 1, c.len() - 1) =~= u.subrange(k + 1, u.len() - 1));
}

/// What the stripped line says with another name.
proof fn lemma_core_renamed(p: Seq<char>, f: Seq<char>, x: Seq<char>, name: Seq<char>, s: Seq<char>)
    requires
        tidy(x),
        plain_name(name),
        bare_line(p) ==> !name.contains('='),
        stripped(p, '{') == x + s,
        stripped(f, '{') == name + s,
        ends_in(p, '{') == ends_in(f, '{'),
        !closes(f),
        match outer(p) {
            Outer::Single { pkg: owner, .. } => owner == x,
            Outer::Rule { pkg: owner, .. } => owner == x,
            Outer::BareOpen { pkg: owner } => owner == x,
            Outer::Pending { pkg: owner } => owner == x,
            Outer::Junk => false,
        },
    ensures
        outer(f) == with_owner(outer(p), name),
{
    let core = x + s;
    let fresh = name + s;
    let n = x.len() as int;
    let m = name.len() as int;
    lemma_last_of(core, '=');
    lemma_last_of(name, '=');
    assert(core[0] == x[0]);
    match last_of(core, '=') {
        None => {
            assert(core.len() == n);
            assert(s =~= Seq::<char>::empty());
            assert(fresh =~= name);
        },
        Some(eq) => {
            let lhs = trim(core.take(eq));
            lemma_trim_front(core, eq);
            lemma_trim_is_trimmed(core.take(eq));
            assert(n <= lhs.len()) by {
                if outer(p) is Single {
                    lemma_last_of(lhs, '{');
                    let b = last_of(lhs, '{')->0;
                    assert(lhs[0] == core[0]);
                    lemma_trim_front(lhs, b);
                }
            }
            let k = eq - n;
            assert(s[k] == core[eq]);
            assert forall|i: int| k < i < s.len() implies #[trigger] s[i] != '=' by {
                assert(core[i + n] == s[i]);
            }
            lemma_eq_behind(x, s, k);
            lemma_eq_behind(name, s, k);
            let u = trim_end(s.take(k));
            lemma_trim_end_tail(x, s.take(k));
            lemma_trim_end_tail(name, s.take(k));
            let a = x + s.take(k);
            let c = name + s.take(k);
            assert(a[0] == x[0]);
            assert(c[0] == name[0]);
            assert(lhs == x + u);
            let lhs_new = trim(fresh.take(m + k));
            assert(lhs_new == name + u);
            if outer(p) is Single {
                lemma_braced_renamed(x, name, u);
            } else {
                assert(u =~= Seq::<char>::empty());
                assert(name + u =~= name);
            }
        },
    }
}

/// Whether `o` is about `pkg`.
spec fn about(o: Outer, pkg: Seq<char>) -> bool {
    match o {
        Outer::Single { pkg: owner, .. } => owner == pkg,
        Outer::Rule { pkg: owner, .. } => owner == pkg,
        Outer::BareOpen { pkg: owner } => owner == pkg,
        Outer::Pending { pkg: owner } => owner == pkg,
        Outer::Junk => false,
    }
}

/// A name with a single character behind it, which may be set off by whitespace.
proof fn lemma_name_mark(x: Seq<char>, blanks: Seq<char>, c: char)
    requires
        tidy(x),
        all_space(blanks),
        c == '=' || c == '{',
    ensures
        ({
            let p = x + blanks.push(c);
            &&& cut(p) == p.len()
            &&& ends_in(p, '{') == (c == '{')
            &&& stripped(p, '{') == (if c == '{' {
                x
            } else {
                p
            })
            &&& !closes(p)
        }),
{
    let rest = blanks.push(c);
    let p = x + rest;
    let k = blanks.len() as int;
    assert forall|i: int| 0 <= i < rest.len() implies !#[trigger] mark_at(rest, i) by {
        if i < k {
            assert(is_space(blanks[i]));
            assert(rest[i] == blanks[i]);
        } else {
            assert(rest[i] == c);
        }
    }
    if rest[0] == '/' {
        if k > 0 {
            assert(is_space(blanks[0]));
        }
        assert(false);
    }
    lemma_body_split(x, rest, rest.len() as int);
    assert(rest.take(rest.len() as int) =~= rest);
    assert(rest.last() == c);
    assert(trim_end(rest) == rest);
    lemma_core_split(p, x, rest);
    assert(rest.drop_last() =~= blanks);
    lemma_trim_all_space(blanks);
    if c == '{' {
        assert(x + behind(rest) =~= x);
    }
    assert(p.last() == c);
    if closes(p) {
        assert(p.last() == seq!['}'].last());
    }
}

/// A name with `=` behind it is a bare name.
proof fn lemma_name_equals(x: Seq<char>, blanks: Seq<char>)
    requires
        tidy(x),
        all_space(blanks),
    ensures
        outer(x + blanks.push('=')) == (Outer::Pending { pkg: x }),
{
    let rest = blanks.push('=');
    let k = blanks.len() as int;
    lemma_name_mark(x, blanks, '=');
    assert(rest[k] == '=');
    lemma_eq_behind(x, rest, k);
    assert(rest.take(k) =~= blanks);
    assert(rest.skip(k + 1) =~= Seq::<char>::empty());
    lemma_name_spaced(x, blanks);
    lemma_trim_all_space(Seq::<char>::empty());
    assert(trim(Seq::<char>::empty()) =~= Seq::<char>::empty());
}

/// A line that comes down to the name of its package is a bare name.
proof fn lemma_name_alone(p: Seq<char>, x: Seq<char>)
    requires
        x.len() > 0,
        stripped(p, '{') == x,
        about(outer(p), x),
    ensures
        outer(p) == (if ends_in(p, '{') {
            Outer::BareOpen { pkg: x }
        } else {
            Outer::Pending { pkg: x }
        }),
        bare_line(p),
{
    lemma_last_of(x, '=');
    if let Some(eq) = last_of(x, '=') {
        let lhs = trim(x.take(eq));
        lemma_trim_is_trimmed(x.take(eq));
        if outer(p) is Single {
            lemma_last_of(lhs, '{');
            lemma_trim_is_trimmed(lhs.take(last_of(lhs, '{')->0));
        }
        assert(false);
    }
}

/// Whitespace and a single character: what trims to that character and ends in it.
proof fn lemma_trims_to(rest: Seq<char>, c: char)
    requires
        trim(rest) == seq![c],
        rest.len() > 0,
        rest.last() == c,
        !is_space(c),
    ensures
        all_space(rest.drop_last()),
        rest == rest.drop_last().push(c),
{
    lemma_lead(rest);
    let t = trim_start(rest);
    lemma_trail(t);
    assert(rest =~= rest.drop_last().push(c));
    let k = rest.len() - t.len();
    assert(t.len() > 0);
    assert(t.last() == rest.last());
    assert(trim_end(t) == t);
    assert(t.len() == 1);
    assert(rest.take(k) =~= rest.drop_last());
}

/// A line that is renamed in another form than it had: a bare name without a comment, given a name
/// with `=`.
proof fn lemma_set_off(raw: Seq<char>, x: Seq<char>, name: Seq<char>)
    requires
        owned(raw, x),
        x.len() > 0,
        plain_name(name),
        name.contains('='),
        ({
            let t = trim(trim(raw).skip(x.len() as int));
            t == ""@ || t == "="@ || t == "{"@
        }),
    ensures
        !blank(trim(line_renamed(raw, x, name))),
        outer(trim(line_renamed(raw, x, name))) == with_owner(outer(trim(raw)), name),
{
    reveal_strlit("");
    reveal_strlit("=");
    reveal_strlit("{");
    reveal_strlit("= {");
    reveal_strlit("//");
    let p = trim(raw);
    let n = x.len() as int;
    let none = Seq::<char>::empty();
    lemma_trim_is_trimmed(raw);
    lemma_begins_with_owner(p, x);
    lemma_front(p, x);
    let rest = p.skip(n);
    let t = trim(rest);
    let fresh = line_renamed(raw, x, name);
    assert(p =~= x + rest);
    if t == "{"@ {
        assert("{"@ =~= seq!['{']);
        lemma_rest_last(p, x, rest);
        lemma_trims_to(rest, '{');
        lemma_name_mark(x, rest.drop_last(), '{');
        lemma_name_alone(p, x);
        assert(fresh =~= bare_open(name));
        lemma_bare_open(name, none);
        assert(bare_open(name) + none =~= bare_open(name));
    } else {
        if t == "="@ {
            assert("="@ =~= seq!['=']);
            lemma_rest_last(p, x, rest);
            lemma_trims_to(rest, '=');
            lemma_name_equals(x, rest.drop_last());
        } else {
            assert(""@ =~= none);
            lemma_blank_rest(p, x, rest);
            lemma_cut_no_mark(p);
            lemma_name_alone(p, x);
        }
        assert(fresh =~= name + none.push('='));
        lemma_name_equals(name, none);
        lemma_name_mark(name, none, '=');
        assert(fresh[0] == name[0]);
        assert(fresh.last() == '=');
        lemma_trimmed_fixed(fresh);
        lemma_cut(fresh);
        assert(!mark_at(fresh, 0));
        if begins(fresh, "//"@) {
            assert(fresh.take(2)[0] == '/' && fresh.take(2)[1] == '/');
        }
    }
}

/// A trimmed line ends where the text behind its name ends.
proof fn lemma_rest_last(p: Seq<char>, x: Seq<char>, rest: Seq<char>)
    requires
        p == x + rest,
        is_trimmed(p),
        x.len() > 0,
        trim(rest).len() == 1,
    ensures
        rest.len() > 0,
        rest.last() == trim(rest)[0],
{
    lemma_lead(rest);
    let t = trim_start(rest);
    lemma_trail(t);
    if t.len() > 0 {
        assert(p.last() == rest.last());
        assert(t.last() == rest.last());
        assert(trim_end(t) == t);
        assert(t[0] == t.last());
    }
}

proof fn lemma_blank_rest(p: Seq<char>, x: Seq<char>, rest: Seq<char>)
    requires
        p == x + rest,
        is_trimmed(p),
        x.len() > 0,
        tidy(x),
        trim(rest) == Seq::<char>::empty(),
        begins(stripped(p, '{'), x),
    ensures
        p == x,
        stripped(p, '{') == x,
        !ends_in(p, '{'),
{
    lemma_lead(rest);
    let t = trim_start(rest);
    lemma_trail(t);
    if rest.len() > 0 {
        assert(p.last() == rest.last());
        assert(!is_space(rest.last()));
        if t.len() > 0 {
            assert(t.last() == rest.last());
            assert(trim_end(t) == t);
        } else {
            let lead = rest.take(rest.len() - t.len());
            assert(lead =~= rest);
            assert(is_space(lead[rest.len() - 1]));
        }
        assert(false);
    }
    assert(p =~= x);
    let head = p.take(cut(p));
    lemma_cut(p);
    lemma_trail(head);
    let body = uncommented(p);
    if ends_in(p, '{') {
        lemma_trail(body.drop_last());
    }
    assert(stripped(p, '{') =~= x);
}

/// The name of a package stands at the start of every line about it.
proof fn lemma_front(p: Seq<char>, x: Seq<char>)
    requires
        begins(stripped(p, '{'), x),
    ensures
        begins(p, x),
        x.len() <= cut(p) <= p.len(),
{
    let head = p.take(cut(p));
    lemma_cut(p);
    lemma_trail(head);
    let body = uncommented(p);
    let core = stripped(p, '{');
    if ends_in(p, '{') {
        lemma_trail(body.drop_last());
    }
    assert(core =~= p.take(core.len() as int));
    assert(p.take(x.len() as int) =~= core.take(x.len() as int));
}

/// A line about a package, renamed in the form that it had.
proof fn lemma_same_form(raw: Seq<char>, x: Seq<char>, name: Seq<char>)
    requires
        owned(raw, x),
        x.len() > 0,
        plain_name(name),
        line_fits(raw, x, name),
        bare_line(trim(raw)) ==> !name.contains('='),
        line_renamed(raw, x, name) == name + trim(raw).skip(x.len() as int),
    ensures
        !blank(trim(line_renamed(raw, x, name))),
        outer(trim(line_renamed(raw, x, name))) == with_owner(outer(trim(raw)), name),
{
    reveal_strlit("//");
    let p = trim(raw);
    lemma_trim_is_trimmed(raw);
    lemma_begins_with_owner(p, x);
    lemma_front(p, x);
    lemma_cut(p);
    let n = x.len() as int;
    let m = name.len() as int;
    let rest = p.skip(n);
    let fresh = name + rest;
    assert(p =~= x + rest);
    let c = cut(p) - n;
    assert forall|i: int| 0 <= i < c implies !#[trigger] mark_at(rest, i) by {
        assert(!mark_at(p, n + i));
        assert(p[n + i] == rest[i]);
        if i + 1 < rest.len() {
            assert(p[n + i + 1] == rest[i + 1]);
        }
    }
    if c < rest.len() {
        assert(mark_at(rest, c)) by {
            assert(mark_at(p, n + c));
            assert(p[n + c] == rest[c]);
            if c + 1 < rest.len() {
                assert(p[n + c + 1] == rest[c + 1]);
            }
        }
    }
    if x.last() == '/' && rest.len() > 0 && rest[0] == '/' {
        assert(p[n - 1] == x.last());
        assert(p[n] == rest[0]);
        assert(mark_at(p, n - 1));
        assert(false);
    }
    lemma_body_split(x, rest, c);
    lemma_body_split(name, rest, c);
    let r = trim_end(rest.take(c));
    if r.len() == 0 {
        assert(uncommented(p) =~= x);
        lemma_short_core(p, x);
        lemma_name_alone(p, x);
    }
    lemma_core_split(p, x, r);
    assert(is_trimmed(fresh)) by {
        assert(fresh[0] == name[0]);
        if rest.len() > 0 {
            assert(fresh.last() == rest.last());
            assert(rest.last() == p.last());
        } else {
            assert(fresh =~= name);
        }
    }
    lemma_trimmed_fixed(fresh);
    lemma_core_split(fresh, name, r);
    assert(!closes(fresh)) by {
        if closes(fresh) {
            assert((name + r).len() == 1);
            assert(r =~= Seq::<char>::empty());
            assert(name + r =~= name);
        }
    }
    lemma_cut(fresh);
    assert(!mark_at(fresh, 0));
    if begins(fresh, "//"@) {
        assert(fresh.take(2)[0] == '/' && fresh.take(2)[1] == '/');
    }
    lemma_core_renamed(p, fresh, x, name, behind(r));
}

/// A line that is its name, but for a comment.
proof fn lemma_short_core(p: Seq<char>, x: Seq<char>)
    requires
        uncommented(p) == x,
        begins(stripped(p, '{'), x),
        x.len() > 0,
    ensures
        stripped(p, '{') == x,
        x.last() != '{',
{
    if ends_in(p, '{') {
        lemma_trail(x.drop_last());
    }
    assert(stripped(p, '{').take(x.len() as int) =~= stripped(p, '{'));
}

/// A line about a package, renamed, is read as it was, but for the name.
pub proof fn lemma_line_renamed(raw: Seq<char>, x: Seq<char>, name: Seq<char>)
    requires
        owned(raw, x),
        x.len() > 0,
        plain_name(name),
        line_fits(raw, x, name),
    ensures
        !blank(trim(line_renamed(raw, x, name))),
        outer(trim(line_renamed(raw, x, name))) == with_owner(outer(trim(raw)), name),
{
    let p = trim(raw);
    let rest = p.skip(x.len() as int);
    let t = trim(rest);
    lemma_trim_is_trimmed(raw);
    lemma_begins_with_owner(p, x);
    lemma_front(p, x);
    if name.contains('=') && (t == ""@ || t == "="@ || t == "{"@) {
        lemma_set_off(raw, x, name);
    } else {
        if bare_line(p) && name.contains('=') {
            lemma_bare_rest(p, x);
        }
        lemma_same_form(raw, x, name);
    }
}

/// Behind a bare name without a comment stands nothing, or a `{`.
proof fn lemma_bare_rest(p: Seq<char>, x: Seq<char>)
    requires
        is_trimmed(p),
        about(outer(p), x),
        x.len() > 0,
        bare_line(p),
        cut(p) == p.len(),
        begins(p, x),
    ensures
        trim(p.skip(x.len() as int)) == ""@ || trim(p.skip(x.len() as int)) == "{"@,
{
    reveal_strlit("");
    reveal_strlit("{");
    let none = Seq::<char>::empty();
    let rest = p.skip(x.len() as int);
    assert(p.take(cut(p)) =~= p);
    lemma_trimmed_fixed(p);
    assert(uncommented(p) == p);
    assert(stripped(p, '{') == x);
    lemma_trim_all_space(none);
    assert(trim(none) =~= none);
    if ends_in(p, '{') {
        let short = p.drop_last();
        lemma_trail(short);
        assert(short.skip(x.len() as int) =~= rest.drop_last());
        let blanks = rest.drop_last();
        assert(rest =~= blanks.push('{'));
        lemma_trim_brace(blanks);
        assert("{"@ =~= seq!['{']);
    } else {
        assert(rest =~= none);
        assert(""@ =~= none);
    }
}

/// Whitespace and a `{`, trimmed.
proof fn lemma_trim_brace(blanks: Seq<char>)
    requires
        all_space(blanks),
    ensures
        trim(blanks.push('{')) == seq!['{'],
{
    let one = seq!['{'];
    assert(blanks.push('{') =~= blanks + one);
    lemma_trim_start_lead(blanks, one);
    assert(one.last() == '{');
    assert(trim_start(one) == one);
    assert(trim_end(one) == one);
}

// Rules up to the two names.

/// The name, where the old one counts as the new one.
pub open spec fn one_name(pkg: Seq<char>, old_name: Seq<char>, name: Seq<char>) -> Seq<char> {
    if pkg == old_name {
        name
    } else {
        pkg
    }
}

pub open spec fn one_name_place(place: Place, old_name: Seq<char>, name: Seq<char>) -> Place {
    match place {
        Place::Top => Place::Top,
        Place::Named(x) => Place::Named(one_name(x, old_name, name)),
        Place::Block(x) => Place::Block(one_name(x, old_name, name)),
    }
}

/// The rules, where the old name counts as the new one.
pub open spec fn one_name_rules(rules: Seq<Said>, old_name: Seq<char>, name: Seq<char>) -> Seq<Said> {
    Seq::new(
        rules.len(),
        |i: int|
            Said {
                pkg: one_name(rules[i].pkg, old_name, name),
                thread: rules[i].thread,
                cpus: rules[i].cpus,
            },
    )
}

proof fn lemma_not_in_block(lines: Seq<Seq<char>>, pkg: Seq<char>, i: int)
    requires
        names_pkg(found(lines, pkg), i),
    ensures
        !(place_at(lines, i) is Block),
{
    let t = found(lines, pkg);
    let n = lines.len() as int;
    lemma_pkg_upto(lines, pkg, n);
    lemma_locs(lines, pkg, n);
    lemma_singles(t.threads, n);
    if t.pkg_line matches Some(at) && pkg_idx(at) == i {
    } else {
        let k = choose|k: int|
            0 <= k < singles(t.threads).len() && (#[trigger] singles(t.threads)[k]).idx == i;
        let loc = singles(t.threads)[k];
        let j = choose|j: int| 0 <= j < t.threads.len() && t.threads[j] == loc;
        assert(loc_in(place_at(lines, i), lines[i], pkg, i) == Some(loc));
    }
}

/// Whether the lines that one round renames can take the name.
pub open spec fn round_fits(lines: Seq<Seq<char>>, x: Seq<char>, name: Seq<char>) -> bool {
    forall|i: int| #[trigger]
        names_pkg(found(lines, x), i) ==> line_fits(lines[i], x, name)
}

/// Whether that holds in each of the first `k` rounds.
pub open spec fn rounds_fit(
    lines: Seq<Seq<char>>,
    x: Seq<char>,
    name: Seq<char>,
    k: nat,
) -> bool
    decreases k,
{
    found(lines, x).any_line() && k > 0 ==> round_fits(lines, x, name) && rounds_fit(
        rename_round(lines, x, name),
        x,
        name,
        (k - 1) as nat,
    )
}

/// One round of renaming changes nothing in the rules but the name.
proof fn lemma_round(lines: Seq<Seq<char>>, x: Seq<char>, name: Seq<char>, n: int)
    requires
        0 <= n <= lines.len(),
        x.len() > 0,
        plain_name(name),
        round_fits(lines, x, name),
    ensures
        ({
            let after = rename_round(lines, x, name);
            &&& one_name_place(place_at(after, n), x, name) == one_name_place(
                place_at(lines, n),
                x,
                name,
            )
            &&& one_name_rules(rules_of(after.take(n)), x, name) == one_name_rules(
                rules_of(lines.take(n)),
                x,
                name,
            )
        }),
    decreases n,
{
    let after = rename_round(lines, x, name);
    if n == 0 {
        assert(after.take(0) =~= lines.take(0));
    } else {
        let i = n - 1;
        lemma_round(lines, x, name, i);
        let here = place_at(lines, i);
        let there = place_at(after, i);
        lemma_place_step(lines, i);
        lemma_place_step(after, i);
        let raw = lines[i];
        let fresh = after[i];
        if names_pkg(found(lines, x), i) {
            lemma_names_pkg(lines, x, i);
            lemma_not_in_block(lines, x, i);
            lemma_line_renamed(raw, x, name);
        }
        assert(one_name_place(next(there, fresh), x, name) == one_name_place(
            next(here, raw),
            x,
            name,
        ));
        let a = rules_of(after.take(n));
        let b = rules_of(lines.take(n));
        let a0 = rules_of(after.take(i));
        let b0 = rules_of(lines.take(i));
        assert(after.take(n).drop_last() =~= after.take(i));
        assert(lines.take(n).drop_last() =~= lines.take(i));
        assert(after.take(n).last() == fresh);
        assert(lines.take(n).last() == raw);
        assert(a0.len() == one_name_rules(a0, x, name).len());
        assert(b0.len() == one_name_rules(b0, x, name).len());
        let s = says(there, fresh);
        let t = says(here, raw);
        assert(s is Some == t is Some);
        if s is Some {
            assert(a == a0.push(s->0));
            assert(b == b0.push(t->0));
            assert(one_name(s->0.pkg, x, name) == one_name(t->0.pkg, x, name));
            assert(s->0.thread == t->0.thread);
            assert(s->0.cpus == t->0.cpus);
            assert forall|k: int| 0 <= k < a.len() implies one_name_rules(a, x, name)[k]
                == one_name_rules(b, x, name)[k] by {
                if k < a0.len() {
                    assert(one_name_rules(a0, x, name)[k] == one_name_rules(b0, x, name)[k]);
                }
            }
        }
        assert(one_name_rules(a, x, name) =~= one_name_rules(b, x, name));
    }
}

proof fn lemma_rounds(lines: Seq<Seq<char>>, x: Seq<char>, name: Seq<char>, k: nat)
    requires
        x.len() > 0,
        plain_name(name),
        rounds_fit(lines, x, name, k),
    ensures
        rename_rounds(lines, x, name, k) matches Some(after) ==> one_name_rules(
            rules_of(after),
            x,
            name,
        ) == one_name_rules(rules_of(lines), x, name),
    decreases k,
{
    if found(lines, x).any_line() && k > 0 {
        let n = lines.len() as int;
        let after = rename_round(lines, x, name);
        lemma_round(lines, x, name, n);
        assert(lines.take(n) =~= lines);
        assert(after.take(n) =~= after);
        lemma_rounds(after, x, name, (k - 1) as nat);
    }
}

/// Renaming a package changes nothing in the rules but its name: up to the two names, the same rules
/// are stated in the same order.
pub proof fn law_renamed_keeps_rules(
    lines: Seq<Seq<char>>,
    old_name: Seq<char>,
    name: Seq<char>,
)
    requires
        old_name.len() > 0,
        plain_name(name),
        rename_ends(lines, old_name, name),
        forall|k: nat| rounds_fit(normalized(lines, old_name), old_name, name, k),
    ensures
        renamed(lines, old_name, name) matches Ok(after) ==> one_name_rules(
            rules_of(after),
            old_name,
            name,
        ) == one_name_rules(rules_of(normalized(lines, old_name)), old_name, name),
{
    if renamed(lines, old_name, name) is Ok {
        let now = normalized(lines, old_name);
        let k = choose|k: nat| (#[trigger] rename_rounds(now, old_name, name, k)) is Some;
        assert(rounds_fit(now, old_name, name, k));
        lemma_rounds(now, old_name, name, k);
    }
}

// That the new name is there.

/// Whether line `i` names `pkg`: it is the package's own, or one of its rules `pkg{thread}=cpus`.
spec fn line_names(lines: Seq<Seq<char>>, pkg: Seq<char>, i: int) -> bool {
    heads(place_at(lines, i), lines[i], pkg) || single_of(pkg)(place_at(lines, i), lines[i])
}

/// A line that names a package that is found.
proof fn lemma_naming_line(lines: Seq<Seq<char>>, pkg: Seq<char>) -> (i: int)
    requires
        found(lines, pkg).any_line(),
    ensures
        0 <= i < lines.len(),
        line_names(lines, pkg, i),
{
    let t = found(lines, pkg);
    let n = lines.len() as int;
    match t.pkg_line {
        Some(at) => lemma_none_before(lines, pkg, at, n),
        None => {
            lemma_locs(lines, pkg, n);
            lemma_singles(t.threads, n);
            let loc = singles(t.threads)[0];
            let j = choose|j: int| 0 <= j < t.threads.len() && t.threads[j] == loc;
            assert(t.threads[j] == loc);
            loc.idx
        },
    }
}

/// One round of renaming leaves a line that names the package, by its old name or the new one.
proof fn lemma_round_names(lines: Seq<Seq<char>>, x: Seq<char>, name: Seq<char>)
    requires
        x.len() > 0,
        plain_name(name),
        round_fits(lines, x, name),
        found(lines, x).any_line() || found(lines, name).any_line(),
    ensures
        ({
            let after = rename_round(lines, x, name);
            found(after, x).any_line() || found(after, name).any_line()
        }),
{
    let after = rename_round(lines, x, name);
    let i = if found(lines, x).any_line() {
        lemma_naming_line(lines, x)
    } else {
        lemma_naming_line(lines, name)
    };
    lemma_round(lines, x, name, i);
    if names_pkg(found(lines, x), i) {
        lemma_names_pkg(lines, x, i);
        lemma_line_renamed(lines[i], x, name);
    }
    if line_names(after, x, i) {
        lemma_line_named(after, x, i);
    } else {
        assert(line_names(after, name, i));
        lemma_line_named(after, name, i);
    }
}

proof fn lemma_rounds_name(lines: Seq<Seq<char>>, x: Seq<char>, name: Seq<char>, k: nat)
    requires
        x.len() > 0,
        plain_name(name),
        rounds_fit(lines, x, name, k),
        found(lines, x).any_line() || found(lines, name).any_line(),
    ensures
        rename_rounds(lines, x, name, k) matches Some(after) ==> found(after, name).any_line(),
    decreases k,
{
    if found(lines, x).any_line() && k > 0 {
        lemma_round_names(lines, x, name);
        lemma_rounds_name(rename_round(lines, x, name), x, name, (k - 1) as nat);
    }
}

/// A package that was renamed is found by its new name.
pub proof fn law_renamed_package_is_found(
    lines: Seq<Seq<char>>,
    old_name: Seq<char>,
    name: Seq<char>,
)
    requires
        old_name.len() > 0,
        plain_name(name),
        rename_ends(lines, old_name, name),
        forall|k: nat| rounds_fit(normalized(lines, old_name), old_name, name, k),
    ensures
        renamed(lines, old_name, name) matches Ok(after) ==> found(after, name).any_line(),
{
    if renamed(lines, old_name, name) is Ok {
        let now = normalized(lines, old_name);
        let k = choose|k: nat| (#[trigger] rename_rounds(now, old_name, name, k)) is Some;
        assert(rounds_fit(now, old_name, name, k));
        lemma_rounds_name(now, old_name, name, k);
    }
}

// When renaming comes to an end.

/// How often a line is renamed until it is no longer about the old name.
pub open spec fn renames_left(raw: Seq<char>, old_name: Seq<char>, name: Seq<char>) -> nat {
    if !owned(raw, old_name) {
        0
    } else if !owned(line_renamed(raw, old_name, name), old_name) {
        1
    } else {
        2
    }
}

/// Whether every line loses the old name when it is renamed, at the latest at the second time.
pub open spec fn rename_ready(
    lines: Seq<Seq<char>>,
    old_name: Seq<char>,
    name: Seq<char>,
) -> bool {
    forall|i: int|
        0 <= i < lines.len() ==> !owned(
            line_renamed(line_renamed(#[trigger] lines[i], old_name, name), old_name, name),
            old_name,
        ) || renames_left(lines[i], old_name, name) <= 1
}

pub open spec fn renames_total(
    lines: Seq<Seq<char>>,
    old_name: Seq<char>,
    name: Seq<char>,
) -> nat
    decreases lines.len(),
{
    if lines.len() == 0 {
        0
    } else {
        renames_total(lines.drop_last(), old_name, name) + renames_left(
            lines.last(),
            old_name,
            name,
        )
    }
}

proof fn lemma_total_less(
    a: Seq<Seq<char>>,
    b: Seq<Seq<char>>,
    old_name: Seq<char>,
    name: Seq<char>,
)
    requires
        a.len() == b.len(),
        forall|i: int|
            0 <= i < a.len() ==> renames_left(#[trigger] b[i], old_name, name) <= renames_left(
                a[i],
                old_name,
                name,
            ),
    ensures
        renames_total(b, old_name, name) <= renames_total(a, old_name, name),
        (exists|i: int|
            0 <= i < a.len() && renames_left(#[trigger] b[i], old_name, name) < renames_left(
                a[i],
                old_name,
                name,
            )) ==> renames_total(b, old_name, name) < renames_total(a, old_name, name),
    decreases a.len(),
{
    if a.len() > 0 {
        let c = a.drop_last();
        let d = b.drop_last();
        assert forall|i: int| 0 <= i < c.len() implies renames_left(#[trigger] d[i], old_name, name)
            <= renames_left(c[i], old_name, name) by {
            assert(d[i] == b[i]);
        }
        lemma_total_less(c, d, old_name, name);
        assert(b[b.len() - 1] == b.last());
        if exists|i: int|
            0 <= i < a.len() && renames_left(#[trigger] b[i], old_name, name) < renames_left(
                a[i],
                old_name,
                name,
            ) {
            let i = choose|i: int|
                0 <= i < a.len() && renames_left(#[trigger] b[i], old_name, name) < renames_left(
                    a[i],
                    old_name,
                    name,
                );
            if i < a.len() - 1 {
                assert(d[i] == b[i] && c[i] == a[i]);
            }
        }
    }
}

/// One round leaves less to rename.
pub proof fn lemma_rename_round(lines: Seq<Seq<char>>, old_name: Seq<char>, name: Seq<char>)
    requires
        rename_ready(lines, old_name, name),
        found(lines, old_name).any_line(),
    ensures
        rename_ready(rename_round(lines, old_name, name), old_name, name),
        renames_total(rename_round(lines, old_name, name), old_name, name) < renames_total(
            lines,
            old_name,
            name,
        ),
{
    let t = found(lines, old_name);
    let after = rename_round(lines, old_name, name);
    assert forall|i: int| 0 <= i < lines.len() implies renames_left(
        #[trigger] after[i],
        old_name,
        name,
    ) <= renames_left(lines[i], old_name, name) && (names_pkg(t, i) ==> renames_left(
        after[i],
        old_name,
        name,
    ) < renames_left(lines[i], old_name, name)) by {
        if names_pkg(t, i) {
            lemma_names_pkg(lines, old_name, i);
            assert(lines[i] == lines[i]);
        }
    }
    assert forall|i: int| 0 <= i < after.len() implies !owned(
        line_renamed(line_renamed(#[trigger] after[i], old_name, name), old_name, name),
        old_name,
    ) || renames_left(after[i], old_name, name) <= 1 by {
        assert(lines[i] == lines[i]);
        if names_pkg(t, i) {
            lemma_names_pkg(lines, old_name, i);
        }
    }
    let i = match t.pkg_line {
        Some(at) => pkg_idx(at),
        None => singles(t.threads)[0].idx,
    };
    assert(names_pkg(t, i));
    lemma_names_pkg(lines, old_name, i);
    assert(renames_left(after[i], old_name, name) < renames_left(lines[i], old_name, name));
    lemma_total_less(lines, after, old_name, name);
}


proof fn lemma_total_bound(lines: Seq<Seq<char>>, old_name: Seq<char>, name: Seq<char>)
    ensures
        renames_total(lines, old_name, name) <= 2 * lines.len(),
    decreases lines.len(),
{
    if lines.len() > 0 {
        lemma_total_bound(lines.drop_last(), old_name, name);
    }
}

proof fn lemma_rounds_suffice(
    lines: Seq<Seq<char>>,
    old_name: Seq<char>,
    name: Seq<char>,
    k: nat,
)
    requires
        rename_ready(lines, old_name, name),
        renames_total(lines, old_name, name) <= k,
    ensures
        rename_rounds(lines, old_name, name, k) is Some,
    decreases k,
{
    if found(lines, old_name).any_line() {
        lemma_rename_round(lines, old_name, name);
        lemma_rounds_suffice(
            rename_round(lines, old_name, name),
            old_name,
            name,
            (k - 1) as nat,
        );
    }
}

/// Renaming ends, after no more rounds than are waited for, unless some line about the old name is
/// still about it when it was renamed twice.
pub proof fn law_renaming_ends(lines: Seq<Seq<char>>, old_name: Seq<char>, name: Seq<char>)
    requires
        rename_ready(normalized(lines, old_name), old_name, name),
    ensures
        rename_ends_soon(lines, old_name, name),
        rename_ends(lines, old_name, name),
{
    let now = normalized(lines, old_name);
    lemma_total_bound(now, old_name, name);
    lemma_rounds_suffice(now, old_name, name, rename_limit(now));
}

/// Renaming to a name that the lines can take always ends.
pub proof fn law_renaming_to_a_fitting_name_ends(
    lines: Seq<Seq<char>>,
    old_name: Seq<char>,
    name: Seq<char>,
)
    requires
        old_name.len() > 0,
        old_name != name,
        plain_name(name),
        forall|i: int|
            0 <= i < normalized(lines, old_name).len() && owned(
                #[trigger] normalized(lines, old_name)[i],
                old_name,
            ) ==> line_fits(normalized(lines, old_name)[i], old_name, name),
    ensures
        rename_ends_soon(lines, old_name, name),
        rename_ends(lines, old_name, name),
{
    let now = normalized(lines, old_name);
    assert forall|i: int| 0 <= i < now.len() implies !owned(
        line_renamed(line_renamed(#[trigger] now[i], old_name, name), old_name, name),
        old_name,
    ) || renames_left(now[i], old_name, name) <= 1 by {
        if owned(now[i], old_name) {
            lemma_line_renamed(now[i], old_name, name);
        }
    }
    law_renaming_ends(lines, old_name, name);
}

} // verus!
