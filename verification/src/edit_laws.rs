//! What setting and removing a rule does to the rules that the file states.

use crate::config::{
    braced, closes, cut, ends_in, lemma_cut, lemma_cut_at, like_spec, mark_at, member, outer,
    single_parts, stripped, uncommented, Outer,
};
use crate::rule_edit::{
    bare_open, blank, block_added, clone_base, clone_rules, cloned, close_upto, deleted, found,
    is_stop, lemma_block, lemma_locs, lemma_named, lemma_of_thread, lemma_pkg_upto,
    lemma_place_step, lemma_singles, loc_in, loc_removed, locs_removed, locs_upto, member_line,
    moved_all, next, normalized, of_thread, open_rule_line, open_upto, opens_in, pkg_idx, pkg_in,
    pkg_upto, place_at, reach, rule_line, singles, spliced, stay, stops_of, swapped, told_before,
    upserted, value_len, with_comment_of, within, Found, Loc, PkgAt, Place,
};
use crate::rule_laws::{
    is_note, lemma_bare_open, lemma_close_line, lemma_concat, lemma_cut_no_mark, lemma_member_line,
    lemma_no_mark_sub, lemma_one, lemma_open_rule_line, lemma_opening, lemma_outer_tidy,
    lemma_rule_line, lemma_spec_chars, lemma_trim_end_keeps, lemma_trim_end_tail, lemma_trim_sub,
    no_mark, rules_from, rules_of, says, tidy, Said,
};
use crate::text::{
    begins, is_space, last_of, lemma_last_of, lemma_last_of_at, lemma_trim_end_at,
    lemma_trim_end_prefix, lemma_trim_is_trimmed, lemma_trim_start_at, lemma_trimmed_fixed, trim,
    trim_end, trim_start,
};
use vstd::prelude::*;

verus! {

pub open spec fn all_space(s: Seq<char>) -> bool {
    forall|i: int| 0 <= i < s.len() ==> is_space(#[trigger] s[i])
}

/// Whether `t` is whitespace, with at most one `b` in it.
pub open spec fn brace_tail(t: Seq<char>, b: char) -> bool {
    trim_end(t).len() == 0 || (trim_end(t).last() == b && all_space(trim_end(t).drop_last()))
}

/// What trimming the start takes away is whitespace.
pub proof fn lemma_lead(s: Seq<char>)
    ensures
        trim_start(s).len() <= s.len(),
        trim_start(s) == s.skip(s.len() - trim_start(s).len()),
        all_space(s.take(s.len() - trim_start(s).len())),
        trim_start(s).len() > 0 ==> !is_space(trim_start(s)[0]),
    decreases s.len(),
{
    if s.len() > 0 && is_space(s[0]) {
        let t = s.drop_first();
        lemma_lead(t);
        let k = t.len() - trim_start(t).len();
        assert(t.skip(k) =~= s.skip(k + 1));
        let front = s.take(k + 1);
        assert forall|i: int| 0 <= i < front.len() implies is_space(#[trigger] front[i]) by {
            if i > 0 {
                assert(front[i] == t.take(k)[i - 1]);
            }
        }
    } else {
        assert(s.skip(0) =~= s);
    }
}

/// What trimming the end takes away is whitespace.
pub proof fn lemma_trail(s: Seq<char>)
    ensures
        trim_end(s).len() <= s.len(),
        trim_end(s) == s.take(trim_end(s).len() as int),
        all_space(s.skip(trim_end(s).len() as int)),
        trim_end(s).len() > 0 ==> !is_space(trim_end(s).last()),
    decreases s.len(),
{
    lemma_trim_end_prefix(s);
    if s.len() > 0 && is_space(s.last()) {
        let t = s.drop_last();
        lemma_trail(t);
        let k = trim_end(t).len() as int;
        let back = s.skip(k);
        assert forall|i: int| 0 <= i < back.len() implies is_space(#[trigger] back[i]) by {
            if i < back.len() - 1 {
                assert(back[i] == t.skip(k)[i]);
            } else {
                assert(back[i] == s.last());
            }
        }
    }
}

pub proof fn lemma_trim_start_lead(lead: Seq<char>, s: Seq<char>)
    requires
        all_space(lead),
    ensures
        trim_start(lead + s) == trim_start(s),
    decreases lead.len(),
{
    let t = lead + s;
    if lead.len() == 0 {
        assert(t =~= s);
    } else {
        assert(is_space(lead[0]));
        assert(t[0] == lead[0]);
        let rest = lead.drop_first();
        assert forall|i: int| 0 <= i < rest.len() implies is_space(#[trigger] rest[i]) by {
            assert(rest[i] == lead[i + 1]);
        }
        assert(t.drop_first() =~= rest + s);
        lemma_trim_start_lead(rest, s);
    }
}

pub proof fn lemma_trim_all_space(s: Seq<char>)
    requires
        all_space(s),
    ensures
        trim_end(s) == Seq::<char>::empty(),
        trim_start(s) == Seq::<char>::empty(),
        trim(s) == Seq::<char>::empty(),
{
    lemma_trim_end_at(s, 0);
    assert(s.take(0) =~= Seq::<char>::empty());
    lemma_trim_start_at(s, s.len() as int);
    assert(s.skip(s.len() as int) =~= Seq::<char>::empty());
}

/// A trimmed body with whitespace before it, whitespace behind it, and a comment at the end.
pub proof fn lemma_framed(lead: Seq<char>, body: Seq<char>, gap: Seq<char>, note: Seq<char>)
    requires
        all_space(lead),
        all_space(gap),
        is_note(note),
        tidy(body),
        body.last() != '/' || gap.len() > 0 || note.len() == 0,
    ensures
        !blank(trim(lead + body + gap + note)),
        uncommented(trim(lead + body + gap + note)) == body,
        no_mark(lead) ==> cut(lead + body + gap + note) == lead.len() + body.len() + gap.len(),
{
    reveal_strlit("//");
    let raw = lead + body + gap + note;
    let inner = body + (gap + note);
    let n = body.len() as int;
    let g = gap.len() as int;
    assert(raw =~= lead + inner);
    assert(inner[0] == body[0]);
    assert(body[n - 1] == body.last());
    lemma_trim_start_lead(lead, inner);
    assert(trim_start(inner) == inner);
    lemma_trim_end_tail(body, gap + note);
    let p = trim(raw);
    assert(p == body + trim_end(gap + note));
    assert forall|i: int| 0 <= i < g implies !is_mark_char(#[trigger] gap[i]) by {
        assert(is_space(gap[i]));
    }
    if note.len() == 0 {
        assert(gap + note =~= gap);
        lemma_trim_all_space(gap);
        assert(p =~= body);
        lemma_cut_at(p, n);
        assert(p.take(n) =~= body);
        lemma_trimmed_fixed(body);
    } else {
        assert(mark_at(note, 0));
        assert(!is_space(note[0]));
        // trim_end(gap + note) keeps gap and the mark
        let gn = gap + note;
        let m: int = if note[0] == '#' {
            1
        } else {
            2
        };
        assert(gn[g] == note[0]);
        assert(gn[g + m - 1] == note[m - 1]);
        lemma_trim_end_keeps(gn, g + m);
        lemma_trim_end_prefix(gn);
        let t = trim_end(gn);
        assert forall|i: int| 0 <= i < g + m implies #[trigger] t[i] == gn[i] by {}
        assert(p.len() >= n + g + m);
        assert forall|i: int| 0 <= i < n implies #[trigger] p[i] == body[i] by {}
        assert forall|i: int| n <= i < n + g + m implies #[trigger] p[i] == gn[i - n] by {
            assert(p[i] == t[i - n]);
        }
        assert forall|i: int| 0 <= i < n + g implies !#[trigger] mark_at(p, i) by {
            if i < n {
                assert(!mark_at(body, i));
                assert(p[i] == body[i]);
                if i + 1 < n {
                    assert(p[i + 1] == body[i + 1]);
                } else if g > 0 {
                    assert(p[i + 1] == gn[0]);
                    assert(gn[0] == gap[0]);
                    assert(is_space(gap[0]));
                }
            } else {
                assert(p[i] == gn[i - n]);
                assert(gn[i - n] == gap[i - n]);
                assert(is_space(gap[i - n]));
            }
        }
        assert(mark_at(p, n + g)) by {
            assert(p[n + g] == gn[g]);
            if m == 2 {
                assert(p[n + g + 1] == gn[g + 1]);
                assert(gn[g + 1] == note[1]);
            }
        }
        lemma_cut_at(p, n + g);
        assert(p.take(n + g) =~= body + gap);
        lemma_trim_end_tail(body, gap);
        lemma_trim_all_space(gap);
        assert(body + Seq::<char>::empty() =~= body);
    }
    assert(p[0] == body[0]);
    assert(!mark_at(body, 0));
    if begins(p, "//"@) {
        assert(p.take(2)[0] == '/' && p.take(2)[1] == '/');
        if n > 1 {
            assert(p[1] == body[1]);
            assert(mark_at(body, 0));
        } else {
            assert(p.len() >= 2);
            assert(cut(p) >= n);
            lemma_cut(p);
            assert(!mark_at(p, 0));
        }
    }
    if no_mark(lead) {
        let total = lead.len() + n + g;
        assert forall|i: int| 0 <= i < total implies !#[trigger] mark_at(raw, i) by {
            let l = lead.len() as int;
            if i < l {
                assert(raw[i] == lead[i]);
                assert(is_space(lead[i]));
            } else if i < l + n {
                assert(!mark_at(body, i - l));
                assert(raw[i] == body[i - l]);
                if i + 1 < l + n {
                    assert(raw[i + 1] == body[i + 1 - l]);
                } else if g > 0 {
                    assert(raw[i + 1] == gap[0]);
                    assert(is_space(gap[0]));
                }
            } else {
                assert(raw[i] == gap[i - l - n]);
                assert(is_space(gap[i - l - n]));
            }
        }
        if note.len() > 0 {
            assert(mark_at(raw, total as int)) by {
                assert(raw[total as int] == note[0]);
                if note.len() > 1 {
                    assert(raw[total + 1] == note[1]);
                }
            }
        }
        lemma_cut_at(raw, total as int);
    }
}

spec fn is_mark_char(c: char) -> bool {
    c == '#' || c == '/'
}

/// The part of a line before its value: a name, `=`, and whitespace.
pub open spec fn value_head(x: Seq<char>) -> bool {
    no_mark(x) && (last_of(x, '=') matches Some(e) && all_space(x.skip(e + 1)))
}

/// What a line of the form name, `=`, value, brace, comment is read as.
pub proof fn lemma_shape(x: Seq<char>, v: Seq<char>, t: Seq<char>, note: Seq<char>, b: char)
    requires
        value_head(x),
        like_spec(v),
        brace_tail(t, b),
        b == '{' || b == '}',
        is_note(note),
    ensures
        ({
            let p = trim(x + v + t + note);
            let core = trim_start(x) + v;
            let e = last_of(x, '=')->0 - (x.len() - trim_start(x).len());
            &&& !blank(p)
            &&& !closes(p)
            &&& ends_in(p, b) == (trim_end(t).len() > 0)
            &&& stripped(p, b) == core
            &&& 0 <= e < trim_start(x).len()
            &&& last_of(core, '=') == Some(e)
            &&& core.take(e) == trim_start(x).take(e)
            &&& trim(core.skip(e + 1)) == v
            &&& cut(x + v + t + note) == x.len() + v.len() + t.len()
        }),
{
    let eq = last_of(x, '=')->0;
    lemma_last_of(x, '=');
    lemma_lead(x);
    lemma_spec_chars(v);
    lemma_trail(t);
    let y = trim_start(x);
    let k = x.len() - y.len();
    let lead = x.take(k);
    assert(eq >= k) by {
        if eq < k {
            assert(lead[eq] == '=');
            assert(is_space(lead[eq]));
        }
    }
    let e = eq - k;
    assert(y[e] == x[eq]);
    let tt = trim_end(t);
    let core = y + v;
    let body = core + tt;
    let gap = t.skip(tt.len() as int);
    let raw = x + v + t + note;
    assert(x =~= lead + y);
    assert(t =~= tt + gap);
    assert(raw =~= lead + body + gap + note);
    // the body is tidy
    assert forall|i: int| 0 <= i < body.len() implies !#[trigger] mark_at(body, i) by {
        if i < y.len() {
            assert(!mark_at(x, i + k));
            assert(body[i] == x[i + k]);
            if i + 1 < y.len() {
                assert(body[i + 1] == x[i + k + 1]);
            } else {
                assert(body[i + 1] == v[0]);
            }
        } else if i < core.len() {
            assert(body[i] == v[i - y.len()]);
        } else {
            assert(body[i] == tt[i - core.len()]);
            if i - core.len() == tt.len() - 1 {
                assert(tt[tt.len() - 1] == tt.last());
            } else {
                assert(tt.drop_last()[i - core.len()] == tt[i - core.len()]);
                assert(is_space(tt.drop_last()[i - core.len()]));
            }
        }
    }
    assert(body[0] == y[0]);
    assert(!is_space(y[0]));
    assert(v[v.len() - 1] == v.last());
    if tt.len() == 0 {
        assert(body =~= core);
        assert(body.last() == v.last());
    } else {
        assert(body.last() == tt.last());
        assert(!is_space(b));
    }
    assert(no_mark(lead)) by {
        lemma_no_mark_sub(x, 0, k);
        assert(lead =~= x.subrange(0, k));
    }
    lemma_framed(lead, body, gap, note);
    let p = trim(raw);
    assert(uncommented(p) == body);
    assert(body.len() > 1);
    if tt.len() > 0 {
        let inner = tt.drop_last();
        assert(body.drop_last() =~= core + inner);
        assert(core.last() == v.last());
        assert(!is_space(core.last()));
        lemma_trim_end_tail(core, inner);
        lemma_trim_all_space(inner);
        assert(core + Seq::<char>::empty() =~= core);
    } else {
        assert(v.last() != b);
    }
    // the last `=`
    assert(core[e] == '=');
    assert forall|i: int| e < i < core.len() implies #[trigger] core[i] != '=' by {
        if i < y.len() {
            assert(core[i] == x[i + k]);
        } else {
            assert(core[i] == v[i - y.len()]);
        }
    }
    lemma_last_of_at(core, '=', e);
    assert(core.take(e) =~= y.take(e));
    let blanks = x.skip(eq + 1);
    assert(core.skip(e + 1) =~= blanks + v);
    lemma_trim_start_lead(blanks, v);
    lemma_trimmed_fixed(v);
}

/// The value of a rule line can be taken out: what stands before it, the value, what stands behind
/// it, and the comment.
pub proof fn lemma_take_apart(raw: Seq<char>, b: char, fresh: Seq<char>) -> (r: (
    Seq<char>,
    Seq<char>,
    Seq<char>,
    Seq<char>,
))
    requires
        !blank(trim(raw)),
        b == '{' || b == '}',
        last_of(stripped(trim(raw), b), '=') matches Some(e) && like_spec(
            trim(stripped(trim(raw), b).skip(e + 1)),
        ),
    ensures
        value_head(r.0),
        like_spec(r.1),
        brace_tail(r.2, b),
        is_note(r.3),
        raw == r.0 + r.1 + r.2 + r.3,
        swapped(raw, fresh) == r.0 + fresh + r.2 + r.3,
{
    let head = raw.take(cut(raw));
    let note = raw.skip(cut(raw));
    lemma_cut_no_mark(raw);
    lemma_bare_body(raw);
    let core = stripped(trim(raw), b);
    let e = last_of(core, '=')->0;
    lemma_body_parts(head, b);
    let (x, v, t) = lemma_head_parts(head, core, e, b);
    assert(raw =~= x + v + t + note);
    lemma_swapped(x, v, t, note, b, fresh);
    (x, v, t, note)
}

/// What is left of a trimmed body when its brace is taken off is a front part of it.
proof fn lemma_body_parts(head: Seq<char>, b: char)
    requires
        trim(head).len() > 0,
        b == '{' || b == '}',
    ensures
        ({
            let body = trim(head);
            let core = if body.last() == b {
                trim_end(body.drop_last())
            } else {
                body
            };
            let rear = body.skip(core.len() as int);
            core.len() <= body.len() && body == core + rear && (rear.len() == 0 || (rear.last() == b
                && all_space(rear.drop_last())))
        }),
{
    let body = trim(head);
    if body.last() == b {
        let short = body.drop_last();
        lemma_trail(short);
        let core = trim_end(short);
        let rear = body.skip(core.len() as int);
        assert(rear.last() == body.last());
        assert(rear.drop_last() =~= short.skip(core.len() as int));
        assert(body =~= core + rear);
    } else {
        let rear = body.skip(body.len() as int);
        assert(rear =~= Seq::<char>::empty());
        assert(body =~= body + rear);
    }
}

/// The three parts of what stands before the comment.
#[verifier::rlimit(60)]
#[verifier::spinoff_prover]
proof fn lemma_head_parts(head: Seq<char>, core: Seq<char>, e: int, b: char) -> (r: (
    Seq<char>,
    Seq<char>,
    Seq<char>,
))
    requires
        no_mark(head),
        b == '{' || b == '}',
        core.len() <= trim(head).len(),
        trim(head) == core + trim(head).skip(core.len() as int),
        ({
            let rear = trim(head).skip(core.len() as int);
            rear.len() == 0 || (rear.last() == b && all_space(rear.drop_last()))
        }),
        last_of(core, '=') == Some(e),
        like_spec(trim(core.skip(e + 1))),
    ensures
        value_head(r.0),
        like_spec(r.1),
        brace_tail(r.2, b),
        head == r.0 + r.1 + r.2,
{
    let body = trim(head);
    let rear = body.skip(core.len() as int);
    lemma_lead(head);
    let y = trim_start(head);
    let k = head.len() - y.len();
    lemma_trail(y);
    let gap = y.skip(body.len() as int);
    lemma_last_of(core, '=');
    let rs = core.skip(e + 1);
    lemma_lead(rs);
    let rv = trim_start(rs);
    let lw = rs.len() - rv.len();
    lemma_trail(rv);
    let v = trim_end(rv);
    let mid = rv.skip(v.len() as int);
    let t = mid + rear + gap;
    let front = head.take(k) + core.take(e + 1) + rs.take(lw);
    assert(head == head.take(k) + y);
    assert(y == body + gap);
    assert(core == core.take(e + 1) + rs);
    assert(rs == rs.take(lw) + rv);
    assert(rv == v + mid);
    lemma_regroup(head.take(k), core.take(e + 1), rs.take(lw), v, mid, rear, gap);
    lemma_value_head(head.take(k), core.take(e + 1), rs.take(lw), v + t);
    lemma_brace_tail(mid, rear, gap, b);
    (front, v, t)
}

proof fn lemma_regroup(
    a: Seq<char>,
    b: Seq<char>,
    c: Seq<char>,
    d: Seq<char>,
    e: Seq<char>,
    f: Seq<char>,
    g: Seq<char>,
)
    ensures
        a + (((b + (c + (d + e))) + f) + g) == (a + b + c) + d + (e + f + g),
        a + (((b + (c + (d + e))) + f) + g) == (a + b + c) + (d + (e + f + g)),
{
    assert(a + (((b + (c + (d + e))) + f) + g) =~= (a + b + c) + d + (e + f + g));
    assert(a + (((b + (c + (d + e))) + f) + g) =~= (a + b + c) + (d + (e + f + g)));
}

proof fn lemma_value_head(a: Seq<char>, b: Seq<char>, blanks: Seq<char>, rest: Seq<char>)
    requires
        b.len() > 0,
        b.last() == '=',
        all_space(blanks),
        no_mark((a + b + blanks) + rest),
    ensures
        value_head(a + b + blanks),
{
    let whole = (a + b + blanks) + rest;
    let front = a + b + blanks;
    let eq = a.len() + b.len() - 1;
    assert(no_mark(front)) by {
        lemma_no_mark_sub(whole, 0, front.len() as int);
        assert(front =~= whole.subrange(0, front.len() as int));
    }
    assert(front[eq] == b[b.len() - 1]);
    assert forall|i: int| eq < i < front.len() implies #[trigger] front[i] != '=' by {
        assert(front[i] == blanks[i - eq - 1]);
        assert(is_space(blanks[i - eq - 1]));
    }
    lemma_last_of_at(front, '=', eq);
    assert(front.skip(eq + 1) =~= blanks);
}

proof fn lemma_brace_tail(mid: Seq<char>, rear: Seq<char>, gap: Seq<char>, b: char)
    requires
        b == '{' || b == '}',
        all_space(mid),
        all_space(gap),
        rear.len() == 0 || (rear.last() == b && all_space(rear.drop_last())),
    ensures
        brace_tail(mid + rear + gap, b),
{
    let t = mid + rear + gap;
    if rear.len() == 0 {
        assert forall|i: int| 0 <= i < t.len() implies is_space(#[trigger] t[i]) by {
            if i < mid.len() {
                assert(t[i] == mid[i]);
            } else {
                assert(t[i] == gap[i - mid.len()]);
            }
        }
        lemma_trim_all_space(t);
    } else {
        let mr = mid + rear;
        assert(mr.last() == b);
        assert(!is_space(b));
        lemma_trim_end_tail(mr, gap);
        lemma_trim_all_space(gap);
        assert(mr + Seq::<char>::empty() =~= mr);
        assert forall|i: int| 0 <= i < mr.drop_last().len() implies is_space(
            #[trigger] mr.drop_last()[i],
        ) by {
            if i < mid.len() {
                assert(mr.drop_last()[i] == mid[i]);
            } else {
                assert(mr.drop_last()[i] == rear.drop_last()[i - mid.len()]);
            }
        }
    }
}

/// Swapping the value touches nothing but the value.
proof fn lemma_swapped(
    x: Seq<char>,
    v: Seq<char>,
    t: Seq<char>,
    note: Seq<char>,
    b: char,
    fresh: Seq<char>,
)
    requires
        value_head(x),
        like_spec(v),
        brace_tail(t, b),
        b == '{' || b == '}',
        is_note(note),
    ensures
        swapped(x + v + t + note, fresh) == x + fresh + t + note,
{
    let raw = x + v + t + note;
    lemma_shape(x, v, t, note, b);
    lemma_spec_chars(v);
    lemma_tail_stops(t, b);
    let head = raw.take(cut(raw));
    assert(head =~= x + v + t);
    assert(raw.skip(cut(raw)) =~= note);
    let eq = last_of(x, '=')->0;
    lemma_last_of(x, '=');
    assert(last_of(head, '=') == Some(eq)) by {
        assert(head[eq] == x[eq]);
        assert forall|i: int| eq < i < head.len() implies #[trigger] head[i] != '=' by {
            if i < x.len() {
                assert(head[i] == x[i]);
            } else if i < x.len() + v.len() {
                assert(head[i] == v[i - x.len()]);
            } else {
                assert(head[i] == t[i - x.len() - v.len()]);
                assert(is_stop(t[i - x.len() - v.len()]));
            }
        }
        lemma_last_of_at(head, '=', eq);
    }
    let rhs = head.skip(eq + 1);
    let blanks = x.skip(eq + 1);
    let val = v + t;
    assert(rhs =~= blanks + val);
    lemma_trim_start_lead(blanks, val);
    assert(val[0] == v[0]);
    assert(trim_start(val) == val);
    assert forall|i: int| 0 <= i < v.len() implies !is_stop(#[trigger] v[i]) by {}
    lemma_value_len(v, t);
    assert(val.skip(v.len() as int) =~= t);
    lemma_stops_all(t);
    assert(raw.take(x.len() as int) =~= x);
}

proof fn lemma_tail_stops(t: Seq<char>, b: char)
    requires
        brace_tail(t, b),
        b == '{' || b == '}',
    ensures
        forall|i: int| 0 <= i < t.len() ==> is_stop(#[trigger] t[i]),
{
    lemma_trail(t);
    let tt = trim_end(t);
    assert forall|i: int| 0 <= i < t.len() implies is_stop(#[trigger] t[i]) by {
        if i < tt.len() - 1 {
            assert(t[i] == tt.drop_last()[i]);
        } else if i == tt.len() - 1 {
            assert(t[i] == tt.last());
        } else {
            assert(t[i] == t.skip(tt.len() as int)[i - tt.len()]);
        }
    }
}

pub proof fn lemma_value_len(v: Seq<char>, t: Seq<char>)
    requires
        forall|i: int| 0 <= i < v.len() ==> !is_stop(#[trigger] v[i]),
        t.len() > 0 ==> is_stop(t[0]),
    ensures
        value_len(v + t) == v.len(),
    decreases v.len(),
{
    let s = v + t;
    if v.len() == 0 {
        assert(s =~= t);
    } else {
        assert(s[0] == v[0]);
        let w = v.drop_first();
        assert forall|i: int| 0 <= i < w.len() implies !is_stop(#[trigger] w[i]) by {
            assert(w[i] == v[i + 1]);
        }
        assert(s.drop_first() =~= w + t);
        lemma_value_len(w, t);
    }
}

pub proof fn lemma_stops_all(t: Seq<char>)
    requires
        forall|i: int| 0 <= i < t.len() ==> is_stop(#[trigger] t[i]),
    ensures
        stops_of(t) == t,
    decreases t.len(),
{
    if t.len() > 0 {
        assert(is_stop(t[t.len() - 1]));
        let u = t.drop_last();
        assert forall|i: int| 0 <= i < u.len() implies is_stop(#[trigger] u[i]) by {
            assert(u[i] == t[i]);
        }
        lemma_stops_all(u);
        assert(u.push(t.last()) =~= t);
    }
}

/// The line without its comment, trimmed, is what a reader sees.
pub proof fn lemma_bare_body(raw: Seq<char>)
    requires
        !blank(trim(raw)),
    ensures
        uncommented(trim(raw)) == trim(raw.take(cut(raw))),
        trim(raw.take(cut(raw))).len() > 0,
{
    reveal_strlit("//");
    let c = cut(raw);
    let head = raw.take(c);
    let note = raw.skip(c);
    lemma_cut_no_mark(raw);
    lemma_lead(head);
    let y = trim_start(head);
    let k = head.len() - y.len();
    let lead = head.take(k);
    lemma_trail(y);
    let body = trim_end(y);
    let gap = y.skip(body.len() as int);
    assert(y =~= body + gap);
    assert(raw =~= lead + body + gap + note);
    if body.len() == 0 {
        // the line is whitespace and a comment
        let space = lead + gap;
        assert forall|i: int| 0 <= i < space.len() implies is_space(#[trigger] space[i]) by {
            if i < lead.len() {
                assert(space[i] == lead[i]);
            } else {
                assert(space[i] == gap[i - lead.len()]);
            }
        }
        assert(raw =~= space + note);
        lemma_trim_start_lead(space, note);
        if note.len() > 0 {
            assert(mark_at(note, 0));
            assert(trim_start(note) == note);
            let m: int = if note[0] == '#' {
                1
            } else {
                2
            };
            lemma_trim_end_keeps(note, m);
            lemma_trim_end_prefix(note);
            let p = trim(raw);
            assert(p[0] == note[0]);
            if m == 2 {
                assert(p[1] == note[1]);
                assert(p.take(2) =~= "//"@);
            }
        } else {
            assert(trim_start(note) == note);
        }
        assert(false);
    }
    lemma_no_mark_sub(head, k, k + body.len());
    assert(body =~= head.subrange(k, k + body.len()));
    assert(body[0] == y[0]);
    if body.last() == '/' && gap.len() == 0 && note.len() > 0 {
        // the mark would begin one character earlier
        if note[0] == '/' {
            lemma_cut(raw);
            assert(raw[c - 1] == body.last());
            assert(raw[c] == note[0]);
            assert(mark_at(raw, c - 1));
        }
    }
    lemma_framed_slash(lead, body, gap, note);
}

/// As for `lemma_framed`, where `#` may follow a `/` directly.
proof fn lemma_framed_slash(lead: Seq<char>, body: Seq<char>, gap: Seq<char>, note: Seq<char>)
    requires
        all_space(lead),
        all_space(gap),
        is_note(note),
        tidy(body),
        body.last() != '/' || gap.len() > 0 || note.len() == 0 || note[0] == '#',
    ensures
        uncommented(trim(lead + body + gap + note)) == body,
{
    if body.last() != '/' || gap.len() > 0 || note.len() == 0 {
        lemma_framed(lead, body, gap, note);
    } else {
        let raw = lead + body + gap + note;
        let inner = body + note;
        let n = body.len() as int;
        assert(raw =~= lead + inner);
        assert(inner[0] == body[0]);
        lemma_trim_start_lead(lead, inner);
        assert(trim_start(inner) == inner);
        assert(body[n - 1] == body.last());
        lemma_trim_end_tail(body, note);
        lemma_trim_end_keeps(note, 1);
        lemma_trim_end_prefix(note);
        let p = trim(raw);
        assert(p[n] == note[0]);
        assert forall|i: int| 0 <= i < n implies !#[trigger] mark_at(p, i) by {
            assert(!mark_at(body, i));
            assert(p[i] == body[i]);
            if i + 1 < n {
                assert(p[i + 1] == body[i + 1]);
            }
        }
        lemma_cut_at(p, n);
        assert(p.take(n) =~= body);
        lemma_trimmed_fixed(body);
    }
}

/// A rule inside a block keeps its thread when its value is swapped, and still closes the block or
/// not.
pub proof fn lemma_swapped_member(raw: Seq<char>, cpus: Seq<char>)
    requires
        !blank(trim(raw)),
        member(trim(raw)) is Some,
        like_spec(cpus),
    ensures
        !blank(trim(swapped(raw, cpus))),
        !closes(trim(raw)),
        !closes(trim(swapped(raw, cpus))),
        member(trim(swapped(raw, cpus))) == match member(trim(raw)) {
            Some((name, _, closed)) => Some((name, cpus, closed)),
            None => None,
        },
{
    let (x, v, t, note) = lemma_take_apart(raw, '}', cpus);
    lemma_shape(x, v, t, note, '}');
    lemma_shape(x, cpus, t, note, '}');
}

/// A rule outside a block keeps its names when its value is swapped, and still opens a block or
/// not.
pub proof fn lemma_swapped_outer(raw: Seq<char>, cpus: Seq<char>)
    requires
        !blank(trim(raw)),
        outer(trim(raw)) is Single || outer(trim(raw)) is Rule,
        like_spec(cpus),
    ensures
        !blank(trim(swapped(raw, cpus))),
        outer(trim(swapped(raw, cpus))) == match outer(trim(raw)) {
            Outer::Single { pkg, thread, open, .. } => Outer::Single { pkg, thread, cpus, open },
            Outer::Rule { pkg, open, .. } => Outer::Rule { pkg, cpus, open },
            other => other,
        },
{
    let (x, v, t, note) = lemma_take_apart(raw, '{', cpus);
    lemma_shape(x, v, t, note, '{');
    lemma_shape(x, cpus, t, note, '{');
    lemma_spec_chars(v);
    lemma_spec_chars(cpus);
}

/// The rules other than those of `thread` of `pkg`.
pub open spec fn besides(rules: Seq<Said>, pkg: Seq<char>, thread: Seq<char>) -> Seq<Said>
    decreases rules.len(),
{
    if rules.len() == 0 {
        seq![]
    } else if rules.last().pkg == pkg && rules.last().thread == thread {
        besides(rules.drop_last(), pkg, thread)
    } else {
        besides(rules.drop_last(), pkg, thread).push(rules.last())
    }
}

/// The CPUs of the rules of `thread` of `pkg`.
pub open spec fn cpus_for(rules: Seq<Said>, pkg: Seq<char>, thread: Seq<char>) -> Seq<Seq<char>>
    decreases rules.len(),
{
    if rules.len() == 0 {
        seq![]
    } else if rules.last().pkg == pkg && rules.last().thread == thread {
        cpus_for(rules.drop_last(), pkg, thread).push(rules.last().cpus)
    } else {
        cpus_for(rules.drop_last(), pkg, thread)
    }
}

pub proof fn lemma_parted(a: Seq<Said>, b: Seq<Said>, pkg: Seq<char>, thread: Seq<char>)
    ensures
        besides(a + b, pkg, thread) == besides(a, pkg, thread) + besides(b, pkg, thread),
        cpus_for(a + b, pkg, thread) == cpus_for(a, pkg, thread) + cpus_for(b, pkg, thread),
    decreases b.len(),
{
    if b.len() == 0 {
        assert(a + b =~= a);
        assert(besides(a, pkg, thread) + besides(b, pkg, thread) =~= besides(a, pkg, thread));
        assert(cpus_for(a, pkg, thread) + cpus_for(b, pkg, thread) =~= cpus_for(a, pkg, thread));
    } else {
        let c = b.drop_last();
        lemma_parted(a, c, pkg, thread);
        assert((a + b).drop_last() =~= a + c);
        assert((a + b).last() == b.last());
        assert(besides(a, pkg, thread) + besides(b, pkg, thread) =~= besides(a + b, pkg, thread));
        assert(cpus_for(a, pkg, thread) + cpus_for(b, pkg, thread) =~= cpus_for(a + b, pkg, thread));
    }
}

pub proof fn lemma_single_rule(rule: Said, pkg: Seq<char>, thread: Seq<char>)
    ensures
        rule.pkg == pkg && rule.thread == thread ==> besides(seq![rule], pkg, thread) == Seq::<
            Said,
        >::empty() && cpus_for(seq![rule], pkg, thread) == seq![rule.cpus],
        !(rule.pkg == pkg && rule.thread == thread) ==> besides(seq![rule], pkg, thread) == seq![
            rule,
        ] && cpus_for(seq![rule], pkg, thread) == Seq::<Seq<char>>::empty(),
{
    let one = seq![rule];
    assert(one.drop_last() =~= seq![]);
    assert(one.last() == rule);
    assert(besides(one.drop_last(), pkg, thread) =~= seq![]);
    assert(cpus_for(one.drop_last(), pkg, thread) =~= seq![]);
    assert(seq![].push(rule) =~= seq![rule]);
    assert(seq![].push(rule.cpus) =~= seq![rule.cpus]);
}

/// The rules before a line, on it, and behind it.
pub proof fn lemma_around(lines: Seq<Seq<char>>, i: int)
    requires
        0 <= i < lines.len(),
    ensures
        rules_of(lines) == rules_of(lines.take(i)) + (match says(place_at(lines, i), lines[i]) {
            Some(rule) => seq![rule],
            None => seq![],
        }) + rules_from(place_at(lines, i + 1), lines.skip(i + 1)),
        reach(Place::Top, lines) == reach(place_at(lines, i + 1), lines.skip(i + 1)),
        place_at(lines, i + 1) == next(place_at(lines, i), lines[i]),
{
    let head = lines.take(i);
    let tail = lines.skip(i + 1);
    let one = seq![lines[i]];
    lemma_place_step(lines, i);
    lemma_one(place_at(lines, i), lines[i]);
    assert(lines =~= (head + one) + tail);
    assert(head + one =~= lines.take(i + 1));
    lemma_concat(Place::Top, head, one);
    lemma_concat(Place::Top, head + one, tail);
}

/// Other lines in place of a line, when a reader stands behind them where the line had led.
pub proof fn lemma_replaced(lines: Seq<Seq<char>>, i: int, items: Seq<Seq<char>>)
    requires
        0 <= i < lines.len(),
        reach(place_at(lines, i), items) == place_at(lines, i + 1),
    ensures
        rules_of(lines.take(i) + items + lines.skip(i + 1)) == rules_of(lines.take(i)) + rules_from(
            place_at(lines, i),
            items,
        ) + rules_from(place_at(lines, i + 1), lines.skip(i + 1)),
        reach(Place::Top, lines.take(i) + items + lines.skip(i + 1)) == reach(Place::Top, lines),
{
    let head = lines.take(i);
    let tail = lines.skip(i + 1);
    lemma_around(lines, i);
    lemma_concat(Place::Top, head, items);
    lemma_concat(Place::Top, head + items, tail);
}

/// What a thread rule found by a scan says.
pub proof fn lemma_loc_says(place: Place, raw: Seq<char>, pkg: Seq<char>, thread: Seq<char>, i: int)
    requires
        thread.len() > 0,
    ensures
        (loc_in(place, raw, pkg, i) matches Some(loc) && loc.name == thread) <==> (says(place, raw)
            matches Some(rule) && rule.pkg == pkg && rule.thread == thread),
{
    lemma_outer_tidy(trim(raw));
}

/// Whether a block of `pkg` is closed on `lines`, read from `start`.
pub open spec fn shuts(start: Place, lines: Seq<Seq<char>>, pkg: Seq<char>) -> bool
    decreases lines.len(),
{
    lines.len() > 0 && (shuts(start, lines.drop_last(), pkg) || (reach(start, lines.drop_last())
        == Place::Block(pkg) && !(reach(start, lines) is Block)))
}

pub proof fn lemma_shuts_concat(start: Place, a: Seq<Seq<char>>, b: Seq<Seq<char>>, pkg: Seq<char>)
    ensures
        shuts(start, a + b, pkg) == (shuts(start, a, pkg) || shuts(reach(start, a), b, pkg)),
    decreases b.len(),
{
    if b.len() == 0 {
        assert(a + b =~= a);
    } else {
        let c = b.drop_last();
        lemma_shuts_concat(start, a, c, pkg);
        lemma_concat(start, a, b);
        lemma_concat(start, a, c);
        assert((a + b).drop_last() =~= a + c);
    }
}

/// Whether the first of the lines that says anything is no `{` alone.
pub open spec fn calm(lines: Seq<Seq<char>>) -> bool
    decreases lines.len(),
{
    lines.len() > 0 ==> if blank(trim(lines[0])) {
        calm(lines.drop_first())
    } else {
        outer(trim(lines[0])) != (Outer::BareOpen { pkg: seq![] })
    }
}

/// Lines that do not begin with a `{` alone say the same behind a bare name as without it.
proof fn lemma_calm(name: Seq<char>, lines: Seq<Seq<char>>, pkg: Seq<char>)
    requires
        calm(lines),
    ensures
        rules_from(Place::Named(name), lines) == rules_from(Place::Top, lines),
        shuts(Place::Named(name), lines, pkg) == shuts(Place::Top, lines, pkg),
    decreases lines.len(),
{
    if lines.len() > 0 {
        let one = seq![lines[0]];
        let rest = lines.drop_first();
        let (named, top) = (Place::Named(name), Place::Top);
        assert(lines =~= one + rest);
        lemma_one(named, lines[0]);
        lemma_one(top, lines[0]);
        lemma_concat(named, one, rest);
        lemma_concat(top, one, rest);
        lemma_shuts_concat(named, one, rest, pkg);
        lemma_shuts_concat(top, one, rest, pkg);
        let none = Seq::<Seq<char>>::empty();
        assert(one.drop_last() =~= none);
        assert(reach(named, none) == named && reach(top, none) == top);
        assert(!shuts(named, none, pkg) && !shuts(top, none, pkg));
        if blank(trim(lines[0])) {
            lemma_calm(name, rest, pkg);
        } else if let Outer::BareOpen { pkg: owner } = outer(trim(lines[0])) {
            if owner.len() == 0 {
                assert(owner =~= seq![]);
            }
        }
    }
}

/// Other lines that say nothing in place of a line: they lead where the line had led, or nothing
/// stands in its place behind a bare name that the line had made idle.
proof fn lemma_cut_out(lines: Seq<Seq<char>>, i: int, items: Seq<Seq<char>>, pkg: Seq<char>)
    requires
        0 <= i < lines.len(),
        rules_from(place_at(lines, i), items) == Seq::<Said>::empty(),
        reach(place_at(lines, i), items) == place_at(lines, i + 1) || (items.len() == 0 && place_at(
            lines,
            i,
        ) is Named && place_at(lines, i + 1) is Top && calm(lines.skip(i + 1))),
    ensures
        rules_from(place_at(lines, i), items + lines.skip(i + 1)) == rules_from(
            place_at(lines, i + 1),
            lines.skip(i + 1),
        ),
        rules_of(lines.take(i) + items + lines.skip(i + 1)) == rules_of(lines.take(i)) + rules_from(
            place_at(lines, i + 1),
            lines.skip(i + 1),
        ),
        shuts(reach(place_at(lines, i), items), lines.skip(i + 1), pkg) == shuts(
            place_at(lines, i + 1),
            lines.skip(i + 1),
            pkg,
        ),
{
    let place = place_at(lines, i);
    let head = lines.take(i);
    let tail = lines.skip(i + 1);
    let rest = rules_from(place_at(lines, i + 1), tail);
    if items.len() == 0 {
        assert(items =~= seq![]);
        assert(reach(place, items) == place);
    }
    if reach(place, items) != place_at(lines, i + 1) {
        lemma_calm(place->Named_0, tail, pkg);
    }
    lemma_concat(place, items, tail);
    assert(Seq::<Said>::empty() + rest =~= rest);
    lemma_concat(Place::Top, head, items + tail);
    assert(head + items + tail =~= head + (items + tail));
}

/// The lines that stand in for a removed thread rule.
pub open spec fn stand_in(raw: Seq<char>, pkg: Seq<char>, loc: Loc) -> Seq<Seq<char>> {
    if loc.open {
        seq![with_comment_of(bare_open(pkg), raw)]
    } else if loc.closed {
        seq![with_comment_of("}"@, raw)]
    } else {
        seq![]
    }
}

/// Removing a thread rule takes its rule away and changes nothing else, unless that brings a `{`
/// alone behind a bare name.
pub proof fn lemma_loc_removed(lines: Seq<Seq<char>>, pkg: Seq<char>, loc: Loc)
    requires
        0 <= loc.idx < lines.len(),
        loc_in(place_at(lines, loc.idx), lines[loc.idx], pkg, loc.idx) == Some(loc),
        loc.single && !loc.open ==> place_at(lines, loc.idx) is Top || calm(
            lines.skip(loc.idx + 1),
        ),
    ensures
        ({
            let i = loc.idx;
            let r = loc_removed(lines, pkg, loc);
            let place = place_at(lines, i);
            let items = stand_in(lines[i], pkg, loc);
            &&& r == lines.take(i) + items + lines.skip(i + 1)
            &&& r.take(i) == lines.take(i)
            &&& r.skip(i) == items + lines.skip(i + 1)
            &&& r.len() >= i
            &&& loc.single && !loc.open ==> items == Seq::<Seq<char>>::empty()
            &&& !(loc.single && !loc.open) ==> reach(place, items) == place_at(lines, i + 1)
            &&& rules_from(place, items) == Seq::<Said>::empty()
            &&& rules_from(place_at(r, i), r.skip(i)) == rules_from(
                place_at(lines, i + 1),
                lines.skip(i + 1),
            )
            &&& rules_of(r) == rules_of(lines.take(i)) + rules_from(
                place_at(lines, i + 1),
                lines.skip(i + 1),
            )
        }),
{
    let i = loc.idx;
    let raw = lines[i];
    let place = place_at(lines, i);
    let r = loc_removed(lines, pkg, loc);
    let items = stand_in(raw, pkg, loc);
    let tail = lines.skip(i + 1);
    lemma_place_step(lines, i);
    lemma_outer_tidy(trim(raw));
    lemma_cut_no_mark(raw);
    let note = raw.skip(cut(raw));
    assert(r =~= lines.take(i) + items + tail);
    if loc.open {
        lemma_bare_open(pkg, note);
        lemma_one(place, bare_open(pkg) + note);
    } else if loc.closed {
        lemma_close_line(note, pkg);
        lemma_one(place, "}"@ + note);
    } else {
        assert(reach(place, items) == place);
    }
    assert(rules_from(place, items) =~= seq![]);
    lemma_cut_out(lines, i, items, pkg);
    assert(r.take(i) =~= lines.take(i));
    assert(r.skip(i) =~= items + tail);
    assert(rules_of(lines.take(i)) + Seq::<Said>::empty() =~= rules_of(lines.take(i)));
}

/// Whether taking the given rules away, the last one first, never brings a `{` alone behind a bare
/// name.
pub open spec fn firm(lines: Seq<Seq<char>>, pkg: Seq<char>, locs: Seq<Loc>) -> bool
    decreases locs.len(),
{
    locs.len() > 0 ==> {
        let loc = locs.last();
        &&& loc.single && !loc.open ==> place_at(lines, loc.idx) is Top || calm(
            lines.skip(loc.idx + 1),
        )
        &&& firm(loc_removed(lines, pkg, loc), pkg, locs.drop_last())
    }
}

pub proof fn lemma_same_front(a: Seq<Seq<char>>, b: Seq<Seq<char>>, pkg: Seq<char>, n: int)
    requires
        0 <= n <= a.len(),
        n <= b.len(),
        a.take(n) == b.take(n),
    ensures
        locs_upto(a, pkg, n) == locs_upto(b, pkg, n),
        forall|i: int| 0 <= i <= n ==> place_at(a, i) == place_at(b, i),
        forall|i: int| 0 <= i < n ==> a[i] == b[i],
    decreases n,
{
    assert forall|i: int| 0 <= i < n implies a[i] == b[i] by {
        assert(a.take(n)[i] == b.take(n)[i]);
    }
    assert forall|i: int| 0 <= i <= n implies place_at(a, i) == place_at(b, i) by {
        assert(a.take(i) =~= b.take(i));
    }
    if n > 0 {
        assert(a.take(n - 1) =~= b.take(n - 1));
        lemma_same_front(a, b, pkg, n - 1);
    }
}

/// Removing all rules of one thread that stand before line `n`.
#[verifier::rlimit(60)]
#[verifier::spinoff_prover]
pub proof fn lemma_thread_removed(lines: Seq<Seq<char>>, pkg: Seq<char>, thread: Seq<char>, n: int)
    requires
        0 <= n <= lines.len(),
        thread.len() > 0,
        firm(lines, pkg, of_thread(locs_upto(lines, pkg, n), thread)),
    ensures
        ({
            let r = locs_removed(lines, pkg, of_thread(locs_upto(lines, pkg, n), thread));
            &&& besides(rules_of(r), pkg, thread) == besides(rules_of(lines), pkg, thread)
            &&& cpus_for(rules_of(r), pkg, thread) == cpus_for(
                rules_from(place_at(lines, n), lines.skip(n)),
                pkg,
                thread,
            )
        }),
    decreases n,
{
    let all = locs_upto(lines, pkg, n);
    let locs = of_thread(all, thread);
    if n == 0 {
        assert(lines.skip(0) =~= lines);
        assert(lines.take(0) =~= seq![]);
    } else {
        let i = n - 1;
        let place = place_at(lines, i);
        let tail = lines.skip(n);
        let rest = rules_from(place_at(lines, n), tail);
        lemma_around(lines, i);
        lemma_loc_says(place, lines[i], pkg, thread, i);
        let before = rules_of(lines.take(i));
        assert(lines.skip(i) =~= seq![lines[i]] + tail);
        lemma_one(place, lines[i]);
        lemma_concat(place, seq![lines[i]], tail);
        match loc_in(place, lines[i], pkg, i) {
            Some(loc) => {
                assert(all.drop_last() =~= locs_upto(lines, pkg, i));
                assert(all.last() == loc);
            },
            None => {},
        }
        if loc_in(place, lines[i], pkg, i) matches Some(loc) && loc.name == thread {
            let loc = loc_in(place, lines[i], pkg, i)->0;
            let rule = says(place, lines[i])->0;
            assert(locs.last() == loc);
            lemma_loc_removed(lines, pkg, loc);
            let fewer = loc_removed(lines, pkg, loc);
            lemma_same_front(lines, fewer, pkg, i);
            assert(locs.drop_last() =~= of_thread(locs_upto(fewer, pkg, i), thread));
            lemma_thread_removed(fewer, pkg, thread, i);
            lemma_single_rule(rule, pkg, thread);
            lemma_parted(before, seq![rule], pkg, thread);
            lemma_parted(before + seq![rule], rest, pkg, thread);
            lemma_parted(before, rest, pkg, thread);
            assert(besides(before, pkg, thread) + Seq::<Said>::empty() =~= besides(
                before,
                pkg,
                thread,
            ));
        } else {
            assert(locs =~= of_thread(locs_upto(lines, pkg, i), thread));
            lemma_thread_removed(lines, pkg, thread, i);
            match says(place, lines[i]) {
                Some(rule) => {
                    lemma_single_rule(rule, pkg, thread);
                    lemma_parted(seq![rule], rest, pkg, thread);
                    assert(Seq::<Seq<char>>::empty() + cpus_for(rest, pkg, thread) =~= cpus_for(
                        rest,
                        pkg,
                        thread,
                    ));
                },
                None => {
                    assert(Seq::<Said>::empty() + rest =~= rest);
                },
            }
        }
    }
}

/// Removing the rule of a thread leaves no rule of that thread, and every other rule as it was.
pub proof fn law_deleted_thread_rule_is_gone(
    lines: Seq<Seq<char>>,
    pkg: Seq<char>,
    thread: Seq<char>,
)
    requires
        thread.len() > 0,
        ({
            let now = normalized(lines, pkg);
            firm(now, pkg, of_thread(found(now, pkg).threads, thread))
        }),
    ensures
        deleted(lines, pkg, thread) matches Ok(after) ==> cpus_for(
            rules_of(after),
            pkg,
            thread,
        ) == Seq::<Seq<char>>::empty() && besides(rules_of(after), pkg, thread) == besides(
            rules_of(normalized(lines, pkg)),
            pkg,
            thread,
        ),
{
    let now = normalized(lines, pkg);
    let n = now.len() as int;
    lemma_thread_removed(now, pkg, thread, n);
    assert(now.skip(n) =~= seq![]);
    assert(rules_from(place_at(now, n), now.skip(n)) =~= seq![]);
    assert(cpus_for(seq![], pkg, thread) =~= seq![]);
}

/// A block behind a package rule without a comment: the rule stays, and the block is read.
pub proof fn lemma_block_added(
    lines: Seq<Seq<char>>,
    i: int,
    items: Seq<Seq<char>>,
    pkg: Seq<char>,
    cpus: Seq<char>,
)
    requires
        0 <= i < lines.len(),
        !blank(trim(lines[i])),
        !(place_at(lines, i) is Block),
        outer(trim(lines[i])) == (Outer::Rule { pkg, cpus, open: false }),
        cut(lines[i]) == lines[i].len(),
        reach(Place::Block(pkg), items) == Place::Block(pkg),
    ensures
        rules_of(lines) == rules_of(lines.take(i)) + seq![Said { pkg, thread: seq![], cpus }]
            + rules_from(Place::Top, lines.skip(i + 1)),
        rules_of(block_added(lines, i, items)) == rules_of(lines.take(i)) + seq![
            Said { pkg, thread: seq![], cpus },
        ] + rules_from(Place::Block(pkg), items) + rules_from(Place::Top, lines.skip(i + 1)),
{
    reveal_strlit("}");
    let raw = lines[i];
    let place = place_at(lines, i);
    let fresh = trim_end(raw) + " {"@;
    lemma_reopened(raw, pkg, cpus);
    let close = seq!["}"@];
    let inner = items + close;
    let all = seq![fresh] + inner;
    let tail = lines.skip(i + 1);
    lemma_around(lines, i);
    lemma_one(place, fresh);
    assert("}"@ + Seq::<char>::empty() =~= "}"@);
    lemma_close_line(Seq::<char>::empty(), pkg);
    lemma_one(Place::Block(pkg), "}"@);
    lemma_concat(Place::Block(pkg), items, close);
    lemma_concat(place, seq![fresh], inner);
    lemma_replaced(lines, i, all);
    assert(items.push("}"@) =~= inner);
    assert(block_added(lines, i, items) =~= lines.take(i) + all + tail);
    let rule = seq![Said { pkg, thread: seq![], cpus }];
    assert(rules_from(Place::Block(pkg), items) + Seq::<Said>::empty() =~= rules_from(
        Place::Block(pkg),
        items,
    ));
    assert(rules_of(lines.take(i)) + (rule + rules_from(Place::Block(pkg), items)) =~= rules_of(
        lines.take(i),
    ) + rule + rules_from(Place::Block(pkg), items));
}

/// A package rule without a comment, with ` {` behind it.
pub proof fn lemma_reopened(raw: Seq<char>, pkg: Seq<char>, cpus: Seq<char>)
    requires
        !blank(trim(raw)),
        outer(trim(raw)) == (Outer::Rule { pkg, cpus, open: false }),
        cut(raw) == raw.len(),
    ensures
        !blank(trim(trim_end(raw) + " {"@)),
        outer(trim(trim_end(raw) + " {"@)) == (Outer::Rule { pkg, cpus, open: true }),
{
    reveal_strlit(" {");
    assert(" {"@ =~= seq![' ', '{']);
    lemma_bare_body(raw);
    assert(raw.take(raw.len() as int) =~= raw);
    let p = trim(raw);
    assert(uncommented(p) == p);
    lemma_cut_no_mark(raw);
    let (a, b) = lemma_trim_sub(raw);
    lemma_no_mark_sub(raw, a, b);
    lemma_trim_is_trimmed(raw);
    assert(tidy(p));
    // the lead of the line stays before it
    lemma_trail(raw);
    let short = trim_end(raw);
    lemma_lead(short);
    let y = trim_start(short);
    let k = short.len() - y.len();
    assert(y == p) by {
        lemma_trim_swap(raw);
    }
    let lead = short.take(k);
    let fresh = short + " {"@;
    let none = Seq::<char>::empty();
    assert(short =~= lead + p);
    assert(fresh =~= lead + (p + " {"@));
    lemma_trim_start_lead(lead, p + " {"@);
    assert(p + " {"@ + none =~= p + " {"@);
    lemma_opening(p, none);
    assert(trim(fresh) == trim(p + " {"@));
    assert(stripped(p, '{') == p);
}

/// Trimming first the end and then the start is trimming.
proof fn lemma_trim_swap(s: Seq<char>)
    ensures
        trim_start(trim_end(s)) == trim(s),
    decreases s.len(),
{
    if s.len() > 0 && is_space(s[0]) {
        let t = s.drop_first();
        lemma_trim_swap(t);
        lemma_trail(t);
        lemma_trail(s);
        let u = trim_end(t);
        if u.len() == 0 {
            assert(all_space(s)) by {
                assert forall|i: int| 0 <= i < s.len() implies is_space(#[trigger] s[i]) by {
                    if i > 0 {
                        assert(t.skip(0)[i - 1] == t[i - 1]);
                        assert(s[i] == t[i - 1]);
                    }
                }
            }
            lemma_trim_all_space(s);
            assert(t.take(0) =~= Seq::<char>::empty());
        } else {
            let one = s.take(1);
            assert(s =~= one + t);
            assert(t =~= u + t.skip(u.len() as int));
            let ou = one + u;
            assert(s =~= ou + t.skip(u.len() as int));
            assert(ou.last() == u.last());
            lemma_trim_end_tail(ou, t.skip(u.len() as int));
            lemma_trim_all_space(t.skip(u.len() as int));
            assert(ou + Seq::<char>::empty() =~= ou);
            assert(trim_end(s) == ou);
            assert(ou.drop_first() =~= u);
            assert(ou[0] == s[0]);
        }
    } else {
        lemma_trim_end_prefix(s);
        let u = trim_end(s);
        if u.len() > 0 {
            assert(u[0] == s[0]);
        }
    }
}

/// Whether the package rule behind which an edit opens a block, if there is one, has no comment.
pub open spec fn plain_rule(lines: Seq<Seq<char>>, t: Found) -> bool {
    t.block_close is None ==> (t.pkg_line matches Some(PkgAt::Standalone(i)) ==> cut(lines[i])
        == lines[i].len())
}

/// Whether taking away all rules of a thread but the last, which gets `cpus`, never brings a `{`
/// alone behind a bare name.
pub open spec fn firm_but_last(
    lines: Seq<Seq<char>>,
    pkg: Seq<char>,
    thread: Seq<char>,
    cpus: Seq<char>,
) -> bool {
    let locs = of_thread(found(lines, pkg).threads, thread);
    let idx = locs.last().idx;
    locs.len() > 0 ==> firm(
        lines.update(idx, swapped(lines[idx], cpus)),
        pkg,
        locs.drop_last(),
    )
}

/// Setting the rule of a thread makes `cpus` its one rule, and leaves every other rule as it was.
pub proof fn law_upserted_thread_rule_holds(
    lines: Seq<Seq<char>>,
    pkg: Seq<char>,
    thread: Seq<char>,
    cpus: Seq<char>,
)
    requires
        tidy(pkg),
        tidy(thread),
        like_spec(cpus),
        firm_but_last(normalized(lines, pkg), pkg, thread, cpus),
        plain_rule(normalized(lines, pkg), found(normalized(lines, pkg), pkg)),
    ensures
        upserted(lines, pkg, thread, cpus) matches Ok(after) ==> cpus_for(
            rules_of(after),
            pkg,
            thread,
        ) == seq![cpus] && besides(rules_of(after), pkg, thread) == besides(
            rules_of(normalized(lines, pkg)),
            pkg,
            thread,
        ),
{
    let now = normalized(lines, pkg);
    let t = found(now, pkg);
    let n = now.len() as int;
    let locs = of_thread(t.threads, thread);
    lemma_locs(now, pkg, n);
    assert(within(t.threads, n));
    lemma_of_thread(t.threads, thread, n);
    lemma_thread_rules(now, pkg, thread, n);
    if locs.len() > 0 {
        lemma_upsert_found(now, pkg, thread, cpus);
    } else {
        lemma_upsert_new(now, pkg, thread, cpus);
    }
}

/// A scan that finds no rule of a thread: there is none.
pub proof fn lemma_thread_rules(lines: Seq<Seq<char>>, pkg: Seq<char>, thread: Seq<char>, n: int)
    requires
        0 <= n <= lines.len(),
        thread.len() > 0,
    ensures
        of_thread(locs_upto(lines, pkg, n), thread).len() == cpus_for(
            rules_of(lines.take(n)),
            pkg,
            thread,
        ).len(),
    decreases n,
{
    let head = lines.take(n);
    if n == 0 {
        assert(head =~= seq![]);
    } else {
        lemma_thread_rules(lines, pkg, thread, n - 1);
        assert(head.drop_last() =~= lines.take(n - 1));
        let place = place_at(lines, n - 1);
        lemma_loc_says(place, lines[n - 1], pkg, thread, n - 1);
        let all = locs_upto(lines, pkg, n);
        if loc_in(place, lines[n - 1], pkg, n - 1) is Some {
            assert(all.drop_last() =~= locs_upto(lines, pkg, n - 1));
        }
        if says(place, lines[n - 1]) is Some {
            assert(rules_of(head).drop_last() =~= rules_of(lines.take(n - 1)));
        }
    }
}

/// The last of the rules of a thread, with the locations before it.
pub proof fn lemma_last_of_thread(lines: Seq<Seq<char>>, pkg: Seq<char>, thread: Seq<char>, n: int)
    requires
        0 <= n <= lines.len(),
        thread.len() > 0,
        of_thread(locs_upto(lines, pkg, n), thread).len() > 0,
    ensures
        ({
            let locs = of_thread(locs_upto(lines, pkg, n), thread);
            let i = locs.last().idx;
            &&& 0 <= i < n
            &&& loc_in(place_at(lines, i), lines[i], pkg, i) == Some(locs.last())
            &&& locs.last().name == thread
            &&& locs.drop_last() == of_thread(locs_upto(lines, pkg, i), thread)
            &&& cpus_for(
                rules_from(place_at(lines, i + 1), lines.subrange(i + 1, n)),
                pkg,
                thread,
            ) == Seq::<Seq<char>>::empty()
        }),
    decreases n,
{
    let all = locs_upto(lines, pkg, n);
    let place = place_at(lines, n - 1);
    lemma_loc_says(place, lines[n - 1], pkg, thread, n - 1);
    if loc_in(place, lines[n - 1], pkg, n - 1) is Some {
        assert(all.drop_last() =~= locs_upto(lines, pkg, n - 1));
    }
    let here = loc_in(place, lines[n - 1], pkg, n - 1);
    if here is Some && here->0.name == thread {
        let locs = of_thread(all, thread);
        assert(locs.drop_last() =~= of_thread(all.drop_last(), thread));
        assert(lines.subrange(n, n) =~= seq![]);
        assert(rules_from(place_at(lines, n), lines.subrange(n, n)) =~= seq![]);
    } else {
        lemma_last_of_thread(lines, pkg, thread, n - 1);
        let i = of_thread(all, thread).last().idx;
        let mid = lines.subrange(i + 1, n - 1);
        assert(lines.subrange(i + 1, n) =~= mid + seq![lines[n - 1]]);
        lemma_concat(place_at(lines, i + 1), mid, seq![lines[n - 1]]);
        assert(lines.take(n - 1) =~= lines.take(i + 1) + mid);
        lemma_concat(Place::Top, lines.take(i + 1), mid);
        lemma_one(place, lines[n - 1]);
        let last = rules_from(place, seq![lines[n - 1]]);
        lemma_parted(rules_from(place_at(lines, i + 1), mid), last, pkg, thread);
        match says(place, lines[n - 1]) {
            Some(rule) => {
                lemma_single_rule(rule, pkg, thread);
            },
            None => {
                assert(cpus_for(last, pkg, thread) =~= seq![]);
            },
        }
    }
}

proof fn lemma_upsert_found(
    now: Seq<Seq<char>>,
    pkg: Seq<char>,
    thread: Seq<char>,
    cpus: Seq<char>,
)
    requires
        tidy(thread),
        like_spec(cpus),
        firm_but_last(now, pkg, thread, cpus),
        of_thread(found(now, pkg).threads, thread).len() > 0,
    ensures
        ({
            let locs = of_thread(found(now, pkg).threads, thread);
            let idx = locs.last().idx;
            let after = locs_removed(
                now.update(idx, swapped(now[idx], cpus)),
                pkg,
                locs.drop_last(),
            );
            &&& cpus_for(rules_of(after), pkg, thread) == seq![cpus]
            &&& besides(rules_of(after), pkg, thread) == besides(rules_of(now), pkg, thread)
        }),
{
    let n = now.len() as int;
    let locs = of_thread(found(now, pkg).threads, thread);
    lemma_last_of_thread(now, pkg, thread, n);
    let loc = locs.last();
    let i = loc.idx;
    let raw = now[i];
    let place = place_at(now, i);
    let fresh = swapped(raw, cpus);
    let set = now.update(i, fresh);
    let rule = Said { pkg, thread, cpus };
    lemma_outer_tidy(trim(raw));
    if place is Block {
        lemma_swapped_member(raw, cpus);
    } else {
        lemma_swapped_outer(raw, cpus);
    }
    lemma_place_step(now, i);
    assert(next(place, fresh) == next(place, raw));
    assert(says(place, fresh) == Some(rule));
    let tail = now.skip(i + 1);
    let rest = rules_from(place_at(now, i + 1), tail);
    let before = rules_of(now.take(i));
    lemma_around(now, i);
    lemma_one(place, fresh);
    lemma_replaced(now, i, seq![fresh]);
    assert(set =~= now.take(i) + seq![fresh] + tail);
    let prior = says(place, raw)->0;
    lemma_loc_says(place, raw, pkg, thread, i);
    lemma_single_rule(rule, pkg, thread);
    lemma_single_rule(prior, pkg, thread);
    lemma_parted(before, seq![rule], pkg, thread);
    lemma_parted(before, seq![prior], pkg, thread);
    lemma_parted(before + seq![rule], rest, pkg, thread);
    lemma_parted(before + seq![prior], rest, pkg, thread);
    assert(besides(rules_of(set), pkg, thread) == besides(rules_of(now), pkg, thread));
    // the other rules of the thread go
    assert(set.take(i) =~= now.take(i));
    lemma_same_front(now, set, pkg, i);
    lemma_thread_removed(set, pkg, thread, i);
    assert(set.skip(i) =~= seq![fresh] + tail);
    lemma_concat(place, seq![fresh], tail);
    assert(now.subrange(i + 1, n) =~= tail);
    lemma_parted(seq![rule], rest, pkg, thread);
    assert(seq![cpus] + Seq::<Seq<char>>::empty() =~= seq![cpus]);
}

#[verifier::rlimit(60)]
#[verifier::spinoff_prover]
proof fn lemma_upsert_new(now: Seq<Seq<char>>, pkg: Seq<char>, thread: Seq<char>, cpus: Seq<char>)
    requires
        tidy(pkg),
        tidy(thread),
        like_spec(cpus),
        of_thread(found(now, pkg).threads, thread).len() == 0,
        plain_rule(now, found(now, pkg)),
    ensures
        ({
            let t = found(now, pkg);
            let items = seq![member_line(thread, cpus)];
            let after = match t.block_close {
                Some(close) => spliced(now, close, items),
                None => match t.pkg_line {
                    Some(PkgAt::Standalone(i)) => block_added(now, i, items),
                    _ => now + seq![bare_open(pkg), member_line(thread, cpus), "}"@],
                },
            };
            let fits = !(t.block_close is None && !(t.pkg_line matches Some(PkgAt::Standalone(_)))
                && t.unterminated);
            &&& fits ==> cpus_for(rules_of(after), pkg, thread) == seq![cpus]
            &&& fits ==> besides(rules_of(after), pkg, thread) == besides(
                rules_of(now),
                pkg,
                thread,
            )
        }),
{
    let n = now.len() as int;
    let t = found(now, pkg);
    let line = member_line(thread, cpus);
    let items = seq![line];
    let rule = Said { pkg, thread, cpus };
    let none = Seq::<char>::empty();
    let block = Place::Block(pkg);
    assert(line + none =~= line);
    lemma_member_line(thread, cpus, none, pkg);
    lemma_one(block, line);
    lemma_thread_rules(now, pkg, thread, n);
    assert(now.take(n) =~= now);
    assert(cpus_for(rules_of(now), pkg, thread) =~= seq![]);
    lemma_single_rule(rule, pkg, thread);
    lemma_block(now, pkg, n);
    lemma_pkg_upto(now, pkg, n);
    match t.block_close {
        Some(close) => {
            let a = now.take(close);
            let b = now.skip(close);
            assert(now =~= a + b);
            lemma_concat(Place::Top, a, b);
            lemma_concat(Place::Top, a, items);
            lemma_concat(Place::Top, a + items, b);
            let ra = rules_of(a);
            let rb = rules_from(block, b);
            lemma_with_rule(ra, rb, rule);
        },
        None => {
            match t.pkg_line {
                Some(PkgAt::Standalone(i)) => {
                    let old_cpus = outer(trim(now[i]))->Rule_cpus;
                    lemma_block_added(now, i, items, pkg, old_cpus);
                    let own = seq![Said { pkg, thread: seq![], cpus: old_cpus }];
                    lemma_with_rule(
                        rules_of(now.take(i)) + own,
                        rules_from(Place::Top, now.skip(i + 1)),
                        rule,
                    );
                },
                _ => {
                    if !t.unterminated {
                        let start = reach(Place::Top, now);
                        let chunk = seq![bare_open(pkg), line, "}"@];
                        let rest = items + seq!["}"@];
                        assert(chunk =~= seq![bare_open(pkg)] + rest);
                        assert(bare_open(pkg) + none =~= bare_open(pkg));
                        assert("}"@ + none =~= "}"@);
                        lemma_bare_open(pkg, none);
                        lemma_close_line(none, pkg);
                        lemma_one(start, bare_open(pkg));
                        lemma_one(block, "}"@);
                        lemma_concat(block, items, seq!["}"@]);
                        lemma_concat(start, seq![bare_open(pkg)], rest);
                        lemma_concat(Place::Top, now, chunk);
                        assert(rules_from(start, chunk) =~= seq![rule]);
                        let all = rules_of(now);
                        assert(all + Seq::<Said>::empty() =~= all);
                        lemma_with_rule(all, Seq::<Said>::empty(), rule);
                        assert(all + seq![rule] + Seq::<Said>::empty() =~= all + seq![rule]);
                    }
                },
            }
        },
    }
}

/// One more rule of a thread that had none.
proof fn lemma_with_rule(a: Seq<Said>, b: Seq<Said>, rule: Said)
    requires
        cpus_for(a + b, rule.pkg, rule.thread) == Seq::<Seq<char>>::empty(),
    ensures
        cpus_for(a + seq![rule] + b, rule.pkg, rule.thread) == seq![rule.cpus],
        besides(a + seq![rule] + b, rule.pkg, rule.thread) == besides(
            a + b,
            rule.pkg,
            rule.thread,
        ),
{
    let (pkg, thread) = (rule.pkg, rule.thread);
    lemma_single_rule(rule, pkg, thread);
    lemma_parted(a, b, pkg, thread);
    lemma_parted(a, seq![rule], pkg, thread);
    lemma_parted(a + seq![rule], b, pkg, thread);
    assert(cpus_for(a, pkg, thread).len() + cpus_for(b, pkg, thread).len() == 0);
    assert(cpus_for(a + seq![rule] + b, pkg, thread) =~= seq![rule.cpus]);
    assert(besides(a, pkg, thread) + Seq::<Said>::empty() =~= besides(a, pkg, thread));
}

/// The line on which a scan first finds the package itself; no package rule stands before it.
pub proof fn lemma_first_pkg_line(lines: Seq<Seq<char>>, pkg: Seq<char>, n: int) -> (j: int)
    requires
        0 <= n <= lines.len(),
        tidy(pkg),
    ensures
        pkg_upto(lines, pkg, n) is None ==> cpus_for(rules_of(lines.take(n)), pkg, seq![])
            == Seq::<Seq<char>>::empty(),
        pkg_upto(lines, pkg, n) is Some ==> 0 <= j < n && pkg_in(lines, pkg, j) == pkg_upto(
            lines,
            pkg,
            n,
        ) && cpus_for(rules_of(lines.take(j)), pkg, seq![]) == Seq::<Seq<char>>::empty(),
    decreases n,
{
    if n == 0 {
        assert(lines.take(0) =~= seq![]);
        assert(rules_of(lines.take(0)) =~= seq![]);
        assert(cpus_for(rules_of(lines.take(0)), pkg, seq![]) =~= seq![]);
        0
    } else {
        let j = lemma_first_pkg_line(lines, pkg, n - 1);
        if pkg_upto(lines, pkg, n - 1) is Some {
            j
        } else {
            let head = lines.take(n);
            let place = place_at(lines, n - 1);
            assert(head.drop_last() =~= lines.take(n - 1));
            lemma_outer_tidy(trim(lines[n - 1]));
            match says(place, lines[n - 1]) {
                Some(rule) => {
                    let rules = rules_of(head);
                    assert(rules.drop_last() =~= rules_of(lines.take(n - 1)));
                    assert(rules.last() == rule);
                },
                None => {},
            }
            n - 1
        }
    }
}

/// What the package rules become when the first of them, if the line is one, is replaced by
/// `fresh`.
pub open spec fn first_set(
    cpus: Seq<Seq<char>>,
    at: Option<PkgAt>,
    fresh: Seq<Seq<char>>,
) -> Seq<Seq<char>> {
    match at {
        Some(PkgAt::Standalone(_)) => fresh + cpus.drop_first(),
        Some(PkgAt::OpenInline(_)) => fresh + cpus.drop_first(),
        _ => fresh + cpus,
    }
}

/// Package rules before a place, at it and behind it, with those at it replaced.
proof fn lemma_first_set(
    a: Seq<Said>,
    b: Seq<Said>,
    was: Seq<Said>,
    is: Seq<Said>,
    pkg: Seq<char>,
)
    requires
        cpus_for(a, pkg, seq![]) == Seq::<Seq<char>>::empty(),
        was.len() <= 1,
        is.len() <= 1,
        was.len() == 1 ==> was[0].pkg == pkg && was[0].thread == Seq::<char>::empty(),
        is.len() == 1 ==> is[0].pkg == pkg && is[0].thread == Seq::<char>::empty(),
    ensures
        besides(a + was + b, pkg, seq![]) == besides(a + is + b, pkg, seq![]),
        cpus_for(a + was + b, pkg, seq![]) == (if was.len() == 1 {
            seq![was[0].cpus]
        } else {
            seq![]
        }) + cpus_for(b, pkg, seq![]),
        cpus_for(a + is + b, pkg, seq![]) == (if is.len() == 1 {
            seq![is[0].cpus]
        } else {
            seq![]
        }) + cpus_for(b, pkg, seq![]),
{
    let own = Seq::<char>::empty();
    lemma_parted(a + was, b, pkg, own);
    lemma_parted(a + is, b, pkg, own);
    lemma_parted(a, was, pkg, own);
    lemma_parted(a, is, pkg, own);
    if was.len() == 1 {
        lemma_single_rule(was[0], pkg, own);
        assert(was =~= seq![was[0]]);
    } else {
        assert(was =~= seq![]);
    }
    if is.len() == 1 {
        lemma_single_rule(is[0], pkg, own);
        assert(is =~= seq![is[0]]);
    } else {
        assert(is =~= seq![]);
    }
    assert(besides(was, pkg, own) =~= seq![]);
    assert(besides(is, pkg, own) =~= seq![]);
    assert(cpus_for(a + was, pkg, own) =~= cpus_for(was, pkg, own));
    assert(cpus_for(a + is, pkg, own) =~= cpus_for(is, pkg, own));
}

/// Lines that say nothing.
pub proof fn lemma_blank_lines(start: Place, lines: Seq<Seq<char>>)
    requires
        forall|i: int| 0 <= i < lines.len() ==> blank(trim(#[trigger] lines[i])),
    ensures
        reach(start, lines) == start,
        rules_from(start, lines) == Seq::<Said>::empty(),
    decreases lines.len(),
{
    if lines.len() > 0 {
        let init = lines.drop_last();
        assert forall|i: int| 0 <= i < init.len() implies blank(trim(#[trigger] init[i])) by {
            assert(init[i] == lines[i]);
        }
        lemma_blank_lines(start, init);
        assert(blank(trim(lines[lines.len() - 1])));
    } else {
        assert(rules_from(start, lines) =~= seq![]);
    }
}

pub proof fn lemma_told(lines: Seq<Seq<char>>, n: int)
    requires
        0 <= n <= lines.len(),
    ensures
        -1 <= told_before(lines, n) < n || n == 0,
        forall|i: int| told_before(lines, n) < i < n ==> blank(trim(#[trigger] lines[i])),
    decreases n,
{
    if n > 0 && blank(trim(lines[n - 1])) {
        lemma_told(lines, n - 1);
    }
}

/// Whether the `{` alone behind the name of the package goes when the name becomes a rule; one that
/// stays, because an earlier line opened the first block, must have no `}` in its comment.
pub open spec fn clean_braces(lines: Seq<Seq<char>>, t: Found) -> bool {
    (t.pkg_line matches Some(PkgAt::BarePending(_))) && !(t.block_open matches Some(o) && outer(
        trim(lines[o]),
    ) == (Outer::BareOpen { pkg: seq![] })) ==> forall|i: int|
        0 <= i < lines.len() && outer(trim(#[trigger] lines[i])) == (Outer::BareOpen { pkg: seq![] })
            ==> !trim(lines[i]).contains('}')
}

/// Setting the rule of a package makes `cpus` the first of its rules, in place of the one that its
/// line stated, and leaves every other rule as it was.
pub proof fn law_upserted_package_rule_holds(
    lines: Seq<Seq<char>>,
    pkg: Seq<char>,
    cpus: Seq<char>,
)
    requires
        tidy(pkg),
        braced(pkg) is None,
        like_spec(cpus),
        clean_braces(normalized(lines, pkg), found(normalized(lines, pkg), pkg)),
    ensures
        upserted(lines, pkg, seq![], cpus) matches Ok(after) ==> ({
            let now = normalized(lines, pkg);
            &&& besides(rules_of(after), pkg, seq![]) == besides(rules_of(now), pkg, seq![])
            &&& cpus_for(rules_of(after), pkg, seq![]) == first_set(
                cpus_for(rules_of(now), pkg, seq![]),
                found(now, pkg).pkg_line,
                seq![cpus],
            )
        }),
{
    let now = normalized(lines, pkg);
    let n = now.len() as int;
    let t = found(now, pkg);
    let own = Seq::<char>::empty();
    let rule = Said { pkg, thread: own, cpus };
    let none = Seq::<Said>::empty();
    lemma_pkg_upto(now, pkg, n);
    let j = lemma_first_pkg_line(now, pkg, n);
    assert(now.take(n) =~= now);
    match t.pkg_line {
        None => {
            if !t.unterminated {
                lemma_upsert_appended(now, pkg, cpus);
            }
        },
        Some(PkgAt::BarePending(i)) => {
            lemma_upsert_pending(now, pkg, cpus, j);
        },
        Some(at) => {
            lemma_upsert_line(now, pkg, cpus, at);
        },
    }
}

/// A package rule at the end of the file.
proof fn lemma_upsert_appended(now: Seq<Seq<char>>, pkg: Seq<char>, cpus: Seq<char>)
    requires
        tidy(pkg),
        braced(pkg) is None,
        like_spec(cpus),
        !(reach(Place::Top, now) is Block),
        cpus_for(rules_of(now), pkg, seq![]) == Seq::<Seq<char>>::empty(),
    ensures
        besides(rules_of(now.push(rule_line(pkg, cpus))), pkg, seq![]) == besides(
            rules_of(now),
            pkg,
            seq![],
        ),
        cpus_for(rules_of(now.push(rule_line(pkg, cpus))), pkg, seq![]) == first_set(
            cpus_for(rules_of(now), pkg, seq![]),
            None,
            seq![cpus],
        ),
{
    let own = Seq::<char>::empty();
    let rule = Said { pkg, thread: own, cpus };
    let none = Seq::<Said>::empty();
    let start = reach(Place::Top, now);
    let line = rule_line(pkg, cpus);
    lemma_rule_line(pkg, cpus, own);
    assert(line + own =~= line);
    lemma_one(start, line);
    assert(now.push(line) =~= now + seq![line]);
    lemma_concat(Place::Top, now, seq![line]);
    let all = rules_of(now);
    assert(all + none + none =~= all);
    assert(all + seq![rule] + none =~= all + seq![rule]);
    lemma_first_set(all, none, none, seq![rule], pkg);
    assert(cpus_for(none, pkg, own) =~= seq![]);
    assert(first_set(cpus_for(all, pkg, own), None, seq![cpus]) =~= seq![cpus]);
    assert(cpus_for(all + seq![rule], pkg, own) =~= seq![cpus]);
}

/// The line on which the package stands, rewritten as a rule.
proof fn lemma_upsert_line(now: Seq<Seq<char>>, pkg: Seq<char>, cpus: Seq<char>, at: PkgAt)
    requires
        tidy(pkg),
        braced(pkg) is None,
        like_spec(cpus),
        !(at is BarePending),
        found(now, pkg).pkg_line == Some(at),
    ensures
        ({
            let i = pkg_idx(at);
            let fresh = if at is BareOpen {
                with_comment_of(open_rule_line(pkg, cpus), now[i])
            } else {
                swapped(now[i], cpus)
            };
            let after = now.update(i, fresh);
            &&& besides(rules_of(after), pkg, seq![]) == besides(rules_of(now), pkg, seq![])
            &&& cpus_for(rules_of(after), pkg, seq![]) == first_set(
                cpus_for(rules_of(now), pkg, seq![]),
                Some(at),
                seq![cpus],
            )
        }),
{
    let n = now.len() as int;
    let own = Seq::<char>::empty();
    let rule = Said { pkg, thread: own, cpus };
    let none = Seq::<Said>::empty();
    lemma_pkg_upto(now, pkg, n);
    let i = lemma_first_pkg_line(now, pkg, n);
    let raw = now[i];
    let place = place_at(now, i);
    lemma_outer_tidy(trim(raw));
    lemma_cut_no_mark(raw);
    let note = raw.skip(cut(raw));
    let fresh = if at is BareOpen {
        with_comment_of(open_rule_line(pkg, cpus), raw)
    } else {
        swapped(raw, cpus)
    };
    if at is BareOpen {
        lemma_open_rule_line(pkg, cpus, note);
    } else {
        lemma_swapped_outer(raw, cpus);
    }
    lemma_place_step(now, i);
    lemma_around(now, i);
    lemma_one(place, fresh);
    assert(next(place, fresh) == next(place, raw));
    lemma_replaced(now, i, seq![fresh]);
    assert(now.update(i, fresh) =~= now.take(i) + seq![fresh] + now.skip(i + 1));
    let a = rules_of(now.take(i));
    let b = rules_from(place_at(now, i + 1), now.skip(i + 1));
    let was = match says(place, raw) {
        Some(said) => seq![said],
        None => none,
    };
    lemma_first_set(a, b, was, seq![rule], pkg);
    let had = cpus_for(rules_of(now), pkg, own);
    if was.len() == 1 {
        assert(had.drop_first() =~= cpus_for(b, pkg, own));
    } else {
        assert(had =~= cpus_for(b, pkg, own));
    }
}

/// A bare name whose `{` stands on a later line.
#[verifier::rlimit(100)]
#[verifier::spinoff_prover]
proof fn lemma_upsert_pending(now: Seq<Seq<char>>, pkg: Seq<char>, cpus: Seq<char>, j: int)
    requires
        tidy(pkg),
        braced(pkg) is None,
        like_spec(cpus),
        clean_braces(now, found(now, pkg)),
        0 <= j < now.len(),
        found(now, pkg).pkg_line == pkg_in(now, pkg, j),
        pkg_in(now, pkg, j) matches Some(PkgAt::BarePending(_)),
        cpus_for(rules_of(now.take(j)), pkg, seq![]) == Seq::<Seq<char>>::empty(),
    ensures
        ({
            let t = found(now, pkg);
            let i = pkg_idx(t.pkg_line->0);
            let named = now.update(i, with_comment_of(open_rule_line(pkg, cpus), now[i]));
            let after = match t.block_open {
                Some(open) => if outer(trim(named[open])) == (Outer::BareOpen { pkg: seq![] }) {
                    named.remove(open)
                } else {
                    named
                },
                None => named,
            };
            &&& besides(rules_of(after), pkg, seq![]) == besides(rules_of(now), pkg, seq![])
            &&& cpus_for(rules_of(after), pkg, seq![]) == seq![cpus] + cpus_for(
                rules_of(now),
                pkg,
                seq![],
            )
        }),
{
    let n = now.len() as int;
    let t = found(now, pkg);
    let i = pkg_idx(t.pkg_line->0);
    let own = Seq::<char>::empty();
    let rule = Said { pkg, thread: own, cpus };
    let none = Seq::<Said>::empty();
    let block = Place::Block(pkg);
    lemma_pkg_upto(now, pkg, n);
    lemma_named(now, j);
    lemma_told(now, j);
    lemma_place_step(now, j);
    assert(i == told_before(now, j));
    let raw = now[i];
    lemma_cut_no_mark(raw);
    let note = raw.skip(cut(raw));
    let fresh = open_rule_line(pkg, cpus) + note;
    lemma_open_rule_line(pkg, cpus, note);
    let place = place_at(now, i);
    let head = now.take(i);
    let gap = now.subrange(i + 1, j);
    let tail = now.skip(j + 1);
    let lone = now[j];
    assert forall|k: int| 0 <= k < gap.len() implies blank(trim(#[trigger] gap[k])) by {
        assert(gap[k] == now[i + 1 + k]);
    }
    // as it was
    let was = seq![raw] + gap + seq![lone];
    assert(now =~= head + was + tail);
    lemma_one(place, raw);
    lemma_blank_lines(Place::Named(pkg), gap);
    lemma_one(Place::Named(pkg), lone);
    lemma_concat(place, seq![raw], gap);
    lemma_concat(place, seq![raw] + gap, seq![lone]);
    lemma_concat(Place::Top, head, was);
    lemma_concat(Place::Top, head + was, tail);
    assert(place_at(now, j) == Place::Named(pkg)) by {
        assert(now.take(j) =~= head + (seq![raw] + gap));
        lemma_concat(Place::Top, head, seq![raw] + gap);
    }
    assert(reach(place, was) == block);
    assert(rules_from(place, was) =~= none);
    // as it is
    let fore = seq![fresh] + gap;
    lemma_one(place, fresh);
    lemma_blank_lines(block, gap);
    lemma_concat(place, seq![fresh], gap);
    assert(reach(place, fore) == block);
    assert(rules_from(place, fore) =~= seq![rule]);
    assert(outer(trim(lone))->BareOpen_pkg =~= own);
    let named = now.update(i, fresh);
    lemma_concat(Place::Top, head, fore);
    lemma_concat(Place::Top, head + fore, tail);
    let a = rules_of(head);
    let b = rules_from(block, tail);
    if !trim(lone).contains('}') {
        lemma_lone_inside(lone, pkg);
        lemma_one(block, lone);
        lemma_concat(place, fore, seq![lone]);
        assert(rules_from(place, fore + seq![lone]) =~= seq![rule]);
        assert(named =~= head + (fore + seq![lone]) + tail);
        lemma_concat(Place::Top, head, fore + seq![lone]);
        lemma_concat(Place::Top, head + (fore + seq![lone]), tail);
        assert(rules_of(named) == a + seq![rule] + b);
    }
    assert(rules_of(now) == a + none + b);
    assert(rules_of(head + fore + tail) == a + seq![rule] + b);
    // no rule of the package stands before
    assert(cpus_for(a, pkg, own) =~= seq![]) by {
        assert(now.take(j) =~= head + (seq![raw] + gap));
        lemma_concat(Place::Top, head, seq![raw] + gap);
        let between = rules_from(place, seq![raw] + gap);
        lemma_parted(a, between, pkg, own);
        assert(cpus_for(a, pkg, own).len() + cpus_for(between, pkg, own).len() == 0);
    }
    lemma_first_set(a, b, none, seq![rule], pkg);
    assert(cpus_for(rules_of(now), pkg, own) =~= cpus_for(b, pkg, own));
    // which line goes
    lemma_block(now, pkg, n);
    match t.block_open {
        Some(open) => {
            lemma_place_step(now, open);
            if outer(trim(named[open])) == (Outer::BareOpen { pkg: own }) {
                assert(open != i);
                assert(named[open] == now[open]);
                lemma_opener(now, pkg, open, j, n);
                assert(named.remove(open) =~= head + fore + tail);
            }
        },
        None => {},
    }
}

/// A `{` alone says nothing inside a block.
pub proof fn lemma_lone_inside(lone: Seq<char>, pkg: Seq<char>)
    requires
        outer(trim(lone)) == (Outer::BareOpen { pkg: seq![] }),
        !trim(lone).contains('}'),
    ensures
        next(Place::Block(pkg), lone) == Place::Block(pkg),
        says(Place::Block(pkg), lone) is None,
{
    let p = trim(lone);
    let body = uncommented(p);
    let core = stripped(p, '{');
    lemma_last_of(core, '=');
    // nothing but the brace stands before the comment
    assert(core.len() == 0) by {
        if core.len() > 0 && last_of(core, '=') is Some {
            let eq = last_of(core, '=')->0;
            assert(trim(core.take(eq)).len() > 0);
        }
    }
    assert(ends_in(p, '{'));
    let short = body.drop_last();
    lemma_trail(short);
    assert(short.skip(0) =~= short);
    assert forall|i: int| 0 <= i < body.len() implies #[trigger] body[i] != '=' by {
        if i < body.len() - 1 {
            assert(short[i] == body[i]);
            assert(is_space(short[i]));
        } else {
            assert(body[i] == body.last());
        }
    }
    lemma_last_of(body, '=');
    assert(!ends_in(p, '}'));
    assert(stripped(p, '}') == body);
    assert(member(p) is None);
}

/// The `{` alone that opens the first block of a package is the one behind its first line.
pub proof fn lemma_opener(lines: Seq<Seq<char>>, pkg: Seq<char>, open: int, j: int, n: int)
    requires
        0 <= n <= lines.len(),
        0 <= j < lines.len(),
        tidy(pkg),
        open_upto(lines, pkg, n) == Some(open),
        n == lines.len(),
        found(lines, pkg).pkg_line == pkg_in(lines, pkg, j),
        pkg_in(lines, pkg, j) matches Some(PkgAt::BarePending(_)),
        cpus_for(rules_of(lines.take(j)), pkg, seq![]) == Seq::<Seq<char>>::empty(),
        outer(trim(lines[open])) == (Outer::BareOpen { pkg: seq![] }),
        opens_in(lines, pkg, open),
        0 <= open < n,
        opens_in(lines, pkg, j),
    ensures
        open == j,
{
    lemma_place_step(lines, open);
    lemma_first_open(lines, pkg, j, n);
    assert(open <= j);
    assert(pkg_in(lines, pkg, open) is Some);
    lemma_first_pkg(lines, pkg, open, n);
    // the name before both is the same line
    let k = choose|k: int|
        0 <= k <= open && #[trigger] pkg_in(lines, pkg, k) == pkg_upto(lines, pkg, n);
    lemma_told(lines, k);
    lemma_told(lines, j);
    assert(!blank(trim(lines[k])));
}

pub proof fn lemma_first_open(lines: Seq<Seq<char>>, pkg: Seq<char>, j: int, n: int)
    requires
        0 <= j < n <= lines.len(),
        opens_in(lines, pkg, j),
    ensures
        open_upto(lines, pkg, n) matches Some(i) && i <= j,
    decreases n,
{
    lemma_block(lines, pkg, n - 1);
    if j < n - 1 {
        lemma_first_open(lines, pkg, j, n - 1);
    }
}

pub proof fn lemma_first_pkg(lines: Seq<Seq<char>>, pkg: Seq<char>, j: int, n: int)
    requires
        0 <= j < n <= lines.len(),
        pkg_in(lines, pkg, j) is Some,
    ensures
        pkg_upto(lines, pkg, n) is Some,
        exists|k: int| 0 <= k <= j && #[trigger] pkg_in(lines, pkg, k) == pkg_upto(lines, pkg, n),
    decreases n,
{
    if j < n - 1 {
        lemma_first_pkg(lines, pkg, j, n - 1);
    } else if pkg_upto(lines, pkg, n - 1) is Some {
        lemma_pkg_source(lines, pkg, n - 1);
    }
}

proof fn lemma_pkg_source(lines: Seq<Seq<char>>, pkg: Seq<char>, n: int)
    requires
        0 <= n <= lines.len(),
        pkg_upto(lines, pkg, n) is Some,
    ensures
        exists|k: int| 0 <= k < n && #[trigger] pkg_in(lines, pkg, k) == pkg_upto(lines, pkg, n),
    decreases n,
{
    if pkg_upto(lines, pkg, n - 1) is Some {
        lemma_pkg_source(lines, pkg, n - 1);
    }
}

/// Removing the rule of a package takes the first of its rules away, and leaves every other rule as
/// it was.
pub proof fn law_deleted_package_rule_is_gone(lines: Seq<Seq<char>>, pkg: Seq<char>)
    requires
        tidy(pkg),
        ({
            let now = normalized(lines, pkg);
            found(now, pkg).pkg_line matches Some(PkgAt::Standalone(i)) ==> place_at(now, i) is Top
                || calm(now.skip(i + 1))
        }),
    ensures
        deleted(lines, pkg, seq![]) matches Ok(after) ==> ({
            let now = normalized(lines, pkg);
            &&& besides(rules_of(after), pkg, seq![]) == besides(rules_of(now), pkg, seq![])
            &&& cpus_for(rules_of(after), pkg, seq![]) == cpus_for(
                rules_of(now),
                pkg,
                seq![],
            ).drop_first()
        }),
{
    let now = normalized(lines, pkg);
    let n = now.len() as int;
    let t = found(now, pkg);
    let own = Seq::<char>::empty();
    let none = Seq::<Said>::empty();
    lemma_pkg_upto(now, pkg, n);
    let i = lemma_first_pkg_line(now, pkg, n);
    let items = match t.pkg_line {
        Some(PkgAt::OpenInline(_)) => seq![bare_open(pkg)],
        _ => Seq::<Seq<char>>::empty(),
    };
    if deleted(lines, pkg, own) is Ok {
        let raw = now[i];
        let place = place_at(now, i);
        lemma_outer_tidy(trim(raw));
        lemma_place_step(now, i);
        lemma_around(now, i);
        lemma_bare_open(pkg, own);
        assert(bare_open(pkg) + own =~= bare_open(pkg));
        lemma_one(place, bare_open(pkg));
        assert(rules_from(place, items) =~= none);
        lemma_cut_out(now, i, items, pkg);
        let after = deleted(lines, pkg, own)->Ok_0;
        assert(after =~= now.take(i) + items + now.skip(i + 1));
        let a = rules_of(now.take(i));
        let b = rules_from(place_at(now, i + 1), now.skip(i + 1));
        assert(a + none + b =~= a + b);
        let rule = says(place, raw)->0;
        lemma_first_set(a, b, seq![rule], none, pkg);
        assert(cpus_for(rules_of(now), pkg, own).drop_first() =~= cpus_for(b, pkg, own));
        assert(cpus_for(rules_of(after), pkg, own) =~= cpus_for(b, pkg, own));
    }
}

/// The rules of packages other than `pkg`.
pub open spec fn apart(rules: Seq<Said>, pkg: Seq<char>) -> Seq<Said>
    decreases rules.len(),
{
    if rules.len() == 0 {
        seq![]
    } else if rules.last().pkg == pkg {
        apart(rules.drop_last(), pkg)
    } else {
        apart(rules.drop_last(), pkg).push(rules.last())
    }
}

proof fn lemma_apart(a: Seq<Said>, b: Seq<Said>, pkg: Seq<char>)
    ensures
        apart(a + b, pkg) == apart(a, pkg) + apart(b, pkg),
    decreases b.len(),
{
    if b.len() == 0 {
        assert(a + b =~= a);
        assert(apart(a, pkg) + apart(b, pkg) =~= apart(a, pkg));
    } else {
        let c = b.drop_last();
        lemma_apart(a, c, pkg);
        assert((a + b).drop_last() =~= a + c);
        assert((a + b).last() == b.last());
        assert(apart(a, pkg) + apart(b, pkg) =~= apart(a + b, pkg));
    }
}

proof fn lemma_none_apart(rules: Seq<Said>, pkg: Seq<char>)
    requires
        forall|i: int| 0 <= i < rules.len() ==> (#[trigger] rules[i]).pkg == pkg,
    ensures
        apart(rules, pkg) == Seq::<Said>::empty(),
    decreases rules.len(),
{
    if rules.len() > 0 {
        let init = rules.drop_last();
        assert forall|i: int| 0 <= i < init.len() implies (#[trigger] init[i]).pkg == pkg by {
            assert(init[i] == rules[i]);
        }
        lemma_none_apart(init, pkg);
        assert(rules[rules.len() - 1].pkg == pkg);
    } else {
        assert(apart(rules, pkg) =~= seq![]);
    }
}

/// Rules of `pkg` put between others.
proof fn lemma_put_between(a: Seq<Said>, x: Seq<Said>, b: Seq<Said>, pkg: Seq<char>)
    requires
        forall|i: int| 0 <= i < x.len() ==> (#[trigger] x[i]).pkg == pkg,
    ensures
        (a + x + b).to_multiset() == (a + b).to_multiset().add(x.to_multiset()),
        apart(a + x + b, pkg) == apart(a + b, pkg),
{
    vstd::seq_lib::lemma_multiset_commutative(a, x);
    vstd::seq_lib::lemma_multiset_commutative(a + x, b);
    vstd::seq_lib::lemma_multiset_commutative(a, b);
    assert((a + x + b).to_multiset() =~= (a + b).to_multiset().add(x.to_multiset()));
    lemma_none_apart(x, pkg);
    lemma_apart(a, x, pkg);
    lemma_apart(a + x, b, pkg);
    lemma_apart(a, b, pkg);
    assert(apart(a, pkg) + Seq::<Said>::empty() =~= apart(a, pkg));
}

/// The CPUs of a line `pkg{thread}=cpus`.
pub open spec fn single_cpus(raw: Seq<char>) -> Seq<char> {
    match single_parts(stripped(trim(raw), '{')) {
        Some((_, _, cpus)) => cpus,
        None => seq![],
    }
}

/// What the given thread rules say.
pub open spec fn said_of(lines: Seq<Seq<char>>, pkg: Seq<char>, locs: Seq<Loc>) -> Seq<Said> {
    Seq::new(
        locs.len(),
        |i: int|
            Said { pkg, thread: locs[i].name, cpus: single_cpus(lines[locs[i].idx]) },
    )
}

pub proof fn lemma_shuts_found(lines: Seq<Seq<char>>, pkg: Seq<char>, n: int)
    requires
        0 <= n <= lines.len(),
    ensures
        (close_upto(lines, pkg, n) is Some) == shuts(Place::Top, lines.take(n), pkg),
    decreases n,
{
    if n > 0 {
        lemma_shuts_found(lines, pkg, n - 1);
        assert(lines.take(n).drop_last() =~= lines.take(n - 1));
    }
}

proof fn lemma_one_more(a: Seq<Said>, b: Seq<Said>, rule: Said)
    ensures
        a.to_multiset().add(b.push(rule).to_multiset()) == a.to_multiset().add(
            b.to_multiset(),
        ).add(seq![rule].to_multiset()),
{
    assert(b.push(rule) =~= b + seq![rule]);
    vstd::seq_lib::lemma_multiset_commutative(b, seq![rule]);
    assert(a.to_multiset().add(b.push(rule).to_multiset()) =~= a.to_multiset().add(
        b.to_multiset(),
    ).add(seq![rule].to_multiset()));
}

/// Removing one rule `pkg{thread}=cpus`.
proof fn lemma_single_removed(lines: Seq<Seq<char>>, pkg: Seq<char>, loc: Loc) -> (rule: Said)
    requires
        0 <= loc.idx < lines.len(),
        loc_in(place_at(lines, loc.idx), lines[loc.idx], pkg, loc.idx) == Some(loc),
        loc.single,
        !loc.open ==> place_at(lines, loc.idx) is Top || calm(lines.skip(loc.idx + 1)),
    ensures
        rule == (Said { pkg, thread: loc.name, cpus: single_cpus(lines[loc.idx]) }),
        rules_of(lines).to_multiset() == rules_of(
            loc_removed(lines, pkg, loc),
        ).to_multiset().add(seq![rule].to_multiset()),
        apart(rules_of(loc_removed(lines, pkg, loc)), pkg) == apart(rules_of(lines), pkg),
        shuts(Place::Top, loc_removed(lines, pkg, loc), pkg) == shuts(Place::Top, lines, pkg),
        loc.idx <= loc_removed(lines, pkg, loc).len(),
        loc_removed(lines, pkg, loc).take(loc.idx) == lines.take(loc.idx),
{
    let i = loc.idx;
    let place = place_at(lines, i);
    let tail = lines.skip(i + 1);
    let items = stand_in(lines[i], pkg, loc);
    let fewer = loc_removed(lines, pkg, loc);
    lemma_around(lines, i);
    lemma_loc_removed(lines, pkg, loc);
    lemma_outer_tidy(trim(lines[i]));
    let rule = says(place, lines[i])->0;
    let before = rules_of(lines.take(i));
    let rest = rules_from(place_at(lines, i + 1), tail);
    lemma_put_between(before, seq![rule], rest, pkg);
    lemma_single_shuts(lines, pkg, loc);
    rule
}

/// Neither the line of a rule `pkg{thread}=cpus` nor what stands in for it closes a block.
proof fn lemma_single_shuts(lines: Seq<Seq<char>>, pkg: Seq<char>, loc: Loc)
    requires
        0 <= loc.idx < lines.len(),
        loc_in(place_at(lines, loc.idx), lines[loc.idx], pkg, loc.idx) == Some(loc),
        loc.single,
        !loc.open ==> place_at(lines, loc.idx) is Top || calm(lines.skip(loc.idx + 1)),
    ensures
        shuts(Place::Top, loc_removed(lines, pkg, loc), pkg) == shuts(Place::Top, lines, pkg),
{
    let i = loc.idx;
    let place = place_at(lines, i);
    let tail = lines.skip(i + 1);
    let head = lines.take(i);
    let one = seq![lines[i]];
    let items = stand_in(lines[i], pkg, loc);
    let none = Seq::<Seq<char>>::empty();
    assert(reach(place, none) == place);
    assert(!shuts(place, none, pkg));
    assert(!shuts(place, one, pkg)) by {
        assert(one.drop_last() =~= none);
    }
    assert(!shuts(place, items, pkg)) by {
        if items.len() > 0 {
            assert(items.drop_last() =~= none);
        }
    }
    assert(reach(place, one) == place_at(lines, i + 1)) by {
        lemma_one(place, lines[i]);
        lemma_place_step(lines, i);
    }
    assert(shuts(reach(place, items), tail, pkg) == shuts(place_at(lines, i + 1), tail, pkg)) by {
        lemma_loc_removed(lines, pkg, loc);
        if loc.open {
        } else {
            assert(reach(place, items) == place);
            if place is Named {
                lemma_calm(place->Named_0, tail, pkg);
            }
            lemma_place_step(lines, i);
        }
    }
    assert(loc_removed(lines, pkg, loc) =~= head + (items + tail));
    assert(lines =~= head + (one + tail));
    lemma_shuts_concat(Place::Top, head, one + tail, pkg);
    lemma_shuts_concat(Place::Top, head, items + tail, pkg);
    lemma_shuts_concat(place, one, tail, pkg);
    lemma_shuts_concat(place, items, tail, pkg);
}

/// Removing the rules `pkg{thread}=cpus` before line `n`.
#[verifier::rlimit(60)]
#[verifier::spinoff_prover]
pub proof fn lemma_singles_removed(lines: Seq<Seq<char>>, pkg: Seq<char>, n: int)
    requires
        0 <= n <= lines.len(),
        firm(lines, pkg, singles(locs_upto(lines, pkg, n))),
    ensures
        ({
            let locs = singles(locs_upto(lines, pkg, n));
            let r = locs_removed(lines, pkg, locs);
            &&& rules_of(r).to_multiset().add(said_of(lines, pkg, locs).to_multiset()) == rules_of(
                lines,
            ).to_multiset()
            &&& apart(rules_of(r), pkg) == apart(rules_of(lines), pkg)
            &&& shuts(Place::Top, r, pkg) == shuts(Place::Top, lines, pkg)
            &&& locs.len() > 0 ==> 0 <= locs[0].idx <= r.len() && r.take(locs[0].idx) == lines.take(
                locs[0].idx,
            )
            &&& locs.len() > 0 && !locs[0].open ==> place_at(lines, locs[0].idx) is Top || calm(
                r.skip(locs[0].idx),
            )
        }),
    decreases n,
{
    let all = locs_upto(lines, pkg, n);
    let locs = singles(all);
    if n == 0 {
        let said = said_of(lines, pkg, locs);
        assert(said =~= seq![]);
        said.to_multiset_ensures();
        assert(rules_of(lines).to_multiset().add(said.to_multiset()) =~= rules_of(
            lines,
        ).to_multiset());
    } else {
        let i = n - 1;
        let place = place_at(lines, i);
        match loc_in(place, lines[i], pkg, i) {
            Some(loc) => {
                assert(all.drop_last() =~= locs_upto(lines, pkg, i));
                assert(all.last() == loc);
            },
            None => {},
        }
        let here = loc_in(place, lines[i], pkg, i);
        if here is Some && here->0.single {
            let loc = here->0;
            let fewer = loc_removed(lines, pkg, loc);
            let init = singles(locs_upto(lines, pkg, i));
            assert(locs =~= init.push(loc));
            assert(locs.drop_last() =~= init);
            let rule = lemma_single_removed(lines, pkg, loc);
            lemma_same_front(lines, fewer, pkg, i);
            lemma_singles_removed(fewer, pkg, i);
            lemma_locs(lines, pkg, i);
            lemma_singles(locs_upto(lines, pkg, i), i);
            let said = said_of(lines, pkg, locs);
            let said_init = said_of(fewer, pkg, init);
            assert(said =~= said_init.push(rule));
            let r = locs_removed(fewer, pkg, init);
            lemma_one_more(rules_of(r), said_init, rule);
            // the front
            if init.len() > 0 {
                let first = init[0].idx;
                assert(locs[0] == init[0]);
                assert(fewer.take(first) =~= lines.take(first)) by {
                    assert(fewer.take(i) == lines.take(i));
                    assert(fewer.take(first) =~= fewer.take(i).take(first));
                    assert(lines.take(first) =~= lines.take(i).take(first));
                }
            } else {
                assert(locs[0] == loc);
                assert(!loc.open ==> r.skip(i) =~= lines.skip(i + 1));
            }
        } else {
            assert(locs =~= singles(locs_upto(lines, pkg, i)));
            lemma_singles_removed(lines, pkg, i);
        }
    }
}

/// Rules rewritten for the inside of a block are read there as they were read before.
pub proof fn lemma_moved_all(lines: Seq<Seq<char>>, pkg: Seq<char>, locs: Seq<Loc>)
    requires
        forall|k: int|
            0 <= k < locs.len() ==> (#[trigger] locs[k]).single && loc_in(
                place_at(lines, locs[k].idx),
                lines[locs[k].idx],
                pkg,
                locs[k].idx,
            ) == Some(locs[k]),
    ensures
        reach(Place::Block(pkg), moved_all(lines, locs)) == Place::Block(pkg),
        rules_from(Place::Block(pkg), moved_all(lines, locs)) == said_of(lines, pkg, locs),
    decreases locs.len(),
{
    let items = moved_all(lines, locs);
    let said = said_of(lines, pkg, locs);
    if locs.len() == 0 {
        assert(items =~= seq![]);
        assert(said =~= seq![]);
    } else {
        let init = locs.drop_last();
        assert forall|k: int| 0 <= k < init.len() implies (#[trigger] init[k]).single && loc_in(
            place_at(lines, init[k].idx),
            lines[init[k].idx],
            pkg,
            init[k].idx,
        ) == Some(init[k]) by {
            assert(init[k] == locs[k]);
        }
        lemma_moved_all(lines, pkg, init);
        let loc = locs.last();
        assert(locs[locs.len() - 1] == loc);
        let p = trim(lines[loc.idx]);
        lemma_outer_tidy(p);
        lemma_cut_no_mark(p);
        let note = p.skip(cut(p));
        let (owner, thread, cpus) = single_parts(stripped(p, '{'))->0;
        lemma_member_line(thread, cpus, note, pkg);
        assert(items.drop_last() =~= moved_all(lines, init));
        assert(items.last() == member_line(thread, cpus) + note);
        assert(said =~= said_of(lines, pkg, init).push(Said { pkg, thread, cpus }));
    }
}

/// Whether the rules `pkg{thread}=cpus` that an edit brings into one block, if it does, can be taken
/// from where they stand without bringing a `{` alone behind a bare name.
pub open spec fn come_off(lines: Seq<Seq<char>>, pkg: Seq<char>) -> bool {
    let t = found(lines, pkg);
    !stay(t) ==> firm(lines, pkg, singles(t.threads))
}

/// Whether they also arrive in a block: the package rule behind which one is opened, if it is, has
/// no comment.
pub open spec fn gathers(lines: Seq<Seq<char>>, pkg: Seq<char>) -> bool {
    let t = found(lines, pkg);
    let rest = locs_removed(lines, pkg, singles(t.threads));
    come_off(lines, pkg) && (!stay(t) ==> plain_rule(rest, found(rest, pkg)))
}

/// Bringing the rules of a package into one block keeps every rule: those of the other packages in
/// their order, and all rules as often as they were stated.
#[verifier::rlimit(60)]
#[verifier::spinoff_prover]
pub proof fn law_normalized_keeps_rules(lines: Seq<Seq<char>>, pkg: Seq<char>)
    requires
        tidy(pkg),
        gathers(lines, pkg),
    ensures
        rules_of(normalized(lines, pkg)).to_multiset() == rules_of(lines).to_multiset(),
        apart(rules_of(normalized(lines, pkg)), pkg) == apart(rules_of(lines), pkg),
{
    let t = found(lines, pkg);
    let n = lines.len() as int;
    let locs = singles(t.threads);
    if !stay(t) {
        let items = moved_all(lines, locs);
        let said = said_of(lines, pkg, locs);
        let rest = locs_removed(lines, pkg, locs);
        let u = found(rest, pkg);
        let m = rest.len() as int;
        let block = Place::Block(pkg);
        lemma_singles_removed(lines, pkg, n);
        lemma_locs(lines, pkg, n);
        lemma_singles(t.threads, n);
        assert forall|k: int| 0 <= k < locs.len() implies (#[trigger] locs[k]).single && loc_in(
            place_at(lines, locs[k].idx),
            lines[locs[k].idx],
            pkg,
            locs[k].idx,
        ) == Some(locs[k]) by {
            let j = choose|j: int| 0 <= j < t.threads.len() && t.threads[j] == locs[k];
            assert(t.threads[j] == locs[k]);
        }
        lemma_moved_all(lines, pkg, locs);
        lemma_block(rest, pkg, m);
        lemma_pkg_upto(rest, pkg, m);
        lemma_said(lines, pkg, locs);
        match u.block_close {
            Some(close) => {
                lemma_into_block(rest, close, items, pkg);
            },
            None => match u.pkg_line {
                Some(PkgAt::Standalone(i)) => {
                    let cpus = outer(trim(rest[i]))->Rule_cpus;
                    lemma_block_added(rest, i, items, pkg, cpus);
                    let own = seq![Said { pkg, thread: seq![], cpus }];
                    lemma_put_between(
                        rules_of(rest.take(i)) + own,
                        said,
                        rules_from(Place::Top, rest.skip(i + 1)),
                        pkg,
                    );
                },
                _ => {
                    let first = locs[0].idx;
                    assert(!locs[0].open) by {
                        lemma_shuts_found(lines, pkg, n);
                        lemma_shuts_found(rest, pkg, m);
                        assert(lines.take(n) =~= lines);
                        assert(rest.take(m) =~= rest);
                        assert(t.block_close is None);
                    }
                    assert(place_at(rest, first) == place_at(lines, first));
                    lemma_new_block(rest, first, items, pkg);
                    lemma_put_between(
                        rules_of(rest.take(first)),
                        said,
                        rules_from(Place::Top, rest.skip(first)),
                        pkg,
                    );
                },
            },
        }
    }
}

proof fn lemma_said(lines: Seq<Seq<char>>, pkg: Seq<char>, locs: Seq<Loc>)
    ensures
        forall|i: int|
            0 <= i < said_of(lines, pkg, locs).len() ==> (#[trigger] said_of(
                lines,
                pkg,
                locs,
            )[i]).pkg == pkg,
{
}

/// More rules before the line that closes a block.
proof fn lemma_into_block(lines: Seq<Seq<char>>, close: int, items: Seq<Seq<char>>, pkg: Seq<char>)
    requires
        0 <= close < lines.len(),
        place_at(lines, close) == Place::Block(pkg),
        reach(Place::Block(pkg), items) == Place::Block(pkg),
        forall|i: int|
            0 <= i < rules_from(Place::Block(pkg), items).len() ==> (#[trigger] rules_from(
                Place::Block(pkg),
                items,
            )[i]).pkg == pkg,
    ensures
        rules_of(spliced(lines, close, items)).to_multiset() == rules_of(lines).to_multiset().add(
            rules_from(Place::Block(pkg), items).to_multiset(),
        ),
        apart(rules_of(spliced(lines, close, items)), pkg) == apart(rules_of(lines), pkg),
{
    let block = Place::Block(pkg);
    let a = lines.take(close);
    let b = lines.skip(close);
    assert(lines =~= a + b);
    lemma_concat(Place::Top, a, b);
    lemma_concat(Place::Top, a, items);
    lemma_concat(Place::Top, a + items, b);
    lemma_put_between(rules_of(a), rules_from(block, items), rules_from(block, b), pkg);
}

/// A new block between two lines, outside any block and not between a bare name and its `{`.
pub proof fn lemma_new_block(lines: Seq<Seq<char>>, at: int, items: Seq<Seq<char>>, pkg: Seq<char>)
    requires
        0 <= at <= lines.len(),
        !(place_at(lines, at) is Block),
        place_at(lines, at) is Top || calm(lines.skip(at)),
        tidy(pkg),
        reach(Place::Block(pkg), items) == Place::Block(pkg),
    ensures
        rules_of(lines) == rules_of(lines.take(at)) + rules_from(Place::Top, lines.skip(at)),
        rules_of(spliced(lines, at, seq![bare_open(pkg)] + items.push("}"@))) == rules_of(
            lines.take(at),
        ) + rules_from(Place::Block(pkg), items) + rules_from(Place::Top, lines.skip(at)),
{
    let none = Seq::<char>::empty();
    let block = Place::Block(pkg);
    let a = lines.take(at);
    let b = lines.skip(at);
    let close = seq!["}"@];
    let chunk = seq![bare_open(pkg)] + items.push("}"@);
    assert(items.push("}"@) =~= items + close);
    assert(bare_open(pkg) + none =~= bare_open(pkg));
    assert("}"@ + none =~= "}"@);
    lemma_bare_open(pkg, none);
    lemma_close_line(none, pkg);
    let start = place_at(lines, at);
    lemma_one(start, bare_open(pkg));
    lemma_one(block, "}"@);
    lemma_concat(block, items, close);
    lemma_concat(start, seq![bare_open(pkg)], items + close);
    assert(rules_from(start, chunk) =~= rules_from(block, items));
    if let Place::Named(name) = start {
        lemma_calm(name, b, pkg);
    }
    assert(lines =~= a + b);
    lemma_concat(Place::Top, a, b);
    lemma_concat(Place::Top, a, chunk);
    lemma_concat(Place::Top, a + chunk, b);
}

/// Where the package rule is cloned, it is the first that the file states for the source.
pub proof fn law_clone_takes_the_first_package_rule(
    lines: Seq<Seq<char>>,
    source: Seq<char>,
    target: Seq<char>,
    copy_package: bool,
    copy_threads: bool,
)
    requires
        tidy(source),
        cloned(lines, source, target, copy_package, copy_threads) is Ok,
    ensures
        ({
            let base = clone_base(lines, source, target);
            let own = cpus_for(rules_of(base), source, seq![]);
            clone_rules(base, source, target, copy_package, copy_threads)->Ok_0.package == if copy_package {
                Some(own[0])
            } else {
                None
            }
        }),
        copy_package ==> cpus_for(
            rules_of(clone_base(lines, source, target)),
            source,
            seq![],
        ).len() > 0,
{
    let base = clone_base(lines, source, target);
    let n = base.len() as int;
    let t = found(base, source);
    let none = Seq::<char>::empty();
    if copy_package {
        let j = lemma_first_pkg_line(base, source, n);
        lemma_pkg_upto(base, source, n);
        lemma_around(base, j);
        lemma_outer_tidy(trim(base[j]));
        let rule = says(place_at(base, j), base[j])->0;
        let before = rules_of(base.take(j));
        let rest = rules_from(place_at(base, j + 1), base.skip(j + 1));
        lemma_single_rule(rule, source, none);
        lemma_parted(before, seq![rule], source, none);
        lemma_parted(before + seq![rule], rest, source, none);
        assert(cpus_for(rules_of(base), source, none)[0] == rule.cpus);
    }
}

} // verus!
