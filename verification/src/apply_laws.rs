//! What a tuning does to processes and threads, in terms of the paths, files and values at hand.

use crate::apply::{
    app_at, bad_path_warning, expanded, filled, first_there, first_within, group_at, group_step,
    group_writes, listed, located, missing_warning, no_control_warning, no_uid_warning,
    order_warning, places, roots_of, set_to, tuned_app, uid_in, uid_line, unsupported_warning,
    within_any, within_root, GroupStepV, WriteV,
};
use crate::name_laws::law_joining_paths;
use crate::text::{
    begins, decimal, decimal_int, is_digit, lemma_decimal, lines_of, occurs, occurs_at, replaced,
    unsigned_of, words,
};
use crate::text_laws::{law_holding_another_text, law_numbers_in_decimal, law_replacing};
use crate::tuning::{cgroup_template, markers_filled, AppV, ConfigV, GroupV, WarningV};
use vstd::prelude::*;

verus! {

// The user of a process.

/// The user of a process is the first number on the first line of its status that begins with
/// `Uid:`, if it is one of 32 bits; without such a line there is none.
pub proof fn law_users_of_processes(status: Seq<char>, i: int, rest: Seq<char>)
    ensures
        ({
            let lines = lines_of(status);
            0 <= i < lines.len() && lines[i] == "Uid:"@ + rest && (forall|j: int|
                0 <= j < i ==> !begins(#[trigger] lines[j], "Uid:"@)) ==> uid_in(status) == if words(
                rest,
            ).len() == 0 {
                None
            } else {
                unsigned_of(words(rest)[0], 0xffff_ffff)
            }
        }),
        (forall|j: int| 0 <= j < lines_of(status).len() ==> !begins(
            #[trigger] lines_of(status)[j],
            "Uid:"@,
        )) ==> uid_in(status) is None,
{
    reveal_strlit("Uid:");
    let lines = lines_of(status);
    let n = lines.len() as int;
    if forall|j: int| 0 <= j < n ==> !begins(#[trigger] lines[j], "Uid:"@) {
        lemma_no_uid_line(lines, n);
    }
    if 0 <= i < n && lines[i] == "Uid:"@ + rest && (forall|j: int|
        0 <= j < i ==> !begins(#[trigger] lines[j], "Uid:"@)) {
        lemma_no_uid_line(lines, i);
        assert(lines[i].take(4) =~= "Uid:"@);
        assert(lines[i].skip(4) =~= rest);
        assert(uid_line(lines, i + 1) == Some(rest));
        lemma_uid_line_stays(lines, i + 1, n);
    }
}

proof fn lemma_no_uid_line(lines: Seq<Seq<char>>, n: int)
    requires
        0 <= n <= lines.len(),
        forall|j: int| 0 <= j < n ==> !begins(#[trigger] lines[j], "Uid:"@),
    ensures
        uid_line(lines, n) is None,
    decreases n,
{
    if n > 0 {
        lemma_no_uid_line(lines, n - 1);
    }
}

proof fn lemma_uid_line_stays(lines: Seq<Seq<char>>, m: int, n: int)
    requires
        0 <= m <= n,
        uid_line(lines, m) is Some,
    ensures
        uid_line(lines, n) == uid_line(lines, m),
    decreases n,
{
    if m < n {
        lemma_uid_line_stays(lines, m, n - 1);
    }
}

// The path of a group.

pub open spec fn no_brace(s: Seq<char>) -> bool {
    forall|i: int| 0 <= i < s.len() ==> (#[trigger] s[i]) != '{'
}

proof fn lemma_front_stays(a: Seq<char>, s: Seq<char>, from: Seq<char>, to: Seq<char>)
    requires
        no_brace(a),
        from.len() > 0,
        from[0] == '{',
    ensures
        replaced(a + s, from, to) == a + replaced(s, from, to),
    decreases a.len(),
{
    if a.len() == 0 {
        assert(a + s =~= s);
        assert(a + replaced(s, from, to) =~= replaced(s, from, to));
    } else {
        let b = a.drop_first();
        let x = a + s;
        assert forall|i: int| 0 <= i < b.len() implies (#[trigger] b[i]) != '{' by {
            assert(b[i] == a[i + 1]);
        }
        lemma_front_stays(b, s, from, to);
        assert(x.drop_first() =~= b + s);
        assert(x[0] == a[0]);
        if occurs_at(x, from, 0) {
            assert(x.subrange(0, from.len() as int)[0] == x[0]);
        }
        assert(seq![x[0]] + (b + replaced(s, from, to)) =~= a + replaced(s, from, to));
    }
}

proof fn lemma_nothing_to_replace(a: Seq<char>, from: Seq<char>, to: Seq<char>)
    requires
        no_brace(a),
        from.len() > 0,
        from[0] == '{',
    ensures
        replaced(a, from, to) == a,
        !occurs(a, from),
{
    let none = Seq::<char>::empty();
    lemma_front_stays(a, none, from, to);
    assert(a + none =~= a);
    assert(replaced(none, from, to) =~= none);
    if occurs(a, from) {
        let i = choose|i: int| occurs_at(a, from, i);
        assert(a.subrange(i, i + from.len())[0] == a[i]);
    }
}

/// Another mark stays as it is.
proof fn lemma_other_mark(a: Seq<char>, mark: Seq<char>, s: Seq<char>, from: Seq<char>, to: Seq<char>)
    requires
        no_brace(a),
        mark.len() == 5,
        from.len() == 5,
        from[0] == '{',
        mark[0] == '{',
        no_brace(mark.drop_first()),
        mark != from,
    ensures
        replaced(a + mark + s, from, to) == a + mark + replaced(s, from, to),
{
    let rest = mark.drop_first();
    let x = seq!['{'] + (rest + s);
    assert(mark =~= seq!['{'] + rest);
    assert(a + mark + s =~= a + x);
    lemma_front_stays(a, x, from, to);
    if begins(x, from) {
        assert(x.take(5) =~= mark);
    }
    law_replacing(rest + s, from, to, '{');
    lemma_front_stays(rest, s, from, to);
    let t = replaced(s, from, to);
    assert(a + (seq!['{'] + (rest + t)) =~= a + mark + t);
}

proof fn lemma_mark_replaced(a: Seq<char>, from: Seq<char>, s: Seq<char>, to: Seq<char>)
    requires
        no_brace(a),
        from.len() > 0,
        from[0] == '{',
    ensures
        replaced(a + from + s, from, to) == a + to + replaced(s, from, to),
{
    assert(a + from + s =~= a + (from + s));
    lemma_front_stays(a, from + s, from, to);
    law_replacing(s, from, to, 'x');
    let t = replaced(s, from, to);
    assert(a + (to + t) =~= a + to + t);
}

/// The numbers and names of a process are filled in wherever a path has their marks, and nowhere
/// else: what stands before the first mark stays, and what stands behind it is filled in as well.
#[verifier::rlimit(40)]
#[verifier::spinoff_prover]
pub proof fn law_marks_are_filled_in(
    a: Seq<char>,
    s: Seq<char>,
    uid: Seq<char>,
    pid: int,
    pkg: Seq<char>,
)
    requires
        no_brace(a),
        no_brace(uid),
    ensures
        filled(a, uid, pid, pkg) == a,
        filled(a + "{uid}"@ + s, uid, pid, pkg) == a + uid + filled(s, uid, pid, pkg),
        filled(a + "{pid}"@ + s, uid, pid, pkg) == a + decimal_int(pid) + filled(s, uid, pid, pkg),
        filled(a + "{pkg}"@ + s, uid, pid, pkg) == a + pkg + filled(s, uid, pid, pkg),
{
    reveal_strlit("{uid}");
    reveal_strlit("{pid}");
    reveal_strlit("{pkg}");
    let (u, p, k) = ("{uid}"@, "{pid}"@, "{pkg}"@);
    let n = decimal_int(pid);
    assert(u[1] == 'u' && p[1] == 'p' && p[2] == 'i' && k[1] == 'p' && k[2] == 'k');
    let none = Seq::<char>::empty();
    let s1 = replaced(s, u, uid);
    let s2 = replaced(s1, p, n);
    lemma_nothing_to_replace(a, u, uid);
    lemma_nothing_to_replace(a, p, n);
    lemma_nothing_to_replace(a, k, pkg);
    lemma_number_no_brace(pid);
    lemma_joined_no_brace(a, uid, none);
    lemma_joined_no_brace(a, n, none);
    assert(a + uid + none =~= a + uid);
    assert(a + n + none =~= a + n);
    // the user
    lemma_mark_replaced(a, u, s, uid);
    lemma_front_stays(a + uid, s1, p, n);
    lemma_front_stays(a + uid, s2, k, pkg);
    // the process
    lemma_other_mark(a, p, s, u, uid);
    lemma_mark_replaced(a, p, s1, n);
    lemma_front_stays(a + n, s2, k, pkg);
    // the package
    lemma_other_mark(a, k, s, u, uid);
    lemma_other_mark(a, k, s1, p, n);
    lemma_mark_replaced(a, k, s2, pkg);
}

proof fn lemma_joined_no_brace(a: Seq<char>, m: Seq<char>, b: Seq<char>)
    requires
        no_brace(a),
        no_brace(m),
        no_brace(b),
    ensures
        no_brace(a + m + b),
{
    let s = a + m + b;
    assert forall|i: int| 0 <= i < s.len() implies (#[trigger] s[i]) != '{' by {
        if i < a.len() {
            assert(s[i] == a[i]);
        } else if i < a.len() + m.len() {
            assert(s[i] == m[i - a.len()]);
        } else {
            assert(s[i] == b[i - a.len() - m.len()]);
        }
    }
}

proof fn lemma_number_no_brace(n: int)
    ensures
        no_brace(decimal_int(n)),
{
    let k = if n < 0 {
        (-n) as nat
    } else {
        n as nat
    };
    lemma_decimal(k);
    let s = decimal_int(n);
    assert forall|i: int| 0 <= i < s.len() implies (#[trigger] s[i]) != '{' by {
        if n < 0 {
            if i > 0 {
                assert(s[i] == decimal(k)[i - 1]);
                assert(is_digit(decimal(k)[i - 1]));
            }
        } else {
            assert(is_digit(decimal(k)[i]));
        }
    }
}

/// The user is asked for exactly where the path has its mark: without one that can be read, such a
/// path cannot be used, and any other can.
#[verifier::rlimit(40)]
#[verifier::spinoff_prover]
pub proof fn law_when_the_user_is_needed(
    a: Seq<char>,
    b: Seq<char>,
    pid: int,
    pkg: Seq<char>,
    status: Seq<char>,
)
    requires
        no_brace(a),
        no_brace(b),
    ensures
        expanded(a, pid, pkg, None) == Ok::<Seq<char>, WarningV>(a),
        expanded(a + "{pid}"@ + b, pid, pkg, None) == Ok::<Seq<char>, WarningV>(
            a + decimal_int(pid) + b,
        ),
        expanded(a + "{pkg}"@ + b, pid, pkg, None) == Ok::<Seq<char>, WarningV>(
            a + pkg + b,
        ),
        expanded(a + "{uid}"@ + b, pid, pkg, None) is Err,
        uid_in(status) is None ==> expanded(a + "{uid}"@ + b, pid, pkg, Some(status)) is Err,
        uid_in(status) matches Some(uid) ==> expanded(a + "{uid}"@ + b, pid, pkg, Some(status))
            == Ok::<Seq<char>, WarningV>(a + decimal(uid) + b),
{
    let none = Seq::<char>::empty();
    lemma_user_mark(a, b);
    law_marks_are_filled_in(a, b, none, pid, pkg);
    law_marks_are_filled_in(b, a, none, pid, pkg);
    if let Some(uid) = uid_in(status) {
        lemma_number_no_brace(uid as int);
        law_numbers_in_decimal(uid);
        law_marks_are_filled_in(a, b, decimal(uid), pid, pkg);
        law_marks_are_filled_in(b, a, decimal(uid), pid, pkg);
    }
}

/// Which paths have the mark of the user.
proof fn lemma_user_mark(a: Seq<char>, b: Seq<char>)
    requires
        no_brace(a),
        no_brace(b),
    ensures
        !occurs(a, "{uid}"@),
        occurs(a + "{uid}"@ + b, "{uid}"@),
        !occurs(a + "{pid}"@ + b, "{uid}"@),
        !occurs(a + "{pkg}"@ + b, "{uid}"@),
{
    reveal_strlit("{uid}");
    reveal_strlit("{pid}");
    reveal_strlit("{pkg}");
    let (u, p, k) = ("{uid}"@, "{pid}"@, "{pkg}"@);
    assert(u[1] == 'u' && p[1] == 'p' && k[1] == 'p');
    lemma_nothing_to_replace(a, u, a);
    let s = a + u + b;
    assert(s.subrange(a.len() as int, a.len() as int + 5) =~= u);
    assert(occurs_at(s, u, a.len() as int));
    lemma_not_held(a, p, b, u);
    lemma_not_held(a, k, b, u);
}

proof fn lemma_not_held(a: Seq<char>, mark: Seq<char>, b: Seq<char>, from: Seq<char>)
    requires
        no_brace(a),
        no_brace(b),
        mark.len() == 5,
        from.len() == 5,
        from[0] == '{',
        mark[0] == '{',
        no_brace(mark.drop_first()),
        mark != from,
    ensures
        !occurs(a + mark + b, from),
{
    let s = a + mark + b;
    if occurs(s, from) {
        let i = choose|i: int| occurs_at(s, from, i);
        assert(s.subrange(i, i + 5)[0] == s[i]);
        assert(s[i] == '{');
        if i < a.len() {
            assert(s[i] == a[i]);
        } else if i == a.len() {
            assert(s.subrange(i, i + 5) =~= mark);
        } else if i < a.len() + 5 {
            assert(s[i] == mark.drop_first()[i - a.len() - 1]);
        } else {
            assert(s[i] == b[i - a.len() - 5]);
        }
    }
}

/// A path with marks in it is accepted as the path of a group exactly if its braces are those of the
/// marks and it would be accepted otherwise: each mark counts as a letter.
pub proof fn law_marks_count_as_letters(a: Seq<char>, s: Seq<char>)
    requires
        no_brace(a),
    ensures
        markers_filled(a) == a,
        markers_filled(a + "{uid}"@ + s) == a + "x"@ + markers_filled(s),
        markers_filled(a + "{pid}"@ + s) == a + "x"@ + markers_filled(s),
        markers_filled(a + "{pkg}"@ + s) == a + "x"@ + markers_filled(s),
{
    reveal_strlit("{uid}");
    reveal_strlit("{pid}");
    reveal_strlit("{pkg}");
    reveal_strlit("x");
    let (u, p, k) = ("{uid}"@, "{pid}"@, "{pkg}"@);
    let x = "x"@;
    let none = Seq::<char>::empty();
    assert(u[1] == 'u' && p[1] == 'p' && p[2] == 'i' && k[1] == 'p' && k[2] == 'k');
    let s1 = replaced(s, u, x);
    let s2 = replaced(s1, p, x);
    lemma_nothing_to_replace(a, u, x);
    lemma_nothing_to_replace(a, p, x);
    lemma_nothing_to_replace(a, k, x);
    lemma_joined_no_brace(a, x, none);
    assert(a + x + none =~= a + x);
    lemma_mark_replaced(a, u, s, x);
    lemma_front_stays(a + x, s1, p, x);
    lemma_front_stays(a + x, s2, k, x);
    lemma_other_mark(a, p, s, u, x);
    lemma_mark_replaced(a, p, s1, x);
    lemma_other_mark(a, k, s, u, x);
    lemma_other_mark(a, k, s1, p, x);
    lemma_mark_replaced(a, k, s2, x);
}

/// A group is sought at its own path if that is absolute, and else below each root, in their order.
pub proof fn law_where_groups_are_sought(path: Seq<char>, roots: Seq<Seq<char>>, i: int)
    requires
        path.len() > 0,
    ensures
        path[0] == '/' ==> places(path, roots) == seq![path],
        path[0] != '/' ==> places(path, roots).len() == roots.len(),
        path[0] != '/' && 0 <= i < roots.len() && roots[i].len() > 0 && roots[i][roots[i].len() - 1]
            != '/' ==> places(path, roots)[i] == roots[i] + "/"@ + path,
{
    reveal_strlit("/");
    assert(path.take(1) =~= seq![path[0]]);
    assert("/"@ =~= seq!['/']);
    assert(path.take(1)[0] == path[0]);
    if path[0] == '/' {
        assert(begins(path, "/"@));
    } else {
        assert(!begins(path, "/"@)) by {
            if begins(path, "/"@) {
                assert(path.take(1) == "/"@);
                assert(path.take(1)[0] == '/');
            }
        }
        if 0 <= i < roots.len() {
            law_joining_paths(roots[i], path);
        }
    }
}

/// The roots are those that are there, the one of Android first and the unified one last.
pub proof fn law_which_roots_there_are(memcg: bool, memory: bool, unified: bool)
    ensures
        roots_of(true, true, true) == seq![
            "/dev/memcg"@,
            "/sys/fs/cgroup/memory"@,
            "/sys/fs/cgroup"@,
        ],
        roots_of(memcg, memory, unified).contains("/dev/memcg"@) <==> memcg,
        roots_of(memcg, memory, unified).contains("/sys/fs/cgroup/memory"@) <==> memory,
        roots_of(memcg, memory, unified).contains("/sys/fs/cgroup"@) <==> unified,
        forall|root: Seq<char>| #[trigger]
            roots_of(memcg, memory, unified).contains(root) ==> roots_of(
                true,
                true,
                true,
            ).contains(root),
{
    reveal_strlit("/dev/memcg");
    reveal_strlit("/sys/fs/cgroup/memory");
    reveal_strlit("/sys/fs/cgroup");
    let (a, b, c) = ("/dev/memcg"@, "/sys/fs/cgroup/memory"@, "/sys/fs/cgroup"@);
    assert(a.len() == 10 && b.len() == 21 && c.len() == 14);
    let all = roots_of(true, true, true);
    assert(all =~= seq![a, b, c]);
    assert(all[0] == a && all[1] == b && all[2] == c);
    let r = roots_of(memcg, memory, unified);
    let i: int = if memcg {
        1
    } else {
        0
    };
    let j: int = if memory {
        i + 1
    } else {
        i
    };
    assert(memcg ==> r[0] == a);
    assert(memory ==> r[i] == b);
    assert(unified ==> r[j] == c);
    assert forall|k: int| 0 <= k < r.len() implies (#[trigger] r[k] == a && memcg) || (r[k] == b
        && memory) || (r[k] == c && unified) by {}
}

/// A directory stands below a root exactly if it is the root, or its path goes on behind the root
/// with a slash.
pub proof fn law_which_directories_stand_below_a_root(dir: Seq<char>, root: Seq<char>)
    requires
        root.len() > 0,
        root[root.len() - 1] != '/',
    ensures
        within_root(dir, root) <==> dir == root || exists|rest: Seq<char>|
            dir == #[trigger] (root + "/"@ + rest),
{
    let none = Seq::<char>::empty();
    law_joining_paths(root, none);
    assert(root + "/"@ + none =~= root + "/"@);
    law_holding_another_text(dir, root + "/"@);
    if exists|b: Seq<char>| dir == #[trigger] (root + "/"@ + b) {
        let b = choose|b: Seq<char>| dir == #[trigger] (root + "/"@ + b);
        assert(dir == (root + "/"@) + b);
    }
}

/// The directory of a group is the first of the places that is there and stands below a root.
pub proof fn law_the_first_place_counts(
    dirs: Seq<Option<Seq<char>>>,
    roots: Seq<Seq<char>>,
    n: int,
)
    requires
        0 <= n <= dirs.len(),
    ensures
        match first_within(dirs, roots, n) {
            Some(d) => within_any(d, roots) && exists|i: int|
                0 <= i < n && #[trigger] dirs[i] == Some(d) && forall|j: int|
                    0 <= j < i ==> !((#[trigger] dirs[j]) matches Some(e) && within_any(e, roots)),
            None => forall|j: int|
                0 <= j < n ==> !((#[trigger] dirs[j]) matches Some(e) && within_any(e, roots)),
        },
    decreases n,
{
    if n > 0 {
        law_the_first_place_counts(dirs, roots, n - 1);
        if first_within(dirs, roots, n - 1) is None && first_within(dirs, roots, n) is Some {
            assert(dirs[n - 1] == first_within(dirs, roots, n));
        }
    }
}

// The files of a group.

/// Whether `value` is written to the first of `names` that is there.
pub open spec fn writes(g: GroupV, names: Seq<Seq<char>>, value: Seq<char>) -> bool {
    group_writes(g).contains(WriteV { names, value })
}

/// Each limit that a memory group states is written to its own file, the two that have another name
/// in the older hierarchy to the one that is there; nothing else is written.
#[verifier::rlimit(40)]
#[verifier::spinoff_prover]
pub proof fn law_limits_go_to_their_files(g: GroupV, value: Seq<char>)
    requires
        g.swappiness matches Some(n) ==> n >= 0,
    ensures
        writes(g, seq!["memory.swappiness"@], value) <==> (g.swappiness matches Some(n) && value
            == decimal(n as nat)),
        writes(g, seq!["memory.min"@], value) <==> g.memory_min == Some(value),
        writes(g, seq!["memory.low"@, "memory.soft_limit_in_bytes"@], value) <==> g.memory_low
            == Some(value),
        writes(g, seq!["memory.high"@], value) <==> g.memory_high == Some(value),
        writes(g, seq!["memory.max"@, "memory.limit_in_bytes"@], value) <==> g.memory_max == Some(
            value,
        ),
        writes(g, seq!["memory.oom.group"@], value) <==> (g.oom_group == Some(true) && value == "1"@)
            || (g.oom_group == Some(false) && value == "0"@),
        forall|i: int|
            0 <= i < group_writes(g).len() ==> {
                let names = (#[trigger] group_writes(g)[i]).names;
                ||| names == seq!["memory.swappiness"@]
                ||| names == seq!["memory.min"@]
                ||| names == seq!["memory.low"@, "memory.soft_limit_in_bytes"@]
                ||| names == seq!["memory.high"@]
                ||| names == seq!["memory.max"@, "memory.limit_in_bytes"@]
                ||| names == seq!["memory.oom.group"@]
            },
{
    lemma_file_names();
    lemma_written(g, WriteV { names: seq!["memory.swappiness"@], value });
    lemma_written(g, WriteV { names: seq!["memory.min"@], value });
    lemma_written(
        g,
        WriteV { names: seq!["memory.low"@, "memory.soft_limit_in_bytes"@], value },
    );
    lemma_written(g, WriteV { names: seq!["memory.high"@], value });
    lemma_written(g, WriteV { names: seq!["memory.max"@, "memory.limit_in_bytes"@], value });
    lemma_written(g, WriteV { names: seq!["memory.oom.group"@], value });
    let all = group_writes(g);
    assert forall|i: int| 0 <= i < all.len() implies {
        let names = (#[trigger] all[i]).names;
        ||| names == seq!["memory.swappiness"@]
        ||| names == seq!["memory.min"@]
        ||| names == seq!["memory.low"@, "memory.soft_limit_in_bytes"@]
        ||| names == seq!["memory.high"@]
        ||| names == seq!["memory.max"@, "memory.limit_in_bytes"@]
        ||| names == seq!["memory.oom.group"@]
    } by {
        assert(all.contains(all[i]));
        lemma_written(g, all[i]);
    }
}

/// What is written for a group, limit by limit.
#[verifier::rlimit(40)]
#[verifier::spinoff_prover]
proof fn lemma_written(g: GroupV, w: WriteV)
    ensures
        group_writes(g).contains(w) <==> {
            ||| w.names == seq!["memory.swappiness"@] && (g.swappiness matches Some(n) && w.value
                == decimal(n as nat))
            ||| w.names == seq!["memory.min"@] && g.memory_min == Some(w.value)
            ||| w.names == seq!["memory.low"@, "memory.soft_limit_in_bytes"@] && g.memory_low
                == Some(w.value)
            ||| w.names == seq!["memory.high"@] && g.memory_high == Some(w.value)
            ||| w.names == seq!["memory.max"@, "memory.limit_in_bytes"@] && g.memory_max == Some(
                w.value,
            )
            ||| w.names == seq!["memory.oom.group"@] && ((g.oom_group == Some(true) && w.value
                == "1"@) || (g.oom_group == Some(false) && w.value == "0"@))
        },
{
    let swap = match g.swappiness {
        Some(n) => Some(decimal(n as nat)),
        None => None,
    };
    let kill = match g.oom_group {
        Some(true) => Some("1"@),
        Some(false) => Some("0"@),
        None => None,
    };
    let a = set_to(seq!["memory.swappiness"@], swap);
    let b = set_to(seq!["memory.min"@], g.memory_min);
    let c = set_to(seq!["memory.low"@, "memory.soft_limit_in_bytes"@], g.memory_low);
    let d = set_to(seq!["memory.high"@], g.memory_high);
    let e = set_to(seq!["memory.max"@, "memory.limit_in_bytes"@], g.memory_max);
    let f = set_to(seq!["memory.oom.group"@], kill);
    assert(group_writes(g) == a + b + c + d + e + f);
    lemma_in_either(a + b + c + d + e, f, w);
    lemma_in_either(a + b + c + d, e, w);
    lemma_in_either(a + b + c, d, w);
    lemma_in_either(a + b, c, w);
    lemma_in_either(a, b, w);
    lemma_in_set(seq!["memory.swappiness"@], swap, w);
    lemma_in_set(seq!["memory.min"@], g.memory_min, w);
    lemma_in_set(seq!["memory.low"@, "memory.soft_limit_in_bytes"@], g.memory_low, w);
    lemma_in_set(seq!["memory.high"@], g.memory_high, w);
    lemma_in_set(seq!["memory.max"@, "memory.limit_in_bytes"@], g.memory_max, w);
    lemma_in_set(seq!["memory.oom.group"@], kill, w);
}

proof fn lemma_in_either(a: Seq<WriteV>, b: Seq<WriteV>, w: WriteV)
    ensures
        (a + b).contains(w) <==> a.contains(w) || b.contains(w),
{
    if a.contains(w) {
        let i = choose|i: int| 0 <= i < a.len() && a[i] == w;
        assert((a + b)[i] == w);
    }
    if b.contains(w) {
        let i = choose|i: int| 0 <= i < b.len() && b[i] == w;
        assert((a + b)[a.len() + i] == w);
    }
    if (a + b).contains(w) {
        let i = choose|i: int| 0 <= i < (a + b).len() && (a + b)[i] == w;
        if i < a.len() {
            assert(a[i] == w);
        } else {
            assert(b[i - a.len()] == w);
        }
    }
}

proof fn lemma_in_set(names: Seq<Seq<char>>, value: Option<Seq<char>>, w: WriteV)
    ensures
        set_to(names, value).contains(w) <==> w.names == names && value == Some(w.value),
{
    let s = set_to(names, value);
    if let Some(v) = value {
        assert(s[0] == WriteV { names, value: v });
        if w.names == names && v == w.value {
            assert(s[0] == w);
        }
    }
}

proof fn lemma_file_names()
    ensures
        ({
            let a = seq!["memory.swappiness"@];
            let b = seq!["memory.min"@];
            let c = seq!["memory.low"@, "memory.soft_limit_in_bytes"@];
            let d = seq!["memory.high"@];
            let e = seq!["memory.max"@, "memory.limit_in_bytes"@];
            let f = seq!["memory.oom.group"@];
            &&& a != b && a != c && a != d && a != e && a != f
            &&& b != c && b != d && b != e && b != f
            &&& c != d && c != e && c != f
            &&& d != e && d != f
            &&& e != f
        }),
{
    reveal_strlit("memory.swappiness");
    reveal_strlit("memory.min");
    reveal_strlit("memory.low");
    reveal_strlit("memory.high");
    reveal_strlit("memory.max");
    reveal_strlit("memory.oom.group");
    let a = seq!["memory.swappiness"@];
    let b = seq!["memory.min"@];
    let c = seq!["memory.low"@, "memory.soft_limit_in_bytes"@];
    let d = seq!["memory.high"@];
    let e = seq!["memory.max"@, "memory.limit_in_bytes"@];
    let f = seq!["memory.oom.group"@];
    assert(a[0].len() == 17 && b[0].len() == 10 && d[0].len() == 11 && f[0].len() == 16);
    assert(c[0][7] == 'l' && e[0][7] == 'm');
    assert(a.len() == 1 && b.len() == 1 && c.len() == 2 && d.len() == 1 && e.len() == 2);
    assert(f.len() == 1);
    assert(c[0] != e[0]);
}

/// The place of a limit among those of a group.
pub open spec fn file_rank(names: Seq<Seq<char>>) -> int {
    if names[0] == "memory.swappiness"@ {
        0
    } else if names[0] == "memory.min"@ {
        1
    } else if names[0] == "memory.low"@ {
        2
    } else if names[0] == "memory.high"@ {
        3
    } else if names[0] == "memory.max"@ {
        4
    } else {
        5
    }
}

spec fn rising(ws: Seq<WriteV>, lo: int, hi: int) -> bool {
    &&& forall|i: int| 0 <= i < ws.len() ==> lo <= file_rank((#[trigger] ws[i]).names) < hi
    &&& forall|i: int, j: int|
        0 <= i < j < ws.len() ==> file_rank((#[trigger] ws[i]).names) < file_rank(
            (#[trigger] ws[j]).names,
        )
}

proof fn lemma_rising(a: Seq<WriteV>, b: Seq<WriteV>, lo: int, mid: int, hi: int)
    requires
        rising(a, lo, mid),
        rising(b, mid, hi),
        lo <= mid <= hi,
    ensures
        rising(a + b, lo, hi),
{
    let c = a + b;
    assert forall|i: int| 0 <= i < c.len() implies lo <= file_rank((#[trigger] c[i]).names) < hi by {
        if i < a.len() {
            assert(c[i] == a[i]);
        } else {
            assert(c[i] == b[i - a.len()]);
        }
    }
    assert forall|i: int, j: int| 0 <= i < j < c.len() implies file_rank((#[trigger] c[i]).names)
        < file_rank((#[trigger] c[j]).names) by {
        if j < a.len() {
            assert(c[i] == a[i] && c[j] == a[j]);
        } else if i < a.len() {
            assert(c[i] == a[i] && c[j] == b[j - a.len()]);
        } else {
            assert(c[i] == b[i - a.len()] && c[j] == b[j - a.len()]);
        }
    }
}

/// The limits of a group are written in a fixed order: how eagerly it is swapped, what it keeps at
/// least, what is left to it, where it is slowed down, where it ends, and whether it goes as a
/// whole.
pub proof fn law_limits_are_written_in_order(g: GroupV, i: int, j: int)
    requires
        0 <= i < j < group_writes(g).len(),
    ensures
        file_rank(group_writes(g)[i].names) < file_rank(group_writes(g)[j].names),
{
    reveal_strlit("memory.swappiness");
    reveal_strlit("memory.min");
    reveal_strlit("memory.low");
    reveal_strlit("memory.high");
    reveal_strlit("memory.max");
    reveal_strlit("memory.oom.group");
    assert("memory.swappiness"@.len() == 17 && "memory.high"@.len() == 11);
    assert("memory.oom.group"@.len() == 16);
    assert("memory.min"@[8] == 'i' && "memory.low"@[7] == 'l' && "memory.max"@[8] == 'a');
    assert("memory.min"@[7] == 'm' && "memory.max"@[7] == 'm');
    let swap = match g.swappiness {
        Some(n) => Some(decimal(n as nat)),
        None => None,
    };
    let kill = match g.oom_group {
        Some(true) => Some("1"@),
        Some(false) => Some("0"@),
        None => None,
    };
    let a = set_to(seq!["memory.swappiness"@], swap);
    let b = set_to(seq!["memory.min"@], g.memory_min);
    let c = set_to(seq!["memory.low"@, "memory.soft_limit_in_bytes"@], g.memory_low);
    let d = set_to(seq!["memory.high"@], g.memory_high);
    let e = set_to(seq!["memory.max"@, "memory.limit_in_bytes"@], g.memory_max);
    let f = set_to(seq!["memory.oom.group"@], kill);
    assert(rising(a, 0, 1) && rising(b, 1, 2) && rising(c, 2, 3));
    assert(rising(d, 3, 4) && rising(e, 4, 5) && rising(f, 5, 6));
    lemma_rising(a, b, 0, 1, 2);
    lemma_rising(a + b, c, 0, 2, 3);
    lemma_rising(a + b + c, d, 0, 3, 4);
    lemma_rising(a + b + c + d, e, 0, 4, 5);
    lemma_rising(a + b + c + d + e, f, 0, 5, 6);
    assert(group_writes(g) == a + b + c + d + e + f);
}

/// Of the files that may take a value, the first that is there does.
pub proof fn law_the_first_file_counts(there: Seq<bool>, n: int)
    requires
        0 <= n <= there.len(),
    ensures
        match first_there(there, n) {
            Some(i) => 0 <= i < n && there[i] && forall|j: int| 0 <= j < i ==> !#[trigger] there[j],
            None => forall|j: int| 0 <= j < n ==> !#[trigger] there[j],
        },
    decreases n,
{
    if n > 0 {
        law_the_first_file_counts(there, n - 1);
    }
}

/// Names are listed in their order, with the separator between any two.
pub proof fn law_names_are_listed(names: Seq<Seq<char>>, name: Seq<char>, sep: Seq<char>)
    ensures
        listed(seq![name], sep) == name,
        names.len() > 0 ==> listed(names.push(name), sep) == listed(names, sep) + sep + name,
{
    assert(names.push(name).drop_last() =~= names);
}

// Applications.

/// A package is tuned as the first application of that name; one that no application names is not.
pub proof fn law_which_application_counts(c: ConfigV, pkg: Seq<char>)
    ensures
        match tuned_app(c, pkg) {
            Some(i) => 0 <= i < c.apps.len() && c.apps[i].pkg == pkg && forall|j: int|
                0 <= j < i ==> (#[trigger] c.apps[j]).pkg != pkg,
            None => forall|j: int| 0 <= j < c.apps.len() ==> (#[trigger] c.apps[j]).pkg != pkg,
        },
{
    lemma_first_app(c.apps, pkg, c.apps.len() as int);
}

proof fn lemma_first_app(apps: Seq<AppV>, pkg: Seq<char>, n: int)
    requires
        0 <= n <= apps.len(),
    ensures
        match app_at(apps, pkg, n) {
            Some(i) => 0 <= i < n && apps[i].pkg == pkg && forall|j: int|
                0 <= j < i ==> (#[trigger] apps[j]).pkg != pkg,
            None => forall|j: int| 0 <= j < n ==> (#[trigger] apps[j]).pkg != pkg,
        },
    decreases n,
{
    if n > 0 {
        lemma_first_app(apps, pkg, n - 1);
    }
}

proof fn lemma_first_group(groups: Seq<GroupV>, name: Seq<char>, n: int)
    requires
        0 <= n <= groups.len(),
    ensures
        match group_at(groups, name, n) {
            Some(i) => 0 <= i < n && groups[i].name == name && forall|j: int|
                0 <= j < i ==> (#[trigger] groups[j]).name != name,
            None => forall|j: int| 0 <= j < n ==> (#[trigger] groups[j]).name != name,
        },
    decreases n,
{
    if n > 0 {
        lemma_first_group(groups, name, n - 1);
    }
}

/// The first thread of a process takes it into the memory group of its application, the first of
/// that name; its other threads do nothing about it, and so do all where none is named. A name that
/// no group has is warned of.
pub proof fn law_who_joins_a_memory_group(c: ConfigV, app: AppV, leads: bool)
    ensures
        app.memory_group is None || !leads ==> group_step(c, app, leads) is Nothing,
        app.memory_group matches Some(name) ==> (leads ==> match group_step(c, app, leads) {
            GroupStepV::Join(i) => 0 <= i < c.memory_groups.len() && c.memory_groups[i].name == name
                && forall|j: int| 0 <= j < i ==> (#[trigger] c.memory_groups[j]).name != name,
            GroupStepV::Missing(_) => forall|j: int|
                0 <= j < c.memory_groups.len() ==> (#[trigger] c.memory_groups[j]).name != name,
            GroupStepV::Nothing => false,
        }),
{
    if let Some(name) = app.memory_group {
        lemma_first_group(c.memory_groups, name, c.memory_groups.len() as int);
    }
}

/// A group whose path is not one that a group may have once it is filled in, or for which there is
/// no root, is not sought; any other is sought at its path.
pub proof fn law_which_groups_are_sought(
    g: GroupV,
    pid: int,
    pkg: Seq<char>,
    status: Option<Seq<char>>,
    roots: Seq<Seq<char>>,
)
    ensures
        expanded(g.path, pid, pkg, status) matches Err(w) ==> (located(g, pid, pkg, status, roots)
            matches Err(x) && x == w),
        expanded(g.path, pid, pkg, status) matches Ok(path) ==> {
            &&& located(g, pid, pkg, status, roots) is Ok <==> cgroup_template(path) && roots.len()
                > 0
            &&& located(g, pid, pkg, status, roots) matches Ok(r) ==> r.0 == path && r.1 == places(
                path,
                roots,
            )
        },
{
}

// Warnings.

/// A warning about a process has a key of its own for every process, and one about a group, a path
/// or a thread has one for each of them; its words name what it is about.
pub proof fn law_warnings_name_what_they_are_about(
    p: int,
    q: int,
    a: Seq<char>,
    b: Seq<char>,
    path: Seq<char>,
    other: Seq<char>,
)
    ensures
        no_uid_warning(p).key == no_uid_warning(q).key <==> decimal_int(p) == decimal_int(q),
        bad_path_warning(a).key == bad_path_warning(b).key <==> a == b,
        no_control_warning(a).key == no_control_warning(b).key <==> a == b,
        missing_warning(a, path).key == missing_warning(a, other).key <==> path == other,
        missing_warning(a, path).key == missing_warning(b, path).key <==> a == b,
        order_warning(a, path).key == order_warning(a, other).key <==> path == other,
        order_warning(a, path).key == order_warning(b, path).key <==> a == b,
        occurs(bad_path_warning(a).message, a),
        occurs(missing_warning(a, path).message, a),
        occurs(missing_warning(a, path).message, path),
        occurs(no_control_warning(a).message, a),
        occurs(order_warning(a, path).message, a),
        occurs(order_warning(a, path).message, path),
        occurs(no_uid_warning(p).message, decimal_int(p)),
{
    lemma_same_tail("uid-"@, decimal_int(p), decimal_int(q));
    lemma_same_tail("group-template-"@, a, b);
    lemma_same_tail("move-no-control-"@, a, b);
    lemma_same_tail("group-missing-"@ + a + "-"@, path, other);
    lemma_same_middle("group-missing-"@, a, b, "-"@ + path);
    assert("group-missing-"@ + a + "-"@ + path =~= "group-missing-"@ + a + ("-"@ + path));
    assert("group-missing-"@ + b + "-"@ + path =~= "group-missing-"@ + b + ("-"@ + path));
    lemma_same_tail("uclamp-order-"@ + a + "-"@, path, other);
    lemma_same_middle("uclamp-order-"@, a, b, "-"@ + path);
    assert("uclamp-order-"@ + a + "-"@ + path =~= "uclamp-order-"@ + a + ("-"@ + path));
    assert("uclamp-order-"@ + b + "-"@ + path =~= "uclamp-order-"@ + b + ("-"@ + path));
    let none = Seq::<char>::empty();
    lemma_held("内存组 "@, a, " 展开后的路径无效"@);
    lemma_held("内存组 "@, a, " 不存在或不在允许的 cgroup 根目录内: "@ + path);
    lemma_held("内存组 "@ + a + " 不存在或不在允许的 cgroup 根目录内: "@, path, none);
    lemma_held("内存组 "@, a, " 不提供 cgroup.procs 或 tasks，无法迁移应用"@);
    lemma_held(none, a, " / "@ + path + " 的合并 UCLAMP min 大于 max，已跳过 UCLAMP"@);
    lemma_held(a + " / "@, path, " 的合并 UCLAMP min 大于 max，已跳过 UCLAMP"@);
    lemma_held("无法读取 pid "@, decimal_int(p), " 的 UID，跳过内存组迁移"@);
    assert(missing_warning(a, path).message =~= "内存组 "@ + a + (
    " 不存在或不在允许的 cgroup 根目录内: "@ + path));
    assert(missing_warning(a, path).message =~= "内存组 "@ + a
        + " 不存在或不在允许的 cgroup 根目录内: "@ + path + none);
    assert(order_warning(a, path).message =~= none + a + (" / "@ + path
        + " 的合并 UCLAMP min 大于 max，已跳过 UCLAMP"@));
}

/// Where none of the files for a value is there, the warning names the group and all of them, and
/// has a key of its own for each group.
pub proof fn law_warnings_of_missing_files(a: Seq<char>, b: Seq<char>, names: Seq<Seq<char>>)
    ensures
        unsupported_warning(a, names).key == unsupported_warning(b, names).key <==> a == b,
        occurs(unsupported_warning(a, names).message, a),
        occurs(unsupported_warning(a, names).message, listed(names, " / "@)),
{
    let end = "-"@ + listed(names, "|"@);
    lemma_same_middle("unsupported-"@, a, b, end);
    assert(unsupported_warning(a, names).key =~= "unsupported-"@ + a + end);
    assert(unsupported_warning(b, names).key =~= "unsupported-"@ + b + end);
    let all = listed(names, " / "@);
    let tail = "（可能是 cgroup 版本不匹配）"@;
    lemma_held("内存组 "@, a, " 不支持 "@ + all + tail);
    assert(unsupported_warning(a, names).message =~= "内存组 "@ + a + (" 不支持 "@ + all + tail));
    lemma_held("内存组 "@ + a + " 不支持 "@, all, tail);
}

proof fn lemma_same_tail(front: Seq<char>, a: Seq<char>, b: Seq<char>)
    ensures
        front + a == front + b <==> a == b,
{
    if front + a == front + b {
        assert((front + a).skip(front.len() as int) =~= a);
        assert((front + b).skip(front.len() as int) =~= b);
    }
}

proof fn lemma_same_middle(front: Seq<char>, a: Seq<char>, b: Seq<char>, end: Seq<char>)
    ensures
        front + a + end == front + b + end <==> a == b,
{
    if front + a + end == front + b + end {
        let n = front.len() as int;
        assert((front + a + end).len() == (front + b + end).len());
        assert((front + a + end).subrange(n, n + a.len()) =~= a);
        assert((front + b + end).subrange(n, n + b.len()) =~= b);
    }
}

pub proof fn lemma_held(a: Seq<char>, p: Seq<char>, b: Seq<char>)
    ensures
        occurs(a + p + b, p),
{
    law_holding_another_text(a + p + b, p);
}

} // verus!
