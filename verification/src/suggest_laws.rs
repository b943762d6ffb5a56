//! What is suggested, in terms of the names and what was typed.

use crate::edit_laws::all_space;
use crate::suggest::{
    ahead, all_bumped, all_set, best_of, comm_in, installed_of, listed_in, number_of,
    package_counts, pair_view, rank, text_less, unended,
};
use crate::text::{begins, is_space, lower, occurs, occurs_at};
use crate::text_laws::law_trimming;
use vstd::prelude::*;

verus! {

/// Whether `name`, in small letters, begins with what was typed.
pub open spec fn leads_with(name: Seq<char>, typed: Seq<char>) -> bool {
    exists|b: Seq<char>| lower(name) == #[trigger] (typed + b)
}

/// Whether what was typed stands somewhere in `name`, in small letters.
pub open spec fn holds(name: Seq<char>, typed: Seq<char>) -> bool {
    exists|a: Seq<char>, b: Seq<char>| lower(name) == #[trigger] (a + typed + b)
}

/// A name fits what was typed exactly if that stands somewhere in it, and fits best exactly if it
/// stands at its start.
pub proof fn law_names_fit_where_the_text_stands(name: Seq<char>, typed: Seq<char>)
    ensures
        rank(name, typed) < 2 <==> holds(name, typed),
        rank(name, typed) < 1 <==> leads_with(name, typed),
        leads_with(name, typed) ==> holds(name, typed),
{
    let l = lower(name);
    if begins(l, typed) {
        let b = l.skip(typed.len() as int);
        assert(l =~= typed + b);
        assert(l =~= Seq::<char>::empty() + typed + b);
    }
    if occurs(l, typed) {
        let i = choose|i: int| occurs_at(l, typed, i);
        assert(l =~= l.take(i) + typed + l.skip(i + typed.len()));
    }
    if leads_with(name, typed) {
        let b = choose|b: Seq<char>| lower(name) == #[trigger] (typed + b);
        assert((typed + b).take(typed.len() as int) =~= typed);
        assert(begins(l, typed));
        assert(l =~= Seq::<char>::empty() + typed + b);
    }
    if holds(name, typed) {
        let (a, b) = choose|a: Seq<char>, b: Seq<char>| lower(name) == #[trigger] (a + typed + b);
        let i = a.len() as int;
        assert((a + typed + b).subrange(i, i + typed.len()) =~= typed);
        assert(occurs_at(l, typed, i));
    }
}

/// Whether `a` comes before `b` as a dictionary has them: `b` goes on where `a` ends, or the first
/// character in which they differ is less in `a`.
pub open spec fn earlier(a: Seq<char>, b: Seq<char>) -> bool {
    exists|k: int|
        0 <= k <= a.len() && k < b.len() && #[trigger] a.take(k) == b.take(k) && (k == a.len() || (
        a[k] as int) < b[k] as int)
}

proof fn lemma_less(a: Seq<char>, b: Seq<char>)
    ensures
        text_less(a, b) <==> earlier(a, b),
    decreases a.len(),
{
    if b.len() == 0 {
    } else if a.len() == 0 {
        assert(a.take(0) =~= b.take(0));
    } else if a[0] != b[0] {
        assert(a.take(0) =~= b.take(0));
        if earlier(a, b) {
            let k = choose|k: int|
                0 <= k <= a.len() && k < b.len() && #[trigger] a.take(k) == b.take(k) && (k
                    == a.len() || (a[k] as int) < b[k] as int);
            if k > 0 {
                assert(a.take(k)[0] == b.take(k)[0]);
            }
        }
    } else {
        let (x, y) = (a.drop_first(), b.drop_first());
        lemma_less(x, y);
        if earlier(x, y) {
            let k = choose|k: int|
                0 <= k <= x.len() && k < y.len() && #[trigger] x.take(k) == y.take(k) && (k
                    == x.len() || (x[k] as int) < y[k] as int);
            assert(a.take(k + 1) =~= seq![a[0]] + x.take(k));
            assert(b.take(k + 1) =~= seq![b[0]] + y.take(k));
        }
        if earlier(a, b) {
            let k = choose|k: int|
                0 <= k <= a.len() && k < b.len() && #[trigger] a.take(k) == b.take(k) && (k
                    == a.len() || (a[k] as int) < b[k] as int);
            assert(k > 0);
            assert(x.take(k - 1) =~= a.take(k).drop_first());
            assert(y.take(k - 1) =~= b.take(k).drop_first());
        }
    }
}

/// At most twenty names are suggested. Each is a counted name that holds what was typed, and every
/// such name is suggested unless twenty others are.
pub proof fn law_fitting_names_are_suggested(
    list: Seq<(String, usize)>,
    counts: Map<Seq<char>, int>,
    typed: Seq<char>,
    name: Seq<char>,
)
    requires
        best_of(list, counts, typed),
    ensures
        list.len() <= 20,
        listed_in(list, name) ==> counts.contains_key(name) && holds(name, typed),
        counts.contains_key(name) && holds(name, typed) ==> listed_in(list, name) || list.len()
            == 20,
{
    law_names_fit_where_the_text_stands(name, typed);
    if listed_in(list, name) {
        let i = choose|i: int| 0 <= i < list.len() && (#[trigger] list[i]).0@ == name;
        assert(rank(list[i].0@, typed) < 2);
    }
}

/// Suggested names stand in order: first those that begin with what was typed; of two that both do
/// or both do not, first the one with the larger number; of two with the same number, first the one
/// that a dictionary has first. A name that fits and is left out would stand behind all others.
#[verifier::rlimit(40)]
#[verifier::spinoff_prover]
pub proof fn law_suggestions_stand_in_order(
    list: Seq<(String, usize)>,
    counts: Map<Seq<char>, int>,
    typed: Seq<char>,
    i: int,
    j: int,
    name: Seq<char>,
)
    requires
        best_of(list, counts, typed),
        0 <= i < list.len(),
    ensures
        i < j < list.len() ==> stands_before(
            list[i].0@,
            counts[list[i].0@],
            list[j].0@,
            counts[list[j].0@],
            typed,
        ),
        counts.contains_key(name) && holds(name, typed) && !listed_in(list, name) ==> stands_before(
            list[i].0@,
            counts[list[i].0@],
            name,
            counts[name],
            typed,
        ),
{
    law_names_fit_where_the_text_stands(name, typed);
    law_names_fit_where_the_text_stands(list[i].0@, typed);
    assert(rank(list[i].0@, typed) < 2);
    lemma_less(list[i].0@, name);
    if i < j < list.len() {
        law_names_fit_where_the_text_stands(list[j].0@, typed);
        assert(rank(list[j].0@, typed) < 2);
        assert(ahead(pair_view(list[i]), pair_view(list[j]), typed));
        lemma_less(list[i].0@, list[j].0@);
    }
    if counts.contains_key(name) && holds(name, typed) && !listed_in(list, name) {
        let last = list[19];
        assert(ahead(pair_view(last), (name, counts[name]), typed));
        assert(rank(last.0@, typed) < 2);
        if i < 19 {
            assert(ahead(pair_view(list[i]), pair_view(last), typed));
            lemma_less(list[i].0@, last.0@);
            lemma_less(last.0@, name);
            lemma_earlier_trans(list[i].0@, last.0@, name);
        }
    }
}

/// Whether a name with the number `m` stands before one with the number `n`.
pub open spec fn stands_before(
    a: Seq<char>,
    m: int,
    b: Seq<char>,
    n: int,
    typed: Seq<char>,
) -> bool {
    if leads_with(a, typed) != leads_with(b, typed) {
        leads_with(a, typed)
    } else if m != n {
        m > n
    } else {
        earlier(a, b)
    }
}

proof fn lemma_earlier_trans(a: Seq<char>, b: Seq<char>, c: Seq<char>)
    ensures
        earlier(a, b) && earlier(b, c) ==> earlier(a, c),
{
    if earlier(a, b) && earlier(b, c) {
        let k = choose|k: int|
            0 <= k <= a.len() && k < b.len() && #[trigger] a.take(k) == b.take(k) && (k == a.len()
                || (a[k] as int) < b[k] as int);
        let m = choose|m: int|
            0 <= m <= b.len() && m < c.len() && #[trigger] b.take(m) == c.take(m) && (m == b.len()
                || (b[m] as int) < c[m] as int);
        let n = if k <= m {
            k
        } else {
            m
        };
        assert(a.take(n) =~= a.take(k).take(n));
        assert(b.take(n) =~= b.take(k).take(n));
        assert(b.take(n) =~= b.take(m).take(n));
        assert(c.take(n) =~= c.take(m).take(n));
        if k < m {
            assert(b.take(m)[k] == c.take(m)[k]);
        }
        if m < k {
            assert(a.take(k)[m] == b.take(k)[m]);
        }
        assert(a.take(n) == c.take(n));
    }
}

// What is counted.

/// How often a name stands in a list.
pub open spec fn times(names: Seq<Seq<char>>, name: Seq<char>) -> nat {
    names.to_multiset().count(name)
}

proof fn lemma_times_step(names: Seq<Seq<char>>, n: int, name: Seq<char>)
    requires
        0 < n <= names.len(),
    ensures
        times(names.take(n), name) == times(names.take(n - 1), name) + if names[n - 1] == name {
            1nat
        } else {
            0nat
        },
        names.take(n).contains(name) <==> names.take(n - 1).contains(name) || names[n - 1] == name,
{
    let (now, before) = (names.take(n), names.take(n - 1));
    assert(now =~= before.push(names[n - 1]));
    now.to_multiset_ensures();
    before.to_multiset_ensures();
    assert(now[n - 1] == names[n - 1]);
    if before.contains(name) {
        let j = choose|j: int| 0 <= j < before.len() && before[j] == name;
        assert(now[j] == name);
    }
}

proof fn lemma_set(
    counts: Map<Seq<char>, int>,
    names: Seq<Seq<char>>,
    k: int,
    n: int,
    name: Seq<char>,
)
    requires
        0 <= n <= names.len(),
    ensures
        all_set(counts, names, k, n).contains_key(name) <==> counts.contains_key(name)
            || names.take(n).contains(name),
        names.take(n).contains(name) ==> all_set(counts, names, k, n)[name] == k,
        !names.take(n).contains(name) && counts.contains_key(name) ==> all_set(
            counts,
            names,
            k,
            n,
        )[name] == counts[name],
    decreases n,
{
    if n > 0 {
        lemma_set(counts, names, k, n - 1, name);
        lemma_times_step(names, n, name);
    } else {
        assert(names.take(0) =~= seq![]);
    }
}

proof fn lemma_bumps(
    counts: Map<Seq<char>, int>,
    names: Seq<Seq<char>>,
    dotted: bool,
    n: int,
    name: Seq<char>,
)
    requires
        0 <= n <= names.len(),
        number_of(counts, name) + n <= usize::MAX,
    ensures
        dotted && !name.contains('.') ==> all_bumped(counts, names, dotted, n).contains_key(name)
            == counts.contains_key(name) && number_of(all_bumped(counts, names, dotted, n), name)
            == number_of(counts, name),
        !dotted || name.contains('.') ==> (all_bumped(counts, names, dotted, n).contains_key(name)
            <==> counts.contains_key(name) || names.take(n).contains(name)) && number_of(
            all_bumped(counts, names, dotted, n),
            name,
        ) == number_of(counts, name) + times(names.take(n), name),
    decreases n,
{
    if n > 0 {
        lemma_bumps(counts, names, dotted, n - 1, name);
        lemma_times_step(names, n, name);
        lemma_times_most(names.take(n - 1), name);
    } else {
        assert(names.take(0) =~= seq![]);
        names.take(0).to_multiset_ensures();
    }
}

proof fn lemma_times_most(names: Seq<Seq<char>>, name: Seq<char>)
    ensures
        times(names, name) <= names.len(),
    decreases names.len(),
{
    names.to_multiset_ensures();
    if names.len() > 0 {
        let n = names.len() as int;
        lemma_times_step(names, n, name);
        assert(names.take(n) =~= names);
        lemma_times_most(names.take(n - 1), name);
    }
}

/// The packages that can be suggested are those that are installed, those that the rules or the
/// tuning name, and those with a dot in their name that run. The number of one is a million if the
/// rules or the tuning name it, and one more for every process that runs under its name where that
/// holds a dot.
#[verifier::rlimit(40)]
#[verifier::spinoff_prover]
pub proof fn law_which_packages_are_counted(
    installed: Seq<Seq<char>>,
    configured: Seq<Seq<char>>,
    tuned: Seq<Seq<char>>,
    running: Seq<Seq<char>>,
    name: Seq<char>,
)
    requires
        running.len() + 1000000 <= usize::MAX,
    ensures
        ({
            let counts = package_counts(installed, configured, tuned, running);
            let named = configured.contains(name) || tuned.contains(name);
            &&& counts.contains_key(name) <==> installed.contains(name) || named || (
            running.contains(name) && name.contains('.'))
            &&& counts.contains_key(name) ==> counts[name] == (if named {
                1000000int
            } else {
                0
            }) + (if name.contains('.') {
                times(running, name) as int
            } else {
                0
            })
        }),
{
    let k = 1000000int;
    let a = all_set(Map::empty(), installed, 0, installed.len() as int);
    let b = all_set(a, configured, k, configured.len() as int);
    let c = all_set(b, tuned, k, tuned.len() as int);
    assert(installed.take(installed.len() as int) =~= installed);
    assert(configured.take(configured.len() as int) =~= configured);
    assert(tuned.take(tuned.len() as int) =~= tuned);
    assert(running.take(running.len() as int) =~= running);
    lemma_set(Map::empty(), installed, 0, installed.len() as int, name);
    lemma_set(a, configured, k, configured.len() as int, name);
    lemma_set(b, tuned, k, tuned.len() as int, name);
    lemma_bumps(c, running, true, running.len() as int, name);
}

/// The threads that can be suggested are those of the package, each with the number of threads of
/// that name.
pub proof fn law_which_threads_are_counted(comms: Seq<Seq<char>>, name: Seq<char>)
    requires
        comms.len() <= usize::MAX,
    ensures
        ({
            let counts = all_bumped(Map::empty(), comms, false, comms.len() as int);
            &&& counts.contains_key(name) <==> comms.contains(name)
            &&& counts.contains_key(name) ==> counts[name] == times(comms, name)
        }),
{
    assert(comms.take(comms.len() as int) =~= comms);
    lemma_bumps(Map::empty(), comms, false, comms.len() as int, name);
}

/// What stands for installed packages are the names that hold a dot and do not begin with one, in
/// the order in which they are listed.
pub proof fn law_which_packages_are_installed(names: Seq<Seq<char>>)
    ensures
        installed_of(names, names.len() as int) == names.filter(
            |name: Seq<char>| name.contains('.') && name[0] != '.',
        ),
{
    lemma_installed(names, names.len() as int);
    assert(names.take(names.len() as int) =~= names);
}

proof fn lemma_installed(names: Seq<Seq<char>>, n: int)
    requires
        0 <= n <= names.len(),
    ensures
        installed_of(names, n) == names.take(n).filter(
            |name: Seq<char>| name.contains('.') && name[0] != '.',
        ),
    decreases n,
{
    reveal(Seq::filter);
    if n > 0 {
        lemma_installed(names, n - 1);
        assert(names.take(n).drop_last() =~= names.take(n - 1));
        assert(names.take(n).last() == names[n - 1]);
    } else {
        assert(names.take(0) =~= seq![]);
    }
}

/// The name of a thread is the kernel's text without the zero bytes and line ends behind it and the
/// whitespace around it; where nothing is left, there is no name.
pub proof fn law_names_of_threads(
    a: Seq<char>,
    name: Seq<char>,
    b: Seq<char>,
    end: Seq<char>,
)
    requires
        all_space(a),
        all_space(b),
        b.len() > 0 ==> b[b.len() - 1] != '\n',
        name.len() > 0 ==> !is_space(name[0]) && !is_space(name[name.len() - 1]) && name[name.len()
            - 1] != '\0',
        forall|i: int| 0 <= i < end.len() ==> (#[trigger] end[i]) == '\0' || end[i] == '\n',
    ensures
        comm_in(a + name + b + end) == if name.len() > 0 {
            Some(name)
        } else {
            None
        },
{
    let s = a + name + b;
    lemma_unended(s, end);
    lemma_unended_space(s, a, name, b);
    law_trimming(a, name, b);
    if name.len() == 0 {
        let t = unended(s);
        assert(s =~= a + b);
        assert forall|i: int| 0 <= i < t.len() implies is_space(#[trigger] t[i]) by {
            assert(t[i] == s[i]);
            if i < a.len() {
                assert(s[i] == a[i]);
            } else {
                assert(s[i] == b[i - a.len()]);
            }
        }
        let none = Seq::<char>::empty();
        law_trimming(t, none, none);
        assert(t + none + none =~= t);
    }
}

proof fn lemma_unended(s: Seq<char>, end: Seq<char>)
    requires
        forall|i: int| 0 <= i < end.len() ==> (#[trigger] end[i]) == '\0' || end[i] == '\n',
    ensures
        unended(s + end) == unended(s),
    decreases end.len(),
{
    if end.len() > 0 {
        let all = s + end;
        assert(end[end.len() - 1] == all.last());
        assert(all.drop_last() =~= s + end.drop_last());
        lemma_unended(s, end.drop_last());
    } else {
        assert(s + end =~= s);
    }
}

proof fn lemma_unended_space(s: Seq<char>, a: Seq<char>, name: Seq<char>, b: Seq<char>)
    requires
        s == a + name + b,
        all_space(b),
        b.len() > 0 ==> b[b.len() - 1] != '\n',
        name.len() > 0 ==> !is_space(name[name.len() - 1]) && name[name.len() - 1] != '\0',
    ensures
        name.len() > 0 ==> unended(s) == s,
        unended(s).len() <= s.len() && unended(s) == s.take(unended(s).len() as int),
{
    lemma_unended_front(s);
    if s.len() > 0 {
        if b.len() > 0 {
            assert(s.last() == b[b.len() - 1]);
            assert(is_space(b[b.len() - 1]));
        } else if name.len() > 0 {
            assert(s.last() == name[name.len() - 1]);
        }
    }
}

proof fn lemma_unended_front(s: Seq<char>)
    ensures
        unended(s).len() <= s.len(),
        unended(s) == s.take(unended(s).len() as int),
    decreases s.len(),
{
    if s.len() > 0 && (s.last() == '\0' || s.last() == '\n') {
        lemma_unended_front(s.drop_last());
        let n = unended(s).len() as int;
        assert(s.drop_last().take(n) =~= s.take(n));
    } else {
        assert(s.take(s.len() as int) =~= s);
    }
}

} // verus!
