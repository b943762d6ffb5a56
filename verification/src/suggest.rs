//! Suggestions for the names of packages and threads.

use crate::text::{
    begins, begins_with, chars_of, code, equal, has_char, has_part, lower, lowered, occurs,
    string_of, trim, trimmed,
};
use crate::tuning::string_views;
use vstd::prelude::*;

verus! {

// The order of texts.

/// Whether `a` comes before `b` in the order of their characters.
pub open spec fn text_less(a: Seq<char>, b: Seq<char>) -> bool
    decreases a.len(),
{
    if b.len() == 0 {
        false
    } else if a.len() == 0 {
        true
    } else if a[0] != b[0] {
        (a[0] as int) < b[0] as int
    } else {
        text_less(a.drop_first(), b.drop_first())
    }
}

proof fn lemma_less_trans(a: Seq<char>, b: Seq<char>, c: Seq<char>)
    requires
        text_less(a, b),
        text_less(b, c),
    ensures
        text_less(a, c),
    decreases a.len(),
{
    if a.len() > 0 && a[0] == b[0] && b[0] == c[0] {
        lemma_less_trans(a.drop_first(), b.drop_first(), c.drop_first());
    }
}

proof fn lemma_less_total(a: Seq<char>, b: Seq<char>)
    requires
        a != b,
    ensures
        text_less(a, b) || text_less(b, a),
    decreases a.len(),
{
    if a.len() == 0 || b.len() == 0 {
        if a.len() == b.len() {
            assert(a =~= b);
        }
    } else if a[0] == b[0] {
        if a.drop_first() == b.drop_first() {
            assert(a =~= seq![a[0]] + a.drop_first());
            assert(b =~= seq![b[0]] + b.drop_first());
        }
        lemma_less_total(a.drop_first(), b.drop_first());
    } else {
        lemma_chars_differ(a[0], b[0]);
    }
}

proof fn lemma_chars_differ(a: char, b: char)
    requires
        a != b,
    ensures
        (a as int) < b as int || (b as int) < a as int,
{
}

fn less(a: &str, b: &str) -> (r: bool)
    ensures
        r == text_less(a@, b@),
{
    let x = chars_of(a);
    let y = chars_of(b);
    let mut i: usize = 0;
    assert(x@.skip(0) =~= x@);
    assert(y@.skip(0) =~= y@);
    while i < x.len() && i < y.len()
        invariant
            i <= x@.len(),
            i <= y@.len(),
            x@ == a@,
            y@ == b@,
            text_less(a@, b@) == text_less(x@.skip(i as int), y@.skip(i as int)),
        decreases x@.len() - i,
    {
        let m: u32 = code(x[i]);
        let n: u32 = code(y[i]);
        proof {
            assert(x@.skip(i as int)[0] == x@[i as int]);
            assert(y@.skip(i as int)[0] == y@[i as int]);
            assert(x@.skip(i as int).drop_first() =~= x@.skip(i + 1));
            assert(y@.skip(i as int).drop_first() =~= y@.skip(i + 1));
        }
        if m != n {
            return m < n;
        }
        proof {
            lemma_same_code(x@[i as int], y@[i as int]);
        }
        i += 1;
    }
    i < y.len()
}

proof fn lemma_same_code(a: char, b: char)
    requires
        a as int == b as int,
    ensures
        a == b,
{
}

// Counted names.

/// Names with a number each, no name twice.
pub struct Counts {
    pub items: Vec<(String, usize)>,
}

/// The first `n` of some counted names.
pub open spec fn counts_upto(items: Seq<(String, usize)>, n: int) -> Map<Seq<char>, int>
    decreases n,
{
    if n <= 0 || n > items.len() {
        Map::empty()
    } else {
        counts_upto(items, n - 1).insert(items[n - 1].0@, items[n - 1].1 as int)
    }
}

pub open spec fn names_differ(items: Seq<(String, usize)>) -> bool {
    forall|i: int, j: int|
        0 <= i < j < items.len() ==> (#[trigger] items[i]).0@ != (#[trigger] items[j]).0@
}

impl View for Counts {
    type V = Map<Seq<char>, int>;

    open spec fn view(&self) -> Map<Seq<char>, int> {
        counts_upto(self.items@, self.items@.len() as int)
    }
}

/// Which names are counted, and how often.
proof fn lemma_counts(items: Seq<(String, usize)>, n: int)
    requires
        names_differ(items),
        0 <= n <= items.len(),
    ensures
        forall|i: int|
            0 <= i < n ==> counts_upto(items, n).contains_key((#[trigger] items[i]).0@)
                && counts_upto(items, n)[items[i].0@] == items[i].1,
        forall|name: Seq<char>| #[trigger]
            counts_upto(items, n).contains_key(name) ==> exists|i: int|
                0 <= i < n && (#[trigger] items[i]).0@ == name,
    decreases n,
{
    if n > 0 {
        lemma_counts(items, n - 1);
        assert forall|name: Seq<char>| #[trigger]
            counts_upto(items, n).contains_key(name) implies exists|i: int|
            0 <= i < n && (#[trigger] items[i]).0@ == name by {
            if name == items[n - 1].0@ {
                assert(items[n - 1].0@ == name);
            } else {
                assert(counts_upto(items, n - 1).contains_key(name));
                let i = choose|i: int| 0 <= i < n - 1 && (#[trigger] items[i]).0@ == name;
                assert(items[i].0@ == name);
            }
        }
    }
}

impl Counts {
    pub open spec fn well_formed(&self) -> bool {
        names_differ(self.items@)
    }

    pub fn new() -> (r: Counts)
        ensures
            r.well_formed(),
            r@ == Map::<Seq<char>, int>::empty(),
    {
        Counts { items: Vec::new() }
    }

    fn find(&self, name: &str) -> (r: Option<usize>)
        ensures
            match r {
                Some(i) => i < self.items@.len() && self.items@[i as int].0@ == name@,
                None => forall|i: int|
                    0 <= i < self.items@.len() ==> (#[trigger] self.items@[i]).0@ != name@,
            },
    {
        let mut i: usize = 0;
        while i < self.items.len()
            invariant
                i <= self.items@.len(),
                forall|k: int| 0 <= k < i ==> (#[trigger] self.items@[k]).0@ != name@,
            decreases self.items@.len() - i,
        {
            if equal(self.items[i].0.as_str(), name) {
                return Some(i);
            }
            i += 1;
        }
        None
    }

    /// Gives a name a number.
    pub fn set(&mut self, name: &str, n: usize)
        requires
            old(self).well_formed(),
        ensures
            final(self).well_formed(),
            final(self)@ == old(self)@.insert(name@, n as int),
    {
        let ghost before = self.items@;
        match self.find(name) {
            Some(i) => {
                let own = name.to_owned();
                self.items.set(i, (own, n));
                proof {
                    let after = self.items@;
                    assert(after =~= before.update(i as int, (own, n)));
                    assert forall|j: int, k: int| 0 <= j < k < after.len() implies (
                    #[trigger] after[j]).0@ != (#[trigger] after[k]).0@ by {
                        assert(before[j].0@ != before[k].0@);
                    }
                    lemma_update(before, i as int, (own, n));
                }
            },
            None => {
                let own = name.to_owned();
                self.items.push((own, n));
                proof {
                    let after = self.items@;
                    assert forall|j: int, k: int| 0 <= j < k < after.len() implies (
                    #[trigger] after[j]).0@ != (#[trigger] after[k]).0@ by {
                        if k < before.len() {
                            assert(before[j].0@ != before[k].0@);
                        } else {
                            assert(before[j].0@ != name@);
                        }
                    }
                    lemma_push(before, (own, n), before.len() as int);
                }
            },
        }
    }

    /// Counts a name once more; a number that is as large as it can be stays.
    pub fn bump(&mut self, name: &str)
        requires
            old(self).well_formed(),
        ensures
            final(self).well_formed(),
            final(self)@ == bumped(old(self)@, name@),
    {
        proof {
            lemma_counts(self.items@, self.items@.len() as int);
        }
        let n: usize = match self.find(name) {
            Some(i) => self.items[i].1,
            None => 0,
        };
        let more: usize = if n == usize::MAX {
            n
        } else {
            n + 1
        };
        self.set(name, more);
    }
}

/// The counts after a name was counted once more.
pub open spec fn bumped(counts: Map<Seq<char>, int>, name: Seq<char>) -> Map<Seq<char>, int> {
    let n = if counts.contains_key(name) {
        counts[name]
    } else {
        0
    };
    counts.insert(
        name,
        if n >= usize::MAX {
            n
        } else {
            n + 1
        },
    )
}

proof fn lemma_push(items: Seq<(String, usize)>, one: (String, usize), n: int)
    requires
        0 <= n <= items.len(),
    ensures
        counts_upto(items.push(one), n) == counts_upto(items, n),
    decreases n,
{
    if n > 0 {
        lemma_push(items, one, n - 1);
        assert(items.push(one)[n - 1] == items[n - 1]);
    }
}

proof fn lemma_update(items: Seq<(String, usize)>, i: int, one: (String, usize))
    requires
        0 <= i < items.len(),
        names_differ(items),
        items[i].0@ == one.0@,
    ensures
        counts_upto(items.update(i, one), items.len() as int) == counts_upto(
            items,
            items.len() as int,
        ).insert(one.0@, one.1 as int),
{
    let after = items.update(i, one);
    let n = items.len() as int;
    assert forall|j: int, k: int| 0 <= j < k < after.len() implies (#[trigger] after[j]).0@ != (
    #[trigger] after[k]).0@ by {
        assert(items[j].0@ != items[k].0@);
    }
    lemma_counts(items, n);
    lemma_counts(after, n);
    let a = counts_upto(after, n);
    let b = counts_upto(items, n).insert(one.0@, one.1 as int);
    assert forall|name: Seq<char>| #[trigger] a.contains_key(name) == b.contains_key(name) && (
    a.contains_key(name) ==> a[name] == b[name]) by {
        if a.contains_key(name) {
            let k = choose|k: int| 0 <= k < n && (#[trigger] after[k]).0@ == name;
            assert(items[k].0@ == name);
            assert(a[after[k].0@] == after[k].1);
        }
        if b.contains_key(name) {
            if name == one.0@ {
                assert(after[i].0@ == name);
            } else {
                let k = choose|k: int| 0 <= k < n && (#[trigger] items[k]).0@ == name;
                assert(after[k].0@ == name);
            }
        }
    }
    assert(a =~= b);
}

// The best suggestions.

/// How well a name fits what was typed (in small letters): 0 if it begins with it, 1 if it holds
/// it, 2 if not.
pub open spec fn rank(name: Seq<char>, typed: Seq<char>) -> int {
    if begins(lower(name), typed) {
        0
    } else if occurs(lower(name), typed) {
        1
    } else {
        2
    }
}

/// Whether a counted name is suggested before another: it fits better, or it counts more, or its
/// name comes first.
pub open spec fn ahead(a: (Seq<char>, int), b: (Seq<char>, int), typed: Seq<char>) -> bool {
    let (m, n) = (rank(a.0, typed), rank(b.0, typed));
    m < n || (m == n && (a.1 > b.1 || (a.1 == b.1 && text_less(a.0, b.0))))
}

proof fn lemma_ahead_trans(
    a: (Seq<char>, int),
    b: (Seq<char>, int),
    c: (Seq<char>, int),
    typed: Seq<char>,
)
    requires
        ahead(a, b, typed),
        ahead(b, c, typed),
    ensures
        ahead(a, c, typed),
{
    if text_less(a.0, b.0) && text_less(b.0, c.0) {
        lemma_less_trans(a.0, b.0, c.0);
    }
}

proof fn lemma_ahead_total(a: (Seq<char>, int), b: (Seq<char>, int), typed: Seq<char>)
    requires
        a.0 != b.0,
    ensures
        ahead(a, b, typed) || ahead(b, a, typed),
{
    lemma_less_total(a.0, b.0);
}

/// How many names are suggested at most.
pub const MAX_SUGGESTIONS: usize = 20;

pub open spec fn pair_view(p: (String, usize)) -> (Seq<char>, int) {
    (p.0@, p.1 as int)
}

pub open spec fn in_order(list: Seq<(String, usize)>, typed: Seq<char>) -> bool {
    forall|i: int, j: int|
        0 <= i < j < list.len() ==> ahead(
            pair_view(#[trigger] list[i]),
            pair_view(#[trigger] list[j]),
            typed,
        )
}

/// Whether `list` holds the best suggestions, in their order: names that fit, each as often as
/// counted, and no name that fits and is not in a full list would come before its end.
pub open spec fn best_of(
    list: Seq<(String, usize)>,
    counts: Map<Seq<char>, int>,
    typed: Seq<char>,
) -> bool {
    &&& list.len() <= MAX_SUGGESTIONS
    &&& in_order(list, typed)
    &&& forall|i: int|
        0 <= i < list.len() ==> rank((#[trigger] list[i]).0@, typed) < 2 && counts.contains_key(
            list[i].0@,
        ) && counts[list[i].0@] == list[i].1
    &&& forall|name: Seq<char>| #[trigger]
        counts.contains_key(name) && rank(name, typed) < 2 ==> listed_in(list, name) || (list.len()
            == MAX_SUGGESTIONS && ahead(
            pair_view(list[MAX_SUGGESTIONS - 1]),
            (name, counts[name]),
            typed,
        ))
}

pub open spec fn listed_in(list: Seq<(String, usize)>, name: Seq<char>) -> bool {
    exists|i: int| 0 <= i < list.len() && (#[trigger] list[i]).0@ == name
}

fn rank_of(name: &str, typed: &[char]) -> (r: u8)
    ensures
        r as int == rank(name@, typed@),
{
    let n = chars_of(name);
    let l = lowered(n.as_slice());
    if begins_with(l.as_slice(), typed) {
        0
    } else if has_part(l.as_slice(), typed) {
        1
    } else {
        2
    }
}

fn is_ahead(a: &(String, usize), b: &(String, usize), typed: &[char]) -> (r: bool)
    ensures
        r == ahead(pair_view(*a), pair_view(*b), typed@),
{
    let m: u8 = rank_of(a.0.as_str(), typed);
    let n: u8 = rank_of(b.0.as_str(), typed);
    m < n || (m == n && (a.1 > b.1 || (a.1 == b.1 && less(a.0.as_str(), b.0.as_str()))))
}

/// Puts a name where it belongs in an ordered list.
fn place(list: &mut Vec<(String, usize)>, one: (String, usize), typed: &[char])
    requires
        in_order(old(list)@, typed@),
        !listed_in(old(list)@, one.0@),
    ensures
        in_order(final(list)@, typed@),
        exists|k: int|
            0 <= k <= old(list)@.len() && final(list)@ == #[trigger] old(list)@.insert(k, one),
{
    let mut k: usize = 0;
    let ghost before = list@;
    while k < list.len() && is_ahead(&list[k], &one, typed)
        invariant
            list@ == before,
            k <= list@.len(),
            forall|i: int|
                0 <= i < k ==> ahead(pair_view(#[trigger] before[i]), pair_view(one), typed@),
        decreases list@.len() - k,
    {
        k += 1;
    }
    proof {
        let after = before.insert(k as int, one);
        assert forall|i: int| k <= i < before.len() implies ahead(
            pair_view(one),
            pair_view(#[trigger] before[i]),
            typed@,
        ) by {
            let first = before[k as int];
            assert(first.0@ != one.0@);
            lemma_ahead_total(pair_view(first), pair_view(one), typed@);
            if i > k {
                lemma_ahead_trans(pair_view(one), pair_view(first), pair_view(before[i]), typed@);
            }
        }
        assert forall|i: int, j: int| 0 <= i < j < after.len() implies ahead(
            pair_view(#[trigger] after[i]),
            pair_view(#[trigger] after[j]),
            typed@,
        ) by {
            let a = if i < k {
                before[i]
            } else {
                before[i - 1]
            };
            let b = if j < k {
                before[j]
            } else {
                before[j - 1]
            };
            if i < k {
                assert(after[i] == before[i]);
            } else if i > k {
                assert(after[i] == before[i - 1]);
            }
            if j < k {
                assert(after[j] == before[j]);
            } else if j > k {
                assert(after[j] == before[j - 1]);
            }
        }
    }
    list.insert(k, one);
}

/// The best suggestions among counted names.
pub fn rank_top(counts: &Counts, typed: &str) -> (r: Vec<(String, usize)>)
    requires
        counts.well_formed(),
    ensures
        best_of(r@, counts@, typed@),
{
    let t = chars_of(typed);
    let mut list: Vec<(String, usize)> = Vec::new();
    let mut i: usize = 0;
    let ghost items = counts.items@;
    while i < counts.items.len()
        invariant
            i <= items.len(),
            items == counts.items@,
            names_differ(items),
            t@ == typed@,
            in_order(list@, typed@),
            forall|k: int|
                0 <= k < list@.len() ==> rank((#[trigger] list@[k]).0@, typed@) < 2 && exists|
                    m: int,
                |
                    0 <= m < i && pair_view(#[trigger] items[m]) == pair_view(list@[k]),
            forall|m: int|
                0 <= m < i && rank((#[trigger] items[m]).0@, typed@) < 2 ==> listed_in(
                    list@,
                    items[m].0@,
                ),
        decreases items.len() - i,
    {
        let name = counts.items[i].0.as_str();
        if rank_of(name, t.as_slice()) < 2 {
            let one = (name.to_owned(), counts.items[i].1);
            let ghost before = list@;
            proof {
                if listed_in(before, one.0@) {
                    let k = choose|k: int| 0 <= k < before.len() && (#[trigger] before[k]).0@ == one.0@;
                    let m = choose|m: int|
                        0 <= m < i && pair_view(#[trigger] items[m]) == pair_view(before[k]);
                    assert(items[m].0@ == items[i as int].0@);
                }
            }
            place(&mut list, one, t.as_slice());
            proof {
                let p = choose|p: int|
                    0 <= p <= before.len() && list@ == #[trigger] before.insert(p, one);
                assert(list@[p] == one);
                assert forall|k: int| 0 <= k < list@.len() implies rank(
                    (#[trigger] list@[k]).0@,
                    typed@,
                ) < 2 && exists|m: int|
                    0 <= m < i + 1 && pair_view(#[trigger] items[m]) == pair_view(list@[k]) by {
                    if k == p {
                        assert(pair_view(items[i as int]) == pair_view(list@[k]));
                    } else {
                        let q = if k < p {
                            k
                        } else {
                            k - 1
                        };
                        assert(list@[k] == before[q]);
                        let m = choose|m: int|
                            0 <= m < i && pair_view(#[trigger] items[m]) == pair_view(before[q]);
                        assert(pair_view(items[m]) == pair_view(list@[k]));
                    }
                }
                assert forall|m: int|
                    0 <= m < i + 1 && rank((#[trigger] items[m]).0@, typed@) < 2 implies listed_in(
                    list@,
                    items[m].0@,
                ) by {
                    if m < i {
                        let k = choose|k: int|
                            0 <= k < before.len() && (#[trigger] before[k]).0@ == items[m].0@;
                        let q = if k < p {
                            k
                        } else {
                            k + 1
                        };
                        assert(list@[q] == before[k]);
                    } else {
                        assert(list@[p].0@ == items[m].0@);
                    }
                }
            }
        }
        i += 1;
    }
    let ghost whole = list@;
    list.truncate(MAX_SUGGESTIONS);
    proof {
        lemma_counts(items, items.len() as int);
        let r = list@;
        let n = r.len() as int;
        assert forall|k: int| 0 <= k < r.len() implies #[trigger] r[k] == whole[k] by {}
        assert forall|k: int| 0 <= k < r.len() implies rank((#[trigger] r[k]).0@, typed@) < 2
            && counts@.contains_key(r[k].0@) && counts@[r[k].0@] == r[k].1 by {
            assert(r[k] == whole[k]);
            let m = choose|m: int|
                0 <= m < items.len() && pair_view(#[trigger] items[m]) == pair_view(whole[k]);
            assert(items[m].0@ == r[k].0@);
        }
        assert forall|name: Seq<char>| #[trigger]
            counts@.contains_key(name) && rank(name, typed@) < 2 implies listed_in(r, name) || (
        r.len() == MAX_SUGGESTIONS && ahead(
            pair_view(r[MAX_SUGGESTIONS - 1]),
            (name, counts@[name]),
            typed@,
        )) by {
            let m = choose|m: int| 0 <= m < items.len() && (#[trigger] items[m]).0@ == name;
            assert(listed_in(whole, items[m].0@));
            let k = choose|k: int| 0 <= k < whole.len() && (#[trigger] whole[k]).0@ == name;
            if k < n {
                assert(r[k].0@ == name);
            } else {
                let e = choose|e: int|
                    0 <= e < items.len() && pair_view(#[trigger] items[e]) == pair_view(whole[k]);
                assert(items[e].0@ == name);
                assert(counts@[name] == whole[k].1);
                assert(r[MAX_SUGGESTIONS - 1] == whole[MAX_SUGGESTIONS - 1]);
                assert(pair_view(whole[k]) == (name, counts@[name]));
            }
        }
    }
    list
}

// What is counted.

/// The number of a package that the rules or the tuning name: such packages come first.
pub const CONFIGURED_PRIORITY: usize = 1_000_000;

/// Gives the first `n` names the number `k`.
pub open spec fn all_set(
    counts: Map<Seq<char>, int>,
    names: Seq<Seq<char>>,
    k: int,
    n: int,
) -> Map<Seq<char>, int>
    decreases n,
{
    if n <= 0 {
        counts
    } else {
        all_set(counts, names, k, n - 1).insert(names[n - 1], k)
    }
}

/// Counts the first `n` names once more; with `dotted`, only those that hold a dot.
pub open spec fn all_bumped(
    counts: Map<Seq<char>, int>,
    names: Seq<Seq<char>>,
    dotted: bool,
    n: int,
) -> Map<Seq<char>, int>
    decreases n,
{
    if n <= 0 {
        counts
    } else {
        let before = all_bumped(counts, names, dotted, n - 1);
        if dotted && !names[n - 1].contains('.') {
            before
        } else {
            bumped(before, names[n - 1])
        }
    }
}

fn set_all(counts: &mut Counts, names: &Vec<String>, k: usize)
    requires
        old(counts).well_formed(),
    ensures
        final(counts).well_formed(),
        final(counts)@ == all_set(
            old(counts)@,
            string_views(names@),
            k as int,
            names@.len() as int,
        ),
{
    let ghost before = counts@;
    let ghost all = string_views(names@);
    let mut i: usize = 0;
    while i < names.len()
        invariant
            i <= names@.len(),
            all == string_views(names@),
            counts.well_formed(),
            counts@ == all_set(before, all, k as int, i as int),
        decreases names@.len() - i,
    {
        assert(all[i as int] == names@[i as int]@);
        counts.set(names[i].as_str(), k);
        i += 1;
    }
}

fn bump_all(counts: &mut Counts, names: &Vec<String>, dotted: bool)
    requires
        old(counts).well_formed(),
    ensures
        final(counts).well_formed(),
        final(counts)@ == all_bumped(
            old(counts)@,
            string_views(names@),
            dotted,
            names@.len() as int,
        ),
{
    let ghost before = counts@;
    let ghost all = string_views(names@);
    let mut i: usize = 0;
    while i < names.len()
        invariant
            i <= names@.len(),
            all == string_views(names@),
            counts.well_formed(),
            counts@ == all_bumped(before, all, dotted, i as int),
        decreases names@.len() - i,
    {
        assert(all[i as int] == names@[i as int]@);
        let name = chars_of(names[i].as_str());
        if !dotted || has_char(name.as_slice(), '.') {
            counts.bump(names[i].as_str());
        }
        i += 1;
    }
}

/// The packages to suggest: those that are installed, those that the rules or the tuning name, and
/// those that run, once more for each process.
pub open spec fn package_counts(
    installed: Seq<Seq<char>>,
    configured: Seq<Seq<char>>,
    tuned: Seq<Seq<char>>,
    running: Seq<Seq<char>>,
) -> Map<Seq<char>, int> {
    let a = all_set(Map::empty(), installed, 0, installed.len() as int);
    let b = all_set(a, configured, CONFIGURED_PRIORITY as int, configured.len() as int);
    let c = all_set(b, tuned, CONFIGURED_PRIORITY as int, tuned.len() as int);
    all_bumped(c, running, true, running.len() as int)
}

fn small(q: &str) -> (r: String)
    ensures
        r@ == lower(q@),
{
    let t = chars_of(q);
    let l = lowered(t.as_slice());
    string_of(l.as_slice())
}

/// The best suggestions for a package.
pub fn suggest_pkgs(
    installed: &Vec<String>,
    configured: &Vec<String>,
    tuned: &Vec<String>,
    running: &Vec<String>,
    q: &str,
) -> (r: Vec<(String, usize)>)
    ensures
        best_of(
            r@,
            package_counts(
                string_views(installed@),
                string_views(configured@),
                string_views(tuned@),
                string_views(running@),
            ),
            lower(q@),
        ),
{
    let mut counts = Counts::new();
    set_all(&mut counts, installed, 0);
    set_all(&mut counts, configured, CONFIGURED_PRIORITY);
    set_all(&mut counts, tuned, CONFIGURED_PRIORITY);
    bump_all(&mut counts, running, true);
    proof {
        assert(string_views(installed@).len() == installed@.len());
        assert(string_views(configured@).len() == configured@.len());
        assert(string_views(tuned@).len() == tuned@.len());
        assert(string_views(running@).len() == running@.len());
    }
    let typed = small(q);
    rank_top(&counts, typed.as_str())
}

/// The best suggestions for a thread, from the names of the threads of a package.
pub fn suggest_threads(comms: &Vec<String>, q: &str) -> (r: Vec<(String, usize)>)
    ensures
        best_of(
            r@,
            all_bumped(Map::empty(), string_views(comms@), false, comms@.len() as int),
            lower(q@),
        ),
{
    let mut counts = Counts::new();
    bump_all(&mut counts, comms, false);
    let typed = small(q);
    rank_top(&counts, typed.as_str())
}

/// Whether a directory in the data directory stands for a package.
pub open spec fn installed_name(name: Seq<char>) -> bool {
    name.contains('.') && name[0] != '.'
}

/// The first `n` names that stand for packages.
pub open spec fn installed_of(names: Seq<Seq<char>>, n: int) -> Seq<Seq<char>>
    decreases n,
{
    if n <= 0 {
        seq![]
    } else if installed_name(names[n - 1]) {
        installed_of(names, n - 1).push(names[n - 1])
    } else {
        installed_of(names, n - 1)
    }
}

/// The packages that are installed, from the names in the data directory.
pub fn installed_pkgs(names: &Vec<String>) -> (r: Vec<String>)
    ensures
        string_views(r@) == installed_of(string_views(names@), names@.len() as int),
{
    let mut out: Vec<String> = Vec::new();
    let ghost all = string_views(names@);
    let mut i: usize = 0;
    assert(string_views(out@) =~= seq![]);
    while i < names.len()
        invariant
            i <= names@.len(),
            all == string_views(names@),
            string_views(out@) == installed_of(all, i as int),
        decreases names@.len() - i,
    {
        assert(all[i as int] == names@[i as int]@);
        let name = chars_of(names[i].as_str());
        if has_char(name.as_slice(), '.') && name[0] != '.' {
            let own = names[i].clone();
            assert(string_views(out@.push(own)) =~= string_views(out@).push(own@));
            out.push(own);
        }
        i += 1;
    }
    out
}

/// `s` without the zero bytes and line breaks at its end.
pub open spec fn unended(s: Seq<char>) -> Seq<char>
    decreases s.len(),
{
    if s.len() > 0 && (s.last() == '\0' || s.last() == '\n') {
        unended(s.drop_last())
    } else {
        s
    }
}

/// The name of a thread, from the text that the kernel gives.
pub open spec fn comm_in(s: Seq<char>) -> Option<Seq<char>> {
    let t = trim(unended(s));
    if t.len() == 0 {
        None
    } else {
        Some(t)
    }
}

/// The name of a thread, from the text that the kernel gives; nothing if it is empty.
pub fn thread_comm(text: &str) -> (r: Option<String>)
    ensures
        match r {
            Some(s) => comm_in(text@) == Some(s@),
            None => comm_in(text@) is None,
        },
{
    let mut s = chars_of(text);
    while s.len() > 0 && (s[s.len() - 1] == '\0' || s[s.len() - 1] == '\n')
        invariant
            unended(s@) == unended(text@),
        decreases s@.len(),
    {
        let ghost before = s@;
        s.pop();
        assert(s@ =~= before.drop_last());
    }
    let t = trimmed(s.as_slice());
    if t.len() == 0 {
        None
    } else {
        Some(string_of(t))
    }
}

// Which packages come first.

/// The number of a name, 0 if it is not counted.
pub open spec fn number_of(counts: Map<Seq<char>, int>, name: Seq<char>) -> int {
    if counts.contains_key(name) {
        counts[name]
    } else {
        0
    }
}

proof fn lemma_all_set(
    counts: Map<Seq<char>, int>,
    names: Seq<Seq<char>>,
    k: int,
    n: int,
    name: Seq<char>,
)
    requires
        0 <= n <= names.len(),
    ensures
        number_of(all_set(counts, names, k, n), name) == if names.take(n).contains(name) {
            k
        } else {
            number_of(counts, name)
        },
    decreases n,
{
    if n > 0 {
        lemma_all_set(counts, names, k, n - 1, name);
        let (now, before) = (names.take(n), names.take(n - 1));
        assert(now[n - 1] == names[n - 1]);
        if before.contains(name) {
            let j = choose|j: int| 0 <= j < before.len() && before[j] == name;
            assert(now[j] == name);
        }
        if now.contains(name) && names[n - 1] != name {
            let j = choose|j: int| 0 <= j < now.len() && now[j] == name;
            assert(before[j] == name);
        }
    }
}

proof fn lemma_all_bumped(
    counts: Map<Seq<char>, int>,
    names: Seq<Seq<char>>,
    dotted: bool,
    n: int,
    name: Seq<char>,
)
    requires
        0 <= n <= names.len(),
    ensures
        number_of(counts, name) <= number_of(all_bumped(counts, names, dotted, n), name)
            <= number_of(counts, name) + n,
    decreases n,
{
    if n > 0 {
        lemma_all_bumped(counts, names, dotted, n - 1, name);
    }
}

/// Packages that the rules or the tuning name come first: no other package that fits what was typed
/// no better stands before one, unless a million processes run.
pub proof fn law_configured_packages_come_first(
    list: Seq<(String, usize)>,
    installed: Seq<Seq<char>>,
    configured: Seq<Seq<char>>,
    tuned: Seq<Seq<char>>,
    running: Seq<Seq<char>>,
    typed: Seq<char>,
    i: int,
    j: int,
)
    requires
        best_of(list, package_counts(installed, configured, tuned, running), typed),
        0 <= i < j < list.len(),
        configured.contains(list[j].0@) || tuned.contains(list[j].0@),
        !configured.contains(list[i].0@) && !tuned.contains(list[i].0@),
        running.len() < CONFIGURED_PRIORITY,
    ensures
        rank(list[i].0@, typed) < rank(list[j].0@, typed),
{
    let (x, y) = (list[i].0@, list[j].0@);
    let k = CONFIGURED_PRIORITY as int;
    let a = all_set(Map::empty(), installed, 0, installed.len() as int);
    let b = all_set(a, configured, k, configured.len() as int);
    let c = all_set(b, tuned, k, tuned.len() as int);
    assert(installed.take(installed.len() as int) =~= installed);
    assert(configured.take(configured.len() as int) =~= configured);
    assert(tuned.take(tuned.len() as int) =~= tuned);
    lemma_all_set(Map::empty(), installed, 0, installed.len() as int, x);
    lemma_all_set(a, configured, k, configured.len() as int, x);
    lemma_all_set(b, tuned, k, tuned.len() as int, x);
    lemma_all_set(a, configured, k, configured.len() as int, y);
    lemma_all_set(b, tuned, k, tuned.len() as int, y);
    lemma_all_bumped(c, running, true, running.len() as int, x);
    lemma_all_bumped(c, running, true, running.len() as int, y);
    assert(ahead(pair_view(list[i]), pair_view(list[j]), typed));
}

} // verus!
