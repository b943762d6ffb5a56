//! The line grammar of the CPU rule file.
//!
//! Outside a block a line is a package rule `pkg=cpus`, a thread rule `pkg{thread}=cpus`, a bare
//! name, or one of these followed by `{`, which opens a block for the package. `pkg=` stands for
//! the bare name, so that a name may hold `=` itself. Inside a block a line is `thread=cpus`, and
//! `}`, alone or behind a rule, closes the block. `#` and `//` begin a comment.

use crate::text::{
    code, last_of, lemma_last_of, piece, rfind_char, trim, trim_end, trimmed, trimmed_end,
};
use vstd::prelude::*;
use vstd::slice::slice_subrange;

verus! {

/// Package names are shorter than this, in bytes.
pub const MAX_PKG_LEN: usize = 128;

/// Thread names are shorter than this, in bytes.
pub const MAX_THREAD_LEN: usize = 32;

/// What a line outside a block says.
pub enum Outer {
    Single { pkg: Seq<char>, thread: Seq<char>, cpus: Seq<char>, open: bool },
    Rule { pkg: Seq<char>, cpus: Seq<char>, open: bool },
    BareOpen { pkg: Seq<char> },
    Pending { pkg: Seq<char> },
    Junk,
}

/// What a line outside a block says, as executable code holds it.
pub enum OuterLine {
    Single { pkg: Vec<char>, thread: Vec<char>, cpus: Vec<char>, open: bool },
    Rule { pkg: Vec<char>, cpus: Vec<char>, open: bool },
    BareOpen { pkg: Vec<char> },
    Pending { pkg: Vec<char> },
    Junk,
}

impl View for OuterLine {
    type V = Outer;

    open spec fn view(&self) -> Outer {
        match *self {
            OuterLine::Single { pkg, thread, cpus, open } => Outer::Single {
                pkg: pkg@,
                thread: thread@,
                cpus: cpus@,
                open,
            },
            OuterLine::Rule { pkg, cpus, open } => Outer::Rule { pkg: pkg@, cpus: cpus@, open },
            OuterLine::BareOpen { pkg } => Outer::BareOpen { pkg: pkg@ },
            OuterLine::Pending { pkg } => Outer::Pending { pkg: pkg@ },
            OuterLine::Junk => Outer::Junk,
        }
    }
}

/// Whether a comment begins at position `i` of `s`.
pub open spec fn mark_at(s: Seq<char>, i: int) -> bool {
    0 <= i < s.len() && (s[i] == '#' || (s[i] == '/' && i + 1 < s.len() && s[i + 1] == '/'))
}

/// Where the comment of `s` begins; the length of `s` without one.
pub open spec fn cut(s: Seq<char>) -> int
    decreases s.len(),
{
    if s.len() == 0 || mark_at(s, 0) {
        0
    } else {
        1 + cut(s.drop_first())
    }
}

/// `s` without its comment and the whitespace before it.
pub open spec fn uncommented(s: Seq<char>) -> Seq<char> {
    trim_end(s.take(cut(s)))
}

pub open spec fn spec_char(c: char) -> bool {
    ||| '0' <= c <= '9'
    ||| 'a' <= c <= 'z'
    ||| 'A' <= c <= 'Z'
    ||| c == '-'
    ||| c == ','
}

/// Whether `s` has the shape of a CPU specification such as `0-3,7` or `p-core`.
pub open spec fn like_spec(s: Seq<char>) -> bool {
    s.len() > 0 && forall|i: int| 0 <= i < s.len() ==> spec_char(#[trigger] s[i])
}

/// `pkg{thread}` taken apart at its last `{`.
pub open spec fn braced(s: Seq<char>) -> Option<(Seq<char>, Seq<char>)> {
    if s.len() > 0 && s.last() == '}' {
        match last_of(s, '{') {
            Some(b) => Some((trim(s.take(b)), trim(s.subrange(b + 1, s.len() - 1)))),
            None => None,
        }
    } else {
        None
    }
}

/// `pkg{thread}=cpus` as its three parts.
pub open spec fn single_parts(s: Seq<char>) -> Option<(Seq<char>, Seq<char>, Seq<char>)> {
    match last_of(s, '=') {
        Some(eq) => {
            let cpus = trim(s.skip(eq + 1));
            match braced(trim(s.take(eq))) {
                Some((pkg, thread)) => if pkg.len() > 0 && like_spec(cpus) {
                    Some((pkg, thread, cpus))
                } else {
                    None
                },
                None => None,
            }
        },
        None => None,
    }
}

/// Whether the line `s`, without its comment, ends with `c`.
pub open spec fn ends_in(s: Seq<char>, c: char) -> bool {
    uncommented(s).len() > 0 && uncommented(s).last() == c
}

/// The line `s` without its comment and without a `c` at its end.
pub open spec fn stripped(s: Seq<char>, c: char) -> Seq<char> {
    if ends_in(s, c) {
        trim_end(uncommented(s).drop_last())
    } else {
        uncommented(s)
    }
}

/// What the trimmed line `p` says outside a block.
pub open spec fn outer(p: Seq<char>) -> Outer {
    let open = ends_in(p, '{');
    let core = stripped(p, '{');
    if closes(p) {
        Outer::Junk
    } else {
        match last_of(core, '=') {
            None => if open {
                Outer::BareOpen { pkg: core }
            } else if core.len() > 0 {
                Outer::Pending { pkg: core }
            } else {
                Outer::Junk
            },
            Some(eq) => {
                let pkg = trim(core.take(eq));
                let cpus = trim(core.skip(eq + 1));
                if pkg.len() == 0 {
                    Outer::Junk
                } else if cpus.len() == 0 {
                    if open {
                        Outer::BareOpen { pkg }
                    } else {
                        Outer::Pending { pkg }
                    }
                } else if !like_spec(cpus) {
                    Outer::Junk
                } else if braced(pkg) is Some {
                    match single_parts(core) {
                        Some((owner, thread, _)) => Outer::Single { pkg: owner, thread, cpus, open },
                        None => Outer::Junk,
                    }
                } else {
                    Outer::Rule { pkg, cpus, open }
                }
            },
        }
    }
}

/// Whether the line `p` is a `}` alone.
pub open spec fn closes(p: Seq<char>) -> bool {
    uncommented(p) == seq!['}']
}

/// What the trimmed line `p` says inside a block: the thread, its CPUs, and whether `}` follows.
pub open spec fn member(p: Seq<char>) -> Option<(Seq<char>, Seq<char>, bool)> {
    let core = stripped(p, '}');
    match last_of(core, '=') {
        Some(eq) => if like_spec(trim(core.skip(eq + 1))) {
            Some((trim(core.take(eq)), trim(core.skip(eq + 1)), ends_in(p, '}')))
        } else {
            None
        },
        None => None,
    }
}

pub proof fn lemma_cut(s: Seq<char>)
    ensures
        0 <= cut(s) <= s.len(),
        cut(s) < s.len() ==> mark_at(s, cut(s)),
        forall|i: int| 0 <= i < cut(s) ==> !#[trigger] mark_at(s, i),
    decreases s.len(),
{
    if s.len() > 0 && !mark_at(s, 0) {
        let t = s.drop_first();
        lemma_cut(t);
        assert forall|i: int| 0 <= i < cut(s) implies !#[trigger] mark_at(s, i) by {
            if i > 0 {
                assert(!mark_at(t, i - 1));
            }
        }
        if cut(t) < t.len() {
            assert(mark_at(t, cut(t)));
        }
    }
}

pub proof fn lemma_cut_at(s: Seq<char>, n: int)
    requires
        0 <= n <= s.len(),
        n < s.len() ==> mark_at(s, n),
        forall|i: int| 0 <= i < n ==> !#[trigger] mark_at(s, i),
    ensures
        cut(s) == n,
{
    lemma_cut(s);
    if cut(s) < n {
        assert(!mark_at(s, cut(s)));
    } else if n < cut(s) {
        assert(!mark_at(s, n));
    }
}

/// Where the comment of `s` begins.
pub fn comment_at(s: &[char]) -> (r: Option<usize>)
    ensures
        match r {
            Some(n) => n == cut(s@) && n < s@.len(),
            None => cut(s@) == s@.len(),
        },
{
    let mut n: usize = 0;
    while n < s.len()
        invariant
            n <= s@.len(),
            forall|i: int| 0 <= i < n ==> !#[trigger] mark_at(s@, i),
        decreases s@.len() - n,
    {
        if s[n] == '#' || (s[n] == '/' && n + 1 < s.len() && s[n + 1] == '/') {
            proof {
                lemma_cut_at(s@, n as int);
            }
            return Some(n);
        }
        n += 1;
    }
    proof {
        lemma_cut_at(s@, n as int);
    }
    None
}

/// `s` without its comment and the whitespace before it.
pub fn strip_comment(s: &[char]) -> (r: &[char])
    ensures
        r@ == uncommented(s@),
{
    let n: usize = match comment_at(s) {
        Some(n) => n,
        None => s.len(),
    };
    let t = slice_subrange(s, 0, n);
    assert(t@ =~= s@.take(n as int));
    trimmed_end(t)
}

/// Whether `s` has the shape of a CPU specification.
pub fn spec_like(s: &[char]) -> (r: bool)
    ensures
        r == like_spec(s@),
{
    if s.len() == 0 {
        return false;
    }
    let mut i: usize = 0;
    while i < s.len()
        invariant
            i <= s@.len(),
            forall|j: int| 0 <= j < i ==> spec_char(#[trigger] s@[j]),
        decreases s@.len() - i,
    {
        let c: u32 = code(s[i]);
        if !((0x30 <= c && c <= 0x39) || (0x61 <= c && c <= 0x7a) || (0x41 <= c && c <= 0x5a) || c
            == 0x2d || c == 0x2c) {
            assert(!spec_char(s@[i as int]));
            return false;
        }
        i += 1;
    }
    true
}

/// Whether the line is a `}` alone.
pub fn close_like(p: &[char]) -> (r: bool)
    ensures
        r == closes(p@),
{
    let body = strip_comment(p);
    let r = body.len() == 1 && body[0] == '}';
    proof {
        if r {
            assert(body@ =~= seq!['}']);
        }
    }
    r
}

/// The line without its comment and without a `c` at its end, and whether that `c` stood there.
fn strip_last(p: &[char], c: char) -> (r: (&[char], bool))
    ensures
        r.0@ == stripped(p@, c),
        r.1 == ends_in(p@, c),
{
    let body = strip_comment(p);
    if body.len() > 0 && body[body.len() - 1] == c {
        let t = slice_subrange(body, 0, body.len() - 1);
        assert(t@ =~= body@.drop_last());
        (trimmed_end(t), true)
    } else {
        (body, false)
    }
}

/// The line without its comment and a `{` at its end.
pub fn strip_open(p: &[char]) -> (r: (&[char], bool))
    ensures
        r.0@ == stripped(p@, '{'),
        r.1 == ends_in(p@, '{'),
{
    strip_last(p, '{')
}

/// What stands before and behind the last `=`, each trimmed.
fn sides(s: &[char]) -> (r: Option<(&[char], &[char])>)
    ensures
        match r {
            Some((a, b)) => last_of(s@, '=') matches Some(eq) && a@ == trim(s@.take(eq)) && b@
                == trim(s@.skip(eq + 1)),
            None => last_of(s@, '=') is None,
        },
{
    match rfind_char(s, '=') {
        Some(eq) => {
            let n: usize = s.len();
            let a = slice_subrange(s, 0, eq);
            let b = slice_subrange(s, eq + 1, n);
            assert(a@ =~= s@.take(eq as int));
            assert(b@ =~= s@.skip(eq + 1));
            Some((trimmed(a), trimmed(b)))
        },
        None => None,
    }
}

/// `pkg{thread}` taken apart.
fn split_braced(s: &[char]) -> (r: Option<(&[char], &[char])>)
    ensures
        match r {
            Some((a, b)) => braced(s@) == Some((a@, b@)),
            None => braced(s@) is None,
        },
{
    if s.len() == 0 || s[s.len() - 1] != '}' {
        return None;
    }
    match rfind_char(s, '{') {
        Some(b) => {
            proof {
                lemma_last_of(s@, '{');
            }
            let n: usize = s.len() - 1;
            let x = slice_subrange(s, 0, b);
            let y = slice_subrange(s, b + 1, n);
            assert(x@ =~= s@.take(b as int));
            Some((trimmed(x), trimmed(y)))
        },
        None => None,
    }
}

/// An owned copy.
fn own(s: &[char]) -> (r: Vec<char>)
    ensures
        r@ == s@,
{
    let r = piece(s, 0, s.len());
    assert(r@ =~= s@);
    r
}

/// `pkg{thread}=cpus` as its three parts.
pub fn split_single_line(s: &[char]) -> (r: Option<(Vec<char>, Vec<char>, Vec<char>)>)
    ensures
        match r {
            Some((a, b, c)) => single_parts(s@) == Some((a@, b@, c@)),
            None => single_parts(s@) is None,
        },
{
    match sides(s) {
        Some((lhs, cpus)) => match split_braced(lhs) {
            Some((pkg, thread)) => {
                if pkg.len() > 0 && spec_like(cpus) {
                    Some((own(pkg), own(thread), own(cpus)))
                } else {
                    None
                }
            },
            None => None,
        },
        None => None,
    }
}

/// What a trimmed line inside a block says.
pub fn split_rule_line(p: &[char]) -> (r: Option<(Vec<char>, Vec<char>, bool)>)
    ensures
        match r {
            Some((a, b, c)) => member(p@) == Some((a@, b@, c)),
            None => member(p@) is None,
        },
{
    let (core, closed) = strip_last(p, '}');
    match sides(core) {
        Some((name, cpus)) => {
            if spec_like(cpus) {
                Some((own(name), own(cpus), closed))
            } else {
                None
            }
        },
        None => None,
    }
}

/// What a trimmed line outside a block says.
pub fn parse_outer(p: &[char]) -> (r: OuterLine)
    ensures
        r@ == outer(p@),
{
    if close_like(p) {
        return OuterLine::Junk;
    }
    let (core, open) = strip_open(p);
    match sides(core) {
        None => {
            if open {
                OuterLine::BareOpen { pkg: own(core) }
            } else if core.len() > 0 {
                OuterLine::Pending { pkg: own(core) }
            } else {
                OuterLine::Junk
            }
        },
        Some((pkg, cpus)) => {
            if pkg.len() == 0 {
                OuterLine::Junk
            } else if cpus.len() == 0 {
                if open {
                    OuterLine::BareOpen { pkg: own(pkg) }
                } else {
                    OuterLine::Pending { pkg: own(pkg) }
                }
            } else if !spec_like(cpus) {
                OuterLine::Junk
            } else {
                match split_braced(pkg) {
                    Some((owner, thread)) => {
                        if owner.len() > 0 {
                            OuterLine::Single {
                                pkg: own(owner),
                                thread: own(thread),
                                cpus: own(cpus),
                                open,
                            }
                        } else {
                            OuterLine::Junk
                        }
                    },
                    None => OuterLine::Rule { pkg: own(pkg), cpus: own(cpus), open },
                }
            }
        },
    }
}

} // verus!
