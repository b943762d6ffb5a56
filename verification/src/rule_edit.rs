//! Finding, changing, removing and cloning the CPU rules of one package.

use crate::config::{
    close_like, closes, comment_at, cut, member, outer, parse_outer, single_parts, split_rule_line,
    split_single_line, strip_open, stripped, Outer, OuterLine,
};
use crate::text::{
    add_chars, add_str, begins, begins_str, begins_with, char_is_space, chars_of, has_char,
    is_space, join_lines, last_of, lemma_trim_start_len, lines_of, piece, rfind_char, same,
    same_str, split_lines, text_of, trim, trim_end, trim_start, trimmed, trimmed_end, trimmed_start,
    views,
};
use vstd::prelude::*;
use vstd::slice::slice_subrange;

verus! {

/// How an edit of the rule file ended.
#[derive(Clone, Copy, Debug, PartialEq, Eq, Structural)]
pub enum RuleEdit {
    Done,
    NotFound,
    Conflict,
    Malformed,
    IoErr,
}

/// Where a reader of the file stands between two lines: outside any block, behind a bare name, or
/// inside the block of a package.
pub enum Place {
    Top,
    Named(Seq<char>),
    Block(Seq<char>),
}

/// Whether a trimmed line says nothing.
pub open spec fn blank(p: Seq<char>) -> bool {
    p.len() == 0 || p[0] == '#' || begins(p, "//"@)
}

/// Where a reader stands behind the line `raw`.
pub open spec fn next(place: Place, raw: Seq<char>) -> Place {
    let p = trim(raw);
    if blank(p) {
        place
    } else {
        match place {
            Place::Block(_) => if closes(p) {
                Place::Top
            } else {
                match member(p) {
                    Some((_, _, closed)) => if closed {
                        Place::Top
                    } else {
                        place
                    },
                    None => if p.contains('}') {
                        Place::Top
                    } else {
                        place
                    },
                }
            },
            _ => match outer(p) {
                Outer::Single { pkg, open, .. } => if open {
                    Place::Block(pkg)
                } else {
                    Place::Top
                },
                Outer::Rule { pkg, open, .. } => if open {
                    Place::Block(pkg)
                } else {
                    Place::Top
                },
                Outer::BareOpen { pkg } => if pkg.len() > 0 {
                    Place::Block(pkg)
                } else {
                    match place {
                        Place::Named(name) => Place::Block(name),
                        _ => Place::Top,
                    }
                },
                Outer::Pending { pkg } => Place::Named(pkg),
                Outer::Junk => Place::Top,
            },
        }
    }
}

/// Where a reader who starts at `start` stands behind `lines`.
pub open spec fn reach(start: Place, lines: Seq<Seq<char>>) -> Place
    decreases lines.len(),
{
    if lines.len() == 0 {
        start
    } else {
        next(reach(start, lines.drop_last()), lines.last())
    }
}

/// Where a reader stands before line `i`.
pub open spec fn place_at(lines: Seq<Seq<char>>, i: int) -> Place {
    reach(Place::Top, lines.take(i))
}

/// A thread rule of a package: its thread, its line, whether it is written `pkg{thread}=cpus`,
/// whether `}` stands behind it, and whether it opens a block.
pub struct Loc {
    pub name: Seq<char>,
    pub idx: int,
    pub single: bool,
    pub closed: bool,
    pub open: bool,
}

/// The line on which a package itself stands: a rule alone, a rule that opens a block, a bare name
/// that opens a block, or a bare name with the `{` on a later line.
pub enum PkgAt {
    Standalone(int),
    OpenInline(int),
    BareOpen(int),
    BarePending(int),
}

/// The thread rule of `pkg` that line `i`, `raw`, holds when it is read at `place`.
pub open spec fn loc_in(place: Place, raw: Seq<char>, pkg: Seq<char>, i: int) -> Option<Loc> {
    let p = trim(raw);
    if blank(p) {
        None
    } else {
        match place {
            Place::Block(owner) => match member(p) {
                Some((name, _, closed)) => if !closes(p) && owner == pkg && name.len() > 0 {
                    Some(Loc { name, idx: i, single: false, closed, open: false })
                } else {
                    None
                },
                None => None,
            },
            _ => match outer(p) {
                Outer::Single { pkg: owner, thread, open, .. } => if owner == pkg && thread.len()
                    > 0 {
                    Some(Loc { name: thread, idx: i, single: true, closed: false, open })
                } else {
                    None
                },
                _ => None,
            },
        }
    }
}

/// The last line before line `n` that says something; -1 without one.
pub open spec fn told_before(lines: Seq<Seq<char>>, n: int) -> int
    decreases n,
{
    if n <= 0 {
        -1
    } else if !blank(trim(lines[n - 1])) {
        n - 1
    } else {
        told_before(lines, n - 1)
    }
}

/// What line `i` says of the package itself.
pub open spec fn pkg_in(lines: Seq<Seq<char>>, pkg: Seq<char>, i: int) -> Option<PkgAt> {
    let p = trim(lines[i]);
    let place = place_at(lines, i);
    if blank(p) || place is Block {
        None
    } else {
        match outer(p) {
            Outer::Rule { pkg: owner, open, .. } => if owner != pkg {
                None
            } else if open {
                Some(PkgAt::OpenInline(i))
            } else {
                Some(PkgAt::Standalone(i))
            },
            Outer::BareOpen { pkg: owner } => if owner.len() > 0 {
                if owner == pkg {
                    Some(PkgAt::BareOpen(i))
                } else {
                    None
                }
            } else {
                match place {
                    Place::Named(name) => if name == pkg {
                        Some(PkgAt::BarePending(told_before(lines, i)))
                    } else {
                        None
                    },
                    _ => None,
                }
            },
            _ => None,
        }
    }
}

/// Whether line `i` opens a block of `pkg`.
pub open spec fn opens_in(lines: Seq<Seq<char>>, pkg: Seq<char>, i: int) -> bool {
    !(place_at(lines, i) is Block) && place_at(lines, i + 1) == Place::Block(pkg)
}

/// Whether line `i` closes a block of `pkg`.
pub open spec fn shuts_in(lines: Seq<Seq<char>>, pkg: Seq<char>, i: int) -> bool {
    place_at(lines, i) == Place::Block(pkg) && !(place_at(lines, i + 1) is Block)
}

/// The first of the lines before `n` on which `pkg` itself stands.
pub open spec fn pkg_upto(lines: Seq<Seq<char>>, pkg: Seq<char>, n: int) -> Option<PkgAt>
    decreases n,
{
    if n <= 0 {
        None
    } else {
        match pkg_upto(lines, pkg, n - 1) {
            Some(at) => Some(at),
            None => pkg_in(lines, pkg, n - 1),
        }
    }
}

/// The first of the lines before `n` that opens a block of `pkg`.
pub open spec fn open_upto(lines: Seq<Seq<char>>, pkg: Seq<char>, n: int) -> Option<int>
    decreases n,
{
    if n <= 0 {
        None
    } else {
        match open_upto(lines, pkg, n - 1) {
            Some(at) => Some(at),
            None => if opens_in(lines, pkg, n - 1) {
                Some(n - 1)
            } else {
                None
            },
        }
    }
}

/// The first of the lines before `n` that closes a block of `pkg`.
pub open spec fn close_upto(lines: Seq<Seq<char>>, pkg: Seq<char>, n: int) -> Option<int>
    decreases n,
{
    if n <= 0 {
        None
    } else {
        match close_upto(lines, pkg, n - 1) {
            Some(at) => Some(at),
            None => if shuts_in(lines, pkg, n - 1) {
                Some(n - 1)
            } else {
                None
            },
        }
    }
}

/// The thread rules of `pkg` on the lines before `n`, in their order.
pub open spec fn locs_upto(lines: Seq<Seq<char>>, pkg: Seq<char>, n: int) -> Seq<Loc>
    decreases n,
{
    if n <= 0 {
        seq![]
    } else {
        match loc_in(place_at(lines, n - 1), lines[n - 1], pkg, n - 1) {
            Some(loc) => locs_upto(lines, pkg, n - 1).push(loc),
            None => locs_upto(lines, pkg, n - 1),
        }
    }
}

/// All that the file says of one package: where the package itself stands first, its first block,
/// its thread rules, and whether the file ends inside a block (of any package).
pub struct Found {
    pub pkg_line: Option<PkgAt>,
    pub block_open: Option<int>,
    pub block_close: Option<int>,
    pub threads: Seq<Loc>,
    pub unterminated: bool,
}

pub open spec fn found(lines: Seq<Seq<char>>, pkg: Seq<char>) -> Found {
    let n = lines.len() as int;
    Found {
        pkg_line: pkg_upto(lines, pkg, n),
        block_open: open_upto(lines, pkg, n),
        block_close: close_upto(lines, pkg, n),
        threads: locs_upto(lines, pkg, n),
        unterminated: place_at(lines, n) is Block,
    }
}

/// The thread rules written `pkg{thread}=cpus`.
pub open spec fn singles(locs: Seq<Loc>) -> Seq<Loc>
    decreases locs.len(),
{
    if locs.len() == 0 {
        seq![]
    } else if locs.last().single {
        singles(locs.drop_last()).push(locs.last())
    } else {
        singles(locs.drop_last())
    }
}

impl Found {
    /// Whether a line names the package: its own line, or a rule `pkg{thread}=cpus`.
    pub open spec fn any_line(self) -> bool {
        self.pkg_line is Some || singles(self.threads).len() > 0
    }
}

/// Where a package itself stands, as executable code holds it.
#[derive(Clone, Copy)]
pub enum PkgLine {
    Standalone(usize),
    OpenInline(usize),
    BareOpen(usize),
    BarePending(usize),
}

impl View for PkgLine {
    type V = PkgAt;

    open spec fn view(&self) -> PkgAt {
        match *self {
            PkgLine::Standalone(i) => PkgAt::Standalone(i as int),
            PkgLine::OpenInline(i) => PkgAt::OpenInline(i as int),
            PkgLine::BareOpen(i) => PkgAt::BareOpen(i as int),
            PkgLine::BarePending(i) => PkgAt::BarePending(i as int),
        }
    }
}

/// A thread rule, as executable code holds it.
pub struct ThreadLoc {
    pub name: Vec<char>,
    pub idx: usize,
    pub single: bool,
    pub closed: bool,
    pub open: bool,
}

impl View for ThreadLoc {
    type V = Loc;

    open spec fn view(&self) -> Loc {
        Loc {
            name: self.name@,
            idx: self.idx as int,
            single: self.single,
            closed: self.closed,
            open: self.open,
        }
    }
}

pub open spec fn loc_views(v: Seq<ThreadLoc>) -> Seq<Loc> {
    Seq::new(v.len(), |i: int| v[i]@)
}

/// All that the file says of one package, as executable code holds it.
pub struct Target {
    pub pkg_line: Option<PkgLine>,
    pub block_open: Option<usize>,
    pub block_close: Option<usize>,
    pub threads: Vec<ThreadLoc>,
    pub unterminated: bool,
}

impl View for Target {
    type V = Found;

    open spec fn view(&self) -> Found {
        Found {
            pkg_line: match self.pkg_line {
                Some(at) => Some(at@),
                None => None,
            },
            block_open: match self.block_open {
                Some(i) => Some(i as int),
                None => None,
            },
            block_close: match self.block_close {
                Some(i) => Some(i as int),
                None => None,
            },
            threads: loc_views(self.threads@),
            unterminated: self.unterminated,
        }
    }
}

fn is_blank(p: &[char]) -> (r: bool)
    ensures
        r == blank(p@),
{
    p.len() == 0 || p[0] == '#' || begins_str(p, "//")
}

pub proof fn lemma_place_step(lines: Seq<Seq<char>>, i: int)
    requires
        0 <= i < lines.len(),
    ensures
        place_at(lines, i + 1) == next(place_at(lines, i), lines[i]),
{
    let t = lines.take(i + 1);
    assert(t.drop_last() =~= lines.take(i));
    assert(t.last() == lines[i]);
}

/// The block that a scan is in, as executable code holds it.
pub enum Spot {
    Top,
    Named(usize, Vec<char>),
    Block(Vec<char>),
}

impl View for Spot {
    type V = Place;

    open spec fn view(&self) -> Place {
        match *self {
            Spot::Top => Place::Top,
            Spot::Named(_, name) => Place::Named(name@),
            Spot::Block(owner) => Place::Block(owner@),
        }
    }
}

fn copied(s: &Vec<char>) -> (r: Vec<char>)
    ensures
        r@ == s@,
{
    let r = piece(s.as_slice(), 0, s.len());
    assert(r@ =~= s@);
    r
}

proof fn lemma_push_loc(v: Seq<ThreadLoc>, loc: ThreadLoc)
    ensures
        loc_views(v.push(loc)) == loc_views(v).push(loc@),
{
    assert(loc_views(v.push(loc)) =~= loc_views(v).push(loc@));
}

/// Reads what the lines say of `pkg`.
pub fn target_scan(lines: &Vec<Vec<char>>, pkg: &[char]) -> (t: Target)
    ensures
        t@ == found(views(lines@), pkg@),
{
    let mut t = Target {
        pkg_line: None,
        block_open: None,
        block_close: None,
        threads: Vec::new(),
        unterminated: false,
    };
    let mut spot = Spot::Top;
    let mut i: usize = 0;
    let ghost all = views(lines@);
    assert(all.take(0) =~= seq![]);
    assert(t@.threads =~= locs_upto(all, pkg@, 0));
    while i < lines.len()
        invariant
            i <= lines@.len(),
            all == views(lines@),
            spot@ == place_at(all, i as int),
            spot matches Spot::Named(at, _) ==> at == told_before(all, i as int) && at < i,
            t@.pkg_line == pkg_upto(all, pkg@, i as int),
            t@.block_open == open_upto(all, pkg@, i as int),
            t@.block_close == close_upto(all, pkg@, i as int),
            t@.threads == locs_upto(all, pkg@, i as int),
        decreases lines@.len() - i,
    {
        let p = trimmed(lines[i].as_slice());
        let ghost here = place_at(all, i as int);
        let ghost old_threads = t.threads@;
        proof {
            assert(all[i as int] == lines@[i as int]@);
            lemma_place_step(all, i as int);
        }
        if is_blank(p) {
            i += 1;
            continue;
        }
        let mut opened = false;
        let mut closed_block = false;
        match &spot {
            Spot::Block(owner) => {
                let mine = same(owner.as_slice(), pkg);
                if close_like(p) {
                    closed_block = mine;
                    spot = Spot::Top;
                } else {
                    match split_rule_line(p) {
                        Some((name, _, closed)) => {
                            if mine && name.len() > 0 {
                                let loc = ThreadLoc { name, idx: i, single: false, closed, open: false };
                                proof {
                                    lemma_push_loc(t.threads@, loc);
                                }
                                t.threads.push(loc);
                            }
                            if closed {
                                closed_block = mine;
                                spot = Spot::Top;
                            }
                        },
                        None => {
                            if has_char(p, '}') {
                                closed_block = mine;
                                spot = Spot::Top;
                            }
                        },
                    }
                }
            },
            _ => {
                match parse_outer(p) {
                    OuterLine::Single { pkg: owner, thread, open, .. } => {
                        let mine = same(owner.as_slice(), pkg);
                        if mine && thread.len() > 0 {
                            let loc = ThreadLoc { name: thread, idx: i, single: true, closed: false, open };
                            proof {
                                lemma_push_loc(t.threads@, loc);
                            }
                            t.threads.push(loc);
                        }
                        if open {
                            opened = mine;
                            spot = Spot::Block(owner);
                        } else {
                            spot = Spot::Top;
                        }
                    },
                    OuterLine::Rule { pkg: owner, open, .. } => {
                        let mine = same(owner.as_slice(), pkg);
                        if mine && t.pkg_line.is_none() {
                            t.pkg_line = Some(
                                if open {
                                    PkgLine::OpenInline(i)
                                } else {
                                    PkgLine::Standalone(i)
                                },
                            );
                        }
                        if open {
                            opened = mine;
                            spot = Spot::Block(owner);
                        } else {
                            spot = Spot::Top;
                        }
                    },
                    OuterLine::BareOpen { pkg: owner } => {
                        if owner.len() > 0 {
                            let mine = same(owner.as_slice(), pkg);
                            if mine && t.pkg_line.is_none() {
                                t.pkg_line = Some(PkgLine::BareOpen(i));
                            }
                            opened = mine;
                            spot = Spot::Block(owner);
                        } else {
                            let mut from: Option<(usize, Vec<char>)> = None;
                            if let Spot::Named(at, name) = &spot {
                                from = Some((*at, copied(name)));
                            }
                            match from {
                                Some((at, name)) => {
                                    let mine = same(name.as_slice(), pkg);
                                    if mine && t.pkg_line.is_none() {
                                        t.pkg_line = Some(PkgLine::BarePending(at));
                                    }
                                    opened = mine;
                                    spot = Spot::Block(name);
                                },
                                None => {
                                    spot = Spot::Top;
                                },
                            }
                        }
                    },
                    OuterLine::Pending { pkg: name } => {
                        spot = Spot::Named(i, name);
                    },
                    OuterLine::Junk => {
                        spot = Spot::Top;
                    },
                }
            },
        }
        if opened && t.block_open.is_none() {
            t.block_open = Some(i);
        }
        if closed_block && t.block_close.is_none() {
            t.block_close = Some(i);
        }
        i += 1;
    }
    t.unterminated = match &spot {
        Spot::Block(_) => true,
        _ => false,
    };
    t
}

// The edits, as functions from lines to lines.

/// The line that opens a block of `pkg`.
pub open spec fn bare_open(pkg: Seq<char>) -> Seq<char> {
    if pkg.contains('=') {
        pkg + "= {"@
    } else {
        pkg + " {"@
    }
}

/// `fresh`, with the comment of `old` behind it.
pub open spec fn with_comment_of(fresh: Seq<char>, old: Seq<char>) -> Seq<char> {
    fresh + old.skip(cut(old))
}

/// A thread rule inside a block.
pub open spec fn member_line(thread: Seq<char>, cpus: Seq<char>) -> Seq<char> {
    "\t"@ + thread + "="@ + cpus
}

/// A package rule.
pub open spec fn rule_line(pkg: Seq<char>, cpus: Seq<char>) -> Seq<char> {
    pkg + "="@ + cpus
}

/// A package rule that opens a block.
pub open spec fn open_rule_line(pkg: Seq<char>, cpus: Seq<char>) -> Seq<char> {
    rule_line(pkg, cpus) + " {"@
}

pub open spec fn is_stop(c: char) -> bool {
    is_space(c) || c == '{' || c == '}'
}

/// How many characters at the start of `s` are neither whitespace nor braces.
pub open spec fn value_len(s: Seq<char>) -> int
    decreases s.len(),
{
    if s.len() == 0 || is_stop(s[0]) {
        0
    } else {
        1 + value_len(s.drop_first())
    }
}

/// The whitespace and braces of `s`.
pub open spec fn stops_of(s: Seq<char>) -> Seq<char>
    decreases s.len(),
{
    if s.len() == 0 {
        s
    } else if is_stop(s.last()) {
        stops_of(s.drop_last()).push(s.last())
    } else {
        stops_of(s.drop_last())
    }
}

/// The line `raw` with the value behind its last `=` replaced; braces, whitespace and the comment
/// stay.
pub open spec fn swapped(raw: Seq<char>, cpus: Seq<char>) -> Seq<char> {
    let head = raw.take(cut(raw));
    match last_of(head, '=') {
        None => raw,
        Some(eq) => {
            let rhs = head.skip(eq + 1);
            let val = trim_start(rhs);
            let lead = rhs.len() - val.len();
            raw.take(eq + 1 + lead) + cpus + stops_of(val.skip(value_len(val))) + raw.skip(cut(raw))
        },
    }
}

/// The lines without one thread rule; the block that its line opens or closes stays.
pub open spec fn loc_removed(lines: Seq<Seq<char>>, pkg: Seq<char>, loc: Loc) -> Seq<Seq<char>> {
    if loc.open {
        lines.update(loc.idx, with_comment_of(bare_open(pkg), lines[loc.idx]))
    } else if loc.closed {
        lines.update(loc.idx, with_comment_of("}"@, lines[loc.idx]))
    } else {
        lines.remove(loc.idx)
    }
}

/// The lines without the given thread rules.
pub open spec fn locs_removed(
    lines: Seq<Seq<char>>,
    pkg: Seq<char>,
    locs: Seq<Loc>,
) -> Seq<Seq<char>>
    decreases locs.len(),
{
    if locs.len() == 0 {
        lines
    } else {
        locs_removed(loc_removed(lines, pkg, locs.last()), pkg, locs.drop_last())
    }
}

/// The rules of one thread.
pub open spec fn of_thread(locs: Seq<Loc>, thread: Seq<char>) -> Seq<Loc>
    decreases locs.len(),
{
    if locs.len() == 0 {
        seq![]
    } else if locs.last().name == thread {
        of_thread(locs.drop_last(), thread).push(locs.last())
    } else {
        of_thread(locs.drop_last(), thread)
    }
}

/// The line `pkg{thread}=cpus` rewritten for the inside of a block.
pub open spec fn moved(raw: Seq<char>) -> Seq<char> {
    match single_parts(stripped(trim(raw), '{')) {
        Some((_, thread, cpus)) => with_comment_of(member_line(thread, cpus), trim(raw)),
        None => raw,
    }
}

/// The lines of the given rules, rewritten for the inside of a block.
pub open spec fn moved_all(lines: Seq<Seq<char>>, locs: Seq<Loc>) -> Seq<Seq<char>> {
    Seq::new(locs.len(), |i: int| moved(lines[locs[i].idx]))
}

pub open spec fn any_open(locs: Seq<Loc>) -> bool {
    exists|i: int| 0 <= i < locs.len() && (#[trigger] locs[i]).open
}

/// `items` between the first `at` lines and the rest.
pub open spec fn spliced(
    lines: Seq<Seq<char>>,
    at: int,
    items: Seq<Seq<char>>,
) -> Seq<Seq<char>> {
    lines.take(at) + items + lines.skip(at)
}

/// The lines with a block behind the package rule on line `i`.
pub open spec fn block_added(
    lines: Seq<Seq<char>>,
    i: int,
    items: Seq<Seq<char>>,
) -> Seq<Seq<char>> {
    spliced(lines.update(i, trim_end(lines[i]) + " {"@), i + 1, items.push("}"@))
}

/// Whether the rules `pkg{thread}=cpus` of a package stay where they are: there are none, or no
/// closed block of the package is there to take them and a new one cannot be opened.
pub open spec fn stay(t: Found) -> bool {
    ||| singles(t.threads).len() == 0
    ||| (t.block_close is None && (any_open(singles(t.threads)) || !(t.pkg_line is None
        || t.pkg_line matches Some(PkgAt::Standalone(_)))))
}

/// The lines with all rules `pkg{thread}=cpus` of `pkg` moved into one block.
pub open spec fn normalized(lines: Seq<Seq<char>>, pkg: Seq<char>) -> Seq<Seq<char>> {
    let t = found(lines, pkg);
    let locs = singles(t.threads);
    if stay(t) {
        lines
    } else {
        let items = moved_all(lines, locs);
        let rest = locs_removed(lines, pkg, locs);
        let u = found(rest, pkg);
        match u.block_close {
            Some(close) => spliced(rest, close, items),
            None => match u.pkg_line {
                Some(PkgAt::Standalone(i)) => block_added(rest, i, items),
                _ => {
                    let first = locs[0].idx;
                    let at = if first <= rest.len() {
                        first
                    } else {
                        rest.len() as int
                    };
                    spliced(rest, at, seq![bare_open(pkg)] + items.push("}"@))
                },
            },
        }
    }
}

// Facts about what a scan finds.

/// Every thread rule found stands on a line of its own, in the order of the lines.
pub proof fn lemma_locs(lines: Seq<Seq<char>>, pkg: Seq<char>, n: int)
    requires
        0 <= n <= lines.len(),
    ensures
        forall|k: int|
            0 <= k < locs_upto(lines, pkg, n).len() ==> 0 <= (
            #[trigger] locs_upto(lines, pkg, n)[k]).idx < n && loc_in(
                place_at(lines, locs_upto(lines, pkg, n)[k].idx),
                lines[locs_upto(lines, pkg, n)[k].idx],
                pkg,
                locs_upto(lines, pkg, n)[k].idx,
            ) == Some(locs_upto(lines, pkg, n)[k]),
        ascending(locs_upto(lines, pkg, n)),
    decreases n,
{
    if n > 0 {
        lemma_locs(lines, pkg, n - 1);
    }
}

/// Whether the locations stand in the order of their lines.
pub open spec fn ascending(locs: Seq<Loc>) -> bool {
    forall|j: int, k: int|
        0 <= j < k < locs.len() ==> (#[trigger] locs[j]).idx < (#[trigger] locs[k]).idx
}

/// Whether every location stands on one of the first `n` lines.
pub open spec fn within(locs: Seq<Loc>, n: int) -> bool {
    forall|k: int| 0 <= k < locs.len() ==> 0 <= (#[trigger] locs[k]).idx < n
}

pub proof fn lemma_singles(locs: Seq<Loc>, n: int)
    requires
        ascending(locs),
        within(locs, n),
    ensures
        ascending(singles(locs)),
        within(singles(locs), n),
        forall|k: int|
            0 <= k < singles(locs).len() ==> (#[trigger] singles(locs)[k]).single && locs.contains(
                singles(locs)[k],
            ),
    decreases locs.len(),
{
    if locs.len() > 0 {
        let init = locs.drop_last();
        assert forall|k: int| 0 <= k < init.len() implies 0 <= (#[trigger] init[k]).idx
            < locs.last().idx by {
            assert(init[k] == locs[k]);
        }
        lemma_singles(init, locs.last().idx);
        let s = singles(locs);
        assert forall|k: int| 0 <= k < s.len() implies 0 <= (#[trigger] s[k]).idx < n && s[k].single
            && locs.contains(s[k]) by {
            if k < singles(init).len() {
                assert(s[k] == singles(init)[k]);
                let j = choose|j: int| 0 <= j < init.len() && init[j] == s[k];
                assert(locs[j] == s[k]);
            } else {
                assert(locs[locs.len() - 1] == s[k]);
            }
        }
        assert forall|j: int, k: int| 0 <= j < k < s.len() implies (#[trigger] s[j]).idx < (
        #[trigger] s[k]).idx by {
            assert(s[j] == singles(init)[j]);
            if k < singles(init).len() {
                assert(s[k] == singles(init)[k]);
            }
        }
    }
}

pub proof fn lemma_of_thread(locs: Seq<Loc>, thread: Seq<char>, n: int)
    requires
        ascending(locs),
        within(locs, n),
    ensures
        ascending(of_thread(locs, thread)),
        within(of_thread(locs, thread), n),
        forall|k: int|
            0 <= k < of_thread(locs, thread).len() ==> (#[trigger] of_thread(locs, thread)[k]).name
                == thread && locs.contains(of_thread(locs, thread)[k]),
    decreases locs.len(),
{
    if locs.len() > 0 {
        let init = locs.drop_last();
        assert forall|k: int| 0 <= k < init.len() implies 0 <= (#[trigger] init[k]).idx
            < locs.last().idx by {
            assert(init[k] == locs[k]);
        }
        lemma_of_thread(init, thread, locs.last().idx);
        let s = of_thread(locs, thread);
        assert forall|k: int| 0 <= k < s.len() implies 0 <= (#[trigger] s[k]).idx < n && s[k].name
            == thread && locs.contains(s[k]) by {
            if k < of_thread(init, thread).len() {
                assert(s[k] == of_thread(init, thread)[k]);
                let j = choose|j: int| 0 <= j < init.len() && init[j] == s[k];
                assert(locs[j] == s[k]);
            } else {
                assert(locs[locs.len() - 1] == s[k]);
            }
        }
        assert forall|j: int, k: int| 0 <= j < k < s.len() implies (#[trigger] s[j]).idx < (
        #[trigger] s[k]).idx by {
            assert(s[j] == of_thread(init, thread)[j]);
            if k < of_thread(init, thread).len() {
                assert(s[k] == of_thread(init, thread)[k]);
            }
        }
    }
}

pub open spec fn pkg_idx(at: PkgAt) -> int {
    match at {
        PkgAt::Standalone(i) => i,
        PkgAt::OpenInline(i) => i,
        PkgAt::BareOpen(i) => i,
        PkgAt::BarePending(i) => i,
    }
}

/// Behind a bare name, the last line that says something is that name.
pub proof fn lemma_named(lines: Seq<Seq<char>>, n: int)
    requires
        0 <= n <= lines.len(),
        place_at(lines, n) is Named,
    ensures
        0 <= told_before(lines, n) < n,
        !blank(trim(lines[told_before(lines, n)])),
        !(place_at(lines, told_before(lines, n)) is Block),
        outer(trim(lines[told_before(lines, n)])) == (Outer::Pending {
            pkg: place_at(lines, n)->Named_0,
        }),
    decreases n,
{
    assert(lines.take(0) =~= seq![]);
    if n > 0 {
        lemma_place_step(lines, n - 1);
        if blank(trim(lines[n - 1])) {
            lemma_named(lines, n - 1);
        }
    }
}

/// The line found for the package is a line of the file and says what was found.
pub proof fn lemma_pkg_upto(lines: Seq<Seq<char>>, pkg: Seq<char>, n: int)
    requires
        0 <= n <= lines.len(),
    ensures
        pkg_upto(lines, pkg, n) matches Some(at) ==> 0 <= pkg_idx(at) < n && !blank(
            trim(lines[pkg_idx(at)]),
        ) && !(place_at(lines, pkg_idx(at)) is Block) && match at {
            PkgAt::Standalone(i) => outer(trim(lines[i])) matches Outer::Rule { pkg: owner, open, .. }
                && owner == pkg && !open,
            PkgAt::OpenInline(i) => outer(trim(lines[i])) matches Outer::Rule { pkg: owner, open, .. }
                && owner == pkg && open,
            PkgAt::BareOpen(i) => outer(trim(lines[i])) == (Outer::BareOpen { pkg }),
            PkgAt::BarePending(i) => outer(trim(lines[i])) == (Outer::Pending { pkg }),
        },
    decreases n,
{
    if n > 0 {
        lemma_pkg_upto(lines, pkg, n - 1);
        if place_at(lines, n - 1) is Named {
            lemma_named(lines, n - 1);
        }
    }
}

/// The first block of a package is opened before it is closed; only the last can stay open.
pub proof fn lemma_block(lines: Seq<Seq<char>>, pkg: Seq<char>, n: int)
    requires
        0 <= n <= lines.len(),
    ensures
        open_upto(lines, pkg, n) matches Some(i) ==> 0 <= i < n && opens_in(lines, pkg, i),
        close_upto(lines, pkg, n) matches Some(j) ==> 0 <= j < n && shuts_in(lines, pkg, j) && (
        open_upto(lines, pkg, n) matches Some(i) && i < j),
        place_at(lines, n) == Place::Block(pkg) ==> open_upto(lines, pkg, n) is Some,
    decreases n,
{
    assert(lines.take(0) =~= seq![]);
    if n > 0 {
        lemma_block(lines, pkg, n - 1);
        lemma_place_step(lines, n - 1);
    }
}

// Lines in executable code.

fn put_line(lines: &mut Vec<Vec<char>>, i: usize, line: Vec<char>)
    requires
        i < old(lines)@.len(),
    ensures
        views(final(lines)@) == views(old(lines)@).update(i as int, line@),
        final(lines)@.len() == old(lines)@.len(),
{
    let ghost before = lines@;
    lines.set(i, line);
    assert(views(lines@) =~= views(before).update(i as int, line@));
}

fn push_line(lines: &mut Vec<Vec<char>>, line: Vec<char>)
    ensures
        views(final(lines)@) == views(old(lines)@).push(line@),
{
    let ghost before = lines@;
    lines.push(line);
    assert(views(lines@) =~= views(before).push(line@));
}

fn drop_line(lines: &mut Vec<Vec<char>>, i: usize)
    requires
        i < old(lines)@.len(),
    ensures
        views(final(lines)@) == views(old(lines)@).remove(i as int),
{
    let ghost before = lines@;
    lines.remove(i);
    assert(views(lines@) =~= views(before).remove(i as int));
}

/// Puts `items` between the first `at` lines and the rest.
fn splice_lines(lines: &mut Vec<Vec<char>>, at: usize, items: Vec<Vec<char>>)
    requires
        at <= old(lines)@.len(),
    ensures
        views(final(lines)@) == spliced(views(old(lines)@), at as int, views(items@)),
{
    let ghost before = lines@;
    let mut items = items;
    let ghost added = items@;
    let mut tail = lines.split_off(at);
    lines.append(&mut items);
    lines.append(&mut tail);
    assert(views(lines@) =~= spliced(views(before), at as int, views(added)));
}

fn text_line(s: &str) -> (r: Vec<char>)
    ensures
        r@ == s@,
{
    chars_of(s)
}

/// The line that opens a block of `pkg`.
pub fn bare_open_line(pkg: &[char]) -> (r: Vec<char>)
    ensures
        r@ == bare_open(pkg@),
{
    let mut r: Vec<char> = Vec::new();
    add_chars(&mut r, pkg);
    if has_char(pkg, '=') {
        add_str(&mut r, "= {");
    } else {
        add_str(&mut r, " {");
    }
    assert(r@ =~= bare_open(pkg@));
    r
}

/// `fresh` with the comment of `old` behind it.
pub fn with_comment(fresh: &[char], old: &[char]) -> (r: Vec<char>)
    ensures
        r@ == with_comment_of(fresh@, old@),
{
    let mut r: Vec<char> = Vec::new();
    add_chars(&mut r, fresh);
    assert(r@ =~= fresh@);
    match comment_at(old) {
        Some(at) => {
            let c = slice_subrange(old, at, old.len());
            assert(c@ =~= old@.skip(cut(old@)));
            add_chars(&mut r, c);
        },
        None => {
            assert(fresh@ + old@.skip(cut(old@)) =~= fresh@);
        },
    }
    r
}

fn make_member(thread: &[char], cpus: &[char]) -> (r: Vec<char>)
    ensures
        r@ == member_line(thread@, cpus@),
{
    let mut r = chars_of("\t");
    add_chars(&mut r, thread);
    add_str(&mut r, "=");
    add_chars(&mut r, cpus);
    r
}

fn make_rule(pkg: &[char], cpus: &[char]) -> (r: Vec<char>)
    ensures
        r@ == rule_line(pkg@, cpus@),
{
    let mut r: Vec<char> = Vec::new();
    add_chars(&mut r, pkg);
    assert(r@ =~= pkg@);
    add_str(&mut r, "=");
    add_chars(&mut r, cpus);
    r
}

fn make_open_rule(pkg: &[char], cpus: &[char]) -> (r: Vec<char>)
    ensures
        r@ == open_rule_line(pkg@, cpus@),
{
    let mut r = make_rule(pkg, cpus);
    add_str(&mut r, " {");
    r
}

/// The line with the value behind its last `=` replaced.
pub fn spec_swap(raw: &[char], cpus: &[char]) -> (r: Vec<char>)
    ensures
        r@ == swapped(raw@, cpus@),
{
    let c: usize = match comment_at(raw) {
        Some(n) => n,
        None => raw.len(),
    };
    let head = slice_subrange(raw, 0, c);
    assert(head@ =~= raw@.take(cut(raw@)));
    let eq: usize = match rfind_char(head, '=') {
        Some(n) => n,
        None => {
            let r = piece(raw, 0, raw.len());
            assert(r@ =~= raw@);
            return r;
        },
    };
    let hl: usize = head.len();
    let rhs = slice_subrange(head, eq + 1, hl);
    assert(rhs@ =~= head@.skip(eq + 1));
    let val = trimmed_start(rhs);
    proof {
        lemma_trim_start_len(rhs@);
    }
    let lead: usize = rhs.len() - val.len();
    let mut n: usize = 0;
    assert(val@.skip(0) =~= val@);
    while n < val.len() && !(char_is_space(val[n]) || val[n] == '{' || val[n] == '}')
        invariant
            n <= val@.len(),
            value_len(val@) == n + value_len(val@.skip(n as int)),
        decreases val@.len() - n,
    {
        assert(val@.skip(n as int).drop_first() =~= val@.skip(n + 1));
        n += 1;
    }
    let after = slice_subrange(val, n, val.len());
    assert(after@ =~= val@.skip(value_len(val@)));
    let mut r: Vec<char> = piece(raw, 0, eq + 1 + lead);
    assert(r@ =~= raw@.take(eq + 1 + lead));
    add_chars(&mut r, cpus);
    let ghost base = r@;
    let mut i: usize = 0;
    assert(after@.take(0) =~= seq![]);
    assert(r@ =~= base + stops_of(after@.take(0)));
    while i < after.len()
        invariant
            i <= after@.len(),
            r@ == base + stops_of(after@.take(i as int)),
        decreases after@.len() - i,
    {
        proof {
            assert(after@.take(i + 1).drop_last() =~= after@.take(i as int));
            assert(after@.take(i + 1).last() == after@[i as int]);
        }
        let ch = after[i];
        if char_is_space(ch) || ch == '{' || ch == '}' {
            let ghost sofar = stops_of(after@.take(i as int));
            r.push(ch);
            assert(base + sofar.push(ch) =~= r@);
        }
        i += 1;
    }
    assert(after@.take(i as int) =~= after@);
    let rest = slice_subrange(raw, c, raw.len());
    assert(rest@ =~= raw@.skip(cut(raw@)));
    add_chars(&mut r, rest);
    r
}

/// Removes one thread rule.
pub fn line_remove(lines: &mut Vec<Vec<char>>, pkg: &[char], loc: &ThreadLoc)
    requires
        loc.idx < old(lines)@.len(),
    ensures
        views(final(lines)@) == loc_removed(views(old(lines)@), pkg@, loc@),
{
    if loc.open {
        let fresh = bare_open_line(pkg);
        let line = with_comment(fresh.as_slice(), lines[loc.idx].as_slice());
        put_line(lines, loc.idx, line);
    } else if loc.closed {
        let fresh = text_line("}");
        let line = with_comment(fresh.as_slice(), lines[loc.idx].as_slice());
        put_line(lines, loc.idx, line);
    } else {
        drop_line(lines, loc.idx);
    }
}

/// Removes thread rules, the last one first.
fn remove_locs(lines: &mut Vec<Vec<char>>, pkg: &[char], locs: &Vec<ThreadLoc>, count: usize)
    requires
        count <= locs@.len(),
        ascending(loc_views(locs@).take(count as int)),
        within(loc_views(locs@).take(count as int), old(lines)@.len() as int),
    ensures
        views(final(lines)@) == locs_removed(
            views(old(lines)@),
            pkg@,
            loc_views(locs@).take(count as int),
        ),
        final(lines)@.len() <= old(lines)@.len(),
{
    let ghost all = loc_views(locs@).take(count as int);
    let ghost start = views(lines@);
    let ghost len = lines@.len();
    let mut k: usize = count;
    assert(all.take(k as int) =~= all);
    while k > 0
        invariant
            k <= count <= locs@.len(),
            all == loc_views(locs@).take(count as int),
            ascending(all),
            locs_removed(views(lines@), pkg@, all.take(k as int)) == locs_removed(start, pkg@, all),
            within(all.take(k as int), lines@.len() as int),
            lines@.len() <= len,
        decreases k,
    {
        k -= 1;
        let ghost part = all.take(k + 1);
        proof {
            assert(part.last() == locs@[k as int]@);
            assert(part[k as int] == part.last());
            assert(part.drop_last() =~= all.take(k as int));
            assert forall|j: int| 0 <= j < k implies 0 <= (#[trigger] all.take(k as int)[j]).idx
                < locs@[k as int].idx by {
                assert(all[j] == part[j]);
                assert(all[k as int] == part[k as int]);
            }
        }
        line_remove(lines, pkg, &locs[k]);
        assert(views(lines@).len() == lines@.len());
    }
    assert(all.take(0) =~= seq![]);
}

fn copy_loc(loc: &ThreadLoc) -> (r: ThreadLoc)
    ensures
        r@ == loc@,
{
    ThreadLoc {
        name: copied(&loc.name),
        idx: loc.idx,
        single: loc.single,
        closed: loc.closed,
        open: loc.open,
    }
}

impl Target {
    /// The rules written `pkg{thread}=cpus`.
    pub fn singles(&self) -> (r: Vec<ThreadLoc>)
        ensures
            loc_views(r@) == singles(self@.threads),
    {
        let mut r: Vec<ThreadLoc> = Vec::new();
        let mut i: usize = 0;
        let ghost all = self@.threads;
        assert(all.take(0) =~= seq![]);
        assert(loc_views(r@) =~= singles(all.take(0)));
        while i < self.threads.len()
            invariant
                i <= self.threads@.len(),
                all == loc_views(self.threads@),
                loc_views(r@) == singles(all.take(i as int)),
            decreases self.threads@.len() - i,
        {
            proof {
                assert(all.take(i + 1).drop_last() =~= all.take(i as int));
                assert(all.take(i + 1).last() == self.threads@[i as int]@);
            }
            if self.threads[i].single {
                let loc = copy_loc(&self.threads[i]);
                proof {
                    lemma_push_loc(r@, loc);
                }
                r.push(loc);
            }
            i += 1;
        }
        assert(all.take(i as int) =~= all);
        r
    }

    /// The rules of one thread.
    pub fn of_thread(&self, thread: &[char]) -> (r: Vec<ThreadLoc>)
        ensures
            loc_views(r@) == of_thread(self@.threads, thread@),
    {
        let mut r: Vec<ThreadLoc> = Vec::new();
        let mut i: usize = 0;
        let ghost all = self@.threads;
        assert(all.take(0) =~= seq![]);
        assert(loc_views(r@) =~= of_thread(all.take(0), thread@));
        while i < self.threads.len()
            invariant
                i <= self.threads@.len(),
                all == loc_views(self.threads@),
                loc_views(r@) == of_thread(all.take(i as int), thread@),
            decreases self.threads@.len() - i,
        {
            proof {
                assert(all.take(i + 1).drop_last() =~= all.take(i as int));
                assert(all.take(i + 1).last() == self.threads@[i as int]@);
            }
            if same(self.threads[i].name.as_slice(), thread) {
                let loc = copy_loc(&self.threads[i]);
                proof {
                    lemma_push_loc(r@, loc);
                }
                r.push(loc);
            }
            i += 1;
        }
        assert(all.take(i as int) =~= all);
        r
    }

    /// Whether a line names the package.
    pub fn any_line(&self) -> (r: bool)
        ensures
            r == self@.any_line(),
    {
        if self.pkg_line.is_some() {
            return true;
        }
        let s = self.singles();
        assert(loc_views(s@).len() == s@.len());
        s.len() > 0
    }
}

fn has_open(locs: &Vec<ThreadLoc>) -> (r: bool)
    ensures
        r == any_open(loc_views(locs@)),
{
    let mut i: usize = 0;
    while i < locs.len()
        invariant
            i <= locs@.len(),
            forall|j: int| 0 <= j < i ==> !(#[trigger] loc_views(locs@)[j]).open,
        decreases locs@.len() - i,
    {
        if locs[i].open {
            assert(loc_views(locs@)[i as int].open);
            return true;
        }
        i += 1;
    }
    false
}

/// The line `pkg{thread}=cpus` rewritten for the inside of a block.
fn move_line(raw: &Vec<char>) -> (r: Vec<char>)
    ensures
        r@ == moved(raw@),
{
    let p = trimmed(raw.as_slice());
    let (core, _) = strip_open(p);
    match split_single_line(core) {
        Some((_, thread, cpus)) => {
            let fresh = make_member(thread.as_slice(), cpus.as_slice());
            with_comment(fresh.as_slice(), p)
        },
        None => copied(raw),
    }
}

fn move_lines(lines: &Vec<Vec<char>>, locs: &Vec<ThreadLoc>) -> (r: Vec<Vec<char>>)
    requires
        within(loc_views(locs@), lines@.len() as int),
    ensures
        views(r@) == moved_all(views(lines@), loc_views(locs@)),
{
    let mut r: Vec<Vec<char>> = Vec::new();
    let mut i: usize = 0;
    while i < locs.len()
        invariant
            i <= locs@.len(),
            within(loc_views(locs@), lines@.len() as int),
            r@.len() == i,
            forall|j: int|
                0 <= j < i ==> (#[trigger] r@[j])@ == moved(views(lines@)[loc_views(locs@)[j].idx]),
        decreases locs@.len() - i,
    {
        assert(loc_views(locs@)[i as int] == locs@[i as int]@);
        r.push(move_line(&lines[locs[i].idx]));
        i += 1;
    }
    assert(views(r@) =~= moved_all(views(lines@), loc_views(locs@)));
    r
}

/// Puts a block behind the package rule on line `i`.
fn add_block(lines: &mut Vec<Vec<char>>, i: usize, items: Vec<Vec<char>>)
    requires
        i < old(lines)@.len(),
    ensures
        views(final(lines)@) == block_added(views(old(lines)@), i as int, views(items@)),
{
    let t = trimmed_end(lines[i].as_slice());
    let mut head = piece(t, 0, t.len());
    assert(head@ =~= t@);
    add_str(&mut head, " {");
    put_line(lines, i, head);
    let mut items = items;
    push_line(&mut items, text_line("}"));
    let n: usize = lines.len();
    assert(i < n);
    splice_lines(lines, i + 1, items);
}

/// Moves all rules `pkg{thread}=cpus` of `pkg` into one block.
pub fn normalize_singles(lines: &mut Vec<Vec<char>>, pkg: &[char])
    ensures
        views(final(lines)@) == normalized(views(old(lines)@), pkg@),
{
    let ghost start = views(lines@);
    let t = target_scan(lines, pkg);
    let locs = t.singles();
    proof {
        lemma_locs(start, pkg@, start.len() as int);
        lemma_singles(t@.threads, start.len() as int);
        assert(loc_views(locs@).len() == locs@.len());
    }
    if locs.len() == 0 {
        return;
    }
    if t.block_close.is_none() {
        let movable = match t.pkg_line {
            None => true,
            Some(PkgLine::Standalone(_)) => true,
            _ => false,
        };
        if has_open(&locs) || !movable {
            return;
        }
    }
    let items = move_lines(lines, &locs);
    let first: usize = locs[0].idx;
    assert(loc_views(locs@)[0] == locs@[0]@);
    assert(loc_views(locs@).take(locs@.len() as int) =~= loc_views(locs@));
    remove_locs(lines, pkg, &locs, locs.len());
    let ghost rest = views(lines@);
    let u = target_scan(lines, pkg);
    proof {
        lemma_pkg_upto(rest, pkg@, rest.len() as int);
        lemma_block(rest, pkg@, rest.len() as int);
    }
    if let Some(close) = u.block_close {
        splice_lines(lines, close, items);
    } else if let Some(PkgLine::Standalone(i)) = u.pkg_line {
        add_block(lines, i, items);
    } else {
        let mut chunk: Vec<Vec<char>> = Vec::new();
        push_line(&mut chunk, bare_open_line(pkg));
        let mut items = items;
        let ghost inner = views(items@);
        push_line(&mut items, text_line("}"));
        let ghost head = chunk@;
        let ghost body = items@;
        chunk.append(&mut items);
        assert(views(chunk@) =~= seq![bare_open(pkg@)] + inner.push("}"@)) by {
            assert(views(head) =~= seq![bare_open(pkg@)]);
            assert(views(chunk@) =~= views(head) + views(body));
        }
        let at: usize = if first <= lines.len() {
            first
        } else {
            lines.len()
        };
        splice_lines(lines, at, chunk);
    }
}

/// The lines after the rule of `pkg` (of its thread `thread`, unless that is empty) was set to
/// `cpus`.
pub open spec fn upserted(
    lines: Seq<Seq<char>>,
    pkg: Seq<char>,
    thread: Seq<char>,
    cpus: Seq<char>,
) -> Result<Seq<Seq<char>>, RuleEdit> {
    let now = normalized(lines, pkg);
    let t = found(now, pkg);
    if thread.len() == 0 {
        match t.pkg_line {
            Some(PkgAt::Standalone(i)) => Ok(now.update(i, swapped(now[i], cpus))),
            Some(PkgAt::OpenInline(i)) => Ok(now.update(i, swapped(now[i], cpus))),
            Some(PkgAt::BareOpen(i)) => Ok(
                now.update(i, with_comment_of(open_rule_line(pkg, cpus), now[i])),
            ),
            Some(PkgAt::BarePending(i)) => {
                let named = now.update(i, with_comment_of(open_rule_line(pkg, cpus), now[i]));
                match t.block_open {
                    Some(open) => if outer(trim(named[open])) == (Outer::BareOpen { pkg: seq![] }) {
                        Ok(named.remove(open))
                    } else {
                        Ok(named)
                    },
                    None => Ok(named),
                }
            },
            None => if t.unterminated {
                Err(RuleEdit::Malformed)
            } else {
                Ok(now.push(rule_line(pkg, cpus)))
            },
        }
    } else {
        let locs = of_thread(t.threads, thread);
        if locs.len() > 0 {
            let idx = locs.last().idx;
            Ok(locs_removed(now.update(idx, swapped(now[idx], cpus)), pkg, locs.drop_last()))
        } else {
            match t.block_close {
                Some(close) => Ok(spliced(now, close, seq![member_line(thread, cpus)])),
                None => match t.pkg_line {
                    Some(PkgAt::Standalone(i)) => Ok(
                        block_added(now, i, seq![member_line(thread, cpus)]),
                    ),
                    _ => if t.unterminated {
                        Err(RuleEdit::Malformed)
                    } else {
                        Ok(now + seq![bare_open(pkg), member_line(thread, cpus), "}"@])
                    },
                },
            }
        }
    }
}

/// The lines after the rule of `pkg` (of its thread `thread`, unless that is empty) was removed.
pub open spec fn deleted(
    lines: Seq<Seq<char>>,
    pkg: Seq<char>,
    thread: Seq<char>,
) -> Result<Seq<Seq<char>>, RuleEdit> {
    let now = normalized(lines, pkg);
    let t = found(now, pkg);
    if thread.len() == 0 {
        match t.pkg_line {
            Some(PkgAt::Standalone(i)) => Ok(now.remove(i)),
            Some(PkgAt::OpenInline(i)) => Ok(now.update(i, bare_open(pkg))),
            _ => Err(RuleEdit::NotFound),
        }
    } else {
        let locs = of_thread(t.threads, thread);
        if locs.len() > 0 {
            Ok(locs_removed(now, pkg, locs))
        } else {
            Err(RuleEdit::NotFound)
        }
    }
}

/// What an edit hands back: the new text of the file, or why there is none.
pub open spec fn edit_result(
    r: Result<String, RuleEdit>,
    lines: Result<Seq<Seq<char>>, RuleEdit>,
) -> bool {
    match lines {
        Ok(l) => r matches Ok(text) && text@ == text_of(l),
        Err(e) => r matches Err(f) && f == e,
    }
}

/// The lines of a text.
fn read_lines(text: &str) -> (r: Vec<Vec<char>>)
    ensures
        views(r@) == lines_of(text@),
{
    let c = chars_of(text);
    split_lines(c.as_slice())
}

/// Sets the CPUs of a package, or of one of its threads, in the rule file `text`.
pub fn rule_upsert(text: &str, pkg: &str, thread: &str, cpus: &str) -> (r: Result<
    String,
    RuleEdit,
>)
    ensures
        edit_result(r, upserted(lines_of(text@), pkg@, thread@, cpus@)),
{
    let pkg_chars = chars_of(pkg);
    let pkg = pkg_chars.as_slice();
    let thread_chars = chars_of(thread);
    let cpus_chars = chars_of(cpus);
    let cpus = cpus_chars.as_slice();
    let mut lines = read_lines(text);
    normalize_singles(&mut lines, pkg);
    let t = target_scan(&lines, pkg);
    let ghost now = views(lines@);
    proof {
        lemma_pkg_upto(now, pkg@, now.len() as int);
        lemma_block(now, pkg@, now.len() as int);
        lemma_locs(now, pkg@, now.len() as int);
        lemma_of_thread(t@.threads, thread_chars@, now.len() as int);
    }
    if thread_chars.len() == 0 {
        match t.pkg_line {
            Some(PkgLine::Standalone(i)) => {
                let line = spec_swap(lines[i].as_slice(), cpus);
                put_line(&mut lines, i, line);
            },
            Some(PkgLine::OpenInline(i)) => {
                let line = spec_swap(lines[i].as_slice(), cpus);
                put_line(&mut lines, i, line);
            },
            Some(PkgLine::BareOpen(i)) => {
                let fresh = make_open_rule(pkg, cpus);
                let line = with_comment(fresh.as_slice(), lines[i].as_slice());
                put_line(&mut lines, i, line);
            },
            Some(PkgLine::BarePending(i)) => {
                let fresh = make_open_rule(pkg, cpus);
                let line = with_comment(fresh.as_slice(), lines[i].as_slice());
                put_line(&mut lines, i, line);
                if let Some(open) = t.block_open {
                    let lone = match parse_outer(trimmed(lines[open].as_slice())) {
                        OuterLine::BareOpen { pkg: owner } => {
                            assert(owner@.len() == 0 ==> owner@ =~= seq![]);
                            owner.len() == 0
                        },
                        _ => false,
                    };
                    if lone {
                        drop_line(&mut lines, open);
                    }
                }
            },
            None => {
                if t.unterminated {
                    return Err(RuleEdit::Malformed);
                }
                push_line(&mut lines, make_rule(pkg, cpus));
            },
        }
        return Ok(join_lines(&lines));
    }
    let locs = t.of_thread(thread_chars.as_slice());
    assert(loc_views(locs@).len() == locs@.len());
    if locs.len() > 0 {
        let last: usize = locs.len() - 1;
        proof {
            let all = loc_views(locs@);
            assert(all.last() == locs@[last as int]@);
            assert(all[last as int] == all.last());
            assert(all.take(last as int) =~= all.drop_last());
            assert(ascending(all.drop_last())) by {
                assert forall|j: int, k: int| 0 <= j < k < all.drop_last().len() implies (
                #[trigger] all.drop_last()[j]).idx < (#[trigger] all.drop_last()[k]).idx by {
                    assert(all[j].idx < all[k].idx);
                }
            }
            assert(within(all.drop_last(), now.len() as int)) by {
                assert forall|k: int| 0 <= k < all.drop_last().len() implies 0 <= (
                #[trigger] all.drop_last()[k]).idx < now.len() by {
                    assert(all[k].idx < now.len());
                }
            }
        }
        let idx: usize = locs[last].idx;
        let line = spec_swap(lines[idx].as_slice(), cpus);
        put_line(&mut lines, idx, line);
        remove_locs(&mut lines, pkg, &locs, last);
    } else if let Some(close) = t.block_close {
        let mut items: Vec<Vec<char>> = Vec::new();
        push_line(&mut items, make_member(thread_chars.as_slice(), cpus));
        assert(views(items@) =~= seq![member_line(thread_chars@, cpus@)]);
        splice_lines(&mut lines, close, items);
    } else if let Some(PkgLine::Standalone(i)) = t.pkg_line {
        let mut items: Vec<Vec<char>> = Vec::new();
        push_line(&mut items, make_member(thread_chars.as_slice(), cpus));
        assert(views(items@) =~= seq![member_line(thread_chars@, cpus@)]);
        add_block(&mut lines, i, items);
    } else if t.unterminated {
        return Err(RuleEdit::Malformed);
    } else {
        push_line(&mut lines, bare_open_line(pkg));
        push_line(&mut lines, make_member(thread_chars.as_slice(), cpus));
        push_line(&mut lines, text_line("}"));
        assert(views(lines@) =~= now + seq![
            bare_open(pkg@),
            member_line(thread_chars@, cpus@),
            "}"@,
        ]);
    }
    Ok(join_lines(&lines))
}

/// Removes the rule of a package, or of one of its threads.
pub fn rule_delete(text: &str, pkg: &str, thread: &str) -> (r: Result<String, RuleEdit>)
    ensures
        edit_result(r, deleted(lines_of(text@), pkg@, thread@)),
{
    let pkg_chars = chars_of(pkg);
    let pkg = pkg_chars.as_slice();
    let thread_chars = chars_of(thread);
    let mut lines = read_lines(text);
    normalize_singles(&mut lines, pkg);
    let t = target_scan(&lines, pkg);
    let ghost now = views(lines@);
    proof {
        lemma_pkg_upto(now, pkg@, now.len() as int);
        lemma_locs(now, pkg@, now.len() as int);
        lemma_of_thread(t@.threads, thread_chars@, now.len() as int);
    }
    if thread_chars.len() == 0 {
        match t.pkg_line {
            Some(PkgLine::Standalone(i)) => {
                drop_line(&mut lines, i);
            },
            Some(PkgLine::OpenInline(i)) => {
                put_line(&mut lines, i, bare_open_line(pkg));
            },
            _ => {
                return Err(RuleEdit::NotFound);
            },
        }
    } else {
        let locs = t.of_thread(thread_chars.as_slice());
        assert(loc_views(locs@).len() == locs@.len());
        if locs.len() == 0 {
            return Err(RuleEdit::NotFound);
        }
        assert(loc_views(locs@).take(locs@.len() as int) =~= loc_views(locs@));
        remove_locs(&mut lines, pkg, &locs, locs.len());
    }
    Ok(join_lines(&lines))
}

/// Whether line `i` is removed with everything that belongs to the package: its own line, its
/// first block, and its rules `pkg{thread}=cpus`.
pub open spec fn doomed(t: Found, i: int) -> bool {
    ||| (t.pkg_line matches Some(at) && pkg_idx(at) == i)
    ||| (t.block_open matches Some(open) && open <= i <= block_end(t, open))
    ||| (exists|k: int|
        0 <= k < singles(t.threads).len() && (#[trigger] singles(t.threads)[k]).idx == i)
}

/// The last line of the first block; of a block without end, the line of its last rule.
pub open spec fn block_end(t: Found, open: int) -> int {
    match t.block_close {
        Some(close) => close,
        None => last_inner(t.threads, open),
    }
}

/// The greatest line of a rule inside a block, or `open` without one.
pub open spec fn last_inner(locs: Seq<Loc>, open: int) -> int
    decreases locs.len(),
{
    if locs.len() == 0 {
        open
    } else if !locs.last().single {
        locs.last().idx
    } else {
        last_inner(locs.drop_last(), open)
    }
}

/// The lines before `n` that stay.
pub open spec fn survivors(lines: Seq<Seq<char>>, t: Found, n: int) -> Seq<Seq<char>>
    decreases n,
{
    if n <= 0 {
        seq![]
    } else if doomed(t, n - 1) {
        survivors(lines, t, n - 1)
    } else {
        survivors(lines, t, n - 1).push(lines[n - 1])
    }
}

pub proof fn lemma_survivors(lines: Seq<Seq<char>>, t: Found, n: int)
    requires
        0 <= n <= lines.len(),
    ensures
        survivors(lines, t, n).len() <= n,
        (exists|i: int| 0 <= i < n && doomed(t, i)) ==> survivors(lines, t, n).len() < n,
    decreases n,
{
    if n > 0 {
        lemma_survivors(lines, t, n - 1);
    }
}

pub proof fn lemma_doomed(lines: Seq<Seq<char>>, pkg: Seq<char>)
    requires
        found(lines, pkg).any_line(),
    ensures
        survivors(lines, found(lines, pkg), lines.len() as int).len() < lines.len(),
{
    let t = found(lines, pkg);
    let n = lines.len() as int;
    lemma_survivors(lines, t, n);
    lemma_pkg_upto(lines, pkg, n);
    lemma_locs(lines, pkg, n);
    lemma_singles(t.threads, n);
    match t.pkg_line {
        Some(at) => {
            assert(doomed(t, pkg_idx(at)));
        },
        None => {
            let loc = singles(t.threads)[0];
            assert(doomed(t, loc.idx));
        },
    }
}

/// The lines without anything that belongs to `pkg`.
pub open spec fn purged(lines: Seq<Seq<char>>, pkg: Seq<char>) -> Seq<Seq<char>>
    decreases lines.len(),
    via purged_decreases
{
    let t = found(lines, pkg);
    if t.any_line() {
        purged(survivors(lines, t, lines.len() as int), pkg)
    } else {
        lines
    }
}

#[via_fn]
proof fn purged_decreases(lines: Seq<Seq<char>>, pkg: Seq<char>) {
    if found(lines, pkg).any_line() {
        lemma_doomed(lines, pkg);
    }
}

/// The lines after everything that belongs to `pkg` was removed.
pub open spec fn pkg_deleted(lines: Seq<Seq<char>>, pkg: Seq<char>) -> Result<
    Seq<Seq<char>>,
    RuleEdit,
> {
    let now = normalized(lines, pkg);
    if found(now, pkg).any_line() {
        Ok(purged(now, pkg))
    } else {
        Err(RuleEdit::NotFound)
    }
}

fn end_of_block(t: &Target, open: usize) -> (r: usize)
    ensures
        r == block_end(t@, open as int),
{
    if let Some(close) = t.block_close {
        return close;
    }
    let ghost all = t@.threads;
    let mut k: usize = t.threads.len();
    assert(all.take(k as int) =~= all);
    while k > 0
        invariant
            k <= t.threads@.len(),
            all == loc_views(t.threads@),
            t.block_close is None,
            last_inner(all, open as int) == last_inner(all.take(k as int), open as int),
        decreases k,
    {
        proof {
            assert(all.take(k as int).last() == t.threads@[k - 1]@);
            assert(all.take(k as int).drop_last() =~= all.take(k - 1));
        }
        if !t.threads[k - 1].single {
            return t.threads[k - 1].idx;
        }
        k -= 1;
    }
    open
}

fn holds_idx(locs: &Vec<ThreadLoc>, i: usize) -> (r: bool)
    ensures
        r == (exists|k: int|
            0 <= k < loc_views(locs@).len() && (#[trigger] loc_views(locs@)[k]).idx == i as int),
{
    let mut k: usize = 0;
    while k < locs.len()
        invariant
            k <= locs@.len(),
            forall|j: int| 0 <= j < k ==> (#[trigger] loc_views(locs@)[j]).idx != i as int,
        decreases locs@.len() - k,
    {
        if locs[k].idx == i {
            assert(loc_views(locs@)[k as int].idx == i);
            return true;
        }
        k += 1;
    }
    false
}

/// Removes everything that belongs to a package.
pub fn rule_delete_pkg(text: &str, pkg: &str) -> (r: Result<String, RuleEdit>)
    ensures
        edit_result(r, pkg_deleted(lines_of(text@), pkg@)),
{
    let pkg_chars = chars_of(pkg);
    let pkg = pkg_chars.as_slice();
    let mut lines = read_lines(text);
    normalize_singles(&mut lines, pkg);
    let ghost start = views(lines@);
    let mut removed = false;
    loop
        invariant
            purged(views(lines@), pkg@) == purged(start, pkg@),
            !removed ==> views(lines@) == start,
            removed ==> found(start, pkg@).any_line(),
        ensures
            purged(start, pkg@) == views(lines@),
            removed == found(start, pkg@).any_line(),
        decreases lines@.len(),
    {
        let ghost now = views(lines@);
        let t = target_scan(&lines, pkg);
        if !t.any_line() {
            break;
        }
        let locs = t.singles();
        let mut kept: Vec<Vec<char>> = Vec::new();
        let mut i: usize = 0;
        assert(views(kept@) =~= survivors(now, t@, 0));
        while i < lines.len()
            invariant
                i <= lines@.len(),
                now == views(lines@),
                loc_views(locs@) == singles(t@.threads),
                views(kept@) == survivors(now, t@, i as int),
            decreases lines@.len() - i,
        {
            let own = match t.pkg_line {
                Some(PkgLine::Standalone(k)) => k == i,
                Some(PkgLine::OpenInline(k)) => k == i,
                Some(PkgLine::BareOpen(k)) => k == i,
                Some(PkgLine::BarePending(k)) => k == i,
                None => false,
            };
            let inside = match t.block_open {
                Some(open) => open <= i && i <= end_of_block(&t, open),
                None => false,
            };
            let single = holds_idx(&locs, i);
            assert(doomed(t@, i as int) == (own || inside || single));
            if !(own || inside || single) {
                let line = copied(&lines[i]);
                push_line(&mut kept, line);
            }
            i += 1;
        }
        proof {
            lemma_doomed(now, pkg@);
            assert(views(kept@).len() == kept@.len());
        }
        lines = kept;
        removed = true;
    }
    if !removed {
        return Err(RuleEdit::NotFound);
    }
    Ok(join_lines(&lines))
}

// Renaming.

/// Whether a line, read outside a block, is about `pkg`.
pub open spec fn owned(raw: Seq<char>, pkg: Seq<char>) -> bool {
    let p = trim(raw);
    !blank(p) && match outer(p) {
        Outer::Single { pkg: owner, .. } => owner == pkg,
        Outer::Rule { pkg: owner, .. } => owner == pkg,
        Outer::BareOpen { pkg: owner } => owner == pkg,
        Outer::Pending { pkg: owner } => owner == pkg,
        Outer::Junk => false,
    }
}

/// What follows a new name: `rest`, or a form of it with `=` where the name holds one and would
/// be read as a rule.
pub open spec fn tail_for(name: Seq<char>, rest: Seq<char>) -> Seq<char> {
    if name.contains('=') && (trim(rest) == ""@ || trim(rest) == "="@) {
        "="@
    } else if name.contains('=') && trim(rest) == "{"@ {
        "= {"@
    } else {
        rest
    }
}

/// A line that begins with `old`, with `new` in its place.
pub open spec fn line_renamed(raw: Seq<char>, old_name: Seq<char>, name: Seq<char>) -> Seq<char> {
    let p = trim(raw);
    if begins(p, old_name) {
        name + tail_for(name, p.skip(old_name.len() as int))
    } else {
        raw
    }
}

/// Whether line `i` names the package: its own line, or a rule `pkg{thread}=cpus`.
pub open spec fn names_pkg(t: Found, i: int) -> bool {
    ||| (t.pkg_line matches Some(at) && pkg_idx(at) == i)
    ||| (exists|k: int|
        0 <= k < singles(t.threads).len() && (#[trigger] singles(t.threads)[k]).idx == i)
}

/// Every line that names the package, renamed once.
pub open spec fn rename_round(
    lines: Seq<Seq<char>>,
    old_name: Seq<char>,
    name: Seq<char>,
) -> Seq<Seq<char>> {
    Seq::new(
        lines.len(),
        |i: int|
            if names_pkg(found(lines, old_name), i) {
                line_renamed(lines[i], old_name, name)
            } else {
                lines[i]
            },
    )
}

/// The lines renamed round after round, until no line names the old package; nothing if that takes
/// more than `k` rounds.
pub open spec fn rename_rounds(
    lines: Seq<Seq<char>>,
    old_name: Seq<char>,
    name: Seq<char>,
    k: nat,
) -> Option<Seq<Seq<char>>>
    decreases k,
{
    if !found(lines, old_name).any_line() {
        Some(lines)
    } else if k == 0 {
        None
    } else {
        rename_rounds(rename_round(lines, old_name, name), old_name, name, (k - 1) as nat)
    }
}

/// Whether renaming round after round comes to an end.
pub open spec fn rename_stops(
    lines: Seq<Seq<char>>,
    old_name: Seq<char>,
    name: Seq<char>,
) -> bool {
    exists|k: nat| (#[trigger] rename_rounds(lines, old_name, name, k)) is Some
}

/// The lines when renaming has come to an end.
pub open spec fn rename_all(
    lines: Seq<Seq<char>>,
    old_name: Seq<char>,
    name: Seq<char>,
) -> Seq<Seq<char>> {
    let k = choose|k: nat| (#[trigger] rename_rounds(lines, old_name, name, k)) is Some;
    rename_rounds(lines, old_name, name, k)->0
}

/// More rounds than needed change nothing.
pub proof fn lemma_more_rounds(
    lines: Seq<Seq<char>>,
    old_name: Seq<char>,
    name: Seq<char>,
    j: nat,
    k: nat,
)
    requires
        rename_rounds(lines, old_name, name, j) is Some,
        rename_rounds(lines, old_name, name, k) is Some,
    ensures
        rename_rounds(lines, old_name, name, j) == rename_rounds(lines, old_name, name, k),
    decreases j,
{
    if found(lines, old_name).any_line() {
        lemma_more_rounds(
            rename_round(lines, old_name, name),
            old_name,
            name,
            (j - 1) as nat,
            (k - 1) as nat,
        );
    }
}

/// A line that names the package is about it, read outside a block.
pub proof fn lemma_names_pkg(lines: Seq<Seq<char>>, pkg: Seq<char>, i: int)
    requires
        names_pkg(found(lines, pkg), i),
    ensures
        0 <= i < lines.len(),
        owned(lines[i], pkg),
{
    let t = found(lines, pkg);
    let n = lines.len() as int;
    lemma_pkg_upto(lines, pkg, n);
    lemma_locs(lines, pkg, n);
    lemma_singles(t.threads, n);
    if t.pkg_line matches Some(at) && pkg_idx(at) == i {
    } else {
        let k = choose|k: int|
            0 <= k < singles(t.threads).len() && (#[trigger] singles(t.threads)[k]).idx == i;
        let loc = singles(t.threads)[k];
        let j = choose|j: int| 0 <= j < t.threads.len() && t.threads[j] == loc;
        assert(loc_in(place_at(lines, i), lines[i], pkg, i) == Some(loc));
    }
}

/// Whether renaming comes to an end: it is refused, or at some time no line names the old package.
pub open spec fn rename_ends(
    lines: Seq<Seq<char>>,
    old_name: Seq<char>,
    name: Seq<char>,
) -> bool {
    let now = normalized(lines, old_name);
    found(now, old_name).any_line() && !found(now, name).any_line() ==> rename_stops(
        now,
        old_name,
        name,
    )
}

/// How many rounds of renaming are waited for: two for every line, and one.
pub open spec fn rename_limit(lines: Seq<Seq<char>>) -> nat {
    2 * lines.len() + 1
}

/// Whether renaming is refused, or ends after as many rounds as are waited for.
pub open spec fn rename_ends_soon(
    lines: Seq<Seq<char>>,
    old_name: Seq<char>,
    name: Seq<char>,
) -> bool {
    let now = normalized(lines, old_name);
    found(now, old_name).any_line() && !found(now, name).any_line() ==> rename_rounds(
        now,
        old_name,
        name,
        rename_limit(now),
    ) is Some
}

/// The lines after the package `old_name` was given the name `name`.
pub open spec fn renamed(
    lines: Seq<Seq<char>>,
    old_name: Seq<char>,
    name: Seq<char>,
) -> Result<Seq<Seq<char>>, RuleEdit> {
    let now = normalized(lines, old_name);
    if !found(now, old_name).any_line() {
        Err(RuleEdit::NotFound)
    } else if found(now, name).any_line() {
        Err(RuleEdit::Conflict)
    } else {
        Ok(rename_all(now, old_name, name))
    }
}

fn rename_line(raw: &[char], old_name: &[char], name: &[char]) -> (r: Vec<char>)
    ensures
        r@ == line_renamed(raw@, old_name@, name@),
{
    let p = trimmed(raw);
    let mut r: Vec<char> = Vec::new();
    if !begins_with(p, old_name) {
        add_chars(&mut r, raw);
        assert(r@ =~= raw@);
        return r;
    }
    let rest = slice_subrange(p, old_name.len(), p.len());
    assert(rest@ =~= p@.skip(old_name@.len() as int));
    add_chars(&mut r, name);
    assert(r@ =~= name@);
    let t = trimmed(rest);
    if has_char(name, '=') && (same_str(t, "") || same_str(t, "=")) {
        add_str(&mut r, "=");
    } else if has_char(name, '=') && same_str(t, "{") {
        add_str(&mut r, "= {");
    } else {
        add_chars(&mut r, rest);
    }
    r
}

/// One round of renaming; nothing if no line names the old package.
fn rename_once(lines: &Vec<Vec<char>>, old_name: &[char], name: &[char]) -> (r: Option<
    Vec<Vec<char>>,
>)
    ensures
        match r {
            Some(l) => found(views(lines@), old_name@).any_line() && views(l@) == rename_round(
                views(lines@),
                old_name@,
                name@,
            ),
            None => !found(views(lines@), old_name@).any_line(),
        },
{
    let ghost now = views(lines@);
    let t = target_scan(lines, old_name);
    if !t.any_line() {
        return None;
    }
    let locs = t.singles();
    let mut next_lines: Vec<Vec<char>> = Vec::new();
    let mut i: usize = 0;
    while i < lines.len()
        invariant
            i <= lines@.len(),
            now == views(lines@),
            t@ == found(now, old_name@),
            loc_views(locs@) == singles(t@.threads),
            next_lines@.len() == i,
            forall|j: int|
                0 <= j < i ==> (#[trigger] next_lines@[j])@ == rename_round(
                    now,
                    old_name@,
                    name@,
                )[j],
        decreases lines@.len() - i,
    {
        assert(now[i as int] == lines@[i as int]@);
        let own = match t.pkg_line {
            Some(PkgLine::Standalone(k)) => k == i,
            Some(PkgLine::OpenInline(k)) => k == i,
            Some(PkgLine::BareOpen(k)) => k == i,
            Some(PkgLine::BarePending(k)) => k == i,
            None => false,
        };
        let single = holds_idx(&locs, i);
        assert(names_pkg(t@, i as int) == (own || single));
        let line = if own || single {
            rename_line(lines[i].as_slice(), old_name, name)
        } else {
            copied(&lines[i])
        };
        next_lines.push(line);
        i += 1;
    }
    assert(views(next_lines@) =~= rename_round(now, old_name@, name@));
    Some(next_lines)
}

/// Tells whether renaming `old_name` to `name` in the rule file ends after as many rounds as are
/// waited for.
pub fn rename_settles(text: &str, old_name: &str, name: &str) -> (r: bool)
    ensures
        r == rename_ends_soon(lines_of(text@), old_name@, name@),
        r ==> rename_ends(lines_of(text@), old_name@, name@),
{
    let old_chars = chars_of(old_name);
    let name_chars = chars_of(name);
    let mut lines = read_lines(text);
    normalize_singles(&mut lines, old_chars.as_slice());
    let ghost start = views(lines@);
    if !target_scan(&lines, old_chars.as_slice()).any_line() || target_scan(
        &lines,
        name_chars.as_slice(),
    ).any_line() {
        return true;
    }
    let mut left: u128 = 2 * (lines.len() as u128) + 1;
    let ghost all = rename_rounds(start, old_chars@, name_chars@, rename_limit(start));
    loop
        invariant
            rename_rounds(views(lines@), old_chars@, name_chars@, left as nat) == all,
            all == rename_rounds(start, old_chars@, name_chars@, rename_limit(start)),
            start == normalized(lines_of(text@), old_name@),
            old_chars@ == old_name@,
            name_chars@ == name@,
            found(start, old_name@).any_line(),
            !found(start, name@).any_line(),
        decreases left,
    {
        match rename_once(&lines, old_chars.as_slice(), name_chars.as_slice()) {
            None => {
                assert(rename_rounds(start, old_name@, name@, rename_limit(start)) is Some);
                return true;
            },
            Some(next_lines) => {
                if left == 0 {
                    return false;
                }
                lines = next_lines;
                left -= 1;
            },
        }
    }
}

/// Gives a package another name.
pub fn rule_rename(text: &str, old_name: &str, name: &str) -> (r: Result<String, RuleEdit>)
    requires
        rename_ends(lines_of(text@), old_name@, name@),
    ensures
        edit_result(r, renamed(lines_of(text@), old_name@, name@)),
{
    let old_chars = chars_of(old_name);
    let name_chars = chars_of(name);
    let mut lines = read_lines(text);
    normalize_singles(&mut lines, old_chars.as_slice());
    let ghost start = views(lines@);
    if !target_scan(&lines, old_chars.as_slice()).any_line() {
        return Err(RuleEdit::NotFound);
    }
    if target_scan(&lines, name_chars.as_slice()).any_line() {
        return Err(RuleEdit::Conflict);
    }
    let ghost mut left: nat = choose|k: nat|
        (#[trigger] rename_rounds(start, old_chars@, name_chars@, k)) is Some;
    loop
        invariant
            rename_rounds(views(lines@), old_chars@, name_chars@, left) == Some(
                rename_all(start, old_chars@, name_chars@),
            ),
        ensures
            views(lines@) == rename_all(start, old_chars@, name_chars@),
        decreases left,
    {
        match rename_once(&lines, old_chars.as_slice(), name_chars.as_slice()) {
            None => {
                break;
            },
            Some(next_lines) => {
                lines = next_lines;
                proof {
                    left = (left - 1) as nat;
                }
            },
        }
    }
    Ok(join_lines(&lines))
}

// Cloning.

/// The rules to clone: the CPUs of the package, and those of its threads in their order.
pub struct Cloned {
    pub package: Option<Seq<char>>,
    pub threads: Seq<(Seq<char>, Seq<char>)>,
}

/// The CPUs of the package rule that a scan found.
pub open spec fn package_spec(lines: Seq<Seq<char>>, t: Found) -> Option<Seq<char>> {
    let idx = match t.pkg_line {
        Some(PkgAt::Standalone(i)) => Some(i),
        Some(PkgAt::OpenInline(i)) => Some(i),
        _ => None,
    };
    match idx {
        Some(i) => match outer(trim(lines[i])) {
            Outer::Rule { cpus, .. } => Some(cpus),
            _ => None,
        },
        None => None,
    }
}

/// The CPUs of a thread rule; none where the location is past the end.
pub open spec fn thread_spec(lines: Seq<Seq<char>>, loc: Loc) -> Option<Seq<char>> {
    let p = trim(lines[loc.idx]);
    if loc.idx >= lines.len() {
        None
    } else if loc.single {
        match single_parts(stripped(p, '{')) {
            Some((_, _, cpus)) => Some(cpus),
            None => None,
        }
    } else {
        match member(p) {
            Some((_, cpus, _)) => Some(cpus),
            None => None,
        }
    }
}

/// The threads with their CPUs.
pub open spec fn thread_specs(lines: Seq<Seq<char>>, locs: Seq<Loc>) -> Seq<
    (Seq<char>, Seq<char>),
>
    decreases locs.len(),
{
    if locs.len() == 0 {
        seq![]
    } else {
        match thread_spec(lines, locs.last()) {
            Some(cpus) => thread_specs(lines, locs.drop_last()).push((locs.last().name, cpus)),
            None => thread_specs(lines, locs.drop_last()),
        }
    }
}

/// The lines that cloning reads: those of both packages normalized.
pub open spec fn clone_base(
    lines: Seq<Seq<char>>,
    source: Seq<char>,
    target: Seq<char>,
) -> Seq<Seq<char>> {
    normalized(normalized(lines, source), target)
}

/// The rules of `source` to clone into `target`, or why they cannot be.
pub open spec fn clone_rules(
    base: Seq<Seq<char>>,
    source: Seq<char>,
    target: Seq<char>,
    copy_package: bool,
    copy_threads: bool,
) -> Result<Cloned, RuleEdit> {
    let s = found(base, source);
    let t = found(base, target);
    let package = package_spec(base, s);
    let threads = thread_specs(base, s.threads);
    if s.unterminated || t.unterminated {
        Err(RuleEdit::Malformed)
    } else if t.any_line() {
        Err(RuleEdit::Conflict)
    } else if copy_package && package is None {
        Err(RuleEdit::NotFound)
    } else if copy_threads && threads.len() == 0 {
        Err(RuleEdit::NotFound)
    } else {
        Ok(
            Cloned {
                package: if copy_package {
                    package
                } else {
                    None
                },
                threads: if copy_threads {
                    threads
                } else {
                    seq![]
                },
            },
        )
    }
}

pub open spec fn member_lines(threads: Seq<(Seq<char>, Seq<char>)>) -> Seq<Seq<char>> {
    Seq::new(threads.len(), |i: int| member_line(threads[i].0, threads[i].1))
}

/// The lines that hold cloned rules for `target`.
pub open spec fn clone_chunk(target: Seq<char>, rules: Cloned) -> Seq<Seq<char>> {
    if rules.threads.len() == 0 {
        match rules.package {
            Some(cpus) => seq![rule_line(target, cpus)],
            None => seq![],
        }
    } else {
        let head = match rules.package {
            Some(cpus) => open_rule_line(target, cpus),
            None => bare_open(target),
        };
        seq![head] + member_lines(rules.threads).push("}"@)
    }
}

/// The lines with a blank line at their end, unless there is one or there are no lines.
pub open spec fn spaced(lines: Seq<Seq<char>>) -> Seq<Seq<char>> {
    if lines.len() > 0 && trim(lines.last()).len() > 0 {
        lines.push(seq![])
    } else {
        lines
    }
}

/// The lines after the rules of `source` were cloned into `target`.
pub open spec fn cloned(
    lines: Seq<Seq<char>>,
    source: Seq<char>,
    target: Seq<char>,
    copy_package: bool,
    copy_threads: bool,
) -> Result<Seq<Seq<char>>, RuleEdit> {
    let base = clone_base(lines, source, target);
    match clone_rules(base, source, target, copy_package, copy_threads) {
        Ok(rules) => Ok(spaced(base) + clone_chunk(target, rules)),
        Err(e) => Err(e),
    }
}

/// The rules to clone, as executable code holds them.
pub struct CloneRules {
    pub package_cpus: Option<Vec<char>>,
    pub threads: Vec<(Vec<char>, Vec<char>)>,
}

pub open spec fn pair_views(v: Seq<(Vec<char>, Vec<char>)>) -> Seq<(Seq<char>, Seq<char>)> {
    Seq::new(v.len(), |i: int| (v[i].0@, v[i].1@))
}

impl View for CloneRules {
    type V = Cloned;

    open spec fn view(&self) -> Cloned {
        Cloned {
            package: match self.package_cpus {
                Some(cpus) => Some(cpus@),
                None => None,
            },
            threads: pair_views(self.threads@),
        }
    }
}

/// The CPUs of the package rule that a scan found.
pub fn clone_package_spec(lines: &Vec<Vec<char>>, target: &Target) -> (r: Option<Vec<char>>)
    requires
        target@.pkg_line matches Some(at) ==> pkg_idx(at) < lines@.len(),
    ensures
        match r {
            Some(cpus) => package_spec(views(lines@), target@) == Some(cpus@),
            None => package_spec(views(lines@), target@) is None,
        },
{
    let idx: usize = match target.pkg_line {
        Some(PkgLine::Standalone(i)) => i,
        Some(PkgLine::OpenInline(i)) => i,
        _ => {
            return None;
        },
    };
    assert(views(lines@)[idx as int] == lines@[idx as int]@);
    match parse_outer(trimmed(lines[idx].as_slice())) {
        OuterLine::Rule { cpus, .. } => Some(cpus),
        _ => None,
    }
}

/// The CPUs of a thread rule.
pub fn clone_thread_spec(lines: &Vec<Vec<char>>, loc: &ThreadLoc) -> (r: Option<Vec<char>>)
    ensures
        match r {
            Some(cpus) => thread_spec(views(lines@), loc@) == Some(cpus@),
            None => thread_spec(views(lines@), loc@) is None,
        },
{
    if loc.idx >= lines.len() {
        return None;
    }
    assert(views(lines@)[loc.idx as int] == lines@[loc.idx as int]@);
    let p = trimmed(lines[loc.idx].as_slice());
    if loc.single {
        let (core, _) = strip_open(p);
        match split_single_line(core) {
            Some((_, _, cpus)) => Some(cpus),
            None => None,
        }
    } else {
        match split_rule_line(p) {
            Some((_, cpus, _)) => Some(cpus),
            None => None,
        }
    }
}

/// Normalizes both packages and reads the rules to clone.
pub fn clone_prepare(
    lines: &mut Vec<Vec<char>>,
    source: &[char],
    target: &[char],
    copy_package: bool,
    copy_threads: bool,
) -> (r: Result<CloneRules, RuleEdit>)
    ensures
        views(final(lines)@) == clone_base(views(old(lines)@), source@, target@),
        match r {
            Ok(rules) => clone_rules(
                views(final(lines)@),
                source@,
                target@,
                copy_package,
                copy_threads,
            ) == Ok::<Cloned, RuleEdit>(rules@),
            Err(e) => clone_rules(
                views(final(lines)@),
                source@,
                target@,
                copy_package,
                copy_threads,
            ) == Err::<Cloned, RuleEdit>(e),
        },
{
    normalize_singles(lines, source);
    normalize_singles(lines, target);
    let ghost base = views(lines@);
    let s = target_scan(lines, source);
    let t = target_scan(lines, target);
    if s.unterminated || t.unterminated {
        return Err(RuleEdit::Malformed);
    }
    if t.any_line() {
        return Err(RuleEdit::Conflict);
    }
    proof {
        lemma_pkg_upto(base, source@, base.len() as int);
        lemma_locs(base, source@, base.len() as int);
    }
    let package = clone_package_spec(lines, &s);
    if copy_package && package.is_none() {
        return Err(RuleEdit::NotFound);
    }
    let mut threads: Vec<(Vec<char>, Vec<char>)> = Vec::new();
    let mut i: usize = 0;
    let ghost all = s@.threads;
    assert(all.take(0) =~= seq![]);
    assert(pair_views(threads@) =~= thread_specs(base, all.take(0)));
    while i < s.threads.len()
        invariant
            i <= s.threads@.len(),
            base == views(lines@),
            all == loc_views(s.threads@),
            within(all, base.len() as int),
            pair_views(threads@) == thread_specs(base, all.take(i as int)),
        decreases s.threads@.len() - i,
    {
        proof {
            assert(all.take(i + 1).drop_last() =~= all.take(i as int));
            assert(all.take(i + 1).last() == s.threads@[i as int]@);
            assert(all[i as int] == s.threads@[i as int]@);
        }
        match clone_thread_spec(lines, &s.threads[i]) {
            Some(cpus) => {
                let ghost before = threads@;
                let name = copied(&s.threads[i].name);
                threads.push((name, cpus));
                assert(pair_views(threads@) =~= pair_views(before).push((name@, cpus@)));
            },
            None => {},
        }
        i += 1;
    }
    assert(all.take(i as int) =~= all);
    assert(pair_views(threads@).len() == threads@.len());
    if copy_threads && threads.len() == 0 {
        return Err(RuleEdit::NotFound);
    }
    let rules = CloneRules {
        package_cpus: if copy_package {
            package
        } else {
            None
        },
        threads: if copy_threads {
            threads
        } else {
            Vec::new()
        },
    };
    proof {
        if !copy_threads {
            assert(pair_views(rules.threads@) =~= seq![]);
        }
    }
    Ok(rules)
}

/// Adds cloned rules for `target` at the end of the lines.
pub fn clone_append(lines: &mut Vec<Vec<char>>, target: &[char], rules: CloneRules)
    ensures
        views(final(lines)@) == spaced(views(old(lines)@)) + clone_chunk(target@, rules@),
{
    let ghost start = views(lines@);
    let n: usize = lines.len();
    assert(start.len() == n);
    if n > 0 && trimmed(lines[n - 1].as_slice()).len() > 0 {
        let empty: Vec<char> = Vec::new();
        assert(empty@ =~= seq![]);
        push_line(lines, empty);
    }
    let ghost base = views(lines@);
    assert(base == spaced(start));
    assert(pair_views(rules.threads@).len() == rules.threads@.len());
    if rules.threads.len() == 0 {
        if let Some(cpus) = &rules.package_cpus {
            push_line(lines, make_rule(target, cpus.as_slice()));
        }
        assert(views(lines@) =~= base + clone_chunk(target@, rules@));
        return;
    }
    let head = match &rules.package_cpus {
        Some(cpus) => make_open_rule(target, cpus.as_slice()),
        None => bare_open_line(target),
    };
    let ghost top = head@;
    push_line(lines, head);
    let mut i: usize = 0;
    let ghost inner = member_lines(rules@.threads);
    assert(views(lines@) =~= base + (seq![top] + inner.take(0)));
    while i < rules.threads.len()
        invariant
            i <= rules.threads@.len(),
            inner == member_lines(rules@.threads),
            views(lines@) == base + (seq![top] + inner.take(i as int)),
        decreases rules.threads@.len() - i,
    {
        let line = make_member(rules.threads[i].0.as_slice(), rules.threads[i].1.as_slice());
        assert(line@ == inner[i as int]);
        push_line(lines, line);
        i += 1;
        assert(inner.take(i as int) =~= inner.take(i - 1).push(inner[i - 1]));
        assert(views(lines@) =~= base + (seq![top] + inner.take(i as int)));
    }
    assert(inner.take(i as int) =~= inner);
    push_line(lines, text_line("}"));
    assert(views(lines@) =~= base + (seq![top] + inner.push("}"@)));
}

/// Tells whether the rules of `source` can be cloned into `target`.
pub fn rule_clone_check(
    text: &str,
    source: &str,
    target: &str,
    copy_package: bool,
    copy_threads: bool,
) -> (r: RuleEdit)
    ensures
        match cloned(lines_of(text@), source@, target@, copy_package, copy_threads) {
            Ok(_) => r == RuleEdit::Done,
            Err(e) => r == e,
        },
{
    let source_chars = chars_of(source);
    let target_chars = chars_of(target);
    let mut lines = read_lines(text);
    match clone_prepare(
        &mut lines,
        source_chars.as_slice(),
        target_chars.as_slice(),
        copy_package,
        copy_threads,
    ) {
        Ok(_) => RuleEdit::Done,
        Err(e) => e,
    }
}

/// Clones the selected rules of `source` into `target`, which must have none; the clone is one
/// block.
pub fn rule_clone(
    text: &str,
    source: &str,
    target: &str,
    copy_package: bool,
    copy_threads: bool,
) -> (r: Result<String, RuleEdit>)
    ensures
        edit_result(r, cloned(lines_of(text@), source@, target@, copy_package, copy_threads)),
{
    let source_chars = chars_of(source);
    let target_chars = chars_of(target);
    let mut lines = read_lines(text);
    match clone_prepare(
        &mut lines,
        source_chars.as_slice(),
        target_chars.as_slice(),
        copy_package,
        copy_threads,
    ) {
        Ok(rules) => {
            clone_append(&mut lines, target_chars.as_slice(), rules);
            Ok(join_lines(&lines))
        },
        Err(e) => Err(e),
    }
}

} // verus!
