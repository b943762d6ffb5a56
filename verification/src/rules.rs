//! Reading the rules out of the rule file.

use crate::config::{close_like, parse_outer, split_rule_line, OuterLine};
use crate::rule_edit::{lemma_place_step, place_at, Spot};
use crate::rule_laws::{rules_of, Said};
use crate::text::{
    begins_str, chars_of, has_char, lines_of, piece, split_lines, string_of, trimmed, views,
};
use vstd::prelude::*;

verus! {

/// A rule as the file states it; the thread of a package rule is empty.
pub struct RuleText {
    pub pkg: String,
    pub thread: String,
    pub cpus: String,
}

impl View for RuleText {
    type V = Said;

    open spec fn view(&self) -> Said {
        Said { pkg: self.pkg@, thread: self.thread@, cpus: self.cpus@ }
    }
}

pub open spec fn rule_texts(v: Seq<RuleText>) -> Seq<Said> {
    Seq::new(v.len(), |i: int| v[i]@)
}

fn add_rule(out: &mut Vec<RuleText>, pkg: &Vec<char>, thread: &Vec<char>, cpus: &Vec<char>)
    ensures
        rule_texts(final(out)@) == rule_texts(old(out)@).push(
            (Said { pkg: pkg@, thread: thread@, cpus: cpus@ }),
        ),
{
    let rule = RuleText {
        pkg: string_of(pkg.as_slice()),
        thread: string_of(thread.as_slice()),
        cpus: string_of(cpus.as_slice()),
    };
    let ghost before = out@;
    out.push(rule);
    assert(rule_texts(out@) =~= rule_texts(before).push(rule@));
}

/// The rules that a file states, in the order of its lines.
pub fn read_rules(text: &str) -> (r: Vec<RuleText>)
    ensures
        rule_texts(r@) == rules_of(lines_of(text@)),
{
    let t = chars_of(text);
    let lines = split_lines(t.as_slice());
    let ghost all = lines_of(text@);
    let mut out: Vec<RuleText> = Vec::new();
    let mut spot = Spot::Top;
    let mut i: usize = 0;
    assert(all.take(0) =~= seq![]);
    assert(rule_texts(out@) =~= rules_of(all.take(0)));
    while i < lines.len()
        invariant
            i <= lines@.len(),
            all == views(lines@),
            all.len() == lines@.len(),
            spot@ == place_at(all, i as int),
            rule_texts(out@) == rules_of(all.take(i as int)),
        decreases lines@.len() - i,
    {
        let p = trimmed(lines[i].as_slice());
        proof {
            assert(all[i as int] == lines@[i as int]@);
            lemma_place_step(all, i as int);
            assert(all.take(i + 1).drop_last() =~= all.take(i as int));
            assert(all.take(i + 1).last() == all[i as int]);
        }
        if p.len() == 0 || p[0] == '#' || begins_str(p, "//") {
            i += 1;
            continue;
        }
        match &spot {
            Spot::Block(owner) => {
                if close_like(p) {
                    spot = Spot::Top;
                } else {
                    match split_rule_line(p) {
                        Some((name, cpus, closed)) => {
                            if name.len() > 0 {
                                add_rule(&mut out, owner, &name, &cpus);
                            }
                            if closed {
                                spot = Spot::Top;
                            }
                        },
                        None => {
                            if has_char(p, '}') {
                                spot = Spot::Top;
                            }
                        },
                    }
                }
            },
            _ => {
                match parse_outer(p) {
                    OuterLine::Single { pkg, thread, cpus, open } => {
                        if thread.len() > 0 {
                            add_rule(&mut out, &pkg, &thread, &cpus);
                        }
                        spot = if open {
                            Spot::Block(pkg)
                        } else {
                            Spot::Top
                        };
                    },
                    OuterLine::Rule { pkg, cpus, open } => {
                        let none: Vec<char> = Vec::new();
                        assert(none@ =~= seq![]);
                        add_rule(&mut out, &pkg, &none, &cpus);
                        spot = if open {
                            Spot::Block(pkg)
                        } else {
                            Spot::Top
                        };
                    },
                    OuterLine::BareOpen { pkg } => {
                        if pkg.len() > 0 {
                            spot = Spot::Block(pkg);
                        } else {
                            let mut from: Option<Vec<char>> = None;
                            if let Spot::Named(_, name) = &spot {
                                let copy = piece(name.as_slice(), 0, name.len());
                                assert(copy@ =~= name@);
                                from = Some(copy);
                            }
                            spot = match from {
                                Some(name) => Spot::Block(name),
                                None => Spot::Top,
                            };
                        }
                    },
                    OuterLine::Pending { pkg } => {
                        spot = Spot::Named(i, pkg);
                    },
                    OuterLine::Junk => {
                        spot = Spot::Top;
                    },
                }
            },
        }
        i += 1;
    }
    assert(all.take(i as int) =~= all);
    out
}

} // verus!
