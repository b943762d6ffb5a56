//! What the requests of the panel ask for, and what they are answered.

use crate::api::{
    change_asked, clone_asked, clone_refused, delete_asked, delete_refused, pkg_shape, rename_asked,
    rename_refused, rule_asked, rule_text, suggestions_asked, suggestions_json, text_or_empty,
    tuning_asked, tuning_refused, upsert_refused,
};
use crate::config::like_spec;
use crate::json::{at, field, JsonV};
use crate::rule_edit::RuleEdit;
use crate::settings::{name_fits, path_fits};
use crate::text::{byte_len, trim};
use crate::text_laws::law_holding_another_text;
use crate::tuning::{config_of, named_text, package_name, token};
use vstd::prelude::*;

verus! {

/// The text in the field `name` of a document, without whitespace around it.
pub open spec fn stated(v: JsonV, name: Seq<char>, text: Seq<char>) -> bool {
    exists|s: Seq<char>| field(v, name) == Some(JsonV::Text(s)) && text == #[trigger] trim(s)
}

/// Whether the field `name` of a document holds no text.
pub open spec fn unstated(v: JsonV, name: Seq<char>) -> bool {
    !exists|s: Seq<char>| #[trigger] field(v, name) == Some(JsonV::Text(s))
}

/// A rule is set exactly if its package and its CPUs are stated, a configuration is in force, its
/// names can stand in a file, a package rule is not taken for a thread rule, and its CPUs have the
/// shape of a specification of less than 64 bytes. It is set as it was stated, without the
/// whitespace around each part.
pub proof fn law_which_rules_are_set(
    v: JsonV,
    pkg: Seq<char>,
    thread: Seq<char>,
    cpus: Seq<char>,
    ready: bool,
)
    requires
        stated(v, "pkg"@, pkg),
        stated(v, "cpus"@, cpus),
        stated(v, "thread"@, thread) || (unstated(v, "thread"@) && thread.len() == 0),
    ensures
        ({
            let fit = token(pkg, 128) && (thread.len() > 0 ==> token(thread, 32)) && (thread.len()
                == 0 ==> pkg_shape(pkg)) && byte_len(cpus) <= 63 && like_spec(cpus);
            let r = rule_asked(Some(v), ready);
            &&& r is Ok <==> ready && fit
            &&& r matches Ok(q) ==> q.pkg == pkg && q.thread == thread && q.cpus == cpus
            &&& r matches Err(a) ==> a.code == if ready {
                400u16
            } else {
                500u16
            }
        }),
{
    assert(thread =~= text_or_empty(named_text(v, "thread"@)));
}

/// A body that is no JSON, or that misses what it has to state, is a bad request.
pub proof fn law_incomplete_requests_are_refused(v: JsonV, ready: bool)
    ensures
        rule_asked(None, ready) matches Err(a) && a.code == 400,
        delete_asked(None) matches Err(a) && a.code == 400,
        rename_asked(None) matches Err(a) && a.code == 400,
        clone_asked(None) matches Err(a) && a.code == 400,
        tuning_asked(None) matches Err(a) && a.code == 400,
        change_asked(None) matches Err(a) && a.code == 400,
        suggestions_asked(None) matches Err(a) && a.code == 400,
        unstated(v, "pkg"@) || unstated(v, "cpus"@) ==> (rule_asked(Some(v), ready) matches Err(a)
            && a.code == 400),
        unstated(v, "pkg"@) ==> (delete_asked(Some(v)) matches Err(a) && a.code == 400),
        unstated(v, "old"@) || unstated(v, "new"@) ==> (rename_asked(Some(v)) matches Err(a)
            && a.code == 400),
        unstated(v, "source"@) || unstated(v, "target"@) ==> (clone_asked(Some(v)) matches Err(a)
            && a.code == 400),
{
}

/// A rule is removed under the names that are stated; all rules of the package only where that is
/// said.
pub proof fn law_which_rules_are_removed(v: JsonV, pkg: Seq<char>, thread: Seq<char>)
    requires
        stated(v, "pkg"@, pkg),
        stated(v, "thread"@, thread) || (unstated(v, "thread"@) && thread.len() == 0),
    ensures
        delete_asked(Some(v)) matches Ok(q) && q.pkg == pkg && q.thread == thread && (q.all
            <==> field(v, "all"@) == Some(JsonV::Bool(true))),
{
    assert(thread =~= text_or_empty(named_text(v, "thread"@)));
}

/// A package is renamed exactly if both names can stand in a file, the new one does not look like a
/// package with a thread, and the two differ. To give a package the name that it has succeeds at
/// once.
pub proof fn law_which_packages_are_renamed(v: JsonV, from: Seq<char>, to: Seq<char>)
    requires
        stated(v, "old"@, from),
        stated(v, "new"@, to),
    ensures
        ({
            let fit = token(from, 128) && token(to, 128) && pkg_shape(to);
            let r = rename_asked(Some(v));
            &&& r is Ok <==> fit && from != to
            &&& r matches Ok(q) ==> q.from == from && q.to == to
            &&& fit && from == to ==> (r matches Err(a) && a.code == 200 && at(a.doc, "ok"@)
                == JsonV::Bool(true))
            &&& !fit ==> (r matches Err(a) && a.code == 400 && at(a.doc, "ok"@) == JsonV::Bool(
                false,
            ))
        }),
{
    reveal_strlit("ok");
    reveal_strlit("err");
    assert("ok"@.len() == 2 && "err"@.len() == 3);
}

/// A package is cloned exactly if some kind of rules is chosen, source and target differ, and both
/// can stand in a file, the target as the name of a package. What is chosen is what the document
/// says is true.
pub proof fn law_which_packages_are_cloned(v: JsonV, source: Seq<char>, target: Seq<char>)
    requires
        stated(v, "source"@, source),
        stated(v, "target"@, target),
    ensures
        ({
            let package = field(v, "cpu_package"@) == Some(JsonV::Bool(true));
            let cpus = field(v, "cpu_threads"@) == Some(JsonV::Bool(true));
            let memory = field(v, "tuning_memory"@) == Some(JsonV::Bool(true));
            let tuned = field(v, "tuning_threads"@) == Some(JsonV::Bool(true));
            let r = clone_asked(Some(v));
            &&& r is Ok <==> (package || cpus || memory || tuned) && source != target && token(
                source,
                128,
            ) && package_name(target)
            &&& r matches Ok(q) ==> q.source == source && q.target == target && q.cpu_package
                == package && q.cpu_threads == cpus && q.tuning_memory == memory && q.tuning_threads
                == tuned
            &&& r matches Err(a) ==> a.code == 400
        }),
{
}

/// A tuning document is taken exactly if it is accepted, and else refused with what is wrong with it.
pub proof fn law_which_tunings_are_taken(v: JsonV)
    ensures
        config_of(v) matches Ok(c) ==> (tuning_asked(Some(v)) matches Ok(d) && d == c),
        config_of(v) matches Err(e) ==> (tuning_asked(Some(v)) matches Err(a) && a.code == 400 && at(
            a.doc,
            "err"@,
        ) == JsonV::Text(e)),
{
    reveal_strlit("ok");
    reveal_strlit("err");
    assert("ok"@.len() == 2 && "err"@.len() == 3);
}

/// Settings change exactly if those that are stated are valid: a mode up to 2, an interval from 1 to
/// 3600, a name for the cpuset directory and a path for the file. What is not stated, or has another
/// kind of value, does not change.
#[verifier::rlimit(40)]
#[verifier::spinoff_prover]
pub proof fn law_which_settings_change(v: JsonV)
    ensures
        ({
            let r = change_asked(Some(v));
            let wrong_mode = at(v, "mode"@) matches JsonV::Whole(n) && 2 < n
                <= 0xffff_ffff_ffff_ffff;
            let wrong_interval = at(v, "interval"@) matches JsonV::Whole(n) && 0 <= n
                <= 0xffff_ffff_ffff_ffff && (n == 0 || n > 3600);
            let wrong_name = at(v, "cpuset_name"@) matches JsonV::Text(s) && !name_fits(s);
            let wrong_path = at(v, "config_file"@) matches JsonV::Text(s) && !path_fits(s);
            &&& r is Ok <==> !wrong_mode && !wrong_interval && !wrong_name && !wrong_path
            &&& r matches Err(a) ==> a.code == 400
            &&& r matches Ok(c) ==> {
                &&& c.mode == match at(v, "mode"@) {
                    JsonV::Whole(n) => if 0 <= n <= 2 {
                        Some(n)
                    } else {
                        None
                    },
                    _ => None,
                }
                &&& c.interval == match at(v, "interval"@) {
                    JsonV::Whole(n) => if 1 <= n <= 3600 {
                        Some(n)
                    } else {
                        None
                    },
                    _ => None,
                }
                &&& c.cpuset_name == match at(v, "cpuset_name"@) {
                    JsonV::Text(s) => Some(s),
                    _ => None,
                }
                &&& c.config_file == match at(v, "config_file"@) {
                    JsonV::Text(s) => Some(s),
                    _ => None,
                }
            }
        }),
{
}

/// Suggestions are given for up to 64 bytes of text: for the threads of a package where one is
/// stated that can stand in a file, and else for packages.
pub proof fn law_which_suggestions_are_given(v: JsonV, q: Seq<char>, pkg: Seq<char>)
    requires
        stated(v, "q"@, q) || (unstated(v, "q"@) && q.len() == 0),
        stated(v, "pkg"@, pkg) || (unstated(v, "pkg"@) && pkg.len() == 0),
    ensures
        ({
            let r = suggestions_asked(Some(v));
            &&& r is Ok <==> byte_len(q) <= 64 && (pkg.len() == 0 || token(pkg, 128))
            &&& r matches Ok(s) ==> s.q == q && s.pkg == if pkg.len() > 0 {
                Some(pkg)
            } else {
                None
            }
            &&& r matches Err(a) ==> a.code == 400
        }),
{
    assert(q =~= text_or_empty(named_text(v, "q"@)));
    assert(pkg =~= text_or_empty(named_text(v, "pkg"@)));
}

/// Suggestions are answered as a list, in their order.
pub proof fn law_how_suggestions_are_answered(list: Seq<JsonV>)
    ensures
        at(suggestions_json(list), "ok"@) == JsonV::Bool(true),
        at(suggestions_json(list), "list"@) == JsonV::List(list),
{
    reveal_strlit("ok");
    reveal_strlit("list");
    assert("ok"@.len() == 2 && "list"@.len() == 4);
}

/// An edit of the rules that found nothing is answered with the status 404, one that met something
/// in its way or a block without an end with 409, and one that could not be written with 500.
#[verifier::rlimit(40)]
#[verifier::spinoff_prover]
pub proof fn law_how_edits_are_answered(e: RuleEdit)
    ensures
        ({
            let code = match e {
                RuleEdit::Done => 200u16,
                RuleEdit::NotFound => 404,
                RuleEdit::Conflict => 409,
                RuleEdit::Malformed => 409,
                RuleEdit::IoErr => 500,
            };
            let ok = JsonV::Bool(e is Done);
            &&& delete_refused(e).code == code && at(delete_refused(e).doc, "ok"@) == ok
            &&& rename_refused(e).code == code && at(rename_refused(e).doc, "ok"@) == ok
            &&& clone_refused(e).code == code && at(clone_refused(e).doc, "ok"@) == ok
        }),
        upsert_refused(RuleEdit::Malformed).code == 409,
        upsert_refused(RuleEdit::IoErr).code == 500,
        at(upsert_refused(e).doc, "ok"@) == JsonV::Bool(false),
        upsert_refused(RuleEdit::Malformed) == delete_refused(RuleEdit::Malformed),
        delete_refused(RuleEdit::Malformed) == rename_refused(RuleEdit::Malformed),
        rename_refused(RuleEdit::Malformed) == clone_refused(RuleEdit::Malformed),
{
    reveal_strlit("ok");
    reveal_strlit("err");
    assert("ok"@.len() == 2 && "err"@.len() == 3);
}

/// A tuning that cannot be cloned is answered with what is wrong: with the status 409 where that
/// speaks of the target, and 404 where it does not.
pub proof fn law_how_refused_tunings_are_answered(a: Seq<char>, b: Seq<char>, error: Seq<char>)
    ensures
        tuning_refused(a + "目标应用"@ + b).code == 409,
        at(tuning_refused(error).doc, "err"@) == JsonV::Text(error),
        !(exists|x: Seq<char>, y: Seq<char>| error == #[trigger] (x + "目标应用"@ + y))
            ==> tuning_refused(error).code == 404,
{
    reveal_strlit("ok");
    reveal_strlit("err");
    assert("ok"@.len() == 2 && "err"@.len() == 3);
    let s = a + "目标应用"@ + b;
    law_holding_another_text(s, "目标应用"@);
    law_holding_another_text(error, "目标应用"@);
}

/// A rule file that could not be read counts as empty.
pub proof fn law_missing_rule_files_are_empty(text: String)
    ensures
        rule_text(None).len() == 0,
        rule_text(Some(text)) == text@,
{
}

/// A refusal says in words what is wrong.
pub proof fn law_words_of_refusals(v: JsonV)
    ensures
        ({
            let block = JsonV::Text("配置文件存在未闭合块，请修复后重试"@);
            &&& at(delete_refused(RuleEdit::Malformed).doc, "err"@) == block
            &&& at(delete_refused(RuleEdit::NotFound).doc, "err"@) == JsonV::Text("规则不存在"@)
            &&& at(rename_refused(RuleEdit::NotFound).doc, "err"@) == JsonV::Text(
                "原包名不存在"@,
            )
            &&& at(rename_refused(RuleEdit::Conflict).doc, "err"@) == JsonV::Text(
                "目标包名已存在规则"@,
            )
            &&& at(clone_refused(RuleEdit::NotFound).doc, "err"@) == JsonV::Text(
                "来源应用没有所选 CPU 规则"@,
            )
            &&& at(clone_refused(RuleEdit::Conflict).doc, "err"@) == JsonV::Text(
                "目标应用已有 CPU 规则，不能覆盖克隆"@,
            )
            &&& at(upsert_refused(RuleEdit::IoErr).doc, "err"@) == JsonV::Text(
                "配置文件写入失败"@,
            )
        }),
        delete_asked(None) matches Err(a) && at(a.doc, "err"@) == JsonV::Text(
            "请求体不是合法 JSON"@,
        ),
        unstated(v, "pkg"@) ==> (delete_asked(Some(v)) matches Err(a) && at(a.doc, "err"@)
            == JsonV::Text("缺少 pkg 字段"@)),
{
    reveal_strlit("ok");
    reveal_strlit("err");
    assert("ok"@.len() == 2 && "err"@.len() == 3);
}

} // verus!
