//! The requests that change rules, settings and tuning: what they ask, and what is answered.

use crate::config::{braced, like_spec, mark_at, spec_like, MAX_PKG_LEN, MAX_THREAD_LEN};
use crate::json::{
    add_field, at, bool_in, field, json_doc, list_view, no_fields, plain, str_in, unsigned_in, Json,
    JsonV,
};
use crate::rename_laws::plain_name;
use crate::rule_edit::{
    cloned, deleted, pkg_deleted, rename_ends_soon, rename_settles, renamed, rule_clone,
    rule_clone_check, rule_delete, rule_delete_pkg, rule_rename, rule_upsert, upserted, RuleEdit,
};
use crate::rule_laws::tidy;
use crate::settings::{field_or_null, name_fits, path_fits, valid_name, valid_path};
use crate::text::{
    byte_len, bytes_below, chars_of, equal, has_char, has_str, lemma_last_of, lemma_trim_is_trimmed,
    lemma_trimmed_fixed, lines_of, occurs, occurs_at, text2, text_of, trim,
};
use crate::tuning::{
    config_from_value, config_of, named_text, package_name, package_name_ok, plain_token_ok,
    text_in, token, trimmed_field, TuningConfig,
};
use crate::web::{err_json, ok_reply, refusal, success, Reply, ReplyV};
use vstd::prelude::*;

verus! {

/// Whether a package can have a rule of its own: it does not look like a package with a thread.
pub open spec fn pkg_shape(pkg: Seq<char>) -> bool {
    !(pkg.contains('{') && pkg.len() > 0 && pkg.last() == '}')
}

pub fn pkg_shape_ok(pkg: &str) -> (r: bool)
    ensures
        r == pkg_shape(pkg@),
{
    let p = chars_of(pkg);
    let n: usize = p.len();
    !(has_char(p.as_slice(), '{') && n > 0 && p[n - 1] == '}')
}

/// Whether a name may stand in a rule.
pub fn token_ok(s: &str, max: usize) -> (r: bool)
    ensures
        r == token(s@, max as int),
{
    plain_token_ok(s, max)
}

/// Whether the field `name` is `true`.
pub open spec fn flag_at(v: JsonV, name: Seq<char>) -> bool {
    bool_in(at(v, name)) == Some(true)
}

fn flag(v: &Json, name: &str) -> (r: bool)
    ensures
        r == flag_at(v@, name@),
{
    match v.get(name) {
        Some(j) => match j.as_bool() {
            Some(b) => b,
            None => false,
        },
        None => false,
    }
}

pub open spec fn doc_in(doc: Option<Json>) -> Option<JsonV> {
    match doc {
        Some(j) => Some(j@),
        None => None,
    }
}

pub open spec fn no_json() -> ReplyV {
    refusal(400, "请求体不是合法 JSON"@)
}

pub open spec fn bad_name() -> ReplyV {
    refusal(400, "名称含有非法字符"@)
}

pub open spec fn bad_cpus() -> ReplyV {
    refusal(400, "无效的 CPU 规格"@)
}

pub open spec fn open_block() -> ReplyV {
    refusal(409, "配置文件存在未闭合块，请修复后重试"@)
}

pub open spec fn write_failed() -> ReplyV {
    refusal(500, "配置文件写入失败"@)
}

/// What is left to do for a request that changes the rule file.
pub enum EditStep {
    /// This is answered, and nothing is written.
    Answer(Reply),
    /// This is the new text of the file.
    Write(String),
    /// Nothing is written, and the request goes on.
    Skip,
    /// The edit goes on for so long that it is not waited for.
    Endless,
}

/// What an edit of the rule file leads to: its new text, or an answer.
pub open spec fn edit_step(
    r: EditStep,
    lines: Result<Seq<Seq<char>>, RuleEdit>,
    answers: spec_fn(RuleEdit) -> ReplyV,
) -> bool {
    match lines {
        Ok(l) => r matches EditStep::Write(text) && text@ == text_of(l),
        Err(e) => r matches EditStep::Answer(a) && a.states(answers(e)),
    }
}

// Setting a rule.

/// A rule to set; the thread of a package rule is empty.
pub struct RuleRequest {
    pub pkg: String,
    pub thread: String,
    pub cpus: String,
}

/// What a `RuleRequest` holds.
pub struct RuleRequestV {
    pub pkg: Seq<char>,
    pub thread: Seq<char>,
    pub cpus: Seq<char>,
}

impl View for RuleRequest {
    type V = RuleRequestV;

    open spec fn view(&self) -> RuleRequestV {
        RuleRequestV { pkg: self.pkg@, thread: self.thread@, cpus: self.cpus@ }
    }
}

pub open spec fn text_or_empty(s: Option<Seq<char>>) -> Seq<char> {
    match s {
        Some(t) => t,
        None => seq![],
    }
}

/// The rule that a document asks to set, or why not; `ready` says whether a configuration is in
/// force.
pub open spec fn rule_asked(doc: Option<JsonV>, ready: bool) -> Result<RuleRequestV, ReplyV> {
    match doc {
        None => Err(no_json()),
        Some(v) => match (named_text(v, "pkg"@), named_text(v, "cpus"@)) {
            (Some(pkg), Some(cpus)) => {
                let thread = text_or_empty(named_text(v, "thread"@));
                if !ready {
                    Err(refusal(500, "配置未就绪"@))
                } else if !token(pkg, MAX_PKG_LEN as int) || (thread.len() > 0 && !token(
                    thread,
                    MAX_THREAD_LEN as int,
                )) {
                    Err(bad_name())
                } else if thread.len() == 0 && !pkg_shape(pkg) {
                    Err(
                        refusal(
                            400,
                            "包名含 { 且以 } 结尾时不支持包级规则，可改用线程规则"@,
                        ),
                    )
                } else if byte_len(cpus) >= 64 || !like_spec(cpus) {
                    Err(bad_cpus())
                } else {
                    Ok(RuleRequestV { pkg, thread, cpus })
                }
            },
            _ => Err(refusal(400, "缺少 pkg 或 cpus 字段"@)),
        },
    }
}

/// Whether a request, or an answer, is what a specification says.
pub open spec fn rule_result(
    r: Result<RuleRequest, Reply>,
    want: Result<RuleRequestV, ReplyV>,
) -> bool {
    match want {
        Ok(q) => r matches Ok(p) && p@ == q,
        Err(a) => r matches Err(b) && b.states(a),
    }
}

fn field_or_empty(v: &Json, name: &str) -> (r: String)
    ensures
        r@ == text_or_empty(named_text(v@, name@)),
{
    match trimmed_field(v, name) {
        Some(s) => s,
        None => {
            let s = String::new();
            assert(s@ =~= seq![]);
            s
        },
    }
}

fn is_empty(s: &str) -> (r: bool)
    ensures
        r == (s@.len() == 0),
{
    let t = chars_of(s);
    t.len() == 0
}

/// The rule that a parsed body asks to set, or why not.
pub fn rule_from_doc(doc: Option<Json>, ready: bool) -> (r: Result<RuleRequest, Reply>)
    ensures
        rule_result(r, rule_asked(doc_in(doc), ready)),
{
    let v = match doc {
        None => {
            return Err(err_json(400, "请求体不是合法 JSON"));
        },
        Some(j) => j,
    };
    let pkg = trimmed_field(&v, "pkg");
    let cpus = trimmed_field(&v, "cpus");
    let (pkg, cpus) = match (pkg, cpus) {
        (Some(p), Some(c)) => (p, c),
        _ => {
            return Err(err_json(400, "缺少 pkg 或 cpus 字段"));
        },
    };
    let thread = field_or_empty(&v, "thread");
    if !ready {
        return Err(err_json(500, "配置未就绪"));
    }
    let whole = is_empty(thread.as_str());
    if !token_ok(pkg.as_str(), MAX_PKG_LEN) || (!whole && !token_ok(
        thread.as_str(),
        MAX_THREAD_LEN,
    )) {
        return Err(err_json(400, "名称含有非法字符"));
    }
    if whole && !pkg_shape_ok(pkg.as_str()) {
        return Err(err_json(400, "包名含 { 且以 } 结尾时不支持包级规则，可改用线程规则"));
    }
    let spec = chars_of(cpus.as_str());
    if !bytes_below(spec.as_slice(), 64) || !spec_like(spec.as_slice()) {
        return Err(err_json(400, "无效的 CPU 规格"));
    }
    Ok(RuleRequest { pkg, thread, cpus })
}

/// The rule that the body of a request asks to set, or why not.
pub fn rule_request(body: &[u8], ready: bool) -> (r: Result<RuleRequest, Reply>)
    ensures
        rule_result(r, rule_asked(json_doc(body@), ready)),
{
    rule_from_doc(Json::from_slice(body), ready)
}

/// What is answered when a rule was not set.
pub open spec fn upsert_refused(e: RuleEdit) -> ReplyV {
    match e {
        RuleEdit::Malformed => open_block(),
        _ => write_failed(),
    }
}

/// The text of the rule file; one that cannot be read counts as empty.
pub open spec fn rule_text(file: Option<String>) -> Seq<char> {
    text_or_empty(text_in(file))
}

fn text_or_none(file: &Option<String>) -> (r: String)
    ensures
        r@ == rule_text(*file),
{
    match file {
        Some(t) => t.clone(),
        None => {
            let s = String::new();
            assert(s@ =~= seq![]);
            s
        },
    }
}

/// Sets a rule in the text of the rule file; `known` says whether the device has one of the CPUs.
pub fn rule_api(q: &RuleRequest, known: bool, file: &Option<String>) -> (r: EditStep)
    ensures
        if !known {
            r matches EditStep::Answer(a) && a.states(bad_cpus())
        } else {
            edit_step(
                r,
                upserted(lines_of(rule_text(*file)), q@.pkg, q@.thread, q@.cpus),
                |e: RuleEdit| upsert_refused(e),
            )
        },
{
    if !known {
        return EditStep::Answer(err_json(400, "无效的 CPU 规格"));
    }
    let text = text_or_none(file);
    match rule_upsert(text.as_str(), q.pkg.as_str(), q.thread.as_str(), q.cpus.as_str()) {
        Ok(after) => EditStep::Write(after),
        Err(RuleEdit::Malformed) => EditStep::Answer(
            err_json(409, "配置文件存在未闭合块，请修复后重试"),
        ),
        Err(_) => EditStep::Answer(err_json(500, "配置文件写入失败")),
    }
}

/// What is answered when the new text of the rule file was written, or not.
pub fn written_reply(written: bool) -> (r: Reply)
    ensures
        r.states(
            if written {
                success()
            } else {
                write_failed()
            },
        ),
{
    if written {
        ok_reply()
    } else {
        err_json(500, "配置文件写入失败")
    }
}

// Removing a rule.

/// A rule to remove, or all rules of a package.
pub struct DeleteRequest {
    pub pkg: String,
    pub thread: String,
    pub all: bool,
}

/// What a `DeleteRequest` holds.
pub struct DeleteRequestV {
    pub pkg: Seq<char>,
    pub thread: Seq<char>,
    pub all: bool,
}

impl View for DeleteRequest {
    type V = DeleteRequestV;

    open spec fn view(&self) -> DeleteRequestV {
        DeleteRequestV { pkg: self.pkg@, thread: self.thread@, all: self.all }
    }
}

/// The rule that a document asks to remove, or why not.
pub open spec fn delete_asked(doc: Option<JsonV>) -> Result<DeleteRequestV, ReplyV> {
    match doc {
        None => Err(no_json()),
        Some(v) => match named_text(v, "pkg"@) {
            None => Err(refusal(400, "缺少 pkg 字段"@)),
            Some(pkg) => Ok(
                DeleteRequestV {
                    pkg,
                    thread: text_or_empty(named_text(v, "thread"@)),
                    all: flag_at(v, "all"@),
                },
            ),
        },
    }
}

pub open spec fn delete_result(
    r: Result<DeleteRequest, Reply>,
    want: Result<DeleteRequestV, ReplyV>,
) -> bool {
    match want {
        Ok(q) => r matches Ok(p) && p@ == q,
        Err(a) => r matches Err(b) && b.states(a),
    }
}

/// The rule that a parsed body asks to remove, or why not.
pub fn delete_from_doc(doc: Option<Json>) -> (r: Result<DeleteRequest, Reply>)
    ensures
        delete_result(r, delete_asked(doc_in(doc))),
{
    let v = match doc {
        None => {
            return Err(err_json(400, "请求体不是合法 JSON"));
        },
        Some(j) => j,
    };
    let pkg = match trimmed_field(&v, "pkg") {
        None => {
            return Err(err_json(400, "缺少 pkg 字段"));
        },
        Some(p) => p,
    };
    Ok(DeleteRequest { pkg, thread: field_or_empty(&v, "thread"), all: flag(&v, "all") })
}

/// The rule that the body of a request asks to remove, or why not.
pub fn delete_request(body: &[u8]) -> (r: Result<DeleteRequest, Reply>)
    ensures
        delete_result(r, delete_asked(json_doc(body@))),
{
    delete_from_doc(Json::from_slice(body))
}

/// What is answered when a rule was not removed.
pub open spec fn delete_refused(e: RuleEdit) -> ReplyV {
    match e {
        RuleEdit::Done => success(),
        RuleEdit::NotFound => refusal(404, "规则不存在"@),
        RuleEdit::Conflict => refusal(409, "状态冲突"@),
        RuleEdit::Malformed => open_block(),
        RuleEdit::IoErr => write_failed(),
    }
}

fn delete_answer(e: RuleEdit) -> (r: Reply)
    ensures
        r.states(delete_refused(e)),
{
    match e {
        RuleEdit::Done => ok_reply(),
        RuleEdit::NotFound => err_json(404, "规则不存在"),
        RuleEdit::Conflict => err_json(409, "状态冲突"),
        RuleEdit::Malformed => err_json(409, "配置文件存在未闭合块，请修复后重试"),
        RuleEdit::IoErr => err_json(500, "配置文件写入失败"),
    }
}

/// Removes a rule, or all rules of a package, from the text of the rule file.
pub fn rule_del_api(q: &DeleteRequest, file: &Option<String>) -> (r: EditStep)
    ensures
        edit_step(
            r,
            if q@.all {
                pkg_deleted(lines_of(rule_text(*file)), q@.pkg)
            } else {
                deleted(lines_of(rule_text(*file)), q@.pkg, q@.thread)
            },
            |e: RuleEdit| delete_refused(e),
        ),
{
    let text = text_or_none(file);
    let result = if q.all {
        rule_delete_pkg(text.as_str(), q.pkg.as_str())
    } else {
        rule_delete(text.as_str(), q.pkg.as_str(), q.thread.as_str())
    };
    match result {
        Ok(after) => EditStep::Write(after),
        Err(e) => EditStep::Answer(delete_answer(e)),
    }
}

// Renaming a package.

/// A package to rename.
pub struct RenameRequest {
    pub from: String,
    pub to: String,
}

/// What a `RenameRequest` holds.
pub struct RenameRequestV {
    pub from: Seq<char>,
    pub to: Seq<char>,
}

impl View for RenameRequest {
    type V = RenameRequestV;

    open spec fn view(&self) -> RenameRequestV {
        RenameRequestV { from: self.from@, to: self.to@ }
    }
}

/// The package that a document asks to rename, or what is answered at once.
pub open spec fn rename_asked(doc: Option<JsonV>) -> Result<RenameRequestV, ReplyV> {
    match doc {
        None => Err(no_json()),
        Some(v) => match (named_text(v, "old"@), named_text(v, "new"@)) {
            (Some(from), Some(to)) => if !token(from, MAX_PKG_LEN as int) || !token(
                to,
                MAX_PKG_LEN as int,
            ) {
                Err(bad_name())
            } else if !pkg_shape(to) {
                Err(refusal(400, "包名含 { 且以 } 结尾时不可作为重命名目标"@))
            } else if from == to {
                Err(success())
            } else {
                Ok(RenameRequestV { from, to })
            },
            _ => Err(refusal(400, "缺少 old 或 new 字段"@)),
        },
    }
}

pub open spec fn rename_result(
    r: Result<RenameRequest, Reply>,
    want: Result<RenameRequestV, ReplyV>,
) -> bool {
    match want {
        Ok(q) => r matches Ok(p) && p@ == q,
        Err(a) => r matches Err(b) && b.states(a),
    }
}

/// The package that a parsed body asks to rename, or what is answered at once.
pub fn rename_from_doc(doc: Option<Json>) -> (r: Result<RenameRequest, Reply>)
    ensures
        rename_result(r, rename_asked(doc_in(doc))),
{
    let v = match doc {
        None => {
            return Err(err_json(400, "请求体不是合法 JSON"));
        },
        Some(j) => j,
    };
    let from = trimmed_field(&v, "old");
    let to = trimmed_field(&v, "new");
    let (from, to) = match (from, to) {
        (Some(a), Some(b)) => (a, b),
        _ => {
            return Err(err_json(400, "缺少 old 或 new 字段"));
        },
    };
    if !token_ok(from.as_str(), MAX_PKG_LEN) || !token_ok(to.as_str(), MAX_PKG_LEN) {
        return Err(err_json(400, "名称含有非法字符"));
    }
    if !pkg_shape_ok(to.as_str()) {
        return Err(err_json(400, "包名含 { 且以 } 结尾时不可作为重命名目标"));
    }
    if equal(from.as_str(), to.as_str()) {
        return Err(ok_reply());
    }
    Ok(RenameRequest { from, to })
}

/// The package that the body of a request asks to rename, or what is answered at once.
pub fn rename_request(body: &[u8]) -> (r: Result<RenameRequest, Reply>)
    ensures
        rename_result(r, rename_asked(json_doc(body@))),
{
    rename_from_doc(Json::from_slice(body))
}

/// What is answered when a package was not renamed.
pub open spec fn rename_refused(e: RuleEdit) -> ReplyV {
    match e {
        RuleEdit::Done => success(),
        RuleEdit::NotFound => refusal(404, "原包名不存在"@),
        RuleEdit::Conflict => refusal(409, "目标包名已存在规则"@),
        RuleEdit::Malformed => open_block(),
        RuleEdit::IoErr => write_failed(),
    }
}

fn rename_answer(e: RuleEdit) -> (r: Reply)
    ensures
        r.states(rename_refused(e)),
{
    match e {
        RuleEdit::Done => ok_reply(),
        RuleEdit::NotFound => err_json(404, "原包名不存在"),
        RuleEdit::Conflict => err_json(409, "目标包名已存在规则"),
        RuleEdit::Malformed => err_json(409, "配置文件存在未闭合块，请修复后重试"),
        RuleEdit::IoErr => err_json(500, "配置文件写入失败"),
    }
}

/// Renames a package in the text of the rule file.
pub fn rule_rename_api(q: &RenameRequest, file: &Option<String>) -> (r: EditStep)
    ensures
        if !rename_ends_soon(lines_of(rule_text(*file)), q@.from, q@.to) {
            r is Endless
        } else {
            edit_step(
                r,
                renamed(lines_of(rule_text(*file)), q@.from, q@.to),
                |e: RuleEdit| rename_refused(e),
            )
        },
{
    let text = text_or_none(file);
    if !rename_settles(text.as_str(), q.from.as_str(), q.to.as_str()) {
        return EditStep::Endless;
    }
    match rule_rename(text.as_str(), q.from.as_str(), q.to.as_str()) {
        Ok(after) => EditStep::Write(after),
        Err(e) => EditStep::Answer(rename_answer(e)),
    }
}

// Cloning a package.

/// A package to clone, and which of its rules.
pub struct CloneRequest {
    pub source: String,
    pub target: String,
    pub cpu_package: bool,
    pub cpu_threads: bool,
    pub tuning_memory: bool,
    pub tuning_threads: bool,
}

/// What a `CloneRequest` holds.
pub struct CloneRequestV {
    pub source: Seq<char>,
    pub target: Seq<char>,
    pub cpu_package: bool,
    pub cpu_threads: bool,
    pub tuning_memory: bool,
    pub tuning_threads: bool,
}

impl View for CloneRequest {
    type V = CloneRequestV;

    open spec fn view(&self) -> CloneRequestV {
        CloneRequestV {
            source: self.source@,
            target: self.target@,
            cpu_package: self.cpu_package,
            cpu_threads: self.cpu_threads,
            tuning_memory: self.tuning_memory,
            tuning_threads: self.tuning_threads,
        }
    }
}

impl CloneRequestV {
    pub open spec fn cpu(self) -> bool {
        self.cpu_package || self.cpu_threads
    }

    pub open spec fn tuning(self) -> bool {
        self.tuning_memory || self.tuning_threads
    }
}

/// The package that a document asks to clone, or why not.
pub open spec fn clone_asked(doc: Option<JsonV>) -> Result<CloneRequestV, ReplyV> {
    match doc {
        None => Err(no_json()),
        Some(v) => match (named_text(v, "source"@), named_text(v, "target"@)) {
            (Some(source), Some(target)) => {
                let q = CloneRequestV {
                    source,
                    target,
                    cpu_package: flag_at(v, "cpu_package"@),
                    cpu_threads: flag_at(v, "cpu_threads"@),
                    tuning_memory: flag_at(v, "tuning_memory"@),
                    tuning_threads: flag_at(v, "tuning_threads"@),
                };
                if !q.cpu() && !q.tuning() {
                    Err(refusal(400, "请至少选择一类要克隆的规则"@))
                } else if source == target {
                    Err(refusal(400, "源包名与目标包名不能相同"@))
                } else if !token(source, MAX_PKG_LEN as int) || !package_name(target) {
                    Err(refusal(400, "包名含有非法字符"@))
                } else {
                    Ok(q)
                }
            },
            _ => Err(refusal(400, "缺少 source 或 target 包名"@)),
        },
    }
}

pub open spec fn clone_result(
    r: Result<CloneRequest, Reply>,
    want: Result<CloneRequestV, ReplyV>,
) -> bool {
    match want {
        Ok(q) => r matches Ok(p) && p@ == q,
        Err(a) => r matches Err(b) && b.states(a),
    }
}

/// The package that a parsed body asks to clone, or why not.
pub fn clone_from_doc(doc: Option<Json>) -> (r: Result<CloneRequest, Reply>)
    ensures
        clone_result(r, clone_asked(doc_in(doc))),
{
    let v = match doc {
        None => {
            return Err(err_json(400, "请求体不是合法 JSON"));
        },
        Some(j) => j,
    };
    let source = trimmed_field(&v, "source");
    let target = trimmed_field(&v, "target");
    let (source, target) = match (source, target) {
        (Some(a), Some(b)) => (a, b),
        _ => {
            return Err(err_json(400, "缺少 source 或 target 包名"));
        },
    };
    let cpu_package = flag(&v, "cpu_package");
    let cpu_threads = flag(&v, "cpu_threads");
    let tuning_memory = flag(&v, "tuning_memory");
    let tuning_threads = flag(&v, "tuning_threads");
    if !cpu_package && !cpu_threads && !tuning_memory && !tuning_threads {
        return Err(err_json(400, "请至少选择一类要克隆的规则"));
    }
    if equal(source.as_str(), target.as_str()) {
        return Err(err_json(400, "源包名与目标包名不能相同"));
    }
    if !token_ok(source.as_str(), MAX_PKG_LEN) || !package_name_ok(target.as_str()) {
        return Err(err_json(400, "包名含有非法字符"));
    }
    Ok(CloneRequest { source, target, cpu_package, cpu_threads, tuning_memory, tuning_threads })
}

/// The package that the body of a request asks to clone, or why not.
pub fn clone_request(body: &[u8]) -> (r: Result<CloneRequest, Reply>)
    ensures
        clone_result(r, clone_asked(json_doc(body@))),
{
    clone_from_doc(Json::from_slice(body))
}

/// What is answered when the CPU rules of a package were not cloned.
pub open spec fn clone_refused(e: RuleEdit) -> ReplyV {
    match e {
        RuleEdit::Done => success(),
        RuleEdit::NotFound => refusal(404, "来源应用没有所选 CPU 规则"@),
        RuleEdit::Conflict => refusal(409, "目标应用已有 CPU 规则，不能覆盖克隆"@),
        RuleEdit::Malformed => open_block(),
        RuleEdit::IoErr => refusal(500, "读取 CPU 规则文件失败"@),
    }
}

fn clone_answer(e: RuleEdit) -> (r: Reply)
    ensures
        r.states(clone_refused(e)),
{
    match e {
        RuleEdit::Done => ok_reply(),
        RuleEdit::NotFound => err_json(404, "来源应用没有所选 CPU 规则"),
        RuleEdit::Conflict => err_json(409, "目标应用已有 CPU 规则，不能覆盖克隆"),
        RuleEdit::Malformed => err_json(409, "配置文件存在未闭合块，请修复后重试"),
        RuleEdit::IoErr => err_json(500, "读取 CPU 规则文件失败"),
    }
}

/// What is answered when the tuning of a package cannot be cloned.
pub open spec fn tuning_refused(error: Seq<char>) -> ReplyV {
    refusal(
        if occurs(error, "目标应用"@) {
            409
        } else {
            404
        },
        error,
    )
}

/// Clones the CPU rules of a package in the text of the rule file. Nothing is written unless both
/// the CPU rules and the tuning can be cloned; `check` says what is wrong with the tuning.
pub fn rule_clone_api(q: &CloneRequest, file: &Option<String>, check: &Option<String>) -> (r: EditStep)
    ensures
        q@.cpu() ==> match cloned(
            lines_of(rule_text(*file)),
            q@.source,
            q@.target,
            q@.cpu_package,
            q@.cpu_threads,
        ) {
            Err(e) => r matches EditStep::Answer(a) && a.states(clone_refused(e)),
            Ok(lines) => if q@.tuning() && check is Some {
                r matches EditStep::Answer(a) && a.states(tuning_refused(check->0@))
            } else {
                r matches EditStep::Write(text) && text@ == text_of(lines)
            },
        },
        !q@.cpu() ==> if q@.tuning() && check is Some {
            r matches EditStep::Answer(a) && a.states(tuning_refused(check->0@))
        } else {
            r is Skip
        },
{
    let cpu = q.cpu_package || q.cpu_threads;
    let tuning = q.tuning_memory || q.tuning_threads;
    let text = text_or_none(file);
    if cpu {
        match rule_clone_check(
            text.as_str(),
            q.source.as_str(),
            q.target.as_str(),
            q.cpu_package,
            q.cpu_threads,
        ) {
            RuleEdit::Done => {},
            e => {
                return EditStep::Answer(clone_answer(e));
            },
        }
    }
    if tuning {
        if let Some(error) = check {
            let e = chars_of(error.as_str());
            let code: u16 = if has_str(e.as_slice(), "目标应用") {
                409
            } else {
                404
            };
            return EditStep::Answer(err_json(code, error.as_str()));
        }
    }
    if cpu {
        return match rule_clone(
            text.as_str(),
            q.source.as_str(),
            q.target.as_str(),
            q.cpu_package,
            q.cpu_threads,
        ) {
            Ok(after) => EditStep::Write(after),
            Err(e) => EditStep::Answer(clone_answer(e)),
        };
    }
    EditStep::Skip
}

/// What is answered at the end of a clone: whether the rule file was written (where it was to be),
/// and what went wrong with the tuning.
pub fn clone_reply(written: bool, error: &Option<String>) -> (r: Reply)
    ensures
        r.states(
            if !written {
                refusal(500, "写入 CPU 规则文件失败"@)
            } else {
                match *error {
                    Some(e) => refusal(500, "写入调优规则失败: "@ + e@),
                    None => success(),
                }
            },
        ),
{
    if !written {
        return err_json(500, "写入 CPU 规则文件失败");
    }
    match error {
        Some(e) => {
            let message = text2("写入调优规则失败: ", e.as_str());
            err_json(500, message.as_str())
        },
        None => ok_reply(),
    }
}

// Tuning.

/// The tuning document that the body of a request asks to save, or why not.
pub open spec fn tuning_asked(doc: Option<JsonV>) -> Result<crate::tuning::ConfigV, ReplyV> {
    match doc {
        None => Err(no_json()),
        Some(v) => match config_of(v) {
            Ok(c) => Ok(c),
            Err(e) => Err(refusal(400, e)),
        },
    }
}

pub open spec fn tuning_result(
    r: Result<TuningConfig, Reply>,
    want: Result<crate::tuning::ConfigV, ReplyV>,
) -> bool {
    match want {
        Ok(c) => r matches Ok(m) && m@ == c,
        Err(a) => r matches Err(b) && b.states(a),
    }
}

/// The tuning document that a parsed body asks to save, or why not.
pub fn tuning_from_doc(doc: Option<Json>) -> (r: Result<TuningConfig, Reply>)
    ensures
        tuning_result(r, tuning_asked(doc_in(doc))),
{
    match doc {
        None => Err(err_json(400, "请求体不是合法 JSON")),
        Some(v) => match config_from_value(&v) {
            Ok(c) => Ok(c),
            Err(e) => Err(err_json(400, e.as_str())),
        },
    }
}

/// The tuning document that the body of a request asks to save, or why not.
pub fn tuning_set_api(body: &[u8]) -> (r: Result<TuningConfig, Reply>)
    ensures
        tuning_result(r, tuning_asked(json_doc(body@))),
{
    tuning_from_doc(Json::from_slice(body))
}

/// What is answered when the tuning document was saved, or not.
pub fn saved_reply(saved: &Result<(), String>) -> (r: Reply)
    ensures
        r.states(
            match *saved {
                Ok(_) => success(),
                Err(e) => refusal(500, e@),
            },
        ),
{
    match saved {
        Ok(_) => ok_reply(),
        Err(e) => err_json(500, e.as_str()),
    }
}

// Settings.

/// What a request changes in the settings.
pub struct ConfigChange {
    pub mode: Option<u8>,
    pub interval: Option<u64>,
    pub cpuset_name: Option<String>,
    pub config_file: Option<String>,
}

/// What a `ConfigChange` holds.
#[verifier::ext_equal]
pub struct ChangeV {
    pub mode: Option<int>,
    pub interval: Option<int>,
    pub cpuset_name: Option<Seq<char>>,
    pub config_file: Option<Seq<char>>,
}

impl View for ConfigChange {
    type V = ChangeV;

    open spec fn view(&self) -> ChangeV {
        ChangeV {
            mode: match self.mode {
                Some(n) => Some(n as int),
                None => None,
            },
            interval: match self.interval {
                Some(n) => Some(n as int),
                None => None,
            },
            cpuset_name: text_in(self.cpuset_name),
            config_file: text_in(self.config_file),
        }
    }
}

/// What a document asks to change in the settings, or why not.
pub open spec fn change_asked(doc: Option<JsonV>) -> Result<ChangeV, ReplyV> {
    match doc {
        None => Err(no_json()),
        Some(v) => {
            let c = ChangeV {
                mode: unsigned_in(at(v, "mode"@)),
                interval: unsigned_in(at(v, "interval"@)),
                cpuset_name: str_in(at(v, "cpuset_name"@)),
                config_file: str_in(at(v, "config_file"@)),
            };
            if c.mode matches Some(m) && m > 2 {
                Err(refusal(400, "无效的工作模式"@))
            } else if c.interval matches Some(n) && !(1 <= n <= 3600) {
                Err(refusal(400, "间隔需在 1-3600 秒之间"@))
            } else if c.cpuset_name matches Some(s) && !name_fits(s) {
                Err(refusal(400, "无效的 cpuset 目录名"@))
            } else if c.config_file matches Some(s) && !path_fits(s) {
                Err(refusal(400, "无效的配置文件路径"@))
            } else {
                Ok(c)
            }
        },
    }
}

pub open spec fn change_result(
    r: Result<ConfigChange, Reply>,
    want: Result<ChangeV, ReplyV>,
) -> bool {
    match want {
        Ok(c) => r matches Ok(m) && m@ == c,
        Err(a) => r matches Err(b) && b.states(a),
    }
}

fn own_text(v: &Json) -> (r: Option<String>)
    ensures
        text_in(r) == str_in(v@),
{
    match v.as_str() {
        Some(s) => Some(s.to_owned()),
        None => None,
    }
}

/// What a parsed body asks to change in the settings, or why not.
pub fn change_from_doc(doc: Option<Json>) -> (r: Result<ConfigChange, Reply>)
    ensures
        change_result(r, change_asked(doc_in(doc))),
{
    let v = match doc {
        None => {
            return Err(err_json(400, "请求体不是合法 JSON"));
        },
        Some(j) => j,
    };
    let null = Json::Null;
    let wanted = field_or_null(&v, "mode", &null).as_u64();
    let interval = field_or_null(&v, "interval", &null).as_u64();
    let cpuset_name = own_text(field_or_null(&v, "cpuset_name", &null));
    let config_file = own_text(field_or_null(&v, "config_file", &null));
    let mut mode: Option<u8> = None;
    if let Some(m) = wanted {
        if m > 2 {
            return Err(err_json(400, "无效的工作模式"));
        }
        mode = Some(m as u8);
    }
    if let Some(n) = interval {
        if n < 1 || n > 3600 {
            return Err(err_json(400, "间隔需在 1-3600 秒之间"));
        }
    }
    if let Some(s) = &cpuset_name {
        if !valid_name(s.as_str()) {
            return Err(err_json(400, "无效的 cpuset 目录名"));
        }
    }
    if let Some(s) = &config_file {
        if !valid_path(s.as_str()) {
            return Err(err_json(400, "无效的配置文件路径"));
        }
    }
    let r = ConfigChange { mode, interval, cpuset_name, config_file };
    assert(r@ =~= change_asked(doc_in(doc))->Ok_0);
    Ok(r)
}

/// What the body of a request asks to change in the settings, or why not.
pub fn config_set_api(body: &[u8]) -> (r: Result<ConfigChange, Reply>)
    ensures
        change_result(r, change_asked(json_doc(body@))),
{
    change_from_doc(Json::from_slice(body))
}

impl ConfigChange {
    /// Whether the kernel mode, once given up, is tried again: the user asks for a mode that may
    /// use it.
    pub fn retries(&self) -> (r: bool)
        ensures
            r == (self@.mode matches Some(m) && m != 2),
    {
        match self.mode {
            Some(m) => m != 2,
            None => false,
        }
    }

    /// Whether the configuration is read anew.
    pub fn reloads(&self) -> (r: bool)
        ensures
            r == (self@.cpuset_name is Some || self@.config_file is Some),
    {
        self.cpuset_name.is_some() || self.config_file.is_some()
    }
}

// Suggestions.

/// What is typed, and the package whose threads are asked for, if any.
pub struct SuggestRequest {
    pub q: String,
    pub pkg: Option<String>,
}

/// What a `SuggestRequest` holds.
pub struct SuggestRequestV {
    pub q: Seq<char>,
    pub pkg: Option<Seq<char>>,
}

impl View for SuggestRequest {
    type V = SuggestRequestV;

    open spec fn view(&self) -> SuggestRequestV {
        SuggestRequestV { q: self.q@, pkg: text_in(self.pkg) }
    }
}

/// The suggestions that a document asks for, or why not.
pub open spec fn suggestions_asked(doc: Option<JsonV>) -> Result<SuggestRequestV, ReplyV> {
    match doc {
        None => Err(no_json()),
        Some(v) => {
            let q = text_or_empty(named_text(v, "q"@));
            let pkg = text_or_empty(named_text(v, "pkg"@));
            if byte_len(q) > 64 {
                Err(refusal(400, "q 过长"@))
            } else if pkg.len() == 0 {
                Ok(SuggestRequestV { q, pkg: None })
            } else if !token(pkg, MAX_PKG_LEN as int) {
                Err(bad_name())
            } else {
                Ok(SuggestRequestV { q, pkg: Some(pkg) })
            }
        },
    }
}

pub open spec fn suggest_result(
    r: Result<SuggestRequest, Reply>,
    want: Result<SuggestRequestV, ReplyV>,
) -> bool {
    match want {
        Ok(q) => r matches Ok(p) && p@ == q,
        Err(a) => r matches Err(b) && b.states(a),
    }
}

/// The suggestions that a parsed body asks for, or why not.
pub fn suggest_from_doc(doc: Option<Json>) -> (r: Result<SuggestRequest, Reply>)
    ensures
        suggest_result(r, suggestions_asked(doc_in(doc))),
{
    let v = match doc {
        None => {
            return Err(err_json(400, "请求体不是合法 JSON"));
        },
        Some(j) => j,
    };
    let q = field_or_empty(&v, "q");
    let typed = chars_of(q.as_str());
    if !bytes_below(typed.as_slice(), 65) {
        return Err(err_json(400, "q 过长"));
    }
    let pkg = field_or_empty(&v, "pkg");
    if is_empty(pkg.as_str()) {
        return Ok(SuggestRequest { q, pkg: None });
    }
    if !token_ok(pkg.as_str(), MAX_PKG_LEN) {
        return Err(err_json(400, "名称含有非法字符"));
    }
    Ok(SuggestRequest { q, pkg: Some(pkg) })
}

/// The suggestions that the body of a request asks for, or why not.
pub fn suggest_api(body: &[u8]) -> (r: Result<SuggestRequest, Reply>)
    ensures
        suggest_result(r, suggestions_asked(json_doc(body@))),
{
    suggest_from_doc(Json::from_slice(body))
}

pub open spec fn names_view(list: Seq<(String, usize)>) -> Seq<JsonV> {
    Seq::new(list.len(), |i: int| JsonV::Text(list[i].0@))
}

pub open spec fn suggestions_json(list: Seq<JsonV>) -> JsonV {
    JsonV::Object(
        Map::<Seq<char>, JsonV>::empty().insert("ok"@, JsonV::Bool(true)).insert(
            "list"@,
            JsonV::List(list),
        ),
    )
}

/// The answer with the suggested names, in their order.
pub fn suggestions_reply(list: &Vec<(String, usize)>) -> (r: Reply)
    ensures
        r.states(ReplyV { code: 200, doc: suggestions_json(names_view(list@)) }),
{
    let mut names: Vec<Json> = Vec::new();
    let mut i: usize = 0;
    while i < list.len()
        invariant
            i <= list@.len(),
            names@.len() == i,
            forall|k: int| 0 <= k < i ==> (#[trigger] names@[k])@ == JsonV::Text(list@[k].0@),
        decreases list@.len() - i,
    {
        names.push(Json::of_str(list[i].0.as_str()));
        i += 1;
    }
    let items = Json::List(names);
    proof {
        crate::json::lemma_list_view(items);
        assert(list_view(names@) =~= names_view(list@));
        assert forall|k: int| 0 <= k < names_view(list@).len() implies plain(
            #[trigger] names_view(list@)[k],
            125,
        ) by {}
        assert(plain(JsonV::List(names_view(list@)), 126));
    }
    let mut fields = no_fields();
    add_field(&mut fields, "ok", Json::Bool(true));
    add_field(&mut fields, "list", items);
    let value = Json::Object(fields);
    proof {
        let m = value@->Object_0;
        assert forall|k: Seq<char>| #[trigger] m.contains_key(k) implies plain(m[k], 126) by {
            assert(crate::tuning::leaf(m[k]) || m[k] == JsonV::List(names_view(list@)));
        }
    }
    Reply { code: 200, body: value.text() }
}

// What is asked can be done.

/// A trimmed text that is accepted as a name can stand in the rule file.
proof fn lemma_token_tidy(s: Seq<char>, max: int)
    requires
        token(trim(s), max),
    ensures
        tidy(trim(s)),
{
    reveal_strlit("//");
    let t = trim(s);
    lemma_trim_is_trimmed(s);
    lemma_trimmed_fixed(t);
    assert forall|i: int| 0 <= i < t.len() implies !#[trigger] mark_at(t, i) by {
        assert(t.contains(t[i]));
        if t[i] == '/' && i + 1 < t.len() && t[i + 1] == '/' {
            assert(t.subrange(i, i + 2) =~= "//"@);
            assert(occurs_at(t, "//"@, i));
        }
    }
}

/// Every rule that a request asks to set can be stated in the file: its names are tidy, a package
/// rule is not taken for a thread rule, and its CPUs have the shape of a specification.
pub proof fn law_asked_rules_can_be_stated(doc: Option<JsonV>, ready: bool)
    ensures
        rule_asked(doc, ready) matches Ok(q) ==> {
            &&& tidy(q.pkg)
            &&& q.thread.len() > 0 ==> tidy(q.thread)
            &&& q.thread.len() == 0 ==> braced(q.pkg) is None
            &&& like_spec(q.cpus)
        },
{
    if let Ok(q) = rule_asked(doc, ready) {
        let v = doc->0;
        lemma_token_tidy(field(v, "pkg"@)->0->Text_0, MAX_PKG_LEN as int);
        if q.thread.len() > 0 {
            lemma_token_tidy(field(v, "thread"@)->0->Text_0, MAX_THREAD_LEN as int);
        }
        lemma_last_of(q.pkg, '{');
    }
}

/// Every name that a request asks to give to a package can be stated in the file, and differs from
/// the old one.
pub proof fn law_asked_names_can_be_stated(doc: Option<JsonV>)
    ensures
        rename_asked(doc) matches Ok(q) ==> tidy(q.from) && plain_name(q.to) && q.from != q.to,
{
    if let Ok(q) = rename_asked(doc) {
        let v = doc->0;
        lemma_token_tidy(field(v, "old"@)->0->Text_0, MAX_PKG_LEN as int);
        lemma_token_tidy(field(v, "new"@)->0->Text_0, MAX_PKG_LEN as int);
        lemma_last_of(q.to, '{');
    }
}

/// Every package that a request asks to clone can be stated in the file under its new name.
pub proof fn law_asked_clones_can_be_stated(doc: Option<JsonV>)
    ensures
        clone_asked(doc) matches Ok(q) ==> tidy(q.source) && plain_name(q.target) && q.source
            != q.target && (q.cpu() || q.tuning()),
{
    if let Ok(q) = clone_asked(doc) {
        let v = doc->0;
        lemma_token_tidy(field(v, "source"@)->0->Text_0, MAX_PKG_LEN as int);
        lemma_token_tidy(field(v, "target"@)->0->Text_0, MAX_PKG_LEN as int);
        lemma_last_of(q.target, '{');
    }
}

} // verus!
