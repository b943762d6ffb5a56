//! Memory and scheduler tuning of applications.
//!
//! The tuning document names memory groups (cgroups with their limits) and, for each application, the
//! group it belongs to and rules for its threads. It stands in a file of its own, beside the CPU rules.

use crate::config::{MAX_PKG_LEN, MAX_THREAD_LEN};
use crate::json::{
    add_field, at, ended, field, fields_map, json_parsed, json_pretty, lemma_list_view, list_view,
    no_fields, plain, signed_in, texts_view, unsigned_in, Json, JsonV,
};
use crate::text::{
    all_digits, begins, begins_str, byte_len, bytes_below, chars_of, decimal, decimal_u64,
    digits_value, ends, ends_str, equal, has_char, has_control, has_str, lower, lowered, occurs,
    only_digits, parse_digits, replace_str, replaced, same_str, split_on, split_pieces, string_of,
    text2, text3, trim, trimmed, trimmed_str, views, with_control,
};
use vstd::prelude::*;

verus! {

/// The name of the tuning document.
pub const TUNING_FILE_NAME: &'static str = "AppOpt.tuning.json";

/// A memory cgroup and the limits that its members get.
#[derive(Clone)]
pub struct MemoryGroup {
    pub name: String,
    /// The path of an existing cgroup, absolute or below a memory cgroup root. `{uid}`, `{pid}` and
    /// `{pkg}` stand for the process at hand.
    pub path: String,
    pub swappiness: Option<u8>,
    pub memory_min: Option<String>,
    pub memory_low: Option<String>,
    pub memory_high: Option<String>,
    pub memory_max: Option<String>,
    pub oom_group: Option<bool>,
}

/// What threads whose name matches a pattern get.
#[derive(Clone)]
pub struct ThreadTuneRule {
    /// A shell pattern; a plain name matches itself.
    pub pattern: String,
    pub uclamp_min: Option<u16>,
    pub uclamp_max: Option<u16>,
    pub nice: Option<i8>,
}

/// The tuning of one application.
#[derive(Clone)]
pub struct AppTuneRule {
    pub pkg: String,
    pub memory_group: Option<String>,
    pub threads: Vec<ThreadTuneRule>,
}

/// The tuning document.
#[derive(Clone)]
pub struct TuningConfig {
    pub memory_groups: Vec<MemoryGroup>,
    pub apps: Vec<AppTuneRule>,
}

/// What a `MemoryGroup` holds.
#[verifier::ext_equal]
pub struct GroupV {
    pub name: Seq<char>,
    pub path: Seq<char>,
    pub swappiness: Option<int>,
    pub memory_min: Option<Seq<char>>,
    pub memory_low: Option<Seq<char>>,
    pub memory_high: Option<Seq<char>>,
    pub memory_max: Option<Seq<char>>,
    pub oom_group: Option<bool>,
}

/// What a `ThreadTuneRule` holds.
#[verifier::ext_equal]
pub struct RuleV {
    pub pattern: Seq<char>,
    pub uclamp_min: Option<int>,
    pub uclamp_max: Option<int>,
    pub nice: Option<int>,
}

/// What an `AppTuneRule` holds.
#[verifier::ext_equal]
pub struct AppV {
    pub pkg: Seq<char>,
    pub memory_group: Option<Seq<char>>,
    pub threads: Seq<RuleV>,
}

/// What a `TuningConfig` holds.
#[verifier::ext_equal]
pub struct ConfigV {
    pub memory_groups: Seq<GroupV>,
    pub apps: Seq<AppV>,
}

pub open spec fn text_in(s: Option<String>) -> Option<Seq<char>> {
    match s {
        Some(t) => Some(t@),
        None => None,
    }
}

impl View for MemoryGroup {
    type V = GroupV;

    open spec fn view(&self) -> GroupV {
        GroupV {
            name: self.name@,
            path: self.path@,
            swappiness: match self.swappiness {
                Some(n) => Some(n as int),
                None => None,
            },
            memory_min: text_in(self.memory_min),
            memory_low: text_in(self.memory_low),
            memory_high: text_in(self.memory_high),
            memory_max: text_in(self.memory_max),
            oom_group: self.oom_group,
        }
    }
}

impl View for ThreadTuneRule {
    type V = RuleV;

    open spec fn view(&self) -> RuleV {
        RuleV {
            pattern: self.pattern@,
            uclamp_min: match self.uclamp_min {
                Some(n) => Some(n as int),
                None => None,
            },
            uclamp_max: match self.uclamp_max {
                Some(n) => Some(n as int),
                None => None,
            },
            nice: match self.nice {
                Some(n) => Some(n as int),
                None => None,
            },
        }
    }
}

impl View for AppTuneRule {
    type V = AppV;

    open spec fn view(&self) -> AppV {
        AppV {
            pkg: self.pkg@,
            memory_group: text_in(self.memory_group),
            threads: rule_views(self.threads@),
        }
    }
}

impl View for TuningConfig {
    type V = ConfigV;

    open spec fn view(&self) -> ConfigV {
        ConfigV {
            memory_groups: group_views(self.memory_groups@),
            apps: app_views(self.apps@),
        }
    }
}

pub open spec fn rule_views(v: Seq<ThreadTuneRule>) -> Seq<RuleV> {
    Seq::new(v.len(), |i: int| v[i]@)
}

pub open spec fn group_views(v: Seq<MemoryGroup>) -> Seq<GroupV> {
    Seq::new(v.len(), |i: int| v[i]@)
}

pub open spec fn app_views(v: Seq<AppTuneRule>) -> Seq<AppV> {
    Seq::new(v.len(), |i: int| v[i]@)
}

impl Default for MemoryGroup {
    /// A group without a name, a path or limits.
    fn default() -> (r: MemoryGroup)
        ensures
            r@ == (GroupV {
                name: seq![],
                path: seq![],
                swappiness: None,
                memory_min: None,
                memory_low: None,
                memory_high: None,
                memory_max: None,
                oom_group: None,
            }),
    {
        let r = MemoryGroup {
            name: String::new(),
            path: String::new(),
            swappiness: None,
            memory_min: None,
            memory_low: None,
            memory_high: None,
            memory_max: None,
            oom_group: None,
        };
        assert(r@.name =~= seq![]);
        assert(r@.path =~= seq![]);
        r
    }
}

impl Default for ThreadTuneRule {
    /// A rule without a pattern that gives nothing.
    fn default() -> (r: ThreadTuneRule)
        ensures
            r@ == (RuleV { pattern: seq![], uclamp_min: None, uclamp_max: None, nice: None }),
    {
        let r = ThreadTuneRule {
            pattern: String::new(),
            uclamp_min: None,
            uclamp_max: None,
            nice: None,
        };
        assert(r@.pattern =~= seq![]);
        r
    }
}

impl Default for AppTuneRule {
    /// An application without a name that gets nothing.
    fn default() -> (r: AppTuneRule)
        ensures
            r@ == (AppV { pkg: seq![], memory_group: None, threads: seq![] }),
    {
        let r = AppTuneRule { pkg: String::new(), memory_group: None, threads: Vec::new() };
        assert(r@.pkg =~= seq![]);
        assert(r@.threads =~= seq![]);
        r
    }
}

impl Default for TuningConfig {
    fn default() -> (r: TuningConfig)
        ensures
            r@ == (ConfigV { memory_groups: seq![], apps: seq![] }),
    {
        let r = TuningConfig { memory_groups: Vec::new(), apps: Vec::new() };
        assert(r@.memory_groups =~= seq![]);
        assert(r@.apps =~= seq![]);
        r
    }
}

// Names and paths.

/// Whether `s`, trimmed, can be a name in a rule file: neither empty nor as long as `max` bytes,
/// without control characters, and without the marks of a comment.
pub open spec fn token(s: Seq<char>, max: int) -> bool {
    let t = trim(s);
    &&& t.len() > 0
    &&& byte_len(t) < max
    &&& !has_control(t)
    &&& !t.contains('#')
    &&& !occurs(t, "//"@)
}

pub fn plain_token_ok(value: &str, max_len: usize) -> (r: bool)
    ensures
        r == token(value@, max_len as int),
{
    let t = trimmed_str(value);
    t.len() > 0 && bytes_below(t.as_slice(), max_len) && !with_control(t.as_slice()) && !has_char(
        t.as_slice(),
        '#',
    ) && !has_str(t.as_slice(), "//")
}

/// Whether `s` can name a package.
pub open spec fn package_name(s: Seq<char>) -> bool {
    &&& token(s, MAX_PKG_LEN as int)
    &&& !s.contains('{')
    &&& !s.contains('}')
    &&& !s.contains('\\')
    &&& !s.contains('/')
}

pub fn package_name_ok(value: &str) -> (r: bool)
    ensures
        r == package_name(value@),
{
    let s = chars_of(value);
    plain_token_ok(value, MAX_PKG_LEN) && !has_char(s.as_slice(), '{') && !has_char(
        s.as_slice(),
        '}',
    ) && !has_char(s.as_slice(), '\\') && !has_char(s.as_slice(), '/')
}

pub open spec fn group_char(c: char) -> bool {
    ||| '0' <= c <= '9'
    ||| 'a' <= c <= 'z'
    ||| 'A' <= c <= 'Z'
    ||| c == '.'
    ||| c == '_'
    ||| c == '-'
}

/// Whether `s` can name a memory group.
pub open spec fn group_name(s: Seq<char>) -> bool {
    token(s, 64) && forall|i: int| 0 <= i < s.len() ==> group_char(#[trigger] s[i])
}

pub fn group_name_ok(value: &str) -> (r: bool)
    ensures
        r == group_name(value@),
{
    let s = chars_of(value);
    let mut i: usize = 0;
    while i < s.len()
        invariant
            i <= s@.len(),
            s@ == value@,
            forall|k: int| 0 <= k < i ==> group_char(#[trigger] s@[k]),
        decreases s@.len() - i,
    {
        let c = s[i];
        if !(('0' <= c && c <= '9') || ('a' <= c && c <= 'z') || ('A' <= c && c <= 'Z') || c == '.'
            || c == '_' || c == '-') {
            assert(!group_char(value@[i as int]));
            return false;
        }
        i += 1;
    }
    plain_token_ok(value, 64)
}

/// Whether `s` can match the name of a thread, which has at most 15 bytes.
pub open spec fn thread_pattern(s: Seq<char>) -> bool {
    byte_len(s) <= 15 && token(s, MAX_THREAD_LEN as int) && !s.contains('\0')
}

pub fn thread_pattern_ok(value: &str) -> (r: bool)
    ensures
        r == thread_pattern(value@),
{
    let s = chars_of(value);
    bytes_below(s.as_slice(), 16) && plain_token_ok(value, MAX_THREAD_LEN) && !has_char(
        s.as_slice(),
        '\0',
    )
}

/// The path with the names of the process in it replaced by a letter.
pub open spec fn markers_filled(s: Seq<char>) -> Seq<char> {
    replaced(replaced(replaced(s, "{uid}"@, "x"@), "{pid}"@, "x"@), "{pkg}"@, "x"@)
}

/// Whether `s`, trimmed, can be the path of a memory group: it stays below a cgroup root, and its
/// braces are those of the names that are filled in.
pub open spec fn cgroup_template(s: Seq<char>) -> bool {
    let t = trim(s);
    let filled = markers_filled(t);
    &&& t.len() > 0
    &&& byte_len(t) < 256
    &&& !has_control(t)
    &&& !t.contains('\\')
    &&& !filled.contains('{')
    &&& !filled.contains('}')
    &&& begins(t, "/"@) ==> begins(t, "/dev/memcg/"@) || begins(t, "/sys/fs/cgroup/"@)
    &&& forall|i: int|
        0 <= i < split_on(t, '/').len() ==> (#[trigger] split_on(t, '/')[i]) != "."@ && split_on(
            t,
            '/',
        )[i] != ".."@
}

fn fill_markers(t: &[char]) -> (r: Vec<char>)
    ensures
        r@ == markers_filled(t@),
{
    proof {
        reveal_strlit("{uid}");
        reveal_strlit("{pid}");
        reveal_strlit("{pkg}");
    }
    let x = chars_of("x");
    let a = replace_str(t, "{uid}", x.as_slice());
    let b = replace_str(a.as_slice(), "{pid}", x.as_slice());
    replace_str(b.as_slice(), "{pkg}", x.as_slice())
}

pub fn cgroup_template_ok(value: &str) -> (r: bool)
    ensures
        r == cgroup_template(value@),
{
    let v = trimmed_str(value);
    let t = v.as_slice();
    if t.len() == 0 || !bytes_below(t, 256) || with_control(t) || has_char(t, '\\') {
        return false;
    }
    let filled = fill_markers(t);
    if has_char(filled.as_slice(), '{') || has_char(filled.as_slice(), '}') {
        return false;
    }
    if begins_str(t, "/") && !begins_str(t, "/dev/memcg/") && !begins_str(t, "/sys/fs/cgroup/") {
        return false;
    }
    let parts = split_pieces(t, '/');
    let ghost want = split_on(t@, '/');
    let mut i: usize = 0;
    while i < parts.len()
        invariant
            i <= parts@.len(),
            views(parts@) == want,
            want.len() == parts@.len(),
            forall|k: int| 0 <= k < i ==> (#[trigger] want[k]) != "."@ && want[k] != ".."@,
            want == split_on(trim(value@), '/'),
        decreases parts@.len() - i,
    {
        assert(want[i as int] == parts@[i as int]@);
        if same_str(parts[i].as_slice(), ".") || same_str(parts[i].as_slice(), "..") {
            return false;
        }
        i += 1;
    }
    true
}

// Reading the document.

/// The text in field `name`, trimmed; nothing if it is missing, null or empty.
pub open spec fn text_field(v: JsonV, name: Seq<char>, max: int) -> Result<
    Option<Seq<char>>,
    Seq<char>,
> {
    match field(v, name) {
        None => Ok(None),
        Some(JsonV::Null) => Ok(None),
        Some(JsonV::Text(s)) => {
            let t = trim(s);
            if t.len() == 0 {
                Ok(None)
            } else if byte_len(t) >= max || has_control(t) {
                Err(name + " 格式无效"@)
            } else {
                Ok(Some(t))
            }
        },
        Some(_) => Err(name + " 必须是字符串"@),
    }
}

/// Whether a text, or the words of an error, is what a specification says.
pub open spec fn text_result(
    r: Result<Option<String>, String>,
    want: Result<Option<Seq<char>>, Seq<char>>,
) -> bool {
    match want {
        Ok(t) => r matches Ok(s) && text_in(s) == t,
        Err(e) => r matches Err(f) && f@ == e,
    }
}

fn optional_string(value: &Json, name: &str, max_len: usize) -> (r: Result<Option<String>, String>)
    ensures
        text_result(r, text_field(value@, name@, max_len as int)),
{
    let found = match value.get(name) {
        None => {
            return Ok(None);
        },
        Some(j) => j,
    };
    if found.is_null() {
        return Ok(None);
    }
    let raw = match found.as_str() {
        None => {
            return Err(text2(name, " 必须是字符串"));
        },
        Some(s) => s,
    };
    let t = trimmed_str(raw);
    if t.len() == 0 {
        return Ok(None);
    }
    if !bytes_below(t.as_slice(), max_len) || with_control(t.as_slice()) {
        return Err(text2(name, " 格式无效"));
    }
    Ok(Some(string_of(t.as_slice())))
}

/// The whole number in field `name`, from 0 to `max`; nothing if it is missing or null.
pub open spec fn unsigned_field(v: JsonV, name: Seq<char>, max: int) -> Result<
    Option<int>,
    Seq<char>,
> {
    match field(v, name) {
        None => Ok(None),
        Some(JsonV::Null) => Ok(None),
        Some(w) => match unsigned_in(w) {
            None => Err(name + " 必须是整数"@),
            Some(n) => if n > max {
                Err(name + " 超出范围"@)
            } else {
                Ok(Some(n))
            },
        },
    }
}

fn optional_u64(value: &Json, name: &str, max: u64) -> (r: Result<Option<u64>, String>)
    ensures
        match unsigned_field(value@, name@, max as int) {
            Ok(None) => r == Ok::<Option<u64>, String>(None),
            Ok(Some(n)) => r matches Ok(Some(m)) && m == n && m <= max,
            Err(e) => r matches Err(f) && f@ == e,
        },
{
    let found = match value.get(name) {
        None => {
            return Ok(None);
        },
        Some(j) => j,
    };
    if found.is_null() {
        return Ok(None);
    }
    match found.as_u64() {
        None => Err(text2(name, " 必须是整数")),
        Some(n) => if n > max {
            Err(text2(name, " 超出范围"))
        } else {
            Ok(Some(n))
        },
    }
}

/// The whole number in field `name`, from `min` to `max`; nothing if it is missing or null.
pub open spec fn signed_field(v: JsonV, name: Seq<char>, min: int, max: int) -> Result<
    Option<int>,
    Seq<char>,
> {
    match field(v, name) {
        None => Ok(None),
        Some(JsonV::Null) => Ok(None),
        Some(w) => match signed_in(w) {
            None => Err(name + " 必须是整数"@),
            Some(n) => if n < min || n > max {
                Err(name + " 超出范围"@)
            } else {
                Ok(Some(n))
            },
        },
    }
}

fn optional_i64(value: &Json, name: &str, min: i64, max: i64) -> (r: Result<Option<i64>, String>)
    ensures
        match signed_field(value@, name@, min as int, max as int) {
            Ok(None) => r == Ok::<Option<i64>, String>(None),
            Ok(Some(n)) => r matches Ok(Some(m)) && m == n && min <= m <= max,
            Err(e) => r matches Err(f) && f@ == e,
        },
{
    let found = match value.get(name) {
        None => {
            return Ok(None);
        },
        Some(j) => j,
    };
    if found.is_null() {
        return Ok(None);
    }
    match found.as_i64() {
        None => Err(text2(name, " 必须是整数")),
        Some(n) => if n < min || n > max {
            Err(text2(name, " 超出范围"))
        } else {
            Ok(Some(n))
        },
    }
}

pub const KIB: u64 = 0x400;

pub const MIB: u64 = 0x10_0000;

pub const GIB: u64 = 0x4000_0000;

pub const TIB: u64 = 0x100_0000_0000;

/// How many bytes the unit behind a number of bytes stands for, and how many characters it has.
pub open spec fn unit_of(s: Seq<char>) -> (int, int) {
    if ends(s, "tib"@) {
        (TIB as int, 3)
    } else if ends(s, "tb"@) {
        (TIB as int, 2)
    } else if ends(s, "t"@) {
        (TIB as int, 1)
    } else if ends(s, "gib"@) {
        (GIB as int, 3)
    } else if ends(s, "gb"@) {
        (GIB as int, 2)
    } else if ends(s, "g"@) {
        (GIB as int, 1)
    } else if ends(s, "mib"@) {
        (MIB as int, 3)
    } else if ends(s, "mb"@) {
        (MIB as int, 2)
    } else if ends(s, "m"@) {
        (MIB as int, 1)
    } else if ends(s, "kib"@) {
        (KIB as int, 3)
    } else if ends(s, "kb"@) {
        (KIB as int, 2)
    } else if ends(s, "k"@) {
        (KIB as int, 1)
    } else {
        (1, 0)
    }
}

fn memory_unit(s: &[char]) -> (r: (u64, usize))
    ensures
        r.0 as int == unit_of(s@).0,
        r.1 as int == unit_of(s@).1,
        r.1 <= s@.len(),
        1 <= r.0,
{
    proof {
        reveal_strlit("tib");
        reveal_strlit("tb");
        reveal_strlit("t");
        reveal_strlit("gib");
        reveal_strlit("gb");
        reveal_strlit("g");
        reveal_strlit("mib");
        reveal_strlit("mb");
        reveal_strlit("m");
        reveal_strlit("kib");
        reveal_strlit("kb");
        reveal_strlit("k");
    }
    if ends_str(s, "tib") {
        (TIB, 3)
    } else if ends_str(s, "tb") {
        (TIB, 2)
    } else if ends_str(s, "t") {
        (TIB, 1)
    } else if ends_str(s, "gib") {
        (GIB, 3)
    } else if ends_str(s, "gb") {
        (GIB, 2)
    } else if ends_str(s, "g") {
        (GIB, 1)
    } else if ends_str(s, "mib") {
        (MIB, 3)
    } else if ends_str(s, "mb") {
        (MIB, 2)
    } else if ends_str(s, "m") {
        (MIB, 1)
    } else if ends_str(s, "kib") {
        (KIB, 3)
    } else if ends_str(s, "kb") {
        (KIB, 2)
    } else if ends_str(s, "k") {
        (KIB, 1)
    } else {
        (1, 0)
    }
}

/// The number of bytes that `s` states, such as `512M` or `1GiB`, as plain digits; `max` where it
/// is allowed.
pub open spec fn limit_of(s: Seq<char>, name: Seq<char>, allow_max: bool) -> Result<
    Seq<char>,
    Seq<char>,
> {
    let raw = lower(s);
    if raw == "max"@ {
        if allow_max {
            Ok("max"@)
        } else {
            Err(name + " 不支持 max"@)
        }
    } else {
        let (unit, n) = unit_of(raw);
        let digits = raw.take(raw.len() - n);
        if digits.len() == 0 || !all_digits(digits) {
            Err(name + " 应为字节数或 512M / 1G 形式"@)
        } else if digits_value(digits) * unit > u64::MAX {
            Err(name + " 数值过大"@)
        } else {
            Ok(decimal((digits_value(digits) * unit) as nat))
        }
    }
}

/// The memory limit in field `name`; nothing if it is missing, null or empty.
pub open spec fn limit_field(v: JsonV, name: Seq<char>, allow_max: bool) -> Result<
    Option<Seq<char>>,
    Seq<char>,
> {
    match text_field(v, name, 64) {
        Err(e) => Err(e),
        Ok(None) => Ok(None),
        Ok(Some(s)) => match limit_of(s, name, allow_max) {
            Ok(t) => Ok(Some(t)),
            Err(e) => Err(e),
        },
    }
}

fn memory_limit(value: &Json, name: &str, allow_max: bool) -> (r: Result<Option<String>, String>)
    ensures
        text_result(r, limit_field(value@, name@, allow_max)),
{
    let text = match optional_string(value, name, 64) {
        Err(e) => {
            return Err(e);
        },
        Ok(None) => {
            return Ok(None);
        },
        Ok(Some(s)) => s,
    };
    let given = chars_of(text.as_str());
    let raw = lowered(given.as_slice());
    if same_str(raw.as_slice(), "max") {
        if allow_max {
            return Ok(Some("max".to_owned()));
        }
        return Err(text2(name, " 不支持 max"));
    }
    let (unit, n) = memory_unit(raw.as_slice());
    let k: usize = raw.len() - n;
    let digits = crate::text::piece(raw.as_slice(), 0, k);
    proof {
        assert(digits@ =~= raw@.take(k as int));
    }
    if digits.len() == 0 || !only_digits(digits.as_slice()) {
        return Err(text2(name, " 应为字节数或 512M / 1G 形式"));
    }
    let ghost value_of = digits_value(digits@);
    match parse_digits(digits.as_slice()) {
        None => {
            proof {
                assert(value_of * unit >= value_of) by (nonlinear_arith)
                    requires
                        unit >= 1,
                        value_of >= 0,
                ;
            }
            Err(text2(name, " 数值过大"))
        },
        Some(count) => match count.checked_mul(unit) {
            None => Err(text2(name, " 数值过大")),
            Some(bytes) => {
                let out = decimal_u64(bytes);
                Ok(Some(string_of(out.as_slice())))
            },
        },
    }
}

/// The text in field `name`, trimmed, if there is one.
pub open spec fn named_text(v: JsonV, name: Seq<char>) -> Option<Seq<char>> {
    match field(v, name) {
        Some(JsonV::Text(s)) => Some(trim(s)),
        _ => None,
    }
}

pub fn trimmed_field(value: &Json, name: &str) -> (r: Option<String>)
    ensures
        text_in(r) == named_text(value@, name@),
{
    match value.get(name) {
        None => None,
        Some(j) => match j.as_str() {
            None => None,
            Some(s) => {
                let t = trimmed_str(s);
                Some(string_of(t.as_slice()))
            },
        },
    }
}

/// The memory group that `v` states, or what is wrong with it.
pub open spec fn group_of(v: JsonV) -> Result<GroupV, Seq<char>> {
    if !(v is Object) {
        Err("内存组必须是对象"@)
    } else {
        match named_text(v, "name"@) {
            Some(name) => if !group_name(name) {
                Err("内存组 name 无效"@)
            } else {
                match named_text(v, "path"@) {
                    Some(path) => if !cgroup_template(path) {
                        Err("内存组 "@ + name + " 的 path 无效"@)
                    } else {
                        group_limits(v, name, path)
                    },
                    None => Err("内存组 "@ + name + " 的 path 无效"@),
                }
            },
            None => Err("内存组 name 无效"@),
        }
    }
}

/// The rest of a memory group, behind its name and path.
pub open spec fn group_limits(v: JsonV, name: Seq<char>, path: Seq<char>) -> Result<
    GroupV,
    Seq<char>,
> {
    match unsigned_field(v, "swappiness"@, 200) {
        Err(e) => Err(e),
        Ok(swappiness) => match limit_field(v, "memory_min"@, false) {
            Err(e) => Err(e),
            Ok(memory_min) => match limit_field(v, "memory_low"@, false) {
                Err(e) => Err(e),
                Ok(memory_low) => match limit_field(v, "memory_high"@, false) {
                    Err(e) => Err(e),
                    Ok(memory_high) => match limit_field(v, "memory_max"@, true) {
                        Err(e) => Err(e),
                        Ok(memory_max) => match at(v, "oom_group"@) {
                            JsonV::Null => Ok(
                                GroupV {
                                    name,
                                    path,
                                    swappiness,
                                    memory_min,
                                    memory_low,
                                    memory_high,
                                    memory_max,
                                    oom_group: None,
                                },
                            ),
                            JsonV::Bool(b) => Ok(
                                GroupV {
                                    name,
                                    path,
                                    swappiness,
                                    memory_min,
                                    memory_low,
                                    memory_high,
                                    memory_max,
                                    oom_group: Some(b),
                                },
                            ),
                            _ => Err("内存组 "@ + name + " 的 oom_group 必须是布尔值"@),
                        },
                    },
                },
            },
        },
    }
}

fn memory_group_from_value(value: &Json) -> (r: Result<MemoryGroup, String>)
    ensures
        match group_of(value@) {
            Ok(g) => r matches Ok(m) && m@ == g,
            Err(e) => r matches Err(f) && f@ == e,
        },
{
    if !value.is_object() {
        return Err("内存组必须是对象".to_owned());
    }
    let name = match trimmed_field(value, "name") {
        None => {
            return Err("内存组 name 无效".to_owned());
        },
        Some(s) => s,
    };
    if !group_name_ok(name.as_str()) {
        return Err("内存组 name 无效".to_owned());
    }
    let path = match trimmed_field(value, "path") {
        None => {
            return Err(text3("内存组 ", name.as_str(), " 的 path 无效"));
        },
        Some(s) => s,
    };
    if !cgroup_template_ok(path.as_str()) {
        return Err(text3("内存组 ", name.as_str(), " 的 path 无效"));
    }
    let swappiness: Option<u8> = match optional_u64(value, "swappiness", 200) {
        Err(e) => {
            return Err(e);
        },
        Ok(None) => None,
        Ok(Some(n)) => Some(n as u8),
    };
    let memory_min = match memory_limit(value, "memory_min", false) {
        Err(e) => {
            return Err(e);
        },
        Ok(t) => t,
    };
    let memory_low = match memory_limit(value, "memory_low", false) {
        Err(e) => {
            return Err(e);
        },
        Ok(t) => t,
    };
    let memory_high = match memory_limit(value, "memory_high", false) {
        Err(e) => {
            return Err(e);
        },
        Ok(t) => t,
    };
    let memory_max = match memory_limit(value, "memory_max", true) {
        Err(e) => {
            return Err(e);
        },
        Ok(t) => t,
    };
    let mut oom_group: Option<bool> = None;
    match value.get("oom_group") {
        None => {},
        Some(j) => if !j.is_null() {
            match j.as_bool() {
                Some(b) => {
                    oom_group = Some(b);
                },
                None => {
                    return Err(text3("内存组 ", name.as_str(), " 的 oom_group 必须是布尔值"));
                },
            }
        },
    }
    Ok(
        MemoryGroup {
            name,
            path,
            swappiness,
            memory_min,
            memory_low,
            memory_high,
            memory_max,
            oom_group,
        },
    )
}

pub open spec fn pattern_refused() -> Seq<char> {
    "线程 pattern 无效（task comm 最长通常为 15 字节）"@
}

/// The thread rule that `v` states, or what is wrong with it.
pub open spec fn rule_of(v: JsonV) -> Result<RuleV, Seq<char>> {
    if !(v is Object) {
        Err("线程规则必须是对象"@)
    } else {
        match named_text(v, "pattern"@) {
            None => Err(pattern_refused()),
            Some(pattern) => if !thread_pattern(pattern) {
                Err(pattern_refused())
            } else {
                match unsigned_field(v, "uclamp_min"@, 1024) {
                    Err(e) => Err(e),
                    Ok(uclamp_min) => match unsigned_field(v, "uclamp_max"@, 1024) {
                        Err(e) => Err(e),
                        Ok(uclamp_max) => match signed_field(v, "nice"@, -20, 19) {
                            Err(e) => Err(e),
                            Ok(nice) => if uclamp_min is None && uclamp_max is None && nice is None {
                                Err("线程 "@ + pattern + " 没有设置任何调优参数"@)
                            } else if crossed(uclamp_min, uclamp_max) {
                                Err("线程 "@ + pattern + " 的 UCLAMP min 不能大于 max"@)
                            } else {
                                Ok(RuleV { pattern, uclamp_min, uclamp_max, nice })
                            },
                        },
                    },
                }
            },
        }
    }
}

/// Whether both bounds are given and the lower one is above the upper one.
pub open spec fn crossed(min: Option<int>, max: Option<int>) -> bool {
    min matches Some(a) && max matches Some(b) && a > b
}

fn clamp_field(value: &Json, name: &str) -> (r: Result<Option<u16>, String>)
    ensures
        match unsigned_field(value@, name@, 1024) {
            Ok(None) => r == Ok::<Option<u16>, String>(None),
            Ok(Some(n)) => r matches Ok(Some(m)) && m == n,
            Err(e) => r matches Err(f) && f@ == e,
        },
{
    match optional_u64(value, name, 1024) {
        Err(e) => Err(e),
        Ok(None) => Ok(None),
        Ok(Some(n)) => Ok(Some(n as u16)),
    }
}

fn thread_rule_from_value(value: &Json) -> (r: Result<ThreadTuneRule, String>)
    ensures
        match rule_of(value@) {
            Ok(t) => r matches Ok(m) && m@ == t,
            Err(e) => r matches Err(f) && f@ == e,
        },
{
    if !value.is_object() {
        return Err("线程规则必须是对象".to_owned());
    }
    let pattern = match trimmed_field(value, "pattern") {
        None => {
            return Err("线程 pattern 无效（task comm 最长通常为 15 字节）".to_owned());
        },
        Some(s) => s,
    };
    if !thread_pattern_ok(pattern.as_str()) {
        return Err("线程 pattern 无效（task comm 最长通常为 15 字节）".to_owned());
    }
    let uclamp_min = match clamp_field(value, "uclamp_min") {
        Err(e) => {
            return Err(e);
        },
        Ok(n) => n,
    };
    let uclamp_max = match clamp_field(value, "uclamp_max") {
        Err(e) => {
            return Err(e);
        },
        Ok(n) => n,
    };
    let nice: Option<i8> = match optional_i64(value, "nice", -20, 19) {
        Err(e) => {
            return Err(e);
        },
        Ok(None) => None,
        Ok(Some(n)) => Some(n as i8),
    };
    if uclamp_min.is_none() && uclamp_max.is_none() && nice.is_none() {
        return Err(text3("线程 ", pattern.as_str(), " 没有设置任何调优参数"));
    }
    if let (Some(min), Some(max)) = (uclamp_min, uclamp_max) {
        if min > max {
            return Err(text3("线程 ", pattern.as_str(), " 的 UCLAMP min 不能大于 max"));
        }
    }
    Ok(ThreadTuneRule { pattern, uclamp_min, uclamp_max, nice })
}

/// The thread rules that the first `n` of `items` state, or what is wrong with the first wrong one.
pub open spec fn rules_of_list(items: Seq<JsonV>, n: int) -> Result<Seq<RuleV>, Seq<char>>
    decreases n,
{
    if n <= 0 {
        Ok(seq![])
    } else {
        match rules_of_list(items, n - 1) {
            Err(e) => Err(e),
            Ok(done) => match rule_of(items[n - 1]) {
                Err(e) => Err(e),
                Ok(r) => Ok(done.push(r)),
            },
        }
    }
}

proof fn lemma_rules_stuck(items: Seq<JsonV>, i: int, n: int)
    requires
        0 <= i <= n,
        rules_of_list(items, i) is Err,
    ensures
        rules_of_list(items, n) == rules_of_list(items, i),
    decreases n - i,
{
    if i < n {
        lemma_rules_stuck(items, i, n - 1);
    }
}

fn thread_rules(items: &Vec<Json>) -> (r: Result<Vec<ThreadTuneRule>, String>)
    ensures
        match rules_of_list(list_view(items@), items@.len() as int) {
            Ok(t) => r matches Ok(m) && rule_views(m@) == t,
            Err(e) => r matches Err(f) && f@ == e,
        },
{
    let mut out: Vec<ThreadTuneRule> = Vec::new();
    let mut i: usize = 0;
    let ghost all = list_view(items@);
    assert(rule_views(out@) =~= seq![]);
    while i < items.len()
        invariant
            i <= items@.len(),
            all == list_view(items@),
            rules_of_list(all, i as int) == Ok::<Seq<RuleV>, Seq<char>>(rule_views(out@)),
        decreases items@.len() - i,
    {
        assert(all[i as int] == items@[i as int]@);
        match thread_rule_from_value(&items[i]) {
            Err(e) => {
                proof {
                    lemma_rules_stuck(all, i + 1, items@.len() as int);
                }
                return Err(e);
            },
            Ok(t) => {
                assert(rule_views(out@.push(t)) =~= rule_views(out@).push(t@));
                out.push(t);
            },
        }
        i += 1;
    }
    Ok(out)
}

/// The tuning of an application that `v` states, or what is wrong with it.
pub open spec fn app_of(v: JsonV) -> Result<AppV, Seq<char>> {
    if !(v is Object) {
        Err("应用调优必须是对象"@)
    } else {
        match named_text(v, "pkg"@) {
            None => Err("应用 pkg 无效"@),
            Some(pkg) => if !package_name(pkg) {
                Err("应用 pkg 无效"@)
            } else {
                match group_ref(v, pkg) {
                    Err(e) => Err(e),
                    Ok(memory_group) => match app_threads(v, pkg) {
                        Err(e) => Err(e),
                        Ok(threads) => if memory_group is None && threads.len() == 0 {
                            Err("应用 "@ + pkg + " 至少要关联内存组或添加一条线程规则"@)
                        } else {
                            Ok(AppV { pkg, memory_group, threads })
                        },
                    },
                }
            },
        }
    }
}

/// The memory group that an application names, if any.
pub open spec fn group_ref(v: JsonV, pkg: Seq<char>) -> Result<Option<Seq<char>>, Seq<char>> {
    match at(v, "memory_group"@) {
        JsonV::Null => Ok(None),
        JsonV::Text(s) => if trim(s).len() == 0 {
            Ok(None)
        } else if group_name(trim(s)) {
            Ok(Some(trim(s)))
        } else {
            Err("应用 "@ + pkg + " 的 memory_group 无效"@)
        },
        _ => Err("应用 "@ + pkg + " 的 memory_group 无效"@),
    }
}

/// The thread rules of an application.
pub open spec fn app_threads(v: JsonV, pkg: Seq<char>) -> Result<Seq<RuleV>, Seq<char>> {
    match at(v, "threads"@) {
        JsonV::Null => Ok(seq![]),
        JsonV::List(items) => rules_of_list(items, items.len() as int),
        _ => Err("应用 "@ + pkg + " 的 threads 必须是数组"@),
    }
}

fn app_group(value: &Json, pkg: &str) -> (r: Result<Option<String>, String>)
    ensures
        text_result(r, group_ref(value@, pkg@)),
{
    let found = match value.get("memory_group") {
        None => {
            return Ok(None);
        },
        Some(j) => j,
    };
    if found.is_null() {
        return Ok(None);
    }
    match found.as_str() {
        None => Err(text3("应用 ", pkg, " 的 memory_group 无效")),
        Some(s) => {
            let t = trimmed_str(s);
            if t.len() == 0 {
                return Ok(None);
            }
            let name = string_of(t.as_slice());
            if group_name_ok(name.as_str()) {
                Ok(Some(name))
            } else {
                Err(text3("应用 ", pkg, " 的 memory_group 无效"))
            }
        },
    }
}

fn app_from_value(value: &Json) -> (r: Result<AppTuneRule, String>)
    ensures
        match app_of(value@) {
            Ok(t) => r matches Ok(m) && m@ == t,
            Err(e) => r matches Err(f) && f@ == e,
        },
{
    if !value.is_object() {
        return Err("应用调优必须是对象".to_owned());
    }
    let pkg = match trimmed_field(value, "pkg") {
        None => {
            return Err("应用 pkg 无效".to_owned());
        },
        Some(s) => s,
    };
    if !package_name_ok(pkg.as_str()) {
        return Err("应用 pkg 无效".to_owned());
    }
    let memory_group = match app_group(value, pkg.as_str()) {
        Err(e) => {
            return Err(e);
        },
        Ok(g) => g,
    };
    let mut threads: Vec<ThreadTuneRule> = Vec::new();
    assert(rule_views(threads@) =~= seq![]);
    match value.get("threads") {
        None => {},
        Some(j) => if !j.is_null() {
            match j.as_list() {
                None => {
                    return Err(text3("应用 ", pkg.as_str(), " 的 threads 必须是数组"));
                },
                Some(items) => match thread_rules(items) {
                    Err(e) => {
                        return Err(e);
                    },
                    Ok(t) => {
                        threads = t;
                    },
                },
            }
        },
    }
    assert(rule_views(threads@).len() == threads@.len());
    if memory_group.is_none() && threads.len() == 0 {
        return Err(text3("应用 ", pkg.as_str(), " 至少要关联内存组或添加一条线程规则"));
    }
    Ok(AppTuneRule { pkg, memory_group, threads })
}

/// The memory groups that the first `n` of `items` state, or what is wrong with the first wrong one.
pub open spec fn groups_of_list(items: Seq<JsonV>, n: int) -> Result<Seq<GroupV>, Seq<char>>
    decreases n,
{
    if n <= 0 {
        Ok(seq![])
    } else {
        match groups_of_list(items, n - 1) {
            Err(e) => Err(e),
            Ok(done) => match group_of(items[n - 1]) {
                Err(e) => Err(e),
                Ok(g) => Ok(done.push(g)),
            },
        }
    }
}

proof fn lemma_groups_stuck(items: Seq<JsonV>, i: int, n: int)
    requires
        0 <= i <= n,
        groups_of_list(items, i) is Err,
    ensures
        groups_of_list(items, n) == groups_of_list(items, i),
    decreases n - i,
{
    if i < n {
        lemma_groups_stuck(items, i, n - 1);
    }
}

fn memory_groups_in(items: &Vec<Json>) -> (r: Result<Vec<MemoryGroup>, String>)
    ensures
        match groups_of_list(list_view(items@), items@.len() as int) {
            Ok(t) => r matches Ok(m) && group_views(m@) == t,
            Err(e) => r matches Err(f) && f@ == e,
        },
{
    let mut out: Vec<MemoryGroup> = Vec::new();
    let mut i: usize = 0;
    let ghost all = list_view(items@);
    assert(group_views(out@) =~= seq![]);
    while i < items.len()
        invariant
            i <= items@.len(),
            all == list_view(items@),
            groups_of_list(all, i as int) == Ok::<Seq<GroupV>, Seq<char>>(group_views(out@)),
        decreases items@.len() - i,
    {
        assert(all[i as int] == items@[i as int]@);
        match memory_group_from_value(&items[i]) {
            Err(e) => {
                proof {
                    lemma_groups_stuck(all, i + 1, items@.len() as int);
                }
                return Err(e);
            },
            Ok(t) => {
                assert(group_views(out@.push(t)) =~= group_views(out@).push(t@));
                out.push(t);
            },
        }
        i += 1;
    }
    Ok(out)
}

/// The applications that the first `n` of `items` state, or what is wrong with the first wrong one.
pub open spec fn apps_of_list(items: Seq<JsonV>, n: int) -> Result<Seq<AppV>, Seq<char>>
    decreases n,
{
    if n <= 0 {
        Ok(seq![])
    } else {
        match apps_of_list(items, n - 1) {
            Err(e) => Err(e),
            Ok(done) => match app_of(items[n - 1]) {
                Err(e) => Err(e),
                Ok(a) => Ok(done.push(a)),
            },
        }
    }
}

proof fn lemma_apps_stuck(items: Seq<JsonV>, i: int, n: int)
    requires
        0 <= i <= n,
        apps_of_list(items, i) is Err,
    ensures
        apps_of_list(items, n) == apps_of_list(items, i),
    decreases n - i,
{
    if i < n {
        lemma_apps_stuck(items, i, n - 1);
    }
}

fn apps_in(items: &Vec<Json>) -> (r: Result<Vec<AppTuneRule>, String>)
    ensures
        match apps_of_list(list_view(items@), items@.len() as int) {
            Ok(t) => r matches Ok(m) && app_views(m@) == t,
            Err(e) => r matches Err(f) && f@ == e,
        },
{
    let mut out: Vec<AppTuneRule> = Vec::new();
    let mut i: usize = 0;
    let ghost all = list_view(items@);
    assert(app_views(out@) =~= seq![]);
    while i < items.len()
        invariant
            i <= items@.len(),
            all == list_view(items@),
            apps_of_list(all, i as int) == Ok::<Seq<AppV>, Seq<char>>(app_views(out@)),
        decreases items@.len() - i,
    {
        assert(all[i as int] == items@[i as int]@);
        match app_from_value(&items[i]) {
            Err(e) => {
                proof {
                    lemma_apps_stuck(all, i + 1, items@.len() as int);
                }
                return Err(e);
            },
            Ok(t) => {
                assert(app_views(out@.push(t)) =~= app_views(out@).push(t@));
                out.push(t);
            },
        }
        i += 1;
    }
    Ok(out)
}

/// Whether one of the first `n` groups has the name.
pub open spec fn group_named(groups: Seq<GroupV>, n: int, name: Seq<char>) -> bool {
    exists|j: int| 0 <= j < n && (#[trigger] groups[j]).name == name
}

/// Whether one of the first `n` applications is the package.
pub open spec fn app_named(apps: Seq<AppV>, n: int, pkg: Seq<char>) -> bool {
    exists|j: int| 0 <= j < n && (#[trigger] apps[j]).pkg == pkg
}

/// What is wrong with the first of the first `n` groups whose name another one before it has.
pub open spec fn groups_wrong(groups: Seq<GroupV>, n: int) -> Option<Seq<char>>
    decreases n,
{
    if n <= 0 {
        None
    } else {
        match groups_wrong(groups, n - 1) {
            Some(e) => Some(e),
            None => if group_named(groups, n - 1, groups[n - 1].name) {
                Some("内存组 "@ + groups[n - 1].name + " 重复"@)
            } else {
                None
            },
        }
    }
}

/// What is wrong with the first of the first `n` applications that another one before it repeats,
/// or whose memory group is not there.
pub open spec fn apps_wrong(apps: Seq<AppV>, groups: Seq<GroupV>, n: int) -> Option<Seq<char>>
    decreases n,
{
    if n <= 0 {
        None
    } else {
        match apps_wrong(apps, groups, n - 1) {
            Some(e) => Some(e),
            None => {
                let app = apps[n - 1];
                if app_named(apps, n - 1, app.pkg) {
                    Some("应用 "@ + app.pkg + " 重复"@)
                } else {
                    match app.memory_group {
                        Some(g) => if group_named(groups, groups.len() as int, g) {
                            None
                        } else {
                            Some("应用 "@ + app.pkg + " 引用了不存在的内存组 "@ + g)
                        },
                        None => None,
                    }
                }
            },
        }
    }
}

/// The tuning document that `v` states, or what is wrong with it.
pub open spec fn config_of(v: JsonV) -> Result<ConfigV, Seq<char>> {
    if !(v is Object) {
        Err("调优配置必须是 JSON 对象"@)
    } else {
        match list_of_groups(v) {
            Err(e) => Err(e),
            Ok(memory_groups) => match groups_wrong(memory_groups, memory_groups.len() as int) {
                Some(e) => Err(e),
                None => match list_of_apps(v) {
                    Err(e) => Err(e),
                    Ok(apps) => match apps_wrong(apps, memory_groups, apps.len() as int) {
                        Some(e) => Err(e),
                        None => Ok(ConfigV { memory_groups, apps }),
                    },
                },
            },
        }
    }
}

pub open spec fn list_of_groups(v: JsonV) -> Result<Seq<GroupV>, Seq<char>> {
    match at(v, "memory_groups"@) {
        JsonV::Null => Ok(seq![]),
        JsonV::List(items) => groups_of_list(items, items.len() as int),
        _ => Err("memory_groups 必须是数组"@),
    }
}

pub open spec fn list_of_apps(v: JsonV) -> Result<Seq<AppV>, Seq<char>> {
    match at(v, "apps"@) {
        JsonV::Null => Ok(seq![]),
        JsonV::List(items) => apps_of_list(items, items.len() as int),
        _ => Err("apps 必须是数组"@),
    }
}

proof fn lemma_groups_wrong_stuck(groups: Seq<GroupV>, i: int, n: int)
    requires
        0 <= i <= n,
        groups_wrong(groups, i) is Some,
    ensures
        groups_wrong(groups, n) == groups_wrong(groups, i),
    decreases n - i,
{
    if i < n {
        lemma_groups_wrong_stuck(groups, i, n - 1);
    }
}

proof fn lemma_apps_wrong_stuck(apps: Seq<AppV>, groups: Seq<GroupV>, i: int, n: int)
    requires
        0 <= i <= n,
        apps_wrong(apps, groups, i) is Some,
    ensures
        apps_wrong(apps, groups, n) == apps_wrong(apps, groups, i),
    decreases n - i,
{
    if i < n {
        lemma_apps_wrong_stuck(apps, groups, i, n - 1);
    }
}

fn has_group(groups: &Vec<MemoryGroup>, n: usize, name: &str) -> (r: bool)
    requires
        n <= groups@.len(),
    ensures
        r == group_named(group_views(groups@), n as int, name@),
{
    let mut i: usize = 0;
    let ghost all = group_views(groups@);
    while i < n
        invariant
            i <= n <= groups@.len(),
            all == group_views(groups@),
            forall|j: int| 0 <= j < i ==> (#[trigger] all[j]).name != name@,
        decreases n - i,
    {
        assert(all[i as int] == groups@[i as int]@);
        if equal(groups[i].name.as_str(), name) {
            return true;
        }
        i += 1;
    }
    false
}

fn has_app(apps: &Vec<AppTuneRule>, n: usize, pkg: &str) -> (r: bool)
    requires
        n <= apps@.len(),
    ensures
        r == app_named(app_views(apps@), n as int, pkg@),
{
    let mut i: usize = 0;
    let ghost all = app_views(apps@);
    while i < n
        invariant
            i <= n <= apps@.len(),
            all == app_views(apps@),
            forall|j: int| 0 <= j < i ==> (#[trigger] all[j]).pkg != pkg@,
        decreases n - i,
    {
        assert(all[i as int] == apps@[i as int]@);
        if equal(apps[i].pkg.as_str(), pkg) {
            return true;
        }
        i += 1;
    }
    false
}

fn check_groups(groups: &Vec<MemoryGroup>) -> (r: Option<String>)
    ensures
        text_in(r) == groups_wrong(group_views(groups@), groups@.len() as int),
{
    let mut i: usize = 0;
    let ghost all = group_views(groups@);
    while i < groups.len()
        invariant
            i <= groups@.len(),
            all == group_views(groups@),
            groups_wrong(all, i as int) is None,
        decreases groups@.len() - i,
    {
        assert(all[i as int] == groups@[i as int]@);
        let name = groups[i].name.as_str();
        if has_group(groups, i, name) {
            proof {
                lemma_groups_wrong_stuck(all, i + 1, groups@.len() as int);
            }
            return Some(text3("内存组 ", name, " 重复"));
        }
        i += 1;
    }
    None
}

fn check_apps(apps: &Vec<AppTuneRule>, groups: &Vec<MemoryGroup>) -> (r: Option<String>)
    ensures
        text_in(r) == apps_wrong(
            app_views(apps@),
            group_views(groups@),
            apps@.len() as int,
        ),
{
    let mut i: usize = 0;
    let ghost all = app_views(apps@);
    let ghost known = group_views(groups@);
    assert(known.len() == groups@.len());
    while i < apps.len()
        invariant
            i <= apps@.len(),
            all == app_views(apps@),
            known == group_views(groups@),
            known.len() == groups@.len(),
            apps_wrong(all, known, i as int) is None,
        decreases apps@.len() - i,
    {
        assert(all[i as int] == apps@[i as int]@);
        let pkg = apps[i].pkg.as_str();
        if has_app(apps, i, pkg) {
            proof {
                lemma_apps_wrong_stuck(all, known, i + 1, apps@.len() as int);
            }
            return Some(text3("应用 ", pkg, " 重复"));
        }
        if let Some(group) = &apps[i].memory_group {
            if !has_group(groups, groups.len(), group.as_str()) {
                proof {
                    lemma_apps_wrong_stuck(all, known, i + 1, apps@.len() as int);
                }
                let start = text2("应用 ", pkg);
                return Some(text3(start.as_str(), " 引用了不存在的内存组 ", group.as_str()));
            }
        }
        i += 1;
    }
    None
}

/// Reads a tuning document.
pub fn config_from_value(value: &Json) -> (r: Result<TuningConfig, String>)
    ensures
        match config_of(value@) {
            Ok(c) => r matches Ok(m) && m@ == c,
            Err(e) => r matches Err(f) && f@ == e,
        },
{
    if !value.is_object() {
        return Err("调优配置必须是 JSON 对象".to_owned());
    }
    let mut memory_groups: Vec<MemoryGroup> = Vec::new();
    assert(group_views(memory_groups@) =~= seq![]);
    match value.get("memory_groups") {
        None => {},
        Some(j) => if !j.is_null() {
            match j.as_list() {
                None => {
                    return Err("memory_groups 必须是数组".to_owned());
                },
                Some(items) => match memory_groups_in(items) {
                    Err(e) => {
                        return Err(e);
                    },
                    Ok(t) => {
                        memory_groups = t;
                    },
                },
            }
        },
    }
    assert(group_views(memory_groups@).len() == memory_groups@.len());
    if let Some(e) = check_groups(&memory_groups) {
        return Err(e);
    }
    let mut apps: Vec<AppTuneRule> = Vec::new();
    assert(app_views(apps@) =~= seq![]);
    match value.get("apps") {
        None => {},
        Some(j) => if !j.is_null() {
            match j.as_list() {
                None => {
                    return Err("apps 必须是数组".to_owned());
                },
                Some(items) => match apps_in(items) {
                    Err(e) => {
                        return Err(e);
                    },
                    Ok(t) => {
                        apps = t;
                    },
                },
            }
        },
    }
    assert(app_views(apps@).len() == apps@.len());
    if let Some(e) = check_apps(&apps, &memory_groups) {
        return Err(e);
    }
    Ok(TuningConfig { memory_groups, apps })
}

// Writing the document.

pub open spec fn text_or_null(s: Option<Seq<char>>) -> JsonV {
    match s {
        Some(t) => JsonV::Text(t),
        None => JsonV::Null,
    }
}

pub open spec fn whole_or_null(n: Option<int>) -> JsonV {
    match n {
        Some(k) => JsonV::Whole(k),
        None => JsonV::Null,
    }
}

pub open spec fn bool_or_null(b: Option<bool>) -> JsonV {
    match b {
        Some(k) => JsonV::Bool(k),
        None => JsonV::Null,
    }
}

pub open spec fn group_json(g: GroupV) -> JsonV {
    JsonV::Object(
        Map::<Seq<char>, JsonV>::empty().insert("name"@, JsonV::Text(g.name)).insert(
            "path"@,
            JsonV::Text(g.path),
        ).insert("swappiness"@, whole_or_null(g.swappiness)).insert(
            "memory_min"@,
            text_or_null(g.memory_min),
        ).insert("memory_low"@, text_or_null(g.memory_low)).insert(
            "memory_high"@,
            text_or_null(g.memory_high),
        ).insert("memory_max"@, text_or_null(g.memory_max)).insert(
            "oom_group"@,
            bool_or_null(g.oom_group),
        ),
    )
}

pub open spec fn rule_json(r: RuleV) -> JsonV {
    JsonV::Object(
        Map::<Seq<char>, JsonV>::empty().insert("pattern"@, JsonV::Text(r.pattern)).insert(
            "uclamp_min"@,
            whole_or_null(r.uclamp_min),
        ).insert("uclamp_max"@, whole_or_null(r.uclamp_max)).insert(
            "nice"@,
            whole_or_null(r.nice),
        ),
    )
}

pub open spec fn app_json(a: AppV) -> JsonV {
    JsonV::Object(
        Map::<Seq<char>, JsonV>::empty().insert("pkg"@, JsonV::Text(a.pkg)).insert(
            "memory_group"@,
            text_or_null(a.memory_group),
        ).insert("threads"@, JsonV::List(rules_json(a.threads))),
    )
}

pub open spec fn rules_json(rules: Seq<RuleV>) -> Seq<JsonV> {
    Seq::new(rules.len(), |i: int| rule_json(rules[i]))
}

pub open spec fn groups_json(groups: Seq<GroupV>) -> Seq<JsonV> {
    Seq::new(groups.len(), |i: int| group_json(groups[i]))
}

pub open spec fn apps_json(apps: Seq<AppV>) -> Seq<JsonV> {
    Seq::new(apps.len(), |i: int| app_json(apps[i]))
}

pub open spec fn config_fields(c: ConfigV) -> Map<Seq<char>, JsonV> {
    Map::<Seq<char>, JsonV>::empty().insert("version"@, JsonV::Whole(1)).insert(
        "memory_groups"@,
        JsonV::List(groups_json(c.memory_groups)),
    ).insert("apps"@, JsonV::List(apps_json(c.apps)))
}

/// The document that states a configuration.
pub open spec fn config_json(c: ConfigV) -> JsonV {
    JsonV::Object(config_fields(c))
}

fn memory_group_value(group: &MemoryGroup) -> (r: Json)
    ensures
        r@ == group_json(group@),
{
    let mut fields = no_fields();
    add_field(&mut fields, "name", Json::of_str(group.name.as_str()));
    add_field(&mut fields, "path", Json::of_str(group.path.as_str()));
    add_field(
        &mut fields,
        "swappiness",
        match group.swappiness {
            Some(n) => Json::Unsigned(n as u64),
            None => Json::Null,
        },
    );
    add_field(&mut fields, "memory_min", Json::of_option(&group.memory_min));
    add_field(&mut fields, "memory_low", Json::of_option(&group.memory_low));
    add_field(&mut fields, "memory_high", Json::of_option(&group.memory_high));
    add_field(&mut fields, "memory_max", Json::of_option(&group.memory_max));
    add_field(
        &mut fields,
        "oom_group",
        match group.oom_group {
            Some(b) => Json::Bool(b),
            None => Json::Null,
        },
    );
    Json::Object(fields)
}

fn clamp_value(n: Option<u16>) -> (r: Json)
    ensures
        r@ == (match n {
            Some(k) => JsonV::Whole(k as int),
            None => JsonV::Null,
        }),
{
    match n {
        Some(k) => Json::Unsigned(k as u64),
        None => Json::Null,
    }
}

fn thread_rule_value(rule: &ThreadTuneRule) -> (r: Json)
    ensures
        r@ == rule_json(rule@),
{
    let mut fields = no_fields();
    add_field(&mut fields, "pattern", Json::of_str(rule.pattern.as_str()));
    add_field(&mut fields, "uclamp_min", clamp_value(rule.uclamp_min));
    add_field(&mut fields, "uclamp_max", clamp_value(rule.uclamp_max));
    add_field(
        &mut fields,
        "nice",
        match rule.nice {
            Some(n) => Json::Signed(n as i64),
            None => Json::Null,
        },
    );
    Json::Object(fields)
}

fn app_value(app: &AppTuneRule) -> (r: Json)
    ensures
        r@ == app_json(app@),
{
    let mut threads: Vec<Json> = Vec::new();
    let mut i: usize = 0;
    while i < app.threads.len()
        invariant
            i <= app.threads@.len(),
            threads@.len() == i,
            forall|k: int| 0 <= k < i ==> (#[trigger] threads@[k])@ == rule_json(app.threads@[k]@),
        decreases app.threads@.len() - i,
    {
        threads.push(thread_rule_value(&app.threads[i]));
        i += 1;
    }
    let list = Json::List(threads);
    proof {
        lemma_list_view(list);
        assert(list_view(threads@) =~= rules_json(rule_views(app.threads@)));
    }
    let mut fields = no_fields();
    add_field(&mut fields, "pkg", Json::of_str(app.pkg.as_str()));
    add_field(&mut fields, "memory_group", Json::of_option(&app.memory_group));
    add_field(&mut fields, "threads", list);
    Json::Object(fields)
}

fn config_parts(config: &TuningConfig) -> (r: Vec<(String, Json)>)
    ensures
        fields_map(r@) == config_fields(config@),
{
    let mut groups: Vec<Json> = Vec::new();
    let mut i: usize = 0;
    while i < config.memory_groups.len()
        invariant
            i <= config.memory_groups@.len(),
            groups@.len() == i,
            forall|k: int|
                0 <= k < i ==> (#[trigger] groups@[k])@ == group_json(config.memory_groups@[k]@),
        decreases config.memory_groups@.len() - i,
    {
        groups.push(memory_group_value(&config.memory_groups[i]));
        i += 1;
    }
    let group_list = Json::List(groups);
    let mut apps: Vec<Json> = Vec::new();
    i = 0;
    while i < config.apps.len()
        invariant
            i <= config.apps@.len(),
            apps@.len() == i,
            forall|k: int| 0 <= k < i ==> (#[trigger] apps@[k])@ == app_json(config.apps@[k]@),
        decreases config.apps@.len() - i,
    {
        apps.push(app_value(&config.apps[i]));
        i += 1;
    }
    let app_list = Json::List(apps);
    proof {
        lemma_list_view(group_list);
        lemma_list_view(app_list);
        assert(list_view(groups@) =~= groups_json(group_views(config.memory_groups@)));
        assert(list_view(apps@) =~= apps_json(app_views(config.apps@)));
    }
    let mut fields = no_fields();
    add_field(&mut fields, "version", Json::Unsigned(1));
    add_field(&mut fields, "memory_groups", group_list);
    add_field(&mut fields, "apps", app_list);
    fields
}

/// The document that states a configuration.
pub fn config_value(config: &TuningConfig) -> (r: Json)
    ensures
        r@ == config_json(config@),
{
    Json::Object(config_parts(config))
}

/// Whether a value is neither a list nor an object, and can be written.
pub open spec fn leaf(v: JsonV) -> bool {
    match v {
        JsonV::Null => true,
        JsonV::Bool(_) => true,
        JsonV::Text(_) => true,
        JsonV::Whole(n) => i64::MIN <= n <= u64::MAX,
        _ => false,
    }
}

proof fn lemma_group_plain(g: MemoryGroup, n: int)
    requires
        n >= 1,
    ensures
        plain(group_json(g@), n),
{
    let m = group_json(g@)->Object_0;
    assert forall|k: Seq<char>| #[trigger] m.contains_key(k) implies plain(m[k], n - 1) by {
        assert(leaf(m[k]));
    }
}

proof fn lemma_rule_plain(r: ThreadTuneRule, n: int)
    requires
        n >= 1,
    ensures
        plain(rule_json(r@), n),
{
    let m = rule_json(r@)->Object_0;
    assert forall|k: Seq<char>| #[trigger] m.contains_key(k) implies plain(m[k], n - 1) by {
        assert(leaf(m[k]));
    }
}

proof fn lemma_app_plain(a: AppTuneRule, n: int)
    requires
        n >= 3,
    ensures
        plain(app_json(a@), n),
{
    let m = app_json(a@)->Object_0;
    let items = rules_json(a@.threads);
    let list = JsonV::List(items);
    assert(plain(list, n - 1)) by {
        assert forall|i: int| 0 <= i < items.len() implies plain(#[trigger] items[i], n - 2) by {
            assert(a@.threads[i] == a.threads@[i]@);
            lemma_rule_plain(a.threads@[i], n - 2);
        }
    }
    assert forall|k: Seq<char>| #[trigger] m.contains_key(k) implies plain(m[k], n - 1) by {
        assert(leaf(m[k]) || m[k] == list);
    }
}

/// A configuration can be written.
pub proof fn lemma_config_plain(c: TuningConfig, n: int)
    requires
        n >= 5,
    ensures
        plain(config_json(c@), n),
        plain(JsonV::List(groups_json(c@.memory_groups)), n - 1),
        plain(JsonV::List(apps_json(c@.apps)), n - 1),
{
    let m = config_fields(c@);
    let groups = groups_json(c@.memory_groups);
    let apps = apps_json(c@.apps);
    assert(plain(JsonV::List(groups), n - 1)) by {
        assert forall|i: int| 0 <= i < groups.len() implies plain(#[trigger] groups[i], n - 2) by {
            assert(c@.memory_groups[i] == c.memory_groups@[i]@);
            lemma_group_plain(c.memory_groups@[i], n - 2);
        }
    }
    assert(plain(JsonV::List(apps), n - 1)) by {
        assert forall|i: int| 0 <= i < apps.len() implies plain(#[trigger] apps[i], n - 2) by {
            assert(c@.apps[i] == c.apps@[i]@);
            lemma_app_plain(c.apps@[i], n - 2);
        }
    }
    assert forall|k: Seq<char>| #[trigger] m.contains_key(k) implies plain(m[k], n - 1) by {
        assert(leaf(m[k]) || m[k] == JsonV::List(groups) || m[k] == JsonV::List(apps));
    }
}

/// The text that is written for a configuration.
pub fn config_text(config: &TuningConfig) -> (r: Result<String, String>)
    ensures
        r matches Ok(t) && t@ == ended(json_pretty(config_json(config@))) && json_parsed(t@)
            == Ok::<JsonV, Seq<char>>(config_json(config@)),
{
    let value = config_value(config);
    proof {
        lemma_config_plain(*config, 127);
    }
    match value.pretty() {
        Ok(text) => {
            let mut t = chars_of(text.as_str());
            t.push('\n');
            Ok(string_of(t.as_slice()))
        },
        Err(e) => Err(text2("JSON 序列化失败: ", e.as_str())),
    }
}

/// The configuration that the text of a file states, or what is wrong with it.
pub open spec fn config_in(text: Seq<char>) -> Result<ConfigV, Seq<char>> {
    parsed_config(json_parsed(text))
}

/// The configuration in a document that was read, or what is wrong with it.
pub open spec fn parsed_config(doc: Result<JsonV, Seq<char>>) -> Result<ConfigV, Seq<char>> {
    match doc {
        Ok(v) => config_of(v),
        Err(e) => Err("JSON 格式错误: "@ + e),
    }
}

/// Reads a document that was parsed, or hands on what was wrong with its text.
pub fn config_from_parsed(doc: Result<Json, String>) -> (r: Result<TuningConfig, String>)
    ensures
        match parsed_config(
            match doc {
                Ok(j) => Ok(j@),
                Err(e) => Err(e@),
            },
        ) {
            Ok(c) => r matches Ok(m) && m@ == c,
            Err(e) => r matches Err(f) && f@ == e,
        },
{
    match doc {
        Ok(j) => config_from_value(&j),
        Err(e) => Err(text2("JSON 格式错误: ", e.as_str())),
    }
}

/// Reads the text of a tuning file.
pub fn config_from_text(text: &str) -> (r: Result<TuningConfig, String>)
    ensures
        match config_in(text@) {
            Ok(c) => r matches Ok(m) && m@ == c,
            Err(e) => r matches Err(f) && f@ == e,
        },
{
    config_from_parsed(Json::parse(text))
}

// The configuration in force, and what could not be applied.

/// A warning, and the key under which it is given once.
pub struct Warning {
    pub key: String,
    pub message: String,
}

/// What a `Warning` holds.
pub struct WarningV {
    pub key: Seq<char>,
    pub message: Seq<char>,
}

impl View for Warning {
    type V = WarningV;

    open spec fn view(&self) -> WarningV {
        WarningV { key: self.key@, message: self.message@ }
    }
}

/// How many warnings are kept.
pub const MAX_WARNINGS: usize = 20;

/// The configuration in force, and the warnings since it came into force.
pub struct Tuning {
    pub config: TuningConfig,
    pub seen: Vec<String>,
    pub warnings: Vec<String>,
}

/// What a `Tuning` holds.
#[verifier::ext_equal]
pub struct TuningV {
    pub config: ConfigV,
    pub seen: Seq<Seq<char>>,
    pub warnings: Seq<Seq<char>>,
}

pub open spec fn string_views(v: Seq<String>) -> Seq<Seq<char>> {
    Seq::new(v.len(), |i: int| v[i]@)
}

impl View for Tuning {
    type V = TuningV;

    open spec fn view(&self) -> TuningV {
        TuningV {
            config: self.config@,
            seen: string_views(self.seen@),
            warnings: string_views(self.warnings@),
        }
    }
}

/// The configuration `config`, without warnings.
pub open spec fn fresh(config: ConfigV) -> TuningV {
    TuningV { config, seen: seq![], warnings: seq![] }
}

/// The state after a warning: nothing changes if its key was seen; else the message is the last one
/// kept, and the oldest goes when there are too many.
pub open spec fn warned(t: TuningV, w: WarningV) -> TuningV {
    if t.seen.contains(w.key) {
        t
    } else {
        let all = t.warnings.push(w.message);
        TuningV {
            config: t.config,
            seen: t.seen.push(w.key),
            warnings: if all.len() > MAX_WARNINGS {
                all.drop_first()
            } else {
                all
            },
        }
    }
}

pub fn contains_text(items: &Vec<String>, s: &str) -> (r: bool)
    ensures
        r == string_views(items@).contains(s@),
{
    let mut i: usize = 0;
    let ghost all = string_views(items@);
    while i < items.len()
        invariant
            i <= items@.len(),
            all == string_views(items@),
            forall|k: int| 0 <= k < i ==> (#[trigger] all[k]) != s@,
        decreases items@.len() - i,
    {
        assert(all[i as int] == items@[i as int]@);
        if equal(items[i].as_str(), s) {
            return true;
        }
        i += 1;
    }
    false
}

impl Tuning {
    /// At most so many warnings are kept, and no key twice.
    pub open spec fn well_formed(&self) -> bool {
        tidy_log(self@)
    }

    pub fn new() -> (r: Tuning)
        ensures
            r@ == fresh(ConfigV { memory_groups: seq![], apps: seq![] }),
            r.well_formed(),
    {
        let r = Tuning {
            config: TuningConfig::default(),
            seen: Vec::new(),
            warnings: Vec::new(),
        };
        assert(r@.seen =~= seq![]);
        assert(r@.warnings =~= seq![]);
        r
    }

    /// The configuration in force.
    pub fn config_snapshot(&self) -> (r: &TuningConfig)
        ensures
            r@ == self@.config,
    {
        &self.config
    }

    /// Brings a configuration into force.
    pub fn replace_config(&mut self, config: TuningConfig)
        ensures
            final(self)@ == fresh(config@),
            final(self).well_formed(),
    {
        self.config = config;
        self.seen = Vec::new();
        self.warnings = Vec::new();
        assert(self@.seen =~= seq![]);
        assert(self@.warnings =~= seq![]);
    }

    /// Keeps a warning whose key was not seen, and says whether that was so.
    pub fn warn_once(&mut self, w: Warning) -> (r: bool)
        requires
            old(self).well_formed(),
        ensures
            final(self)@ == warned(old(self)@, w@),
            final(self).well_formed(),
            r == !old(self)@.seen.contains(w@.key),
    {
        if contains_text(&self.seen, w.key.as_str()) {
            return false;
        }
        let ghost before = self@;
        assert(string_views(self.seen@.push(w.key)) =~= before.seen.push(w.key@));
        assert(string_views(self.warnings@.push(w.message)) =~= before.warnings.push(w.message@));
        assert(before.warnings.len() == self.warnings@.len());
        self.seen.push(w.key);
        self.warnings.push(w.message);
        if self.warnings.len() > MAX_WARNINGS {
            let ghost all = self.warnings@;
            self.warnings.remove(0);
            assert(string_views(self.warnings@) =~= string_views(all).drop_first());
        }
        proof {
            assert(self@ =~= warned(before, w@));
            lemma_warned_tidy(before, w@);
        }
        true
    }
}

pub open spec fn tidy_log(t: TuningV) -> bool {
    t.warnings.len() <= MAX_WARNINGS && t.seen.no_duplicates()
}

/// A warning keeps the log tidy.
pub proof fn lemma_warned_tidy(t: TuningV, w: WarningV)
    requires
        tidy_log(t),
    ensures
        tidy_log(warned(t, w)),
{
    if !t.seen.contains(w.key) {
        let seen = t.seen.push(w.key);
        assert forall|i: int, j: int|
            0 <= i < seen.len() && 0 <= j < seen.len() && i != j implies seen[i] != seen[j] by {
            if i == t.seen.len() {
                assert(t.seen.contains(t.seen[j]));
            } else if j == t.seen.len() {
                assert(t.seen.contains(t.seen[i]));
            }
        }
    }
}

// Files.

/// Whether `d` can be the directory of the state files.
pub open spec fn usable_dir(d: Seq<char>) -> bool {
    d.len() > 0 && forall|i: int| 0 <= i < d.len() ==> (#[trigger] d[i]) as int >= 0x20
}

/// The path `name`, taken from `dir`.
pub open spec fn joined_path(dir: Seq<char>, name: Seq<char>) -> Seq<char> {
    if begins(name, "/"@) {
        name
    } else if ends(dir, "/"@) {
        dir + name
    } else {
        dir + "/"@ + name
    }
}

pub fn join_path(dir: &str, name: &str) -> (r: String)
    ensures
        r@ == joined_path(dir@, name@),
{
    let n = chars_of(name);
    let d = chars_of(dir);
    if begins_str(n.as_slice(), "/") {
        name.to_owned()
    } else if ends_str(d.as_slice(), "/") {
        text2(dir, name)
    } else {
        text3(dir, "/", name)
    }
}

/// Where the state file `name` stands: in the directory that the environment names, or in the
/// current one.
pub open spec fn state_path(dir: Option<Seq<char>>, name: Seq<char>) -> Seq<char> {
    match dir {
        Some(d) => if usable_dir(d) {
            joined_path(d, name)
        } else {
            "./"@ + name
        },
        None => "./"@ + name,
    }
}

/// The path of the state file `name`, where `dir` is what the environment names.
pub fn state_file(name: &str, dir: &Option<String>) -> (r: String)
    ensures
        r@ == state_path(text_in(*dir), name@),
{
    match dir {
        Some(d) => {
            let s = chars_of(d.as_str());
            let mut usable = s.len() > 0;
            let mut i: usize = 0;
            while i < s.len()
                invariant
                    i <= s@.len(),
                    s@ == d@,
                    usable == (s@.len() > 0 && forall|k: int|
                        0 <= k < i ==> (#[trigger] s@[k]) as int >= 0x20),
                decreases s@.len() - i,
            {
                let n: u32 = crate::text::code(s[i]);
                if n < 0x20 {
                    assert(!(s@[i as int] as int >= 0x20));
                    usable = false;
                }
                i += 1;
            }
            if usable {
                join_path(d.as_str(), name)
            } else {
                text2("./", name)
            }
        },
        None => text2("./", name),
    }
}

/// The path of the tuning document.
pub fn tuning_file(dir: &Option<String>) -> (r: String)
    ensures
        r@ == state_path(text_in(*dir), TUNING_FILE_NAME@),
{
    state_file(TUNING_FILE_NAME, dir)
}

/// What came of reading a file.
pub enum FileRead {
    Text(String),
    Missing,
    Failed(String),
}

/// What is left to do when the tuning document was read.
pub enum LoadStep {
    /// Nothing: so many memory groups and applications are in force.
    Loaded(usize, usize),
    /// Nothing: the file was of no use, and a warning was kept.
    Ignored,
    /// The file is missing: this is to be written.
    Create(String),
}

pub open spec fn no_config() -> ConfigV {
    ConfigV { memory_groups: seq![], apps: seq![] }
}

pub open spec fn invalid_warning(path: Seq<char>, error: Seq<char>) -> WarningV {
    WarningV { key: "tuning-config-invalid"@, message: path + " 无效，已忽略："@ + error }
}

pub open spec fn unreadable_warning(path: Seq<char>, error: Seq<char>) -> WarningV {
    WarningV {
        key: "tuning-config-read"@,
        message: "读取 "@ + path + " 失败，已忽略调优规则："@ + error,
    }
}

impl Tuning {
    /// Brings what a file states into force; without a usable document, nothing is tuned.
    pub fn take_config(&mut self, path: &str, config: Result<TuningConfig, String>) -> (r: LoadStep)
        ensures
            final(self).well_formed(),
            match config {
                Ok(c) => final(self)@ == fresh(c@) && (r matches LoadStep::Loaded(g, a) && g
                    == c@.memory_groups.len() && a == c@.apps.len()),
                Err(e) => final(self)@ == warned(fresh(no_config()), invalid_warning(path@, e@))
                    && r == LoadStep::Ignored,
            },
    {
        match config {
            Ok(c) => {
                let groups: usize = c.memory_groups.len();
                let apps: usize = c.apps.len();
                assert(c@.memory_groups.len() == groups);
                assert(c@.apps.len() == apps);
                self.replace_config(c);
                LoadStep::Loaded(groups, apps)
            },
            Err(e) => {
                self.replace_config(TuningConfig::default());
                let _ = self.warn_once(
                    Warning {
                        key: "tuning-config-invalid".to_owned(),
                        message: text3(path, " 无效，已忽略：", e.as_str()),
                    },
                );
                LoadStep::Ignored
            },
        }
    }
}

/// Brings the tuning document into force, as far as it could be read.
pub fn load_file(tuning: &mut Tuning, path: &str, read: FileRead) -> (r: LoadStep)
    ensures
        final(tuning).well_formed(),
        match read {
            FileRead::Text(text) => match config_in(text@) {
                Ok(c) => final(tuning)@ == fresh(c) && (r matches LoadStep::Loaded(g, a) && g
                    == c.memory_groups.len() && a == c.apps.len()),
                Err(e) => final(tuning)@ == warned(fresh(no_config()), invalid_warning(path@, e))
                    && r == LoadStep::Ignored,
            },
            FileRead::Missing => final(tuning)@ == fresh(no_config()) && (r matches LoadStep::Create(
                text,
            ) && text@ == ended(json_pretty(config_json(no_config())))),
            FileRead::Failed(e) => final(tuning)@ == warned(
                fresh(no_config()),
                unreadable_warning(path@, e@),
            ) && r == LoadStep::Ignored,
        },
{
    match read {
        FileRead::Text(text) => {
            let config = config_from_text(text.as_str());
            tuning.take_config(path, config)
        },
        FileRead::Missing => {
            let config = TuningConfig::default();
            let text = config_text(&config);
            tuning.replace_config(config);
            match text {
                Ok(t) => LoadStep::Create(t),
                Err(_) => LoadStep::Ignored,
            }
        },
        FileRead::Failed(e) => {
            tuning.replace_config(TuningConfig::default());
            let start = text2("读取 ", path);
            let _ = tuning.warn_once(
                Warning {
                    key: "tuning-config-read".to_owned(),
                    message: text3(start.as_str(), " 失败，已忽略调优规则：", e.as_str()),
                },
            );
            LoadStep::Ignored
        },
    }
}

/// Keeps a warning where the missing document could not be written.
pub fn load_created(tuning: &mut Tuning, created: Result<(), String>)
    requires
        old(tuning).well_formed(),
    ensures
        final(tuning).well_formed(),
        final(tuning)@ == match created {
            Ok(_) => old(tuning)@,
            Err(e) => warned(
                old(tuning)@,
                WarningV { key: "tuning-config-create"@, message: e@ },
            ),
        },
{
    match created {
        Ok(_) => {},
        Err(e) => {
            let _ = tuning.warn_once(
                Warning { key: "tuning-config-create".to_owned(), message: e },
            );
        },
    }
}

/// What is said when a file cannot be written.
pub fn write_failure(path: &str, error: &str) -> (r: String)
    ensures
        r@ == "写入 "@ + path@ + " 失败: "@ + error@,
{
    let start = text2("写入 ", path);
    text3(start.as_str(), " 失败: ", error)
}

/// Brings a configuration into force once its text was written; `written` says how that went.
pub fn replace_and_save(
    tuning: &mut Tuning,
    config: TuningConfig,
    written: Result<(), String>,
) -> (r: Result<(), String>)
    ensures
        match written {
            Ok(_) => r is Ok,
            Err(e) => r matches Err(f) && f@ == e@,
        },
        final(tuning)@ == match written {
            Ok(_) => fresh(config@),
            Err(_) => old(tuning)@,
        },
{
    match written {
        Ok(_) => {
            tuning.replace_config(config);
            Ok(())
        },
        Err(e) => Err(e),
    }
}

// What the configuration covers.

/// The texts of `items` without those that stood before.
pub open spec fn distinct_texts(items: Seq<Seq<char>>) -> Seq<Seq<char>>
    decreases items.len(),
{
    if items.len() == 0 {
        seq![]
    } else {
        let init = distinct_texts(items.drop_last());
        if init.contains(items.last()) {
            init
        } else {
            init.push(items.last())
        }
    }
}

/// The packages of the applications, the tuned ones or those with thread rules.
pub open spec fn packages(apps: Seq<AppV>, threads_only: bool) -> Seq<Seq<char>>
    decreases apps.len(),
{
    if apps.len() == 0 {
        seq![]
    } else {
        let init = packages(apps.drop_last(), threads_only);
        if threads_only && apps.last().threads.len() == 0 {
            init
        } else {
            init.push(apps.last().pkg)
        }
    }
}

fn package_list(config: &TuningConfig, threads_only: bool) -> (r: Vec<String>)
    ensures
        string_views(r@) == distinct_texts(packages(config@.apps, threads_only)),
{
    let mut out: Vec<String> = Vec::new();
    let mut i: usize = 0;
    let ghost all = app_views(config.apps@);
    assert(all.take(0) =~= seq![]);
    assert(string_views(out@) =~= seq![]);
    while i < config.apps.len()
        invariant
            i <= config.apps@.len(),
            all == app_views(config.apps@),
            string_views(out@) == distinct_texts(packages(all.take(i as int), threads_only)),
        decreases config.apps@.len() - i,
    {
        let ghost now = all.take(i + 1);
        let ghost names = packages(now, threads_only);
        proof {
            assert(now.drop_last() =~= all.take(i as int));
            assert(now.last() == config.apps@[i as int]@);
            assert(config.apps@[i as int]@.threads.len() == config.apps@[i as int].threads@.len());
        }
        let app = &config.apps[i];
        if !threads_only || app.threads.len() > 0 {
            proof {
                assert(names.drop_last() =~= packages(all.take(i as int), threads_only));
            }
            if !contains_text(&out, app.pkg.as_str()) {
                let pkg = app.pkg.clone();
                assert(string_views(out@.push(pkg)) =~= string_views(out@).push(pkg@));
                out.push(pkg);
            }
        }
        i += 1;
    }
    assert(all.take(i as int) =~= all);
    out
}

/// The packages that are tuned, each once.
pub fn app_package_names(config: &TuningConfig) -> (r: Vec<String>)
    ensures
        string_views(r@) == distinct_texts(packages(config@.apps, false)),
{
    package_list(config, false)
}

/// The packages with thread rules, each once.
pub fn thread_rule_packages(config: &TuningConfig) -> (r: Vec<String>)
    ensures
        string_views(r@) == distinct_texts(packages(config@.apps, true)),
{
    package_list(config, true)
}

/// How many applications are tuned.
pub fn app_count(config: &TuningConfig) -> (r: usize)
    ensures
        r == config@.apps.len(),
{
    config.apps.len()
}

/// How many thread rules the applications have.
pub open spec fn rule_total(apps: Seq<AppV>) -> nat
    decreases apps.len(),
{
    if apps.len() == 0 {
        0
    } else {
        rule_total(apps.drop_last()) + apps.last().threads.len()
    }
}

proof fn lemma_rule_total(apps: Seq<AppV>, n: int)
    requires
        0 <= n <= apps.len(),
    ensures
        rule_total(apps.take(n)) <= rule_total(apps),
    decreases apps.len() - n,
{
    if n < apps.len() {
        lemma_rule_total(apps, n + 1);
        assert(apps.take(n + 1).drop_last() =~= apps.take(n));
    } else {
        assert(apps.take(n) =~= apps);
    }
}

/// How many thread rules the applications have.
pub fn thread_rule_count(config: &TuningConfig) -> (r: usize)
    requires
        rule_total(config@.apps) <= usize::MAX,
    ensures
        r == rule_total(config@.apps),
{
    let mut total: usize = 0;
    let mut i: usize = 0;
    let ghost all = app_views(config.apps@);
    assert(all.take(0) =~= seq![]);
    while i < config.apps.len()
        invariant
            i <= config.apps@.len(),
            all == app_views(config.apps@),
            total == rule_total(all.take(i as int)),
            rule_total(all) <= usize::MAX,
        decreases config.apps@.len() - i,
    {
        proof {
            lemma_rule_total(all, i + 1);
            assert(all.take(i + 1).drop_last() =~= all.take(i as int));
            assert(all.take(i + 1).last() == config.apps@[i as int]@);
            assert(config.apps@[i as int]@.threads.len() == config.apps@[i as int].threads@.len());
        }
        total = total + config.apps[i].threads.len();
        i += 1;
    }
    assert(all.take(i as int) =~= all);
    total
}

// The web panel.

/// What the device offers, as the panel shows it.
pub open spec fn capabilities_json(roots: Seq<JsonV>, v2: bool, v1: bool, uclamp: bool) -> JsonV {
    JsonV::Object(
        Map::<Seq<char>, JsonV>::empty().insert("memory_roots"@, JsonV::List(roots)).insert(
            "cgroup_v2"@,
            JsonV::Bool(v2),
        ).insert("v1_swappiness"@, JsonV::Bool(v1)).insert("uclamp"@, JsonV::Bool(uclamp)),
    )
}

/// What the device offers: the cgroup roots that are there, whether one of them has controllers of
/// the unified hierarchy, whether one has a swappiness of its own, and whether utilization can be
/// clamped.
pub fn cgroup_capabilities(roots: &Vec<String>, v2: bool, v1: bool, uclamp: bool) -> (r: Json)
    ensures
        r@ == capabilities_json(texts_view(roots@), v2, v1, uclamp),
{
    let mut fields = no_fields();
    add_field(&mut fields, "memory_roots", Json::of_texts(roots));
    add_field(&mut fields, "cgroup_v2", Json::Bool(v2));
    add_field(&mut fields, "v1_swappiness", Json::Bool(v1));
    add_field(&mut fields, "uclamp", Json::Bool(uclamp));
    Json::Object(fields)
}

/// The configuration in force, what the device offers, and the warnings.
pub open spec fn panel_json(c: ConfigV, capabilities: JsonV, warnings: Seq<JsonV>) -> JsonV {
    JsonV::Object(
        config_fields(c).insert("ok"@, JsonV::Bool(true)).insert(
            "capabilities"@,
            capabilities,
        ).insert("warnings"@, JsonV::List(warnings)),
    )
}

/// The configuration in force, what the device offers, and the warnings.
pub fn web_value(tuning: &Tuning, capabilities: Json) -> (r: Json)
    ensures
        r@ == panel_json(tuning@.config, capabilities@, texts_view(tuning.warnings@)),
{
    let mut fields = config_parts(&tuning.config);
    add_field(&mut fields, "ok", Json::Bool(true));
    add_field(&mut fields, "capabilities", capabilities);
    add_field(&mut fields, "warnings", Json::of_texts(&tuning.warnings));
    Json::Object(fields)
}

} // verus!
