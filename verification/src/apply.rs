//! Applying the tuning of an application to its processes and threads: which files and scheduler
//! attributes get which values.

use crate::config::MAX_THREAD_LEN;
use crate::text::{
    add_str, begins, begins_str, byte_len, bytes_below, chars_of, decimal, decimal_i64, decimal_int,
    decimal_u64, equal, has_char, has_str, lines_of, next_word, occurs, parse_unsigned, piece,
    replace_str, replaced, split_lines, string_of, text2, text3, text5, unsigned_of, views, words,
};
use crate::tuning::{
    app_views, cgroup_template, cgroup_template_ok, crossed, group_views, join_path, joined_path,
    rule_views, string_views, text_in, AppTuneRule, AppV, ConfigV, GroupV, MemoryGroup, RuleV,
    TuningConfig, Warning, WarningV,
};
use vstd::prelude::*;

verus! {

// Memory groups.

/// The first line, of the first `n`, that states the user of a process.
pub open spec fn uid_line(lines: Seq<Seq<char>>, n: int) -> Option<Seq<char>>
    decreases n,
{
    if n <= 0 {
        None
    } else {
        match uid_line(lines, n - 1) {
            Some(l) => Some(l),
            None => if begins(lines[n - 1], "Uid:"@) {
                Some(lines[n - 1].skip(4))
            } else {
                None
            },
        }
    }
}

/// The user that the status text of a process states.
pub open spec fn uid_in(status: Seq<char>) -> Option<nat> {
    let lines = lines_of(status);
    match uid_line(lines, lines.len() as int) {
        None => None,
        Some(l) => if words(l).len() == 0 {
            None
        } else {
            unsigned_of(words(l)[0], u32::MAX as nat)
        },
    }
}

/// The user of a process, from its status text.
pub fn process_uid(status: &str) -> (r: Option<u32>)
    ensures
        match r {
            Some(n) => uid_in(status@) == Some(n as nat),
            None => uid_in(status@) is None,
        },
{
    let text = chars_of(status);
    let lines = split_lines(text.as_slice());
    let ghost all = lines_of(status@);
    let mut i: usize = 0;
    proof {
        reveal_strlit("Uid:");
        assert(views(lines@).len() == lines@.len());
    }
    while i < lines.len()
        invariant
            i <= lines@.len(),
            all == views(lines@),
            all.len() == lines@.len(),
            all == lines_of(status@),
            uid_line(all, i as int) is None,
            "Uid:"@.len() == 4,
        decreases lines@.len() - i,
    {
        assert(all[i as int] == lines@[i as int]@);
        if begins_str(lines[i].as_slice(), "Uid:") {
            let rest = piece(lines[i].as_slice(), 4, lines[i].len());
            proof {
                assert(rest@ =~= all[i as int].skip(4));
                lemma_uid_stuck(all, i + 1, all.len() as int);
            }
            return match next_word(rest.as_slice()) {
                None => None,
                Some((w, _)) => match parse_unsigned(w.as_slice(), 0xffff_ffff) {
                    Some(n) => Some(n as u32),
                    None => None,
                },
            };
        }
        i += 1;
    }
    None
}

proof fn lemma_uid_stuck(lines: Seq<Seq<char>>, i: int, n: int)
    requires
        0 <= i <= n,
        uid_line(lines, i) is Some,
    ensures
        uid_line(lines, n) == uid_line(lines, i),
    decreases n - i,
{
    if i < n {
        lemma_uid_stuck(lines, i, n - 1);
    }
}

/// The path of a group with the names of the process filled in.
pub open spec fn filled(path: Seq<char>, uid: Seq<char>, pid: int, pkg: Seq<char>) -> Seq<char> {
    replaced(
        replaced(replaced(path, "{uid}"@, uid), "{pid}"@, decimal_int(pid)),
        "{pkg}"@,
        pkg,
    )
}

pub open spec fn no_uid_warning(pid: int) -> WarningV {
    WarningV {
        key: "uid-"@ + decimal_int(pid),
        message: "无法读取 pid "@ + decimal_int(pid) + " 的 UID，跳过内存组迁移"@,
    }
}

/// The path of a group for one process; the user is asked for only where the path names it.
pub open spec fn expanded(
    path: Seq<char>,
    pid: int,
    pkg: Seq<char>,
    status: Option<Seq<char>>,
) -> Result<Seq<char>, WarningV> {
    if occurs(path, "{uid}"@) {
        match status {
            Some(s) => match uid_in(s) {
                Some(uid) => Ok(filled(path, decimal(uid), pid, pkg)),
                None => Err(no_uid_warning(pid)),
            },
            None => Err(no_uid_warning(pid)),
        }
    } else {
        Ok(filled(path, seq![], pid, pkg))
    }
}

/// Whether a path, or a warning, is what a specification says.
pub open spec fn path_result(
    r: Result<String, Warning>,
    want: Result<Seq<char>, WarningV>,
) -> bool {
    match want {
        Ok(p) => r matches Ok(s) && s@ == p,
        Err(w) => r matches Err(x) && x@ == w,
    }
}

fn fill_path(path: &[char], uid: &[char], pid: i32, pkg: &str) -> (r: String)
    ensures
        r@ == filled(path@, uid@, pid as int, pkg@),
{
    proof {
        reveal_strlit("{uid}");
        reveal_strlit("{pid}");
        reveal_strlit("{pkg}");
    }
    let number = decimal_i64(pid as i64);
    let name = chars_of(pkg);
    let a = replace_str(path, "{uid}", uid);
    let b = replace_str(a.as_slice(), "{pid}", number.as_slice());
    let c = replace_str(b.as_slice(), "{pkg}", name.as_slice());
    string_of(c.as_slice())
}

/// The path of a group for one process; `status` is the status text of the process, if it could be
/// read.
pub fn expand_group_path(path: &str, pid: i32, pkg: &str, status: &Option<String>) -> (r: Result<
    String,
    Warning,
>)
    ensures
        path_result(r, expanded(path@, pid as int, pkg@, text_in(*status))),
{
    let p = chars_of(path);
    let none: Vec<char> = Vec::new();
    if !has_str(p.as_slice(), "{uid}") {
        assert(none@ =~= seq![]);
        return Ok(fill_path(p.as_slice(), none.as_slice(), pid, pkg));
    }
    let uid: Option<u32> = match status {
        Some(s) => process_uid(s.as_str()),
        None => None,
    };
    match uid {
        Some(n) => {
            let digits = decimal_u64(n as u64);
            Ok(fill_path(p.as_slice(), digits.as_slice(), pid, pkg))
        },
        None => {
            let digits = decimal_i64(pid as i64);
            let number = string_of(digits.as_slice());
            Err(
                Warning {
                    key: text2("uid-", number.as_str()),
                    message: text3("无法读取 pid ", number.as_str(), " 的 UID，跳过内存组迁移"),
                },
            )
        },
    }
}

/// The roots below which memory groups are looked for, of those that are there.
pub open spec fn roots_of(memcg: bool, memory: bool, unified: bool) -> Seq<Seq<char>> {
    (if memcg {
        seq!["/dev/memcg"@]
    } else {
        seq![]
    }) + (if memory {
        seq!["/sys/fs/cgroup/memory"@]
    } else {
        seq![]
    }) + (if unified {
        seq!["/sys/fs/cgroup"@]
    } else {
        seq![]
    })
}

/// The roots below which memory groups are looked for, of those that are directories.
pub fn cgroup_roots(memcg: bool, memory: bool, unified: bool) -> (r: Vec<String>)
    ensures
        string_views(r@) == roots_of(memcg, memory, unified),
{
    let mut roots: Vec<String> = Vec::new();
    if memcg {
        roots.push("/dev/memcg".to_owned());
    }
    if memory {
        roots.push("/sys/fs/cgroup/memory".to_owned());
    }
    if unified {
        roots.push("/sys/fs/cgroup".to_owned());
    }
    assert(string_views(roots@) =~= roots_of(memcg, memory, unified));
    roots
}

pub open spec fn bad_path_warning(group: Seq<char>) -> WarningV {
    WarningV {
        key: "group-template-"@ + group,
        message: "内存组 "@ + group + " 展开后的路径无效"@,
    }
}

pub open spec fn no_root_warning() -> WarningV {
    WarningV {
        key: "no-memory-cgroup"@,
        message: "未发现可用的 memory cgroup 根目录，内存组调优已跳过"@,
    }
}

pub open spec fn missing_warning(group: Seq<char>, path: Seq<char>) -> WarningV {
    WarningV {
        key: "group-missing-"@ + group + "-"@ + path,
        message: "内存组 "@ + group + " 不存在或不在允许的 cgroup 根目录内: "@ + path,
    }
}

/// Where a group may be: its own path if that is absolute, else below each root.
pub open spec fn places(path: Seq<char>, roots: Seq<Seq<char>>) -> Seq<Seq<char>> {
    if begins(path, "/"@) {
        seq![path]
    } else {
        Seq::new(roots.len(), |i: int| joined_path(roots[i], path))
    }
}

/// The path of a group for one process, checked, and where it may be.
pub open spec fn located(
    g: GroupV,
    pid: int,
    pkg: Seq<char>,
    status: Option<Seq<char>>,
    roots: Seq<Seq<char>>,
) -> Result<(Seq<char>, Seq<Seq<char>>), WarningV> {
    match expanded(g.path, pid, pkg, status) {
        Err(w) => Err(w),
        Ok(path) => if !cgroup_template(path) {
            Err(bad_path_warning(g.name))
        } else if roots.len() == 0 {
            Err(no_root_warning())
        } else {
            Ok((path, places(path, roots)))
        },
    }
}

/// The path of a group for one process, and where it may be, or why it cannot be used.
pub fn group_candidates(
    group: &MemoryGroup,
    pid: i32,
    pkg: &str,
    status: &Option<String>,
    roots: &Vec<String>,
) -> (r: Result<(String, Vec<String>), Warning>)
    ensures
        match located(group@, pid as int, pkg@, text_in(*status), string_views(roots@)) {
            Ok((path, list)) => r matches Ok((p, l)) && p@ == path && string_views(l@) == list,
            Err(w) => r matches Err(x) && x@ == w,
        },
{
    let path = match expand_group_path(group.path.as_str(), pid, pkg, status) {
        Err(w) => {
            return Err(w);
        },
        Ok(p) => p,
    };
    let name = group.name.as_str();
    if !cgroup_template_ok(path.as_str()) {
        return Err(
            Warning {
                key: text2("group-template-", name),
                message: text3("内存组 ", name, " 展开后的路径无效"),
            },
        );
    }
    assert(string_views(roots@).len() == roots@.len());
    if roots.len() == 0 {
        return Err(
            Warning {
                key: "no-memory-cgroup".to_owned(),
                message: "未发现可用的 memory cgroup 根目录，内存组调优已跳过".to_owned(),
            },
        );
    }
    let p = chars_of(path.as_str());
    let mut list: Vec<String> = Vec::new();
    if begins_str(p.as_slice(), "/") {
        list.push(path.clone());
        assert(string_views(list@) =~= seq![path@]);
    } else {
        let mut i: usize = 0;
        while i < roots.len()
            invariant
                i <= roots@.len(),
                list@.len() == i,
                forall|k: int|
                    0 <= k < i ==> (#[trigger] list@[k])@ == joined_path(roots@[k]@, path@),
            decreases roots@.len() - i,
        {
            list.push(join_path(roots[i].as_str(), path.as_str()));
            i += 1;
        }
        assert(string_views(list@) =~= places(path@, string_views(roots@)));
    }
    Ok((path, list))
}

/// Whether the directory `dir` is `root` or below it; both are canonical.
pub open spec fn within_root(dir: Seq<char>, root: Seq<char>) -> bool {
    dir == root || begins(dir, joined_path(root, seq![]))
}

pub open spec fn within_any(dir: Seq<char>, roots: Seq<Seq<char>>) -> bool {
    exists|i: int| 0 <= i < roots.len() && within_root(dir, #[trigger] roots[i])
}

/// The first of the first `n` directories that is there and stands below a root.
pub open spec fn first_within(
    dirs: Seq<Option<Seq<char>>>,
    roots: Seq<Seq<char>>,
    n: int,
) -> Option<Seq<char>>
    decreases n,
{
    if n <= 0 {
        None
    } else {
        match first_within(dirs, roots, n - 1) {
            Some(d) => Some(d),
            None => match dirs[n - 1] {
                Some(d) => if within_any(d, roots) {
                    Some(d)
                } else {
                    None
                },
                None => None,
            },
        }
    }
}

pub open spec fn option_views(v: Seq<Option<String>>) -> Seq<Option<Seq<char>>> {
    Seq::new(v.len(), |i: int| text_in(v[i]))
}

fn is_within_any(dir: &str, roots: &Vec<String>) -> (r: bool)
    ensures
        r == within_any(dir@, string_views(roots@)),
{
    let d = chars_of(dir);
    let ghost all = string_views(roots@);
    let mut i: usize = 0;
    while i < roots.len()
        invariant
            i <= roots@.len(),
            all == string_views(roots@),
            d@ == dir@,
            forall|k: int| 0 <= k < i ==> !within_root(dir@, #[trigger] all[k]),
        decreases roots@.len() - i,
    {
        assert(all[i as int] == roots@[i as int]@);
        let below = join_path(roots[i].as_str(), "");
        proof {
            reveal_strlit("");
            assert(""@ =~= seq![]);
        }
        if equal(dir, roots[i].as_str()) || begins_str(d.as_slice(), below.as_str()) {
            return true;
        }
        i += 1;
    }
    false
}

proof fn lemma_within_stuck(
    dirs: Seq<Option<Seq<char>>>,
    roots: Seq<Seq<char>>,
    i: int,
    n: int,
)
    requires
        0 <= i <= n,
        first_within(dirs, roots, i) is Some,
    ensures
        first_within(dirs, roots, n) == first_within(dirs, roots, i),
    decreases n - i,
{
    if i < n {
        lemma_within_stuck(dirs, roots, i, n - 1);
    }
}

/// The directory of a group, from the canonical paths of the places where it may be (none where
/// there is no directory) and of the roots; else why there is none.
pub fn resolve_group_path(
    group: &MemoryGroup,
    path: &str,
    dirs: &Vec<Option<String>>,
    roots: &Vec<String>,
) -> (r: Result<String, Warning>)
    ensures
        path_result(
            r,
            match first_within(
                option_views(dirs@),
                string_views(roots@),
                dirs@.len() as int,
            ) {
                Some(d) => Ok(d),
                None => Err(missing_warning(group@.name, path@)),
            },
        ),
{
    let ghost all = option_views(dirs@);
    let ghost tops = string_views(roots@);
    let mut i: usize = 0;
    while i < dirs.len()
        invariant
            i <= dirs@.len(),
            all == option_views(dirs@),
            tops == string_views(roots@),
            first_within(all, tops, i as int) is None,
        decreases dirs@.len() - i,
    {
        assert(all[i as int] == text_in(dirs@[i as int]));
        if let Some(d) = &dirs[i] {
            if is_within_any(d.as_str(), roots) {
                proof {
                    lemma_within_stuck(all, tops, i + 1, dirs@.len() as int);
                }
                return Ok(d.clone());
            }
        }
        i += 1;
    }
    let name = group.name.as_str();
    let key = text2("group-missing-", name);
    let message = text2("内存组 ", name);
    Err(
        Warning {
            key: text3(key.as_str(), "-", path),
            message: text3(message.as_str(), " 不存在或不在允许的 cgroup 根目录内: ", path),
        },
    )
}

// The files of a memory group.

/// A value for the first of some files that is there.
pub struct ControlWrite {
    pub names: Vec<String>,
    pub value: String,
}

/// What a `ControlWrite` holds.
#[verifier::ext_equal]
pub struct WriteV {
    pub names: Seq<Seq<char>>,
    pub value: Seq<char>,
}

impl View for ControlWrite {
    type V = WriteV;

    open spec fn view(&self) -> WriteV {
        WriteV { names: string_views(self.names@), value: self.value@ }
    }
}

pub open spec fn write_views(v: Seq<ControlWrite>) -> Seq<WriteV> {
    Seq::new(v.len(), |i: int| v[i]@)
}

/// A value for one of `names`, if there is a value.
pub open spec fn set_to(names: Seq<Seq<char>>, value: Option<Seq<char>>) -> Seq<WriteV> {
    match value {
        Some(value) => seq![WriteV { names, value }],
        None => seq![],
    }
}

/// What is written for a memory group, in this order.
pub open spec fn group_writes(g: GroupV) -> Seq<WriteV> {
    set_to(
        seq!["memory.swappiness"@],
        match g.swappiness {
            Some(n) => Some(decimal(n as nat)),
            None => None,
        },
    ) + set_to(seq!["memory.min"@], g.memory_min) + set_to(
        seq!["memory.low"@, "memory.soft_limit_in_bytes"@],
        g.memory_low,
    ) + set_to(seq!["memory.high"@], g.memory_high) + set_to(
        seq!["memory.max"@, "memory.limit_in_bytes"@],
        g.memory_max,
    ) + set_to(
        seq!["memory.oom.group"@],
        match g.oom_group {
            Some(true) => Some("1"@),
            Some(false) => Some("0"@),
            None => None,
        },
    )
}

fn one_name(a: &str) -> (r: Vec<String>)
    ensures
        string_views(r@) == seq![a@],
{
    let mut names: Vec<String> = Vec::new();
    names.push(a.to_owned());
    assert(string_views(names@) =~= seq![a@]);
    names
}

fn two_names(a: &str, b: &str) -> (r: Vec<String>)
    ensures
        string_views(r@) == seq![a@, b@],
{
    let mut names: Vec<String> = Vec::new();
    names.push(a.to_owned());
    names.push(b.to_owned());
    assert(string_views(names@) =~= seq![a@, b@]);
    names
}

fn add_write(out: &mut Vec<ControlWrite>, names: Vec<String>, value: Option<String>)
    ensures
        write_views(final(out)@) == write_views(old(out)@) + set_to(
            string_views(names@),
            text_in(value),
        ),
{
    let ghost before = write_views(out@);
    if let Some(value) = value {
        let one = ControlWrite { names, value };
        assert(write_views(out@.push(one)) =~= before + seq![one@]);
        out.push(one);
    } else {
        assert(before + Seq::<WriteV>::empty() =~= before);
    }
}

/// What is written for a memory group, in this order.
pub fn apply_memory_group(group: &MemoryGroup) -> (r: Vec<ControlWrite>)
    ensures
        write_views(r@) == group_writes(group@),
{
    let mut out: Vec<ControlWrite> = Vec::new();
    assert(write_views(out@) =~= seq![]);
    let swappiness: Option<String> = match group.swappiness {
        Some(n) => {
            let digits = decimal_u64(n as u64);
            Some(string_of(digits.as_slice()))
        },
        None => None,
    };
    add_write(&mut out, one_name("memory.swappiness"), swappiness);
    add_write(&mut out, one_name("memory.min"), group.memory_min.clone());
    add_write(
        &mut out,
        two_names("memory.low", "memory.soft_limit_in_bytes"),
        group.memory_low.clone(),
    );
    add_write(&mut out, one_name("memory.high"), group.memory_high.clone());
    add_write(
        &mut out,
        two_names("memory.max", "memory.limit_in_bytes"),
        group.memory_max.clone(),
    );
    let oom_group: Option<String> = match group.oom_group {
        Some(b) => if b {
            Some("1".to_owned())
        } else {
            Some("0".to_owned())
        },
        None => None,
    };
    add_write(&mut out, one_name("memory.oom.group"), oom_group);
    assert(write_views(out@) =~= group_writes(group@));
    out
}

/// `names` with `sep` between them.
pub open spec fn listed(names: Seq<Seq<char>>, sep: Seq<char>) -> Seq<char>
    decreases names.len(),
{
    if names.len() == 0 {
        seq![]
    } else if names.len() == 1 {
        names[0]
    } else {
        listed(names.drop_last(), sep) + sep + names.last()
    }
}

fn list_names(names: &Vec<String>, sep: &str) -> (r: String)
    ensures
        r@ == listed(string_views(names@), sep@),
{
    let mut out: Vec<char> = Vec::new();
    let ghost all = string_views(names@);
    let mut i: usize = 0;
    assert(all.take(0) =~= seq![]);
    assert(out@ =~= seq![]);
    while i < names.len()
        invariant
            i <= names@.len(),
            all == string_views(names@),
            out@ == listed(all.take(i as int), sep@),
        decreases names@.len() - i,
    {
        proof {
            let now = all.take(i + 1);
            assert(now.drop_last() =~= all.take(i as int));
            assert(now.last() == names@[i as int]@);
            if i == 0 {
                assert(now[0] == names@[0]@);
                assert(out@ + names@[0]@ =~= names@[0]@);
            }
        }
        if i > 0 {
            add_str(&mut out, sep);
        }
        add_str(&mut out, names[i].as_str());
        i += 1;
    }
    assert(all.take(i as int) =~= all);
    string_of(out.as_slice())
}

/// The first of the first `n` that is there.
pub open spec fn first_there(there: Seq<bool>, n: int) -> Option<int>
    decreases n,
{
    if n <= 0 {
        None
    } else {
        match first_there(there, n - 1) {
            Some(i) => Some(i),
            None => if there[n - 1] {
                Some(n - 1)
            } else {
                None
            },
        }
    }
}

pub open spec fn unsupported_warning(group: Seq<char>, names: Seq<Seq<char>>) -> WarningV {
    WarningV {
        key: "unsupported-"@ + group + "-"@ + listed(names, "|"@),
        message: "内存组 "@ + group + " 不支持 "@ + listed(names, " / "@)
            + "（可能是 cgroup 版本不匹配）"@,
    }
}

/// Which of the files of a write is used: the first that is there, as `there` says for each.
pub fn write_first_available(group: &str, write: &ControlWrite, there: &Vec<bool>) -> (r: Result<
    usize,
    Warning,
>)
    requires
        there@.len() == write.names@.len(),
    ensures
        match first_there(there@, there@.len() as int) {
            Some(i) => r matches Ok(k) && k == i && k < write.names@.len(),
            None => r matches Err(w) && w@ == unsupported_warning(group@, write@.names),
        },
{
    let mut i: usize = 0;
    while i < there.len()
        invariant
            i <= there@.len() == write.names@.len(),
            first_there(there@, i as int) is None,
        decreases there@.len() - i,
    {
        if there[i] {
            proof {
                lemma_there_stuck(there@, i + 1, there@.len() as int);
            }
            return Ok(i);
        }
        i += 1;
    }
    let bars = list_names(&write.names, "|");
    let slashes = list_names(&write.names, " / ");
    let key = text3("unsupported-", group, "-");
    Err(
        Warning {
            key: text2(key.as_str(), bars.as_str()),
            message: text5(
                "内存组 ",
                group,
                " 不支持 ",
                slashes.as_str(),
                "（可能是 cgroup 版本不匹配）",
            ),
        },
    )
}

proof fn lemma_there_stuck(there: Seq<bool>, i: int, n: int)
    requires
        0 <= i <= n,
        first_there(there, i) is Some,
    ensures
        first_there(there, n) == first_there(there, i),
    decreases n - i,
{
    if i < n {
        lemma_there_stuck(there, i, n - 1);
    }
}

/// What is said when a file of a memory group cannot be written.
pub fn control_failure(group: &str, name: &str, error: &str) -> (r: Warning)
    ensures
        r@ == (WarningV {
            key: "write-"@ + group@ + "-"@ + name@ + "-"@ + error@,
            message: "内存组 "@ + group@ + " 的 "@ + name@ + " 设置失败："@ + error@,
        }),
{
    let key = text5("write-", group, "-", name, "-");
    let message = text5("内存组 ", group, " 的 ", name, " 设置失败：");
    Warning { key: text2(key.as_str(), error), message: text2(message.as_str(), error) }
}

/// How a process is moved into a memory group.
pub enum MoveStep {
    /// Its number goes to `cgroup.procs`.
    Process,
    /// The numbers of its threads go to `tasks`.
    Threads,
    /// Not at all.
    Refused(Warning),
}

pub open spec fn no_control_warning(group: Seq<char>) -> WarningV {
    WarningV {
        key: "move-no-control-"@ + group,
        message: "内存组 "@ + group + " 不提供 cgroup.procs 或 tasks，无法迁移应用"@,
    }
}

/// How a process is moved into a memory group, by which of the two files is there.
pub fn move_process_to_group(group: &str, procs: bool, tasks: bool) -> (r: MoveStep)
    ensures
        if procs {
            r is Process
        } else if tasks {
            r is Threads
        } else {
            r matches MoveStep::Refused(w) && w@ == no_control_warning(group@)
        },
{
    if procs {
        MoveStep::Process
    } else if tasks {
        MoveStep::Threads
    } else {
        MoveStep::Refused(
            Warning {
                key: text2("move-no-control-", group),
                message: text3("内存组 ", group, " 不提供 cgroup.procs 或 tasks，无法迁移应用"),
            },
        )
    }
}

/// What is said when a process, or one of its threads, cannot be moved.
pub fn move_failure(group: &str, id: i32, whole: bool, error: &str) -> (r: Warning)
    ensures
        r@ == (WarningV {
            key: (if whole {
                "move-procs-"@
            } else {
                "move-task-"@
            }) + group@ + "-"@ + error@,
            message: (if whole {
                "迁移 pid "@
            } else {
                "迁移 tid "@
            }) + decimal_int(id as int) + " 到内存组 "@ + group@ + " 失败："@ + error@,
        }),
{
    let digits = decimal_i64(id as i64);
    let number = string_of(digits.as_slice());
    let kind = if whole {
        "move-procs-"
    } else {
        "move-task-"
    };
    let what = if whole {
        "迁移 pid "
    } else {
        "迁移 tid "
    };
    let key = text3(kind, group, "-");
    let message = text5(what, number.as_str(), " 到内存组 ", group, " 失败：");
    Warning { key: text2(key.as_str(), error), message: text2(message.as_str(), error) }
}

// Threads.

/// Whether the name of a thread can match a pattern at all: it is neither empty nor too long, and
/// neither it nor the pattern holds a zero byte.
pub open spec fn can_match(pattern: Seq<char>, comm: Seq<char>) -> bool {
    comm.len() > 0 && byte_len(comm) < MAX_THREAD_LEN && !pattern.contains('\0') && !comm.contains(
        '\0',
    )
}

/// Whether a thread matches a pattern, where `glob` says whether its name fits the pattern as a
/// shell would see it.
pub fn pattern_matches(pattern: &str, comm: &str, glob: bool) -> (r: bool)
    ensures
        r == (can_match(pattern@, comm@) && glob),
{
    let p = chars_of(pattern);
    let c = chars_of(comm);
    c.len() > 0 && bytes_below(c.as_slice(), MAX_THREAD_LEN) && !has_char(p.as_slice(), '\0')
        && !has_char(c.as_slice(), '\0') && glob
}

/// What the rules that match a thread say together.
pub struct EffectiveThreadTune {
    pub uclamp_min: Option<u16>,
    pub uclamp_max: Option<u16>,
    pub nice: Option<i8>,
}

/// What an `EffectiveThreadTune` holds.
pub struct TuneV {
    pub uclamp_min: Option<int>,
    pub uclamp_max: Option<int>,
    pub nice: Option<int>,
}

impl View for EffectiveThreadTune {
    type V = TuneV;

    open spec fn view(&self) -> TuneV {
        TuneV {
            uclamp_min: match self.uclamp_min {
                Some(n) => Some(n as int),
                None => None,
            },
            uclamp_max: match self.uclamp_max {
                Some(n) => Some(n as int),
                None => None,
            },
            nice: match self.nice {
                Some(n) => Some(n as int),
                None => None,
            },
        }
    }
}

/// `later` if it is set, else `earlier`.
pub open spec fn over(later: Option<int>, earlier: Option<int>) -> Option<int> {
    if later is Some {
        later
    } else {
        earlier
    }
}

/// Whether rule `i` matches a thread; `globs` says which patterns the name fits.
pub open spec fn rule_hits(rules: Seq<RuleV>, comm: Seq<char>, globs: Seq<bool>, i: int) -> bool {
    i < globs.len() && globs[i] && can_match(rules[i].pattern, comm)
}

/// What those of the first `n` rules that match a thread say together: of what several set, the
/// last counts. Nothing if none matches.
pub open spec fn tune_of(rules: Seq<RuleV>, comm: Seq<char>, globs: Seq<bool>, n: int) -> Option<
    TuneV,
>
    decreases n,
{
    if n <= 0 {
        None
    } else if rule_hits(rules, comm, globs, n - 1) {
        let r = rules[n - 1];
        Some(
            match tune_of(rules, comm, globs, n - 1) {
                Some(t) => TuneV {
                    uclamp_min: over(r.uclamp_min, t.uclamp_min),
                    uclamp_max: over(r.uclamp_max, t.uclamp_max),
                    nice: over(r.nice, t.nice),
                },
                None => TuneV {
                    uclamp_min: r.uclamp_min,
                    uclamp_max: r.uclamp_max,
                    nice: r.nice,
                },
            },
        )
    } else {
        tune_of(rules, comm, globs, n - 1)
    }
}

/// Whether a tune, or its absence, is what a specification says.
pub open spec fn tune_result(r: Option<EffectiveThreadTune>, want: Option<TuneV>) -> bool {
    match want {
        Some(t) => r matches Some(e) && e@ == t,
        None => r is None,
    }
}

/// What the rules of an application that match a thread say together; `globs` says of each rule
/// whether the name of the thread fits its pattern.
pub fn effective_thread_tune(app: &AppTuneRule, comm: &str, globs: &Vec<bool>) -> (r: Option<
    EffectiveThreadTune,
>)
    ensures
        tune_result(r, tune_of(app@.threads, comm@, globs@, app@.threads.len() as int)),
{
    let mut result = EffectiveThreadTune { uclamp_min: None, uclamp_max: None, nice: None };
    let mut matched = false;
    let mut i: usize = 0;
    let ghost all = rule_views(app.threads@);
    assert(all.len() == app.threads@.len());
    while i < app.threads.len()
        invariant
            i <= app.threads@.len(),
            all == rule_views(app.threads@),
            all.len() == app.threads@.len(),
            match tune_of(all, comm@, globs@, i as int) {
                Some(t) => matched && result@ == t,
                None => !matched && result@ == (TuneV {
                    uclamp_min: None,
                    uclamp_max: None,
                    nice: None,
                }),
            },
        decreases app.threads@.len() - i,
    {
        assert(all[i as int] == app.threads@[i as int]@);
        let rule = &app.threads[i];
        let glob = i < globs.len() && globs[i];
        if pattern_matches(rule.pattern.as_str(), comm, glob) {
            if rule.uclamp_min.is_some() {
                result.uclamp_min = rule.uclamp_min;
            }
            if rule.uclamp_max.is_some() {
                result.uclamp_max = rule.uclamp_max;
            }
            if rule.nice.is_some() {
                result.nice = rule.nice;
            }
            matched = true;
        }
        i += 1;
    }
    if matched {
        Some(result)
    } else {
        None
    }
}

pub const SCHED_FLAG_UTIL_CLAMP_MIN: u64 = 0x20;

pub const SCHED_FLAG_UTIL_CLAMP_MAX: u64 = 0x40;

/// The part of the scheduler attributes of a thread that clamping its utilization touches.
pub struct ClampAttr {
    pub sched_flags: u64,
    pub sched_util_min: u32,
    pub sched_util_max: u32,
}

/// Puts the bounds that are given into the attributes, each with its flag.
pub fn set_uclamp(attr: &mut ClampAttr, min: Option<u16>, max: Option<u16>)
    ensures
        final(attr).sched_util_min == (match min {
            Some(n) => n as u32,
            None => old(attr).sched_util_min,
        }),
        final(attr).sched_util_max == (match max {
            Some(n) => n as u32,
            None => old(attr).sched_util_max,
        }),
        final(attr).sched_flags == old(attr).sched_flags | (if min is Some {
            SCHED_FLAG_UTIL_CLAMP_MIN
        } else {
            0u64
        }) | (if max is Some {
            SCHED_FLAG_UTIL_CLAMP_MAX
        } else {
            0u64
        }),
{
    let ghost flags = attr.sched_flags;
    proof {
        assert(flags | 0u64 == flags) by (bit_vector);
        assert((flags | 0x20u64) | 0u64 == flags | 0x20u64) by (bit_vector);
    }
    if let Some(n) = min {
        attr.sched_flags = attr.sched_flags | SCHED_FLAG_UTIL_CLAMP_MIN;
        attr.sched_util_min = n as u32;
    }
    if let Some(n) = max {
        attr.sched_flags = attr.sched_flags | SCHED_FLAG_UTIL_CLAMP_MAX;
        attr.sched_util_max = n as u32;
    }
}

/// What is done to a thread: bounds for its utilization, a warning in their place, a nice value.
pub struct ThreadSteps {
    pub clamp: Option<(Option<u16>, Option<u16>)>,
    pub warning: Option<Warning>,
    pub nice: Option<i8>,
}

pub open spec fn order_warning(pkg: Seq<char>, comm: Seq<char>) -> WarningV {
    WarningV {
        key: "uclamp-order-"@ + pkg + "-"@ + comm,
        message: pkg + " / "@ + comm + " 的合并 UCLAMP min 大于 max，已跳过 UCLAMP"@,
    }
}

/// What is done to a thread. Bounds that cross are left out, with a warning.
pub fn apply_thread_tune(pkg: &str, comm: &str, tune: &EffectiveThreadTune) -> (r: ThreadSteps)
    ensures
        r.nice == tune.nice,
        r.clamp == (if crossed(tune@.uclamp_min, tune@.uclamp_max) || (tune.uclamp_min is None
            && tune.uclamp_max is None) {
            None
        } else {
            Some((tune.uclamp_min, tune.uclamp_max))
        }),
        match r.warning {
            Some(w) => crossed(tune@.uclamp_min, tune@.uclamp_max) && w@ == order_warning(
                pkg@,
                comm@,
            ),
            None => !crossed(tune@.uclamp_min, tune@.uclamp_max),
        },
{
    if let (Some(min), Some(max)) = (tune.uclamp_min, tune.uclamp_max) {
        if min > max {
            let key = text2("uclamp-order-", pkg);
            let message = text3(pkg, " / ", comm);
            return ThreadSteps {
                clamp: None,
                warning: Some(
                    Warning {
                        key: text3(key.as_str(), "-", comm),
                        message: text2(
                            message.as_str(),
                            " 的合并 UCLAMP min 大于 max，已跳过 UCLAMP",
                        ),
                    },
                ),
                nice: tune.nice,
            };
        }
    }
    let clamp = if tune.uclamp_min.is_some() || tune.uclamp_max.is_some() {
        Some((tune.uclamp_min, tune.uclamp_max))
    } else {
        None
    };
    ThreadSteps { clamp, warning: None, nice: tune.nice }
}

/// What is said when the bounds of a thread cannot be set.
pub fn clamp_failure(pkg: &str, comm: &str, error: &str) -> (r: Warning)
    ensures
        r@ == (WarningV {
            key: "uclamp-"@ + pkg@ + "-"@ + error@,
            message: pkg@ + " / "@ + comm@ + " 设置 UCLAMP 失败："@ + error@,
        }),
{
    let key = text2("uclamp-", pkg);
    Warning {
        key: text3(key.as_str(), "-", error),
        message: text5(pkg, " / ", comm, " 设置 UCLAMP 失败：", error),
    }
}

/// What is said when the nice value of a thread cannot be set.
pub fn nice_failure(pkg: &str, comm: &str, nice: i8, error: &str) -> (r: Warning)
    ensures
        r@ == (WarningV {
            key: "nice-"@ + pkg@ + "-"@ + error@,
            message: pkg@ + " / "@ + comm@ + " 设置 nice="@ + decimal_int(nice as int) + " 失败："@
                + error@,
        }),
{
    let key = text2("nice-", pkg);
    let digits = decimal_i64(nice as i64);
    let number = string_of(digits.as_slice());
    let message = text5(pkg, " / ", comm, " 设置 nice=", number.as_str());
    Warning {
        key: text3(key.as_str(), "-", error),
        message: text3(message.as_str(), " 失败：", error),
    }
}

// Tasks.

/// The first of the first `n` applications that is the package.
pub open spec fn app_at(apps: Seq<AppV>, pkg: Seq<char>, n: int) -> Option<int>
    decreases n,
{
    if n <= 0 {
        None
    } else {
        match app_at(apps, pkg, n - 1) {
            Some(i) => Some(i),
            None => if apps[n - 1].pkg == pkg {
                Some(n - 1)
            } else {
                None
            },
        }
    }
}

/// The first of the first `n` memory groups with the name.
pub open spec fn group_at(groups: Seq<GroupV>, name: Seq<char>, n: int) -> Option<int>
    decreases n,
{
    if n <= 0 {
        None
    } else {
        match group_at(groups, name, n - 1) {
            Some(i) => Some(i),
            None => if groups[n - 1].name == name {
                Some(n - 1)
            } else {
                None
            },
        }
    }
}

/// The tuning of a package.
pub open spec fn tuned_app(c: ConfigV, pkg: Seq<char>) -> Option<int> {
    app_at(c.apps, pkg, c.apps.len() as int)
}

/// Which application of a configuration is the package.
pub fn find_app(config: &TuningConfig, pkg: &str) -> (r: Option<usize>)
    ensures
        match r {
            Some(i) => tuned_app(config@, pkg@) == Some(i as int) && i < config.apps@.len()
                && config.apps@[i as int].pkg@ == pkg@,
            None => tuned_app(config@, pkg@) is None,
        },
{
    let ghost all = app_views(config.apps@);
    let mut i: usize = 0;
    assert(all.len() == config.apps@.len());
    while i < config.apps.len()
        invariant
            i <= config.apps@.len(),
            all == app_views(config.apps@),
            all.len() == config.apps@.len(),
            app_at(all, pkg@, i as int) is None,
        decreases config.apps@.len() - i,
    {
        assert(all[i as int] == config.apps@[i as int]@);
        if equal(config.apps[i].pkg.as_str(), pkg) {
            proof {
                lemma_app_stuck(all, pkg@, i + 1, all.len() as int);
            }
            return Some(i);
        }
        i += 1;
    }
    None
}

proof fn lemma_app_stuck(apps: Seq<AppV>, pkg: Seq<char>, i: int, n: int)
    requires
        0 <= i <= n,
        app_at(apps, pkg, i) is Some,
    ensures
        app_at(apps, pkg, n) == app_at(apps, pkg, i),
    decreases n - i,
{
    if i < n {
        lemma_app_stuck(apps, pkg, i, n - 1);
    }
}

proof fn lemma_group_stuck(groups: Seq<GroupV>, name: Seq<char>, i: int, n: int)
    requires
        0 <= i <= n,
        group_at(groups, name, i) is Some,
    ensures
        group_at(groups, name, n) == group_at(groups, name, i),
    decreases n - i,
{
    if i < n {
        lemma_group_stuck(groups, name, i, n - 1);
    }
}

fn find_group(groups: &Vec<MemoryGroup>, name: &str) -> (r: Option<usize>)
    ensures
        match r {
            Some(i) => group_at(group_views(groups@), name@, groups@.len() as int) == Some(i as int)
                && i < groups@.len(),
            None => group_at(group_views(groups@), name@, groups@.len() as int) is None,
        },
{
    let ghost all = group_views(groups@);
    let mut i: usize = 0;
    while i < groups.len()
        invariant
            i <= groups@.len(),
            all == group_views(groups@),
            group_at(all, name@, i as int) is None,
        decreases groups@.len() - i,
    {
        assert(all[i as int] == groups@[i as int]@);
        if equal(groups[i].name.as_str(), name) {
            proof {
                lemma_group_stuck(all, name@, i + 1, groups@.len() as int);
            }
            return Some(i);
        }
        i += 1;
    }
    None
}

/// What is done about the memory group of a task.
pub enum GroupStep {
    Nothing,
    /// The process joins the memory group with this number.
    Join(usize),
    Missing(Warning),
}

/// What a `GroupStep` holds.
pub enum GroupStepV {
    Nothing,
    Join(int),
    Missing(WarningV),
}

impl View for GroupStep {
    type V = GroupStepV;

    open spec fn view(&self) -> GroupStepV {
        match *self {
            GroupStep::Nothing => GroupStepV::Nothing,
            GroupStep::Join(i) => GroupStepV::Join(i as int),
            GroupStep::Missing(w) => GroupStepV::Missing(w@),
        }
    }
}

/// What is done about the memory group of an application: its processes join it, and their other
/// threads follow.
pub open spec fn group_step(c: ConfigV, app: AppV, leads: bool) -> GroupStepV {
    match app.memory_group {
        Some(name) => if !leads {
            GroupStepV::Nothing
        } else {
            match group_at(c.memory_groups, name, c.memory_groups.len() as int) {
                Some(i) => GroupStepV::Join(i),
                None => GroupStepV::Missing(
                    WarningV {
                        key: "missing-group-"@ + name,
                        message: "应用 "@ + app.pkg + " 引用了不存在的内存组 "@ + name,
                    },
                ),
            }
        },
        None => GroupStepV::Nothing,
    }
}

/// What is done about a task of a tuned application.
pub struct TaskPlan {
    pub group: GroupStep,
    pub tune: Option<EffectiveThreadTune>,
}

/// What is done about a new task; nothing if its package is not tuned. `globs` says of each thread
/// rule of the package whether the name of the thread fits its pattern.
pub fn apply_task(
    config: &TuningConfig,
    tid: i32,
    pid: i32,
    pkg: &str,
    comm: &str,
    globs: &Vec<bool>,
) -> (r: Option<TaskPlan>)
    ensures
        match tuned_app(config@, pkg@) {
            None => r is None,
            Some(i) => r matches Some(plan) && plan.group@ == group_step(
                config@,
                config@.apps[i],
                tid == pid,
            ) && tune_result(
                plan.tune,
                tune_of(
                    config@.apps[i].threads,
                    comm@,
                    globs@,
                    config@.apps[i].threads.len() as int,
                ),
            ),
        },
{
    let i = match find_app(config, pkg) {
        None => {
            return None;
        },
        Some(i) => i,
    };
    let app = &config.apps[i];
    assert(config@.apps[i as int] == app@);
    assert(config@.memory_groups.len() == config.memory_groups@.len());
    let mut group = GroupStep::Nothing;
    if tid == pid {
        if let Some(name) = &app.memory_group {
            group =
            match find_group(&config.memory_groups, name.as_str()) {
                Some(k) => GroupStep::Join(k),
                None => {
                    let start = text2("应用 ", pkg);
                    GroupStep::Missing(
                        Warning {
                            key: text2("missing-group-", name.as_str()),
                            message: text3(
                                start.as_str(),
                                " 引用了不存在的内存组 ",
                                name.as_str(),
                            ),
                        },
                    )
                },
            };
        }
    }
    Some(TaskPlan { group, tune: effective_thread_tune(app, comm, globs) })
}

/// What is done again about a thread that was seen before; its memory group is left alone.
pub fn reapply_thread(config: &TuningConfig, pkg: &str, comm: &str, globs: &Vec<bool>) -> (r: Option<
    EffectiveThreadTune,
>)
    ensures
        tune_result(
            r,
            match tuned_app(config@, pkg@) {
                None => None,
                Some(i) => tune_of(
                    config@.apps[i].threads,
                    comm@,
                    globs@,
                    config@.apps[i].threads.len() as int,
                ),
            },
        ),
{
    match find_app(config, pkg) {
        None => None,
        Some(i) => {
            assert(config@.apps[i as int] == config.apps@[i as int]@);
            effective_thread_tune(&config.apps[i], comm, globs)
        },
    }
}

} // verus!
