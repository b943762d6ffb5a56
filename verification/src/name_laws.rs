//! Which names and paths are accepted, in terms of their characters.

use crate::api::pkg_shape;
use crate::settings::{base_name, name_fits, path_fits};
use crate::text::{begins, byte_len, has_control, is_control, occurs, occurs_at, split_on, trim};
use crate::text_laws::{law_first_and_last_place, law_holding_another_text, law_replacing};
use crate::tuning::{
    cgroup_template, group_char, group_name, joined_path, markers_filled, package_name, state_path,
    thread_pattern, token, usable_dir,
};
use vstd::prelude::*;

verus! {

/// Whether no character of `s` is a control character.
pub open spec fn printable(s: Seq<char>) -> bool {
    forall|i: int| 0 <= i < s.len() ==> (#[trigger] s[i]) as int >= 32 && s[i] as int != 127
}

/// Whether neither a `#` nor two slashes next to each other stand in `s`.
pub open spec fn unmarked(s: Seq<char>) -> bool {
    &&& forall|i: int| 0 <= i < s.len() ==> (#[trigger] s[i]) != '#'
    &&& forall|i: int, j: int|
        0 <= i < j < s.len() && j == i + 1 && #[trigger] s[i] == '/' ==> #[trigger] s[j] != '/'
}

proof fn lemma_printable(s: Seq<char>)
    ensures
        has_control(s) <==> !printable(s),
{
    if has_control(s) {
        let i = choose|i: int| 0 <= i < s.len() && is_control(#[trigger] s[i]);
        assert((s[i] as int) < 32 || s[i] as int == 127);
    }
    if !printable(s) {
        let i = choose|i: int|
            0 <= i < s.len() && !((#[trigger] s[i]) as int >= 32 && s[i] as int != 127);
        assert(is_control(s[i]));
    }
}

proof fn lemma_unmarked(s: Seq<char>)
    ensures
        !s.contains('#') && !occurs(s, "//"@) <==> unmarked(s),
{
    reveal_strlit("//");
    if occurs(s, "//"@) {
        let i = choose|i: int| occurs_at(s, "//"@, i);
        let p = s.subrange(i, i + 2);
        assert(p[0] == '/' && p[1] == '/');
        assert(s[i] == '/' && s[i + 1] == '/');
    }
    if !s.contains('#') && !occurs(s, "//"@) {
        assert forall|i: int, j: int|
            0 <= i < j < s.len() && j == i + 1 && #[trigger] s[i] == '/' implies #[trigger] s[j]
            != '/' by {
            if s[j] == '/' {
                assert(s.subrange(i, i + 2) =~= "//"@);
                assert(occurs_at(s, "//"@, i));
            }
        }
    }
}

/// A name can stand in a rule file exactly if something is left of it between the whitespace, that
/// has less bytes than allowed, no control characters, and nothing that begins a comment.
pub proof fn law_which_names_can_stand_in_a_rule(s: Seq<char>, max: int)
    ensures
        token(s, max) <==> trim(s).len() > 0 && byte_len(trim(s)) < max && printable(trim(s))
            && unmarked(trim(s)),
{
    lemma_printable(trim(s));
    lemma_unmarked(trim(s));
}

/// Whether none of the given characters stands in `s`.
pub open spec fn free_of(s: Seq<char>, chars: Seq<char>) -> bool {
    forall|i: int, k: int|
        0 <= i < s.len() && 0 <= k < chars.len() ==> #[trigger] s[i] != #[trigger] chars[k]
}

/// The name of a package has less than 128 bytes and holds neither braces nor slashes of either
/// kind; that of a memory group has less than 64, and only letters, digits, `.`, `_` and `-`; a
/// pattern for threads has at most 15.
pub proof fn law_which_names_are_accepted(s: Seq<char>)
    ensures
        package_name(s) <==> token(s, 128) && free_of(s, seq!['{', '}', '\\', '/']),
        group_name(s) <==> token(s, 64) && forall|i: int|
            0 <= i < s.len() ==> 48 <= (#[trigger] s[i]) as int <= 57 || 65 <= s[i] as int <= 90
                || 97 <= s[i] as int <= 122 || s[i] == '.' || s[i] == '_' || s[i] == '-',
        thread_pattern(s) <==> token(s, 32) && byte_len(s) <= 15 && forall|i: int|
            0 <= i < s.len() ==> (#[trigger] s[i]) as int != 0,
{
    let chars = seq!['{', '}', '\\', '/'];
    assert(chars[0] == '{' && chars[1] == '}' && chars[2] == '\\' && chars[3] == '/');
    if free_of(s, chars) {
        assert(!s.contains('{') && !s.contains('}') && !s.contains('\\') && !s.contains('/'));
    }
    if group_name(s) {
        assert forall|i: int| 0 <= i < s.len() implies 48 <= (#[trigger] s[i]) as int <= 57 || 65
            <= s[i] as int <= 90 || 97 <= s[i] as int <= 122 || s[i] == '.' || s[i] == '_' || s[i]
            == '-' by {
            assert(group_char(s[i]));
        }
    }
    if s.contains('\0') {
        let i = choose|i: int| 0 <= i < s.len() && s[i] == '\0';
        assert(s[i] as int == 0);
    } else {
        assert forall|i: int| 0 <= i < s.len() implies (#[trigger] s[i]) as int != 0 by {
            assert(s[i] != '\0');
        }
    }
}

/// A name that holds a `{` and ends with a `}` looks like a package with a thread; no other does.
pub proof fn law_which_packages_can_have_a_rule(s: Seq<char>)
    ensures
        !pkg_shape(s) <==> s.len() > 0 && s[s.len() - 1] == '}' && exists|i: int|
            0 <= i < s.len() && #[trigger] s[i] == '{',
{
}

/// A cpuset directory has a name of 1 to 63 bytes, without slashes, whitespace of ASCII and control
/// characters; the path of a file has 1 to 255 bytes, without control characters.
pub proof fn law_which_settings_are_accepted(s: Seq<char>)
    ensures
        name_fits(s) <==> 0 < s.len() && byte_len(s) <= 63 && forall|i: int|
            0 <= i < s.len() ==> (#[trigger] s[i]) as int > 32 && s[i] != '/',
        path_fits(s) <==> 0 < s.len() && byte_len(s) <= 255 && printable(s),
        usable_dir(s) <==> 0 < s.len() && forall|i: int|
            0 <= i < s.len() ==> (#[trigger] s[i]) as int > 31,
{
    lemma_printable(s);
}

/// A path below a directory is that path behind the directory and one slash; an absolute path stays
/// as it is.
pub proof fn law_joining_paths(dir: Seq<char>, name: Seq<char>)
    ensures
        name.len() > 0 && name[0] == '/' ==> joined_path(dir, name) == name,
        !(name.len() > 0 && name[0] == '/') ==> {
            &&& joined_path(dir + "/"@, name) == dir + "/"@ + name
            &&& !(dir.len() > 0 && dir[dir.len() - 1] == '/') ==> joined_path(dir, name) == dir
                + "/"@ + name
        },
{
    reveal_strlit("/");
    let slash = "/"@;
    assert(slash =~= seq!['/']);
    if name.len() > 0 {
        assert(name.take(1) =~= seq![name[0]]);
        if name[0] != '/' {
            assert(name.take(1)[0] != slash[0]);
        }
    }
    let d = dir + slash;
    assert(d.skip(d.len() - 1) =~= slash);
    if dir.len() > 0 {
        assert(dir.skip(dir.len() - 1) =~= seq![dir[dir.len() - 1]]);
        if dir[dir.len() - 1] != '/' {
            assert(dir.skip(dir.len() - 1)[0] != slash[0]);
        }
    }
}

/// A state file stands in the directory that is given, if that can be used, and else in the current
/// one.
pub proof fn law_where_state_files_stand(dir: Seq<char>, name: Seq<char>)
    requires
        name.len() > 0,
        name[0] != '/',
    ensures
        state_path(None, name) == "./"@ + name,
        dir.len() == 0 ==> state_path(Some(dir), name) == "./"@ + name,
        (exists|i: int| 0 <= i < dir.len() && (#[trigger] dir[i]) as int <= 31) ==> state_path(
            Some(dir),
            name,
        ) == "./"@ + name,
        usable_dir(dir) && dir[dir.len() - 1] != '/' ==> state_path(Some(dir), name) == dir + "/"@
            + name,
{
    law_joining_paths(dir, name);
}

/// What stands behind the last slash of a path is its last part; a path without one is that part.
pub proof fn law_last_part_of_a_path(dir: Seq<char>, name: Seq<char>)
    requires
        !name.contains('/'),
    ensures
        base_name(dir + "/"@ + name) == name,
        base_name(name) == name,
{
    reveal_strlit("/");
    assert("/"@ =~= seq!['/']);
    law_first_and_last_place(dir, '/', name);
    law_first_and_last_place(name, '/', name);
    assert((dir + "/"@ + name).skip((dir.len() + 1) as int) =~= name);
}

/// The path of a memory group has less than 256 bytes, no control characters and no backslashes. If
/// it is absolute it stands below one of the two cgroup roots, and no part of it is `.` or `..`.
/// Once its marks are filled in, no braces are left of it: a path without braces needs no more, and
/// one with braces that belong to no mark is refused.
#[verifier::rlimit(40)]
#[verifier::spinoff_prover]
pub proof fn law_which_group_paths_are_accepted(s: Seq<char>)
    requires
        trim(s) == s,
    ensures
        ({
            let fit = {
                &&& 0 < s.len() && byte_len(s) <= 255
                &&& printable(s)
                &&& free_of(s, seq!['\\'])
                &&& s[0] == '/' ==> (exists|b: Seq<char>| s == #[trigger] ("/dev/memcg/"@ + b)) || (
                exists|b: Seq<char>| s == #[trigger] ("/sys/fs/cgroup/"@ + b))
                &&& forall|i: int|
                    0 <= i < split_on(s, '/').len() ==> (#[trigger] split_on(s, '/')[i]) != "."@
                        && split_on(s, '/')[i] != ".."@
            };
            let plain = free_of(s, seq!['{', '}']);
            let marked = occurs(s, "{uid}"@) || occurs(s, "{pid}"@) || occurs(s, "{pkg}"@);
            &&& cgroup_template(s) <==> fit && free_of(markers_filled(s), seq!['{', '}'])
            &&& fit && plain ==> cgroup_template(s)
            &&& !plain && !marked ==> !cgroup_template(s)
        }),
{
    lemma_printable(s);
    if s.len() > 0 {
        lemma_below_roots(s);
    }
    lemma_marks(s);
    lemma_braces(markers_filled(s));
    let back = seq!['\\'];
    assert(back[0] == '\\');
    if s.contains('\\') {
        let i = choose|i: int| 0 <= i < s.len() && s[i] == '\\';
        assert(s[i] == back[0]);
    } else {
        assert(free_of(s, back));
    }
}

proof fn lemma_braces(s: Seq<char>)
    ensures
        free_of(s, seq!['{', '}']) <==> !s.contains('{') && !s.contains('}'),
{
    let chars = seq!['{', '}'];
    assert(chars[0] == '{' && chars[1] == '}');
    if !s.contains('{') && !s.contains('}') {
        assert forall|i: int, k: int| 0 <= i < s.len() && 0 <= k < chars.len() implies #[trigger] s[i]
            != #[trigger] chars[k] by {}
    }
}

proof fn lemma_below_roots(s: Seq<char>)
    requires
        s.len() > 0,
    ensures
        begins(s, "/"@) <==> s[0] == '/',
        begins(s, "/dev/memcg/"@) <==> exists|b: Seq<char>| s == #[trigger] ("/dev/memcg/"@ + b),
        begins(s, "/sys/fs/cgroup/"@) <==> exists|b: Seq<char>|
            s == #[trigger] ("/sys/fs/cgroup/"@ + b),
{
    reveal_strlit("/");
    assert("/"@ =~= seq!['/']);
    assert(s.take(1) =~= seq![s[0]]);
    assert(s.take(1)[0] == s[0]);
    law_holding_another_text(s, "/dev/memcg/"@);
    law_holding_another_text(s, "/sys/fs/cgroup/"@);
}

/// Marks are the only braces that are filled in.
proof fn lemma_marks(s: Seq<char>)
    ensures
        ({
            let plain = free_of(s, seq!['{', '}']);
            let marked = occurs(s, "{uid}"@) || occurs(s, "{pid}"@) || occurs(s, "{pkg}"@);
            let filled = markers_filled(s);
            &&& plain ==> !filled.contains('{') && !filled.contains('}')
            &&& !plain && !marked ==> filled.contains('{') || filled.contains('}')
        }),
{
    reveal_strlit("{uid}");
    reveal_strlit("{pid}");
    reveal_strlit("{pkg}");
    let chars = seq!['{', '}'];
    assert(chars[0] == '{' && chars[1] == '}');
    let marked = occurs(s, "{uid}"@) || occurs(s, "{pid}"@) || occurs(s, "{pkg}"@);
    if free_of(s, chars) {
        assert(!s.contains('{') && !s.contains('}'));
        lemma_no_mark(s, "{uid}"@);
        lemma_no_mark(s, "{pid}"@);
        lemma_no_mark(s, "{pkg}"@);
    } else {
        let (i, k) = choose|i: int, k: int|
            0 <= i < s.len() && 0 <= k < chars.len() && #[trigger] s[i] == #[trigger] chars[k];
        assert(s.contains(chars[k]));
    }
    if !marked {
        law_replacing(s, "{uid}"@, "x"@, 'x');
        law_replacing(s, "{pid}"@, "x"@, 'x');
        law_replacing(s, "{pkg}"@, "x"@, 'x');
        assert(markers_filled(s) == s);
    }
}

proof fn lemma_no_mark(s: Seq<char>, mark: Seq<char>)
    requires
        !s.contains('{'),
        mark.len() > 0,
        mark[0] == '{',
    ensures
        !occurs(s, mark),
{
    if occurs(s, mark) {
        let i = choose|i: int| occurs_at(s, mark, i);
        assert(s.subrange(i, i + mark.len())[0] == s[i]);
    }
}

} // verus!
