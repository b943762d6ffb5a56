//! The requests that the panel reads and the answers that it sends, in terms of their text.

use crate::json::{at, field, JsonV};
use crate::text::{
    decimal, ends, first_of, is_digit, lemma_decimal, lemma_first_of, lines_of, lower, trim,
    unsigned_of, words,
};
use crate::text_laws::{law_first_and_last_place, law_holding_another_text, law_lines_of_a_text};
use crate::web::{
    admitted, answer_head, bare_host, error_json, field_read, fields_read, head_after, head_of,
    ok_json, port_mark, reason_of, refusal, route_of, success, FieldsV, HeadStep, HeadV,
};
use vstd::prelude::*;

verus! {

// Reading a request.

/// The head of a request grows by each line until a line end alone comes. It is dropped where
/// nothing came, or where it would have more than 8192 bytes; nothing is lost before.
pub proof fn law_heads_grow_line_by_line(head: Seq<u8>, line: Seq<u8>)
    ensures
        line == seq![13u8, 10u8] || line == seq![10u8] ==> head_after(head, line) == (
            head,
            HeadStep::Done,
        ),
        line.len() == 0 ==> head_after(head, line).1 is Dropped,
        line.len() > 2 ==> head_after(head, line).0 == head + line,
        line.len() > 2 ==> (head_after(head, line).1 is Dropped <==> head.len() + line.len()
            > 8192),
        line.len() > 2 ==> !(head_after(head, line).1 is Done),
{
}

/// Whether a line is the field `name` with the value `value`: a name in letters of any size, a
/// colon, and the value, with whitespace around both.
pub open spec fn is_field(line: Seq<char>, name: Seq<char>, value: Seq<char>) -> bool {
    exists|k: Seq<char>, v: Seq<char>|
        line == #[trigger] (k + ":"@ + v) && !k.contains(':') && lower(trim(k)) == name && trim(v)
            == value
}

/// Whether none of the lines from `a` to `b` is a field `name`.
pub open spec fn no_field_from(lines: Seq<Seq<char>>, name: Seq<char>, a: int, b: int) -> bool {
    forall|j: int, value: Seq<char>|
        a <= j < b ==> !#[trigger] is_field(lines[j], name, value)
}

proof fn lemma_field(f: FieldsV, line: Seq<char>, name: Seq<char>, value: Seq<char>)
    requires
        is_field(line, name, value),
    ensures
        first_of(line, ':') < line.len(),
        lower(trim(line.take(first_of(line, ':')))) == name,
        trim(line.skip(first_of(line, ':') + 1)) == value,
{
    reveal_strlit(":");
    let (k, v) = choose|k: Seq<char>, v: Seq<char>|
        line == #[trigger] (k + ":"@ + v) && !k.contains(':') && lower(trim(k)) == name && trim(v)
            == value;
    assert(":"@ =~= seq![':']);
    law_first_and_last_place(k, ':', v);
    assert(line.take(k.len() as int) =~= k);
    assert(line.skip(k.len() as int + 1) =~= v);
}

proof fn lemma_some_field(line: Seq<char>)
    requires
        0 <= first_of(line, ':') < line.len(),
    ensures
        is_field(
            line,
            lower(trim(line.take(first_of(line, ':')))),
            trim(line.skip(first_of(line, ':') + 1)),
        ),
{
    reveal_strlit(":");
    lemma_first_of(line, ':');
    let i = first_of(line, ':');
    let (k, v) = (line.take(i), line.skip(i + 1));
    assert(line =~= k + ":"@ + v);
    assert forall|j: int| 0 <= j < k.len() implies #[trigger] k[j] != ':' by {
        assert(k[j] == line[j]);
    }
}

/// The names of the fields that matter differ.
proof fn lemma_names_differ()
    ensures
        "host"@.len() == 4,
        "origin"@.len() == 6,
        "sec-fetch-site"@.len() == 14,
        "content-type"@.len() == 12,
        "content-length"@.len() == 14,
        "connection"@.len() == 10,
        "transfer-encoding"@.len() == 17,
        "sec-fetch-site"@ != "content-length"@,
{
    reveal_strlit("host");
    reveal_strlit("origin");
    reveal_strlit("sec-fetch-site");
    reveal_strlit("content-type");
    reveal_strlit("content-length");
    reveal_strlit("connection");
    reveal_strlit("transfer-encoding");
    assert("sec-fetch-site"@[0] != "content-length"@[0]);
}

/// What the lines up to line `n` say of one field.
pub open spec fn told(lines: Seq<Seq<char>>, name: Seq<char>, n: int, value: Seq<char>) -> bool {
    exists|i: int|
        1 <= i < n && is_field(#[trigger] lines[i], name, value) && no_field_from(
            lines,
            name,
            i + 1,
            n,
        )
}

proof fn lemma_told_step(lines: Seq<Seq<char>>, name: Seq<char>, n: int, value: Seq<char>)
    requires
        1 < n <= lines.len(),
    ensures
        is_field(lines[n - 1], name, value) ==> told(lines, name, n, value),
        told(lines, name, n, value) ==> is_field(lines[n - 1], name, value) || (told(
            lines,
            name,
            n - 1,
            value,
        ) && no_field_from(lines, name, n - 1, n)),
        no_field_from(lines, name, 1, n) ==> no_field_from(lines, name, 1, n - 1) && no_field_from(
            lines,
            name,
            n - 1,
            n,
        ),
{
    if told(lines, name, n, value) {
        let i = choose|i: int|
            1 <= i < n && is_field(#[trigger] lines[i], name, value) && no_field_from(
                lines,
                name,
                i + 1,
                n,
            );
        if i < n - 1 {
            assert(no_field_from(lines, name, i + 1, n - 1));
            assert(no_field_from(lines, name, n - 1, n));
        }
    }
    if is_field(lines[n - 1], name, value) {
        assert(no_field_from(lines, name, n, n));
    }
}

/// One line that is not a field `name` leaves what is kept of that field; one that is sets it.
proof fn lemma_field_step(f: FieldsV, lines: Seq<Seq<char>>, n: int)
    requires
        1 < n <= lines.len(),
    ensures
        ({
            let line = lines[n - 1];
            let g = field_read(f, line);
            &&& no_field_from(lines, "host"@, n - 1, n) ==> g.host == f.host
            &&& no_field_from(lines, "origin"@, n - 1, n) ==> g.origin == f.origin
            &&& no_field_from(lines, "sec-fetch-site"@, n - 1, n) ==> g.fetch_site == f.fetch_site
            &&& no_field_from(lines, "content-type"@, n - 1, n) ==> g.content_type == f.content_type
            &&& no_field_from(lines, "content-length"@, n - 1, n) ==> g.body_len == f.body_len
            &&& no_field_from(lines, "connection"@, n - 1, n) ==> g.connection == f.connection
            &&& no_field_from(lines, "transfer-encoding"@, n - 1, n) ==> g.encoded == f.encoded
            &&& f.encoded ==> g.encoded
        }),
{
    let line = lines[n - 1];
    lemma_first_of(line, ':');
    if first_of(line, ':') < line.len() {
        lemma_some_field(line);
    }
}

proof fn lemma_field_set(f: FieldsV, line: Seq<char>, name: Seq<char>, value: Seq<char>)
    requires
        is_field(line, name, value),
    ensures
        ({
            let g = field_read(f, line);
            &&& name == "host"@ ==> g.host == lower(value)
            &&& name == "origin"@ ==> g.origin == lower(value)
            &&& name == "sec-fetch-site"@ ==> g.fetch_site == lower(value)
            &&& name == "content-type"@ ==> g.content_type == lower(value)
            &&& name == "content-length"@ ==> g.body_len == unsigned_of(value, 16384)
            &&& name == "connection"@ ==> g.connection == lower(value)
            &&& name == "transfer-encoding"@ ==> g.encoded
        }),
{
    lemma_names_differ();
    lemma_field(f, line, name, value);
}

#[verifier::rlimit(40)]
#[verifier::spinoff_prover]
proof fn lemma_fields(lines: Seq<Seq<char>>, n: int, value: Seq<char>)
    requires
        n <= lines.len(),
    ensures
        ({
            let f = fields_read(lines, n);
            let none = Seq::<char>::empty();
            &&& told(lines, "host"@, n, value) ==> f.host == lower(value)
            &&& told(lines, "origin"@, n, value) ==> f.origin == lower(value)
            &&& told(lines, "sec-fetch-site"@, n, value) ==> f.fetch_site == lower(value)
            &&& told(lines, "content-type"@, n, value) ==> f.content_type == lower(value)
            &&& told(lines, "content-length"@, n, value) ==> f.body_len == unsigned_of(value, 16384)
            &&& told(lines, "connection"@, n, value) ==> f.connection == lower(value)
            &&& no_field_from(lines, "host"@, 1, n) ==> f.host == none
            &&& no_field_from(lines, "origin"@, 1, n) ==> f.origin == none
            &&& no_field_from(lines, "sec-fetch-site"@, 1, n) ==> f.fetch_site == none
            &&& no_field_from(lines, "content-type"@, 1, n) ==> f.content_type == none
            &&& no_field_from(lines, "content-length"@, 1, n) ==> f.body_len == Some(0nat)
            &&& no_field_from(lines, "connection"@, 1, n) ==> f.connection == none
            &&& f.encoded <==> !no_field_from(lines, "transfer-encoding"@, 1, n)
        }),
    decreases n,
{
    if n > 1 {
        lemma_fields(lines, n - 1, value);
        let f = fields_read(lines, n - 1);
        let line = lines[n - 1];
        lemma_field_step(f, lines, n);
        lemma_told_step(lines, "host"@, n, value);
        lemma_told_step(lines, "origin"@, n, value);
        lemma_told_step(lines, "sec-fetch-site"@, n, value);
        lemma_told_step(lines, "content-type"@, n, value);
        lemma_told_step(lines, "content-length"@, n, value);
        lemma_told_step(lines, "connection"@, n, value);
        lemma_told_step(lines, "transfer-encoding"@, n, value);
        if is_field(line, "host"@, value) {
            lemma_field_set(f, line, "host"@, value);
        }
        if is_field(line, "origin"@, value) {
            lemma_field_set(f, line, "origin"@, value);
        }
        if is_field(line, "sec-fetch-site"@, value) {
            lemma_field_set(f, line, "sec-fetch-site"@, value);
        }
        if is_field(line, "content-type"@, value) {
            lemma_field_set(f, line, "content-type"@, value);
        }
        if is_field(line, "content-length"@, value) {
            lemma_field_set(f, line, "content-length"@, value);
        }
        if is_field(line, "connection"@, value) {
            lemma_field_set(f, line, "connection"@, value);
        }
        lemma_encoded_step(lines, n);
    }
}

proof fn lemma_encoded_step(lines: Seq<Seq<char>>, n: int)
    requires
        1 < n <= lines.len(),
        fields_read(lines, n - 1).encoded <==> !no_field_from(lines, "transfer-encoding"@, 1, n - 1),
    ensures
        fields_read(lines, n).encoded <==> !no_field_from(lines, "transfer-encoding"@, 1, n),
{
    let name = "transfer-encoding"@;
    let f = fields_read(lines, n - 1);
    lemma_field_step(f, lines, n);
    if no_field_from(lines, name, 1, n) {
        assert(no_field_from(lines, name, 1, n - 1));
        assert(no_field_from(lines, name, n - 1, n));
    } else {
        let (j, value) = choose|j: int, value: Seq<char>|
            1 <= j < n && #[trigger] is_field(lines[j], name, value);
        if j == n - 1 {
            lemma_field_set(f, lines[n - 1], name, value);
        } else {
            assert(!no_field_from(lines, name, 1, n - 1));
        }
    }
}

/// What is kept of a request comes from its text: the method and the path, up to a `?`, are the
/// first two words of the first line, and of each field the last line that has it counts, in small
/// letters. A field that is not there is empty.
#[verifier::rlimit(40)]
#[verifier::spinoff_prover]
pub proof fn law_requests_are_read(text: Seq<char>, value: Seq<char>)
    ensures
        head_of(text) matches Some(h) ==> {
            let lines = lines_of(text);
            let n = lines.len() as int;
            let none = Seq::<char>::empty();
            &&& n > 0 && words(lines[0]).len() >= 2
            &&& h.method == words(lines[0])[0]
            &&& !words(lines[0])[1].contains('?') ==> h.path == words(lines[0])[1]
            &&& told(lines, "host"@, n, value) ==> h.host == lower(value)
            &&& told(lines, "origin"@, n, value) ==> h.origin == lower(value)
            &&& told(lines, "sec-fetch-site"@, n, value) ==> h.fetch_site == lower(value)
            &&& told(lines, "content-type"@, n, value) ==> h.content_type == lower(value)
            &&& told(lines, "content-length"@, n, value) ==> unsigned_of(value, 16384) == Some(
                h.body_len as nat,
            )
            &&& no_field_from(lines, "host"@, 1, n) ==> h.host == none
            &&& no_field_from(lines, "origin"@, 1, n) ==> h.origin == none
            &&& no_field_from(lines, "sec-fetch-site"@, 1, n) ==> h.fetch_site == none
            &&& no_field_from(lines, "content-type"@, 1, n) ==> h.content_type == none
            &&& no_field_from(lines, "content-length"@, 1, n) ==> h.body_len == 0
        },
{
    let lines = lines_of(text);
    let n = lines.len() as int;
    lemma_fields(lines, n, value);
    if head_of(text) is Some {
        let target = words(lines[0])[1];
        if !target.contains('?') {
            law_first_and_last_place(target, '?', target);
            assert(target.take(target.len() as int) =~= target);
        }
    }
}

/// A question mark ends the path of a request.
pub proof fn law_paths_end_at_a_question_mark(text: Seq<char>, path: Seq<char>, rest: Seq<char>)
    requires
        head_of(text) is Some,
        words(lines_of(text)[0])[1] == path + "?"@ + rest,
        !path.contains('?'),
    ensures
        head_of(text)->0.path == path,
{
    reveal_strlit("?");
    assert("?"@ =~= seq!['?']);
    law_first_and_last_place(path, '?', rest);
    assert((path + "?"@ + rest).take(path.len() as int) =~= path);
}

/// A request is read unless its text has no line of two words, the last length of its body is no
/// number up to 16384, or its body comes in another form.
pub proof fn law_when_requests_are_read(text: Seq<char>, value: Seq<char>)
    ensures
        ({
            let lines = lines_of(text);
            let n = lines.len() as int;
            &&& n == 0 || words(lines[0]).len() < 2 ==> head_of(text) is None
            &&& !no_field_from(lines, "transfer-encoding"@, 1, n) ==> head_of(text) is None
            &&& told(lines, "content-length"@, n, value) && unsigned_of(value, 16384) is None
                ==> head_of(text) is None
            &&& n > 0 && words(lines[0]).len() >= 2 && no_field_from(
                lines,
                "transfer-encoding"@,
                1,
                n,
            ) && (no_field_from(lines, "content-length"@, 1, n) || (told(
                lines,
                "content-length"@,
                n,
                value,
            ) && unsigned_of(value, 16384) is Some)) ==> head_of(text) is Some
        }),
{
    lemma_fields(lines_of(text), lines_of(text).len() as int, value);
}

/// A connection stays open unless its field says `close`; under `HTTP/1.0`, only if it says
/// `keep-alive`. A request without a version is taken as one of `HTTP/1.1`.
#[verifier::rlimit(40)]
#[verifier::spinoff_prover]
pub proof fn law_when_connections_stay_open(text: Seq<char>, value: Seq<char>)
    ensures
        head_of(text) matches Some(h) ==> {
            let lines = lines_of(text);
            let n = lines.len() as int;
            let first = words(lines[0]);
            let old = first.len() > 2 && first[2] == "HTTP/1.0"@;
            &&& told(lines, "connection"@, n, value) && !old ==> (h.keep_alive <==> !exists|
                a: Seq<char>,
                b: Seq<char>,
            |
                lower(value) == #[trigger] (a + "close"@ + b))
            &&& told(lines, "connection"@, n, value) && old ==> (h.keep_alive <==> exists|
                a: Seq<char>,
                b: Seq<char>,
            |
                lower(value) == #[trigger] (a + "keep-alive"@ + b))
            &&& no_field_from(lines, "connection"@, 1, n) ==> (h.keep_alive <==> !old)
        },
{
    reveal_strlit("HTTP/1.0");
    reveal_strlit("HTTP/1.1");
    reveal_strlit("close");
    reveal_strlit("keep-alive");
    lemma_fields(lines_of(text), lines_of(text).len() as int, value);
    law_holding_another_text(lower(value), "close"@);
    law_holding_another_text(lower(value), "keep-alive"@);
    let none = Seq::<char>::empty();
    assert("HTTP/1.0"@[7] != "HTTP/1.1"@[7]);
}

// What a request asks for.

/// Whether a host is the local address or the local name, alone or with the port 8889 behind it.
pub open spec fn this_device(host: Seq<char>) -> bool {
    ||| host == "127.0.0.1"@
    ||| host == "localhost"@
    ||| host == "127.0.0.1"@ + ":8889"@
    ||| host == "localhost"@ + ":8889"@
}

proof fn lemma_this_device(host: Seq<char>)
    ensures
        this_device(host) <==> bare_host(host) == "127.0.0.1"@ || bare_host(host) == "localhost"@,
{
    lemma_port();
    reveal_strlit("127.0.0.1");
    reveal_strlit("localhost");
    reveal_strlit(":8889");
    let mark = ":8889"@;
    if ends(host, mark) {
        assert(host =~= host.take(host.len() - mark.len()) + mark);
    }
    assert(("127.0.0.1"@ + mark).skip(9) =~= mark);
    assert(("127.0.0.1"@ + mark).take(9) =~= "127.0.0.1"@);
    assert(("localhost"@ + mark).skip(9) =~= mark);
    assert(("localhost"@ + mark).take(9) =~= "localhost"@);
    if host == "127.0.0.1"@ || host == "localhost"@ {
        assert(host.len() == 9);
        if ends(host, mark) {
            assert(host.skip(4)[0] == host[4]);
        }
    }
}

/// A request is admitted exactly if it is meant for this device, no page of another site sent it,
/// and what it posts is JSON. No page of another site sent it where the origin is empty or `null`,
/// or where the request does not say where it comes from, or says that it comes from no site or from
/// the panel itself.
pub proof fn law_which_requests_are_admitted(h: HeadV)
    ensures
        admitted(h) <==> this_device(h.host) && (h.origin.len() == 0 || h.origin == "null"@
            || h.fetch_site.len() == 0 || h.fetch_site == "none"@ || h.fetch_site
            == "same-origin"@) && (h.method != "POST"@ || exists|b: Seq<char>|
            h.content_type == #[trigger] ("application/json"@ + b)),
{
    lemma_this_device(h.host);
    law_holding_another_text(h.content_type, "application/json"@);
}

proof fn lemma_port()
    ensures
        port_mark() == ":8889"@,
{
    reveal_strlit(":");
    reveal_strlit(":8889");
    reveal_with_fuel(decimal, 5);
    assert(decimal(8889) =~= seq!['8', '8', '8', '9']);
    assert(port_mark() =~= ":8889"@);
}

/// An admitted request is answered by its method and path, and by nothing else; whatever stands in
/// no row of this table is not found.
#[verifier::rlimit(40)]
#[verifier::spinoff_prover]
pub proof fn law_what_requests_ask_for(h: HeadV)
    requires
        admitted(h),
    ensures
        ({
            let r = route_of(h);
            let get = h.method == "GET"@;
            let post = h.method == "POST"@;
            &&& r is Index <==> get && (h.path == "/"@ || h.path == "/index.html"@)
            &&& r is Status <==> get && h.path == "/api/status"@
            &&& r is Rules <==> get && h.path == "/api/rules"@
            &&& r is Config <==> get && h.path == "/api/config"@
            &&& r is Tuning <==> get && h.path == "/api/tuning"@
            &&& r is SetRule <==> post && h.path == "/api/rule"@
            &&& r is DeleteRule <==> post && h.path == "/api/rule/del"@
            &&& r is RenameRule <==> post && h.path == "/api/rule/rename"@
            &&& r is CloneRule <==> post && h.path == "/api/rule/clone"@
            &&& r is SetConfig <==> post && h.path == "/api/config"@
            &&& r is SetTuning <==> post && h.path == "/api/tuning"@
            &&& r is Suggest <==> post && h.path == "/api/suggest"@
            &&& !(r is Forbidden)
        }),
{
    reveal_strlit("GET");
    reveal_strlit("POST");
    reveal_strlit("/");
    reveal_strlit("/index.html");
    reveal_strlit("/api/status");
    reveal_strlit("/api/rules");
    reveal_strlit("/api/config");
    reveal_strlit("/api/tuning");
    reveal_strlit("/api/rule");
    reveal_strlit("/api/rule/del");
    reveal_strlit("/api/rule/rename");
    reveal_strlit("/api/rule/clone");
    reveal_strlit("/api/suggest");
    assert("GET"@.len() == 3 && "POST"@.len() == 4);
    assert("/index.html"@[1] == 'i' && "/api/status"@[1] == 'a' && "/api/config"@[1] == 'a'
        && "/api/tuning"@[1] == 'a');
    assert("/api/status"@[5] == 's' && "/api/config"@[5] == 'c' && "/api/tuning"@[5] == 't');
    assert("/"@.len() == 1 && "/index.html"@.len() == 11 && "/api/status"@.len() == 11);
    assert("/api/rules"@.len() == 10 && "/api/config"@.len() == 11 && "/api/tuning"@.len() == 11);
    assert("/api/rule"@.len() == 9 && "/api/rule/del"@.len() == 13 && "/api/suggest"@.len() == 12);
    assert("/api/rule/rename"@.len() == 16 && "/api/rule/clone"@.len() == 15);
    assert("/api/config"@ != "/api/tuning"@ && "/api/config"@ != "/api/status"@);
    assert("/api/tuning"@ != "/api/status"@ && "/index.html"@ != "/api/status"@);
    assert("/index.html"@ != "/api/config"@ && "/index.html"@ != "/api/tuning"@);
    assert("GET"@ != "POST"@);
}

// Answers.

/// An answer that refuses says so and why; one that succeeds has the status 200.
pub proof fn law_what_answers_say(code: u16, msg: Seq<char>)
    ensures
        at(error_json(msg), "ok"@) == JsonV::Bool(false),
        at(error_json(msg), "err"@) == JsonV::Text(msg),
        at(ok_json(), "ok"@) == JsonV::Bool(true),
        refusal(code, msg).code == code,
        at(refusal(code, msg).doc, "ok"@) == JsonV::Bool(false),
        at(refusal(code, msg).doc, "err"@) == JsonV::Text(msg),
        success().code == 200,
        at(success().doc, "ok"@) == JsonV::Bool(true),
{
    reveal_strlit("ok");
    reveal_strlit("err");
    assert("ok"@.len() == 2 && "err"@.len() == 3);
}

proof fn lemma_head_line(line: Seq<char>, rest: Seq<char>)
    requires
        !line.contains('\n'),
    ensures
        lines_of(line + "\r\n"@ + rest) == seq![line] + lines_of(rest),
{
    reveal_strlit("\r\n");
    assert("\r\n"@ =~= seq!['\r', '\n']);
    law_lines_of_a_text(line, rest);
}

proof fn lemma_one_line(a: Seq<char>, b: Seq<char>)
    requires
        !a.contains('\n'),
        !b.contains('\n'),
    ensures
        !(a + b).contains('\n'),
{
    if (a + b).contains('\n') {
        let i = choose|i: int| 0 <= i < (a + b).len() && (a + b)[i] == '\n';
        if i < a.len() {
            assert(a[i] == '\n');
        } else {
            assert(b[i - a.len()] == '\n');
        }
    }
}

proof fn lemma_decimal_line(n: nat)
    ensures
        !decimal(n).contains('\n'),
{
    lemma_decimal(n);
    let d = decimal(n);
    if d.contains('\n') {
        let i = choose|i: int| 0 <= i < d.len() && d[i] == '\n';
        assert(is_digit(d[i]));
    }
}

pub open spec fn kept_or_closed(close: bool) -> Seq<char> {
    if close {
        "close"@
    } else {
        "keep-alive"@
    }
}

/// The head of an answer is a line with the status, the type of the body and its length, that it is
/// not to be kept, and whether the connection stays open; an empty line ends it.
#[verifier::rlimit(40)]
#[verifier::spinoff_prover]
pub proof fn law_heads_of_answers(status: u16, kind: Seq<char>, len: nat, close: bool)
    requires
        !kind.contains('\n'),
    ensures
        lines_of(answer_head(status, kind, len, close)) == seq![
            "HTTP/1.1 "@ + decimal(status as nat) + " "@ + reason_of(status),
            "Content-Type: "@ + kind,
            "Content-Length: "@ + decimal(len),
            "Cache-Control: no-store"@,
            "Connection: "@ + kept_or_closed(close),
            Seq::<char>::empty(),
        ],
        status == 200 ==> reason_of(status) == "OK"@,
        status == 400 ==> reason_of(status) == "Bad Request"@,
        status == 403 ==> reason_of(status) == "Forbidden"@,
        status == 404 ==> reason_of(status) == "Not Found"@,
        status == 409 || status == 500 ==> reason_of(status) == "Error"@,
{
    reveal_strlit("HTTP/1.1 ");
    reveal_strlit(" ");
    reveal_strlit("\r\nContent-Type: ");
    reveal_strlit("Content-Type: ");
    reveal_strlit("\r\nContent-Length: ");
    reveal_strlit("Content-Length: ");
    reveal_strlit("\r\nCache-Control: no-store\r\nConnection: ");
    reveal_strlit("Cache-Control: no-store");
    reveal_strlit("Connection: ");
    reveal_strlit("\r\n\r\n");
    reveal_strlit("\r\n");
    reveal_strlit("OK");
    reveal_strlit("Bad Request");
    reveal_strlit("Forbidden");
    reveal_strlit("Not Found");
    reveal_strlit("Error");
    reveal_strlit("close");
    reveal_strlit("keep-alive");
    let end = "\r\n"@;
    let none = Seq::<char>::empty();
    let a = "HTTP/1.1 "@ + decimal(status as nat) + " "@ + reason_of(status);
    let b = "Content-Type: "@ + kind;
    let c = "Content-Length: "@ + decimal(len);
    let d = "Cache-Control: no-store"@;
    let e = "Connection: "@ + kept_or_closed(close);
    lemma_decimal_line(status as nat);
    lemma_decimal_line(len);
    lemma_one_line("HTTP/1.1 "@, decimal(status as nat));
    lemma_one_line("HTTP/1.1 "@ + decimal(status as nat), " "@);
    lemma_one_line("HTTP/1.1 "@ + decimal(status as nat) + " "@, reason_of(status));
    lemma_one_line("Content-Type: "@, kind);
    lemma_one_line("Content-Length: "@, decimal(len));
    lemma_one_line("Connection: "@, kept_or_closed(close));
    let r5 = none + end + none;
    let r4 = e + end + r5;
    let r3 = d + end + r4;
    let r2 = c + end + r3;
    let r1 = b + end + r2;
    let whole = a + end + r1;
    assert("\r\nContent-Type: "@ =~= end + "Content-Type: "@);
    assert("\r\nContent-Length: "@ =~= end + "Content-Length: "@);
    assert("\r\nCache-Control: no-store\r\nConnection: "@ =~= end + d + end + "Connection: "@);
    assert("\r\n\r\n"@ =~= end + end);
    assert(answer_head(status, kind, len, close) =~= whole);
    lemma_head_line(none, none);
    lemma_head_line(e, r5);
    lemma_head_line(d, r4);
    lemma_head_line(c, r3);
    lemma_head_line(b, r2);
    lemma_head_line(a, r1);
    law_lines_of_a_text(none, none);
    assert(lines_of(whole) =~= seq![a, b, c, d, e, none]);
}

} // verus!
