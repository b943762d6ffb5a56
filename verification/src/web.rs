//! The web panel: requests, where they go, and what is answered.

use crate::json::{add_field, json_text, no_fields, plain, reads_as, Json, JsonV};
use crate::text::{
    add_chars, add_str, begins, begins_str, chars_of, decimal, decimal_u64, ends, ends_str, equal,
    find_char, first_of, has_str, lines_of, lower, lowered, next_word, occurs, parse_unsigned,
    piece, same_str, split_lines, string_of, trim, trimmed, unsigned_of, views, words,
};
use vstd::prelude::*;
use vstd::utf8::{decode_utf8, valid_utf8};

verus! {

/// The port of the panel.
pub const WEB_PORT: u16 = 8889;

/// How many bytes the head of a request may have.
pub const MAX_HEAD: usize = 8192;

/// How many bytes the body of a request may have.
pub const MAX_BODY: u64 = 16384;

// Reading a request.

/// What a line of the head of a request leads to.
#[derive(Clone, Copy, Debug, PartialEq, Eq, Structural)]
pub enum HeadStep {
    /// More lines follow.
    More,
    /// The head is complete.
    Done,
    /// The request is dropped.
    Dropped,
}

pub open spec fn is_blank_line(line: Seq<u8>) -> bool {
    line == seq![13u8, 10u8] || line == seq![10u8]
}

/// The head after one more line, and what that leads to.
pub open spec fn head_after(head: Seq<u8>, line: Seq<u8>) -> (Seq<u8>, HeadStep) {
    if line.len() == 0 {
        (head, HeadStep::Dropped)
    } else if is_blank_line(line) {
        (head, HeadStep::Done)
    } else if head.len() + line.len() > MAX_HEAD {
        (head + line, HeadStep::Dropped)
    } else {
        (head + line, HeadStep::More)
    }
}

/// Takes one more line of the head of a request; an empty one means that nothing came.
pub fn head_line(head: &mut Vec<u8>, line: &[u8]) -> (r: HeadStep)
    ensures
        (final(head)@, r) == head_after(old(head)@, line@),
{
    if line.len() == 0 {
        return HeadStep::Dropped;
    }
    if line.len() == 2 && line[0] == 13 && line[1] == 10 {
        assert(line@ =~= seq![13u8, 10u8]);
        return HeadStep::Done;
    }
    if line.len() == 1 && line[0] == 10 {
        assert(line@ =~= seq![10u8]);
        return HeadStep::Done;
    }
    let ghost before = head@;
    let mut i: usize = 0;
    assert(before + line@.take(0) =~= before);
    while i < line.len()
        invariant
            i <= line@.len(),
            head@ == before + line@.take(i as int),
        decreases line@.len() - i,
    {
        head.push(line[i]);
        assert(before + line@.take(i + 1) =~= (before + line@.take(i as int)).push(
            line@[i as int],
        ));
        i += 1;
    }
    assert(line@.take(i as int) =~= line@);
    if head.len() > MAX_HEAD {
        HeadStep::Dropped
    } else {
        HeadStep::More
    }
}

/// The text that `String::from_utf8_lossy` makes of some bytes.
pub uninterp spec fn lossy_text(bytes: Seq<u8>) -> Seq<char>;

/// `String::from_utf8_lossy`: the text depends on the bytes alone, and is what they stand for if
/// they are valid UTF-8.
#[verifier::external_body]
fn text_of_bytes(bytes: &[u8]) -> (r: String)
    ensures
        r@ == lossy_text(bytes@),
        valid_utf8(bytes@) ==> r@ == decode_utf8(bytes@),
{
    String::from_utf8_lossy(bytes).into_owned()
}

/// The head of a request.
pub struct Head {
    pub method: String,
    pub path: String,
    pub host: String,
    pub origin: String,
    pub fetch_site: String,
    pub content_type: String,
    pub keep_alive: bool,
    pub body_len: usize,
}

/// What a `Head` holds.
#[verifier::ext_equal]
pub struct HeadV {
    pub method: Seq<char>,
    pub path: Seq<char>,
    pub host: Seq<char>,
    pub origin: Seq<char>,
    pub fetch_site: Seq<char>,
    pub content_type: Seq<char>,
    pub keep_alive: bool,
    pub body_len: int,
}

impl View for Head {
    type V = HeadV;

    open spec fn view(&self) -> HeadV {
        HeadV {
            method: self.method@,
            path: self.path@,
            host: self.host@,
            origin: self.origin@,
            fetch_site: self.fetch_site@,
            content_type: self.content_type@,
            keep_alive: self.keep_alive,
            body_len: self.body_len as int,
        }
    }
}

/// The fields of a head that matter; of fields with the same name, the last counts.
#[verifier::ext_equal]
pub struct FieldsV {
    pub host: Seq<char>,
    pub origin: Seq<char>,
    pub fetch_site: Seq<char>,
    pub content_type: Seq<char>,
    pub connection: Seq<char>,
    /// Nothing for a length that is too large or no number.
    pub body_len: Option<nat>,
    pub encoded: bool,
}

pub open spec fn no_header_fields() -> FieldsV {
    FieldsV {
        host: seq![],
        origin: seq![],
        fetch_site: seq![],
        content_type: seq![],
        connection: seq![],
        body_len: Some(0),
        encoded: false,
    }
}

/// The fields after a line of the head.
pub open spec fn field_read(f: FieldsV, line: Seq<char>) -> FieldsV {
    let i = first_of(line, ':');
    if i >= line.len() {
        f
    } else {
        let key = lower(trim(line.take(i)));
        let value = trim(line.skip(i + 1));
        if key == "host"@ {
            FieldsV { host: lower(value), ..f }
        } else if key == "origin"@ {
            FieldsV { origin: lower(value), ..f }
        } else if key == "sec-fetch-site"@ {
            FieldsV { fetch_site: lower(value), ..f }
        } else if key == "content-type"@ {
            FieldsV { content_type: lower(value), ..f }
        } else if key == "content-length"@ {
            FieldsV { body_len: unsigned_of(value, MAX_BODY as nat), ..f }
        } else if key == "connection"@ {
            FieldsV { connection: lower(value), ..f }
        } else if key == "transfer-encoding"@ {
            FieldsV { encoded: true, ..f }
        } else {
            f
        }
    }
}

/// The fields on the lines from the second to line `n`.
pub open spec fn fields_read(lines: Seq<Seq<char>>, n: int) -> FieldsV
    decreases n,
{
    if n <= 1 {
        no_header_fields()
    } else {
        field_read(fields_read(lines, n - 1), lines[n - 1])
    }
}

/// Whether the connection stays open.
pub open spec fn stays_open(version: Seq<char>, connection: Seq<char>) -> bool {
    if version == "HTTP/1.0"@ {
        occurs(connection, "keep-alive"@)
    } else {
        !occurs(connection, "close"@)
    }
}

/// The head of a request that a text states; nothing if it is no head, or if its body is too long
/// or comes in another form.
pub open spec fn head_of(text: Seq<char>) -> Option<HeadV> {
    let lines = lines_of(text);
    if lines.len() == 0 || words(lines[0]).len() < 2 {
        None
    } else {
        let first = words(lines[0]);
        let f = fields_read(lines, lines.len() as int);
        match f.body_len {
            None => None,
            Some(n) => if f.encoded {
                None
            } else {
                Some(
                    HeadV {
                        method: first[0],
                        path: first[1].take(first_of(first[1], '?')),
                        host: f.host,
                        origin: f.origin,
                        fetch_site: f.fetch_site,
                        content_type: f.content_type,
                        keep_alive: stays_open(
                            if first.len() > 2 {
                                first[2]
                            } else {
                                "HTTP/1.1"@
                            },
                            f.connection,
                        ),
                        body_len: n as int,
                    },
                )
            },
        }
    }
}

/// The fields of a head, as executable code holds them.
struct HeaderFields {
    host: Vec<char>,
    origin: Vec<char>,
    fetch_site: Vec<char>,
    content_type: Vec<char>,
    connection: Vec<char>,
    body_len: Option<u64>,
    encoded: bool,
}

impl View for HeaderFields {
    type V = FieldsV;

    closed spec fn view(&self) -> FieldsV {
        FieldsV {
            host: self.host@,
            origin: self.origin@,
            fetch_site: self.fetch_site@,
            content_type: self.content_type@,
            connection: self.connection@,
            body_len: match self.body_len {
                Some(n) => Some(n as nat),
                None => None,
            },
            encoded: self.encoded,
        }
    }
}

fn read_field(f: &mut HeaderFields, line: &[char])
    ensures
        final(f)@ == field_read(old(f)@, line@),
{
    let i = find_char(line, ':');
    let n: usize = line.len();
    if i >= n {
        return;
    }
    let before = piece(line, 0, i);
    let behind = piece(line, i + 1, n);
    assert(before@ =~= line@.take(i as int));
    assert(behind@ =~= line@.skip(i + 1));
    let key = lowered(trimmed(before.as_slice()));
    let value = trimmed(behind.as_slice());
    let k = key.as_slice();
    if same_str(k, "host") {
        f.host = lowered(value);
    } else if same_str(k, "origin") {
        f.origin = lowered(value);
    } else if same_str(k, "sec-fetch-site") {
        f.fetch_site = lowered(value);
    } else if same_str(k, "content-type") {
        f.content_type = lowered(value);
    } else if same_str(k, "content-length") {
        f.body_len = parse_unsigned(value, MAX_BODY);
    } else if same_str(k, "connection") {
        f.connection = lowered(value);
    } else if same_str(k, "transfer-encoding") {
        f.encoded = true;
    }
}

/// The head of a request, from its text.
pub fn head_from_text(text: &str) -> (r: Option<Head>)
    ensures
        match r {
            Some(h) => head_of(text@) == Some(h@),
            None => head_of(text@) is None,
        },
{
    let t = chars_of(text);
    let lines = split_lines(t.as_slice());
    let ghost all = lines_of(text@);
    assert(views(lines@).len() == lines@.len());
    if lines.len() == 0 {
        return None;
    }
    assert(all[0] == lines@[0]@);
    let (method, rest) = match next_word(lines[0].as_slice()) {
        None => {
            return None;
        },
        Some(w) => w,
    };
    let (target, rest) = match next_word(rest) {
        None => {
            assert(words(all[0]) =~= seq![method@]);
            return None;
        },
        Some(w) => w,
    };
    let ghost first = words(all[0]);
    assert(first == seq![method@] + (seq![target@] + words(rest@)));
    assert(first[0] == method@);
    assert(first[1] == target@);
    let old_version = match next_word(rest) {
        None => false,
        Some((w, _)) => {
            assert(first[2] == w@);
            same_str(w.as_slice(), "HTTP/1.0")
        },
    };
    proof {
        reveal_strlit("HTTP/1.0");
        reveal_strlit("HTTP/1.1");
        assert("HTTP/1.0"@[7] != "HTTP/1.1"@[7]);
        assert(first.len() == 2 + words(rest@).len());
    }
    let mut f = HeaderFields {
        host: Vec::new(),
        origin: Vec::new(),
        fetch_site: Vec::new(),
        content_type: Vec::new(),
        connection: Vec::new(),
        body_len: Some(0),
        encoded: false,
    };
    assert(f@ =~= no_header_fields());
    let mut i: usize = 1;
    while i < lines.len()
        invariant
            1 <= i <= lines@.len(),
            all == views(lines@),
            all.len() == lines@.len(),
            f@ == fields_read(all, i as int),
        decreases lines@.len() - i,
    {
        assert(all[i as int] == lines@[i as int]@);
        read_field(&mut f, lines[i].as_slice());
        i += 1;
    }
    if f.encoded {
        return None;
    }
    let len: u64 = match f.body_len {
        None => {
            return None;
        },
        Some(n) => n,
    };
    proof {
        // a length that was read is small
        lemma_body_len(all, all.len() as int);
    }
    let q = find_char(target.as_slice(), '?');
    let path = piece(target.as_slice(), 0, q);
    assert(path@ =~= target@.take(q as int));
    let keep_alive = if old_version {
        has_str(f.connection.as_slice(), "keep-alive")
    } else {
        !has_str(f.connection.as_slice(), "close")
    };
    Some(
        Head {
            method: string_of(method.as_slice()),
            path: string_of(path.as_slice()),
            host: string_of(f.host.as_slice()),
            origin: string_of(f.origin.as_slice()),
            fetch_site: string_of(f.fetch_site.as_slice()),
            content_type: string_of(f.content_type.as_slice()),
            keep_alive,
            body_len: len as usize,
        },
    )
}

proof fn lemma_body_len(lines: Seq<Seq<char>>, n: int)
    ensures
        fields_read(lines, n).body_len matches Some(k) ==> k <= MAX_BODY,
    decreases n,
{
    if n > 1 {
        lemma_body_len(lines, n - 1);
    }
}

/// The head of a request, from its bytes.
pub fn request_head(bytes: &[u8]) -> (r: Option<Head>)
    ensures
        match r {
            Some(h) => head_of(lossy_text(bytes@)) == Some(h@),
            None => head_of(lossy_text(bytes@)) is None,
        },
        valid_utf8(bytes@) ==> match r {
            Some(h) => head_of(decode_utf8(bytes@)) == Some(h@),
            None => head_of(decode_utf8(bytes@)) is None,
        },
{
    let text = text_of_bytes(bytes);
    head_from_text(text.as_str())
}

// Where a request goes.

/// What a request asks for.
#[derive(Clone, Copy, Debug, PartialEq, Eq, Structural)]
pub enum Route {
    Forbidden,
    Index,
    Status,
    Rules,
    Config,
    Tuning,
    SetRule,
    DeleteRule,
    RenameRule,
    CloneRule,
    SetConfig,
    SetTuning,
    Suggest,
    NotFound,
}

/// The port of the panel, as it stands behind a host.
pub open spec fn port_mark() -> Seq<char> {
    ":"@ + decimal(WEB_PORT as nat)
}

/// The host without the port of the panel.
pub open spec fn bare_host(host: Seq<char>) -> Seq<char> {
    if ends(host, port_mark()) {
        host.take(host.len() - port_mark().len())
    } else {
        host
    }
}

/// Whether a request may be answered: it is meant for this device, no other site sent it, and what
/// it posts is JSON.
pub open spec fn admitted(h: HeadV) -> bool {
    &&& bare_host(h.host) == "127.0.0.1"@ || bare_host(h.host) == "localhost"@
    &&& h.origin.len() == 0 || h.origin == "null"@ || h.fetch_site.len() == 0 || h.fetch_site
        == "none"@ || h.fetch_site == "same-origin"@
    &&& h.method != "POST"@ || begins(h.content_type, "application/json"@)
}

/// What a request asks for.
pub open spec fn route_of(h: HeadV) -> Route {
    if !admitted(h) {
        Route::Forbidden
    } else if h.method == "GET"@ {
        if h.path == "/"@ || h.path == "/index.html"@ {
            Route::Index
        } else if h.path == "/api/status"@ {
            Route::Status
        } else if h.path == "/api/rules"@ {
            Route::Rules
        } else if h.path == "/api/config"@ {
            Route::Config
        } else if h.path == "/api/tuning"@ {
            Route::Tuning
        } else {
            Route::NotFound
        }
    } else if h.method == "POST"@ {
        if h.path == "/api/rule"@ {
            Route::SetRule
        } else if h.path == "/api/rule/del"@ {
            Route::DeleteRule
        } else if h.path == "/api/rule/rename"@ {
            Route::RenameRule
        } else if h.path == "/api/rule/clone"@ {
            Route::CloneRule
        } else if h.path == "/api/config"@ {
            Route::SetConfig
        } else if h.path == "/api/tuning"@ {
            Route::SetTuning
        } else if h.path == "/api/suggest"@ {
            Route::Suggest
        } else {
            Route::NotFound
        }
    } else {
        Route::NotFound
    }
}

fn is_admitted(h: &Head) -> (r: bool)
    ensures
        r == admitted(h@),
{
    let full = chars_of(h.host.as_str());
    let n: usize = full.len();
    let mut port = chars_of(":");
    let digits = decimal_u64(WEB_PORT as u64);
    add_chars(&mut port, digits.as_slice());
    let mark = string_of(port.as_slice());
    let host = if ends_str(full.as_slice(), mark.as_str()) {
        piece(full.as_slice(), 0, n - port.len())
    } else {
        piece(full.as_slice(), 0, n)
    };
    assert(host@ =~= bare_host(h.host@));
    let site = h.fetch_site.as_str();
    let kind = chars_of(h.content_type.as_str());
    let origin = chars_of(h.origin.as_str());
    let fetched = chars_of(site);
    (same_str(host.as_slice(), "127.0.0.1") || same_str(host.as_slice(), "localhost")) && (
    origin.len() == 0 || same_str(origin.as_slice(), "null") || fetched.len() == 0 || equal(
        site,
        "none",
    ) || equal(site, "same-origin")) && (!equal(h.method.as_str(), "POST") || begins_str(
        kind.as_slice(),
        "application/json",
    ))
}

/// What a request asks for.
pub fn dispatch(h: &Head) -> (r: Route)
    ensures
        r == route_of(h@),
{
    if !is_admitted(h) {
        return Route::Forbidden;
    }
    let method = h.method.as_str();
    let path = h.path.as_str();
    if equal(method, "GET") {
        if equal(path, "/") || equal(path, "/index.html") {
            Route::Index
        } else if equal(path, "/api/status") {
            Route::Status
        } else if equal(path, "/api/rules") {
            Route::Rules
        } else if equal(path, "/api/config") {
            Route::Config
        } else if equal(path, "/api/tuning") {
            Route::Tuning
        } else {
            Route::NotFound
        }
    } else if equal(method, "POST") {
        if equal(path, "/api/rule") {
            Route::SetRule
        } else if equal(path, "/api/rule/del") {
            Route::DeleteRule
        } else if equal(path, "/api/rule/rename") {
            Route::RenameRule
        } else if equal(path, "/api/rule/clone") {
            Route::CloneRule
        } else if equal(path, "/api/config") {
            Route::SetConfig
        } else if equal(path, "/api/tuning") {
            Route::SetTuning
        } else if equal(path, "/api/suggest") {
            Route::Suggest
        } else {
            Route::NotFound
        }
    } else {
        Route::NotFound
    }
}

/// Whether the connection is closed behind the answer.
pub fn closes_after(h: &Head, route: Route) -> (r: bool)
    ensures
        r == (route == Route::Forbidden || !h.keep_alive),
{
    match route {
        Route::Forbidden => true,
        _ => !h.keep_alive,
    }
}

pub open spec fn reason_of(status: u16) -> Seq<char> {
    if status == 200 {
        "OK"@
    } else if status == 400 {
        "Bad Request"@
    } else if status == 403 {
        "Forbidden"@
    } else if status == 404 {
        "Not Found"@
    } else {
        "Error"@
    }
}

/// The head of an answer.
pub open spec fn answer_head(status: u16, kind: Seq<char>, len: nat, close: bool) -> Seq<char> {
    "HTTP/1.1 "@ + decimal(status as nat) + " "@ + reason_of(status) + "\r\nContent-Type: "@ + kind
        + "\r\nContent-Length: "@ + decimal(len)
        + "\r\nCache-Control: no-store\r\nConnection: "@ + (if close {
        "close"@
    } else {
        "keep-alive"@
    }) + "\r\n\r\n"@
}

/// The head of an answer with a body of `len` bytes.
pub fn resp_send(status: u16, kind: &str, len: usize, close: bool) -> (r: String)
    ensures
        r@ == answer_head(status, kind@, len as nat, close),
{
    let reason = if status == 200 {
        "OK"
    } else if status == 400 {
        "Bad Request"
    } else if status == 403 {
        "Forbidden"
    } else if status == 404 {
        "Not Found"
    } else {
        "Error"
    };
    let number = decimal_u64(status as u64);
    let size = decimal_u64(len as u64);
    let mut out = chars_of("HTTP/1.1 ");
    add_chars(&mut out, number.as_slice());
    add_str(&mut out, " ");
    add_str(&mut out, reason);
    add_str(&mut out, "\r\nContent-Type: ");
    add_str(&mut out, kind);
    add_str(&mut out, "\r\nContent-Length: ");
    add_chars(&mut out, size.as_slice());
    add_str(&mut out, "\r\nCache-Control: no-store\r\nConnection: ");
    add_str(
        &mut out,
        if close {
            "close"
        } else {
            "keep-alive"
        },
    );
    add_str(&mut out, "\r\n\r\n");
    string_of(out.as_slice())
}

// Answers.

/// A status and the text of an answer.
pub struct Reply {
    pub code: u16,
    pub body: String,
}

/// What a `Reply` holds: its status, and the document that its text states.
#[verifier::ext_equal]
pub struct ReplyV {
    pub code: u16,
    pub doc: JsonV,
}

impl Reply {
    /// Whether the answer has this status and states this document, so that a reader gets it back.
    pub open spec fn states(&self, want: ReplyV) -> bool {
        self.code == want.code && self.body@ == json_text(want.doc) && reads_as(
            self.body@,
            want.doc,
        )
    }
}

pub open spec fn error_json(msg: Seq<char>) -> JsonV {
    JsonV::Object(
        Map::<Seq<char>, JsonV>::empty().insert("ok"@, JsonV::Bool(false)).insert(
            "err"@,
            JsonV::Text(msg),
        ),
    )
}

pub open spec fn ok_json() -> JsonV {
    JsonV::Object(Map::<Seq<char>, JsonV>::empty().insert("ok"@, JsonV::Bool(true)))
}

pub open spec fn refusal(code: u16, msg: Seq<char>) -> ReplyV {
    ReplyV { code, doc: error_json(msg) }
}

pub open spec fn success() -> ReplyV {
    ReplyV { code: 200, doc: ok_json() }
}

/// An answer that says what is wrong.
pub fn err_json(code: u16, msg: &str) -> (r: Reply)
    ensures
        r.states(refusal(code, msg@)),
{
    let mut fields = no_fields();
    add_field(&mut fields, "ok", Json::Bool(false));
    add_field(&mut fields, "err", Json::of_str(msg));
    let value = Json::Object(fields);
    proof {
        let m = value@->Object_0;
        assert forall|k: Seq<char>| #[trigger] m.contains_key(k) implies plain(m[k], 126) by {
            assert(crate::tuning::leaf(m[k]));
        }
    }
    Reply { code, body: value.text() }
}

/// The answer that all went well.
pub fn ok_reply() -> (r: Reply)
    ensures
        r.states(success()),
{
    let mut fields = no_fields();
    add_field(&mut fields, "ok", Json::Bool(true));
    let value = Json::Object(fields);
    proof {
        let m = value@->Object_0;
        assert forall|k: Seq<char>| #[trigger] m.contains_key(k) implies plain(m[k], 126) by {
            assert(crate::tuning::leaf(m[k]));
        }
    }
    Reply { code: 200, body: value.text() }
}

/// The answer to a request that is not admitted.
pub fn forbidden_reply() -> (r: Reply)
    ensures
        r.code == 403,
        r.body@ == "{\"ok\":false,\"err\":\"forbidden\"}"@,
{
    Reply { code: 403, body: "{\"ok\":false,\"err\":\"forbidden\"}".to_owned() }
}

/// The answer to a request for something that is not there.
pub fn not_found_reply() -> (r: Reply)
    ensures
        r.states(refusal(404, "not found"@)),
{
    err_json(404, "not found")
}

/// Whether a request of this kind changes anything.
pub open spec fn edits(route: Route) -> bool {
    match route {
        Route::SetRule | Route::DeleteRule | Route::RenameRule | Route::CloneRule
        | Route::SetConfig | Route::SetTuning => true,
        _ => false,
    }
}

/// Only a request that is admitted and posts JSON changes anything; one that is not admitted is
/// forbidden, whatever it asks for.
pub proof fn law_edits_come_from_this_device(h: HeadV)
    ensures
        edits(route_of(h)) ==> admitted(h) && h.method == "POST"@ && begins(
            h.content_type,
            "application/json"@,
        ),
        !admitted(h) <==> route_of(h) == Route::Forbidden,
{
}

/// No request that is read on has a body longer than is taken, or one whose length is not stated.
pub proof fn law_bodies_are_small(text: Seq<char>)
    ensures
        head_of(text) matches Some(h) ==> 0 <= h.body_len <= MAX_BODY && !fields_read(
            lines_of(text),
            lines_of(text).len() as int,
        ).encoded,
{
    lemma_body_len(lines_of(text), lines_of(text).len() as int);
}

} // verus!
