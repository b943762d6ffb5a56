//! JSON documents: the values that requests, settings and tuning rules are read from and written to.

use serde_json::Value;
use crate::text::equal;
use vstd::prelude::*;

verus! {

/// A JSON value. The fields of an object have no order; a number that is no whole number of 64 bits
/// is only known to be one.
#[verifier::ext_equal]
pub enum JsonV {
    Null,
    Bool(bool),
    Whole(int),
    Fraction,
    Text(Seq<char>),
    List(Seq<JsonV>),
    Object(Map<Seq<char>, JsonV>),
}

/// A JSON value, as executable code holds it. Of fields with the same name, the last counts.
pub enum Json {
    Null,
    Bool(bool),
    Unsigned(u64),
    Signed(i64),
    Fraction,
    Text(String),
    List(Vec<Json>),
    Object(Vec<(String, Json)>),
}

impl View for Json {
    type V = JsonV;

    open spec fn view(&self) -> JsonV {
        json_view(*self)
    }
}

pub open spec fn json_view(j: Json) -> JsonV
    decreases j, 0int,
{
    match j {
        Json::Null => JsonV::Null,
        Json::Bool(b) => JsonV::Bool(b),
        Json::Unsigned(n) => JsonV::Whole(n as int),
        Json::Signed(n) => JsonV::Whole(n as int),
        Json::Fraction => JsonV::Fraction,
        Json::Text(s) => JsonV::Text(s@),
        Json::List(items) => JsonV::List(
            Seq::new(
                items@.len(),
                |i: int|
                    if 0 <= i < items@.len() {
                        json_view(items@[i])
                    } else {
                        JsonV::Null
                    },
            ),
        ),
        Json::Object(fields) => JsonV::Object(fields_view(fields@, fields@.len() as int)),
    }
}

/// The first `n` fields of an object.
pub open spec fn fields_view(fields: Seq<(String, Json)>, n: int) -> Map<Seq<char>, JsonV>
    decreases fields, n,
{
    if n <= 0 || n > fields.len() {
        Map::empty()
    } else {
        fields_view(fields, n - 1).insert(fields[n - 1].0@, json_view(fields[n - 1].1))
    }
}

// Reading a value.

/// The field `name` of an object; nothing for any other value.
pub open spec fn field(v: JsonV, name: Seq<char>) -> Option<JsonV> {
    match v {
        JsonV::Object(m) => if m.contains_key(name) {
            Some(m[name])
        } else {
            None
        },
        _ => None,
    }
}

/// The field `name` of an object, or null.
pub open spec fn at(v: JsonV, name: Seq<char>) -> JsonV {
    match field(v, name) {
        Some(w) => w,
        None => JsonV::Null,
    }
}

pub open spec fn str_in(v: JsonV) -> Option<Seq<char>> {
    match v {
        JsonV::Text(s) => Some(s),
        _ => None,
    }
}

pub open spec fn bool_in(v: JsonV) -> Option<bool> {
    match v {
        JsonV::Bool(b) => Some(b),
        _ => None,
    }
}

/// A whole number that an unsigned integer of 64 bits can hold.
pub open spec fn unsigned_in(v: JsonV) -> Option<int> {
    match v {
        JsonV::Whole(n) => if 0 <= n <= u64::MAX {
            Some(n)
        } else {
            None
        },
        _ => None,
    }
}

/// A whole number that a signed integer of 64 bits can hold.
pub open spec fn signed_in(v: JsonV) -> Option<int> {
    match v {
        JsonV::Whole(n) => if i64::MIN <= n <= i64::MAX {
            Some(n)
        } else {
            None
        },
        _ => None,
    }
}

impl Json {
    pub fn get(&self, name: &str) -> (r: Option<&Json>)
        ensures
            match r {
                Some(j) => field(self@, name@) == Some(j@),
                None => field(self@, name@) is None,
            },
    {
        match self {
            Json::Object(fields) => {
                let mut i: usize = fields.len();
                while i > 0
                    invariant
                        i <= fields@.len(),
                        field(
                            JsonV::Object(fields_view(fields@, fields@.len() as int)),
                            name@,
                        ) == field(JsonV::Object(fields_view(fields@, i as int)), name@),
                        self@ == JsonV::Object(fields_view(fields@, fields@.len() as int)),
                    decreases i,
                {
                    i -= 1;
                    if equal(fields[i].0.as_str(), name) {
                        return Some(&fields[i].1);
                    }
                }
                None
            },
            _ => None,
        }
    }

    pub fn is_object(&self) -> (r: bool)
        ensures
            r == (self@ is Object),
    {
        match self {
            Json::Object(_) => true,
            _ => false,
        }
    }

    pub fn is_null(&self) -> (r: bool)
        ensures
            r == (self@ is Null),
    {
        match self {
            Json::Null => true,
            _ => false,
        }
    }

    pub fn as_str(&self) -> (r: Option<&str>)
        ensures
            match r {
                Some(s) => str_in(self@) == Some(s@),
                None => str_in(self@) is None,
            },
    {
        match self {
            Json::Text(s) => Some(s.as_str()),
            _ => None,
        }
    }

    pub fn as_bool(&self) -> (r: Option<bool>)
        ensures
            r == bool_in(self@),
    {
        match self {
            Json::Bool(b) => Some(*b),
            _ => None,
        }
    }

    pub fn as_u64(&self) -> (r: Option<u64>)
        ensures
            match r {
                Some(n) => unsigned_in(self@) == Some(n as int),
                None => unsigned_in(self@) is None,
            },
    {
        match self {
            Json::Unsigned(n) => Some(*n),
            Json::Signed(n) => if *n >= 0 {
                Some(*n as u64)
            } else {
                None
            },
            _ => None,
        }
    }

    pub fn as_i64(&self) -> (r: Option<i64>)
        ensures
            match r {
                Some(n) => signed_in(self@) == Some(n as int),
                None => signed_in(self@) is None,
            },
    {
        match self {
            Json::Unsigned(n) => if *n <= 0x7fff_ffff_ffff_ffff {
                Some(*n as i64)
            } else {
                None
            },
            Json::Signed(n) => Some(*n),
            _ => None,
        }
    }

    pub fn as_list(&self) -> (r: Option<&Vec<Json>>)
        ensures
            match r {
                Some(items) => self@ == JsonV::List(list_view(items@)),
                None => !(self@ is List),
            },
    {
        match self {
            Json::List(items) => {
                proof {
                    lemma_list_view(*self);
                }
                Some(items)
            },
            _ => None,
        }
    }
}

pub open spec fn list_view(items: Seq<Json>) -> Seq<JsonV> {
    Seq::new(items.len(), |i: int| items[i]@)
}

pub proof fn lemma_list_view(j: Json)
    ensures
        j matches Json::List(items) ==> j@ == JsonV::List(list_view(items@)),
{
    match j {
        Json::List(items) => {
            assert(j@->List_0 =~= list_view(items@));
        },
        _ => {},
    }
}

// The documents of the `serde_json` crate.

/// The value type of the `serde_json` crate.
#[verifier::external_type_specification]
#[verifier::external_body]
pub struct ExValue(serde_json::Value);

/// What a `serde_json::Value` holds.
pub uninterp spec fn value_view(v: Value) -> JsonV;

/// One level of a document that was read: its kind, with what lies below still closed.
pub enum Node<'a> {
    Null,
    Bool(bool),
    Number(Option<u64>, Option<i64>),
    Text(&'a str),
    List(&'a Vec<Value>),
    Object(Vec<(&'a str, &'a Value)>),
}

/// One level of a document to write.
pub enum Part {
    Null,
    Bool(bool),
    Unsigned(u64),
    Signed(i64),
    Text(String),
    List(Vec<Value>),
    Object(Vec<(String, Value)>),
}

pub open spec fn values_view(items: Seq<Value>) -> Seq<JsonV> {
    Seq::new(items.len(), |i: int| value_view(items[i]))
}

pub open spec fn refs_view(fields: Seq<(&str, &Value)>, n: int) -> Map<Seq<char>, JsonV>
    decreases n,
{
    if n <= 0 || n > fields.len() {
        Map::empty()
    } else {
        refs_view(fields, n - 1).insert(fields[n - 1].0@, value_view(*fields[n - 1].1))
    }
}

pub open spec fn parts_view(fields: Seq<(String, Value)>, n: int) -> Map<Seq<char>, JsonV>
    decreases n,
{
    if n <= 0 || n > fields.len() {
        Map::empty()
    } else {
        parts_view(fields, n - 1).insert(fields[n - 1].0@, value_view(fields[n - 1].1))
    }
}

pub open spec fn node_view(n: Node) -> JsonV {
    match n {
        Node::Null => JsonV::Null,
        Node::Bool(b) => JsonV::Bool(b),
        Node::Number(Some(u), _) => JsonV::Whole(u as int),
        Node::Number(None, Some(i)) => JsonV::Whole(i as int),
        Node::Number(None, None) => JsonV::Fraction,
        Node::Text(s) => JsonV::Text(s@),
        Node::List(items) => JsonV::List(values_view(items@)),
        Node::Object(fields) => JsonV::Object(refs_view(fields@, fields@.len() as int)),
    }
}

/// Whether no two fields have the same name.
pub open spec fn names_once(n: Node) -> bool {
    n matches Node::Object(fields) ==> distinct(fields@)
}

pub open spec fn distinct(fields: Seq<(&str, &Value)>) -> bool {
    forall|j: int, k: int|
        0 <= j < k < fields.len() ==> (#[trigger] fields[j]).0@ != (#[trigger] fields[k]).0@
}

pub open spec fn part_view(p: Part) -> JsonV {
    match p {
        Part::Null => JsonV::Null,
        Part::Bool(b) => JsonV::Bool(b),
        Part::Unsigned(n) => JsonV::Whole(n as int),
        Part::Signed(n) => JsonV::Whole(n as int),
        Part::Text(s) => JsonV::Text(s@),
        Part::List(items) => JsonV::List(values_view(items@)),
        Part::Object(fields) => JsonV::Object(parts_view(fields@, fields@.len() as int)),
    }
}

/// The variants of `serde_json::Value`, told apart. A number is asked with `Number::as_u64` and
/// `Number::as_i64`: it is whole if one of them answers, and then it is what they say. An object
/// gives its fields, each name once.
#[verifier::external_body]
fn open_value<'a>(v: &'a Value) -> (n: Node<'a>)
    ensures
        node_view(n) == value_view(*v),
        names_once(n),
{
    match v {
        Value::Null => Node::Null,
        Value::Bool(b) => Node::Bool(*b),
        Value::Number(n) => Node::Number(n.as_u64(), n.as_i64()),
        Value::String(s) => Node::Text(s.as_str()),
        Value::Array(items) => Node::List(items),
        Value::Object(m) => Node::Object(m.iter().map(|(k, v)| (k.as_str(), v)).collect()),
    }
}

/// The variants of `serde_json::Value`, made: `Value::from` for numbers, and `Map::from_iter` for an
/// object, in which a later field replaces an earlier one of the same name.
#[verifier::external_body]
fn make_value(p: Part) -> (v: Value)
    ensures
        value_view(v) == part_view(p),
{
    match p {
        Part::Null => Value::Null,
        Part::Bool(b) => Value::Bool(b),
        Part::Unsigned(n) => Value::from(n),
        Part::Signed(n) => Value::from(n),
        Part::Text(s) => Value::String(s),
        Part::List(items) => Value::Array(items),
        Part::Object(fields) => Value::Object(fields.into_iter().collect()),
    }
}

/// The document that `serde_json::from_slice` reads from some bytes; nothing where it fails.
pub uninterp spec fn json_doc(bytes: Seq<u8>) -> Option<JsonV>;

/// The document that `serde_json::from_str` reads from a text, or the words of its error.
pub uninterp spec fn json_parsed(text: Seq<char>) -> Result<JsonV, Seq<char>>;

/// The text that `serde_json` writes for a value, without whitespace between its parts.
pub uninterp spec fn json_text(v: JsonV) -> Seq<char>;

/// The text that `serde_json::to_string_pretty` writes for a value.
pub uninterp spec fn json_pretty(v: JsonV) -> Seq<char>;

/// Whether a value can be written and read again: its numbers are whole numbers of 64 bits, and it
/// is nested at most `n` deep.
pub open spec fn plain(v: JsonV, n: int) -> bool
    decreases n,
{
    match v {
        JsonV::Fraction => false,
        JsonV::Whole(i) => i64::MIN <= i <= u64::MAX,
        JsonV::List(items) => n > 0 && forall|i: int|
            0 <= i < items.len() ==> plain(#[trigger] items[i], n - 1),
        JsonV::Object(m) => n > 0 && m.dom().finite() && forall|k: Seq<char>| #[trigger]
            m.contains_key(k) ==> plain(m[k], n - 1),
        _ => true,
    }
}

pub open spec fn doc_view(r: Option<Value>) -> Option<JsonV> {
    match r {
        Some(v) => Some(value_view(v)),
        None => None,
    }
}

pub open spec fn parsed_view(r: Result<Value, String>) -> Result<JsonV, Seq<char>> {
    match r {
        Ok(v) => Ok(value_view(v)),
        Err(e) => Err(e@),
    }
}

/// `serde_json::from_slice`, for any document: what it reads depends on the bytes alone.
#[verifier::external_body]
fn value_from_slice(bytes: &[u8]) -> (r: Option<Value>)
    ensures
        doc_view(r) == json_doc(bytes@),
{
    serde_json::from_slice::<Value>(bytes).ok()
}

/// `serde_json::from_str`, for any document: what it reads, and what its error says, depends on the
/// text alone.
#[verifier::external_body]
fn value_from_str(text: &str) -> (r: Result<Value, String>)
    ensures
        parsed_view(r) == json_parsed(text@),
{
    serde_json::from_str::<Value>(text).map_err(|e| e.to_string())
}

/// Whether reading the text gives the value.
pub open spec fn reads_as(text: Seq<char>, v: JsonV) -> bool {
    json_parsed(text) == Ok::<JsonV, Seq<char>>(v)
}

/// A text with a line break behind it.
pub open spec fn ended(text: Seq<char>) -> Seq<char> {
    text.push('\n')
}

/// `Value::to_string`: the text depends on what the value holds alone, and reading it gives the
/// value back. Values nested deeper than the reader goes, and numbers that are not whole, are left
/// out.
#[verifier::external_body]
fn value_text(v: &Value) -> (r: String)
    requires
        plain(value_view(*v), 127),
    ensures
        r@ == json_text(value_view(*v)),
        reads_as(r@, value_view(*v)),
{
    v.to_string()
}

/// `serde_json::to_string_pretty`, which does not fail on a `Value`, since the names of its fields
/// are strings: the text depends on what the value holds alone, and reading it, with a line break
/// behind it, gives the value back. Values nested deeper than the reader goes, and numbers that are
/// not whole, are left out.
#[verifier::external_body]
fn value_pretty(v: &Value) -> (r: Result<String, String>)
    requires
        plain(value_view(*v), 127),
    ensures
        r is Ok,
        r->Ok_0@ == json_pretty(value_view(*v)),
        reads_as(ended(r->Ok_0@), value_view(*v)),
{
    serde_json::to_string_pretty(v).map_err(|e| e.to_string())
}

// Between the two.

pub proof fn lemma_fields_push(fields: Seq<(String, Json)>, one: (String, Json), n: int)
    requires
        0 <= n <= fields.len(),
    ensures
        fields_view(fields.push(one), n) == fields_view(fields, n),
    decreases n,
{
    if n > 0 {
        lemma_fields_push(fields, one, n - 1);
        assert(fields.push(one)[n - 1] == fields[n - 1]);
    }
}

proof fn lemma_refs_below(fields: Seq<(&str, &Value)>, n: int, i: int)
    requires
        0 <= i < n <= fields.len(),
        distinct(fields),
    ensures
        refs_view(fields, n).dom().finite(),
        refs_view(fields, n).contains_key(fields[i].0@),
        refs_view(fields, n)[fields[i].0@] == value_view(*fields[i].1),
    decreases n,
{
    lemma_refs_finite(fields, n - 1);
    if i < n - 1 {
        lemma_refs_below(fields, n - 1, i);
        assert(fields[i].0@ != fields[n - 1].0@);
    }
}

proof fn lemma_refs_finite(fields: Seq<(&str, &Value)>, n: int)
    requires
        0 <= n <= fields.len(),
    ensures
        refs_view(fields, n).dom().finite(),
    decreases n,
{
    if n > 0 {
        lemma_refs_finite(fields, n - 1);
    }
}

fn read_value(v: &Value) -> (j: Json)
    ensures
        j@ == value_view(*v),
    decreases value_view(*v),
{
    match open_value(v) {
        Node::Null => Json::Null,
        Node::Bool(b) => Json::Bool(b),
        Node::Number(Some(n), _) => Json::Unsigned(n),
        Node::Number(None, Some(n)) => Json::Signed(n),
        Node::Number(None, None) => Json::Fraction,
        Node::Text(s) => Json::Text(s.to_owned()),
        Node::List(items) => {
            let mut out: Vec<Json> = Vec::new();
            let mut i: usize = 0;
            while i < items.len()
                invariant
                    i <= items@.len(),
                    out@.len() == i,
                    value_view(*v) == JsonV::List(values_view(items@)),
                    forall|k: int| 0 <= k < i ==> (#[trigger] out@[k])@ == value_view(items@[k]),
                decreases items@.len() - i,
            {
                proof {
                    let l = values_view(items@);
                    assert(l[i as int] == value_view(items@[i as int]));
                    assert(decreases_to!(value_view(*v) => value_view(*v)->List_0));
                    assert(decreases_to!(l => l[i as int]));
                }
                out.push(read_value(&items[i]));
                i += 1;
            }
            let j = Json::List(out);
            proof {
                lemma_list_view(j);
                assert(list_view(out@) =~= values_view(items@));
            }
            j
        },
        Node::Object(fields) => {
            let mut out: Vec<(String, Json)> = Vec::new();
            let mut i: usize = 0;
            while i < fields.len()
                invariant
                    i <= fields@.len(),
                    out@.len() == i,
                    value_view(*v) == JsonV::Object(refs_view(fields@, fields@.len() as int)),
                    distinct(fields@),
                    fields_view(out@, i as int) == refs_view(fields@, i as int),
                decreases fields@.len() - i,
            {
                let (k, w) = fields[i];
                proof {
                    let m = refs_view(fields@, fields@.len() as int);
                    lemma_refs_below(fields@, fields@.len() as int, i as int);
                    assert(decreases_to!(value_view(*v) => value_view(*v)->Object_0));
                    assert(decreases_to!(m => m[k@]));
                }
                let one = (k.to_owned(), read_value(w));
                proof {
                    lemma_fields_push(out@, one, i as int);
                }
                out.push(one);
                i += 1;
            }
            Json::Object(out)
        },
    }
}

/// Whether a later field has the name of field `k`.
spec fn outdone(fields: Seq<(String, Json)>, k: int) -> bool {
    exists|m: int| k < m < fields.len() && (#[trigger] fields[m]).0@ == fields[k].0@
}

spec fn named_behind(fields: Seq<(String, Json)>, n: int, name: Seq<char>) -> bool {
    exists|m: int| n <= m < fields.len() && (#[trigger] fields[m]).0@ == name
}

/// Two lists of fields with the same names, which agree where no later field has the name.
proof fn lemma_same_fields(
    fields: Seq<(String, Json)>,
    out: Seq<(String, Value)>,
    n: int,
    name: Seq<char>,
)
    requires
        0 <= n <= fields.len(),
        fields.len() == out.len(),
        forall|k: int| 0 <= k < out.len() ==> (#[trigger] out[k]).0@ == fields[k].0@,
        forall|k: int|
            0 <= k < out.len() && !outdone(fields, k) ==> value_view((#[trigger] out[k]).1)
                == fields[k].1@,
        !named_behind(fields, n, name),
    ensures
        parts_view(out, n).contains_key(name) == fields_view(fields, n).contains_key(name),
        parts_view(out, n).contains_key(name) ==> parts_view(out, n)[name] == fields_view(
            fields,
            n,
        )[name],
    decreases n,
{
    if n > 0 {
        let own = fields[n - 1].0@;
        assert(out[n - 1].0@ == own);
        if name == own {
            assert(!outdone(fields, n - 1)) by {
                if outdone(fields, n - 1) {
                    let m = choose|m: int|
                        n - 1 < m < fields.len() && (#[trigger] fields[m]).0@ == fields[n - 1].0@;
                    assert(fields[m].0@ == name);
                    assert(named_behind(fields, n, name));
                }
            }
        } else {
            assert(!named_behind(fields, n - 1, name)) by {
                if named_behind(fields, n - 1, name) {
                    let m = choose|m: int|
                        n - 1 <= m < fields.len() && (#[trigger] fields[m]).0@ == name;
                    assert(fields[m].0@ == name);
                    assert(named_behind(fields, n, name));
                }
            }
            lemma_same_fields(fields, out, n - 1, name);
        }
    }
}

/// The last field of its name is one of those that count.
proof fn lemma_field_counts(fields: Seq<(String, Json)>, n: int, k: int)
    requires
        0 <= k < n <= fields.len(),
        forall|m: int| k < m < n ==> (#[trigger] fields[m]).0@ != fields[k].0@,
    ensures
        fields_view(fields, n).contains_key(fields[k].0@),
        fields_view(fields, n)[fields[k].0@] == fields[k].1@,
    decreases n,
{
    if k < n - 1 {
        lemma_field_counts(fields, n - 1, k);
        assert(fields[n - 1].0@ != fields[k].0@);
    }
}

/// A value as `serde_json` holds it; whole numbers only.
fn write_value(j: &Json, Ghost(n): Ghost<int>) -> (v: Value)
    ensures
        plain(j@, n) ==> value_view(v) == j@,
    decreases *j,
{
    match j {
        Json::Null | Json::Fraction => make_value(Part::Null),
        Json::Bool(b) => make_value(Part::Bool(*b)),
        Json::Unsigned(n) => make_value(Part::Unsigned(*n)),
        Json::Signed(n) => make_value(Part::Signed(*n)),
        Json::Text(s) => make_value(Part::Text(s.clone())),
        Json::List(items) => {
            let mut out: Vec<Value> = Vec::new();
            let mut i: usize = 0;
            proof {
                lemma_list_view(*j);
            }
            while i < items.len()
                invariant
                    i <= items@.len(),
                    out@.len() == i,
                    *j == Json::List(*items),
                    j@ == JsonV::List(list_view(items@)),
                    forall|k: int|
                        0 <= k < i && plain(j@, n) ==> value_view(#[trigger] out@[k]) == items@[k]@,
                decreases items@.len() - i,
            {
                proof {
                    assert(list_view(items@)[i as int] == items@[i as int]@);
                    assert(decreases_to!(*j => items@[i as int]));
                    if plain(j@, n) {
                        let l = j@->List_0;
                        assert(l == list_view(items@));
                        assert(l.len() == items@.len());
                        assert(plain(JsonV::List(l), n));
                        assert(plain(l[i as int], n - 1));
                    }
                }
                out.push(write_value(&items[i], Ghost(n - 1)));
                i += 1;
            }
            proof {
                if plain(j@, n) {
                    assert(values_view(out@) =~= list_view(items@));
                }
            }
            make_value(Part::List(out))
        },
        Json::Object(fields) => {
            let mut out: Vec<(String, Value)> = Vec::new();
            let mut i: usize = 0;
            let ghost all = fields@.len() as int;
            while i < fields.len()
                invariant
                    i <= fields@.len(),
                    out@.len() == i,
                    all == fields@.len(),
                    *j == Json::Object(*fields),
                    j@ == JsonV::Object(fields_view(fields@, all)),
                    forall|k: int| 0 <= k < i ==> (#[trigger] out@[k]).0@ == fields@[k].0@,
                    forall|k: int|
                        0 <= k < i && plain(j@, n) && !outdone(fields@, k) ==> value_view(
                            (#[trigger] out@[k]).1,
                        ) == fields@[k].1@,
                decreases fields@.len() - i,
            {
                proof {
                    assert(decreases_to!(*j => fields@[i as int]));
                    if !outdone(fields@, i as int) {
                        lemma_field_counts(fields@, all, i as int);
                        assert(j@->Object_0.contains_key(fields@[i as int].0@));
                    }
                }
                out.push((fields[i].0.clone(), write_value(&fields[i].1, Ghost(n - 1))));
                i += 1;
            }
            proof {
                if plain(j@, n) {
                    let a = parts_view(out@, all);
                    let b = fields_view(fields@, all);
                    assert forall|name: Seq<char>| #[trigger]
                        a.contains_key(name) == b.contains_key(name) && (a.contains_key(name)
                            ==> a[name] == b[name]) by {
                        lemma_same_fields(fields@, out@, all, name);
                    }
                    assert(a =~= b);
                }
            }
            make_value(Part::Object(out))
        },
    }
}

impl Json {
    /// The document in some bytes.
    pub fn from_slice(bytes: &[u8]) -> (r: Option<Json>)
        ensures
            match r {
                Some(j) => json_doc(bytes@) == Some(j@),
                None => json_doc(bytes@) is None,
            },
    {
        match value_from_slice(bytes) {
            Some(v) => Some(read_value(&v)),
            None => None,
        }
    }

    /// The document in a text, or what is wrong with the text.
    pub fn parse(text: &str) -> (r: Result<Json, String>)
        ensures
            match r {
                Ok(j) => json_parsed(text@) == Ok::<JsonV, Seq<char>>(j@),
                Err(e) => json_parsed(text@) == Err::<JsonV, Seq<char>>(e@),
            },
    {
        match value_from_str(text) {
            Ok(v) => Ok(read_value(&v)),
            Err(e) => Err(e),
        }
    }

    /// The text of a value.
    pub fn text(&self) -> (r: String)
        requires
            plain(self@, 127),
        ensures
            r@ == json_text(self@),
            json_parsed(r@) == Ok::<JsonV, Seq<char>>(self@),
    {
        let v = write_value(self, Ghost(127));
        value_text(&v)
    }

    /// The text of a value, with line breaks and indentation.
    pub fn pretty(&self) -> (r: Result<String, String>)
        requires
            plain(self@, 127),
        ensures
            r matches Ok(t) && t@ == json_pretty(self@) && json_parsed(ended(t@)) == Ok::<
                JsonV,
                Seq<char>,
            >(self@),
    {
        let v = write_value(self, Ghost(127));
        value_pretty(&v)
    }
}

// Making a value.

/// The fields of an object that is being made.
pub open spec fn fields_map(fields: Seq<(String, Json)>) -> Map<Seq<char>, JsonV> {
    fields_view(fields, fields.len() as int)
}

pub fn no_fields() -> (r: Vec<(String, Json)>)
    ensures
        fields_map(r@) == Map::<Seq<char>, JsonV>::empty(),
{
    Vec::new()
}

pub fn add_field(fields: &mut Vec<(String, Json)>, name: &str, value: Json)
    ensures
        fields_map(final(fields)@) == fields_map(old(fields)@).insert(name@, value@),
{
    let one = (name.to_owned(), value);
    proof {
        lemma_fields_push(fields@, one, fields@.len() as int);
    }
    fields.push(one);
}

impl Json {
    pub fn of_str(s: &str) -> (r: Json)
        ensures
            r@ == JsonV::Text(s@),
    {
        Json::Text(s.to_owned())
    }

    /// The text, or null.
    pub fn of_option(s: &Option<String>) -> (r: Json)
        ensures
            r@ == (match *s {
                Some(t) => JsonV::Text(t@),
                None => JsonV::Null,
            }),
    {
        match s {
            Some(t) => Json::Text(t.clone()),
            None => Json::Null,
        }
    }

    /// The texts, as a list.
    pub fn of_texts(items: &Vec<String>) -> (r: Json)
        ensures
            r@ == JsonV::List(texts_view(items@)),
    {
        let mut out: Vec<Json> = Vec::new();
        let mut i: usize = 0;
        while i < items.len()
            invariant
                i <= items@.len(),
                out@.len() == i,
                forall|k: int| 0 <= k < i ==> (#[trigger] out@[k])@ == JsonV::Text(items@[k]@),
            decreases items@.len() - i,
        {
            out.push(Json::Text(items[i].clone()));
            i += 1;
        }
        let r = Json::List(out);
        proof {
            lemma_list_view(r);
            assert(list_view(out@) =~= texts_view(items@));
        }
        r
    }
}

pub open spec fn texts_view(items: Seq<String>) -> Seq<JsonV> {
    Seq::new(items.len(), |i: int| JsonV::Text(items[i]@))
}

} // verus!
