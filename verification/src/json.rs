//! JSON values, their text and their canonical form.
//!
//! The canonical form of a value has the members of every object in
//! ascending order of their keys, at every depth.  Its text is the compact
//! one, without white space.

use crate::numeral::{decimal, hex_digit, signed_decimal, to_decimal, to_signed_decimal};
use crate::text::{chars_of, string_of};
use vstd::prelude::*;

verus! {

/// A JSON value.  A number is kept as its text.
pub enum Json {
    Null,
    Bool(bool),
    Number(String),
    Str(String),
    /// A value that is already written.
    Raw(String),
    Array(Vec<Json>),
    Object(Vec<(String, Json)>),
}

/// The mathematical content of a JSON value.
pub enum JsonModel {
    Null,
    Bool(bool),
    Number(Seq<char>),
    Str(Seq<char>),
    Raw(Seq<char>),
    Array(Seq<JsonModel>),
    Object(Seq<(Seq<char>, JsonModel)>),
}

impl Json {
    /// The content of the value.
    pub open spec fn view(&self) -> JsonModel
        decreases self,
    {
        match self {
            Json::Null => JsonModel::Null,
            Json::Bool(b) => JsonModel::Bool(*b),
            Json::Number(t) => JsonModel::Number(t@),
            Json::Str(s) => JsonModel::Str(s@),
            Json::Raw(t) => JsonModel::Raw(t@),
            Json::Array(a) => JsonModel::Array(element_models(a@)),
            Json::Object(m) => JsonModel::Object(member_models(m@)),
        }
    }
}

/// The contents of the elements of an array.
pub open spec fn element_models(a: Seq<Json>) -> Seq<JsonModel>
    decreases a,
{
    Seq::new(
        a.len(),
        |i: int|
            if 0 <= i < a.len() {
                a[i].view()
            } else {
                JsonModel::Null
            },
    )
}

/// The contents of the members of an object.
pub open spec fn member_models(m: Seq<(String, Json)>) -> Seq<(Seq<char>, JsonModel)>
    decreases m,
{
    Seq::new(
        m.len(),
        |i: int|
            if 0 <= i < m.len() {
                (m[i].0@, m[i].1.view())
            } else {
                (Seq::empty(), JsonModel::Null)
            },
    )
}

// ---------------------------------------------------------------- text

/// What stands for a character inside a JSON string.
pub open spec fn escaped_char(c: char) -> Seq<char> {
    let u = c as u32;
    if c == '"' {
        seq!['\\', '"']
    } else if c == '\\' {
        seq!['\\', '\\']
    } else if u == 0x08 {
        seq!['\\', 'b']
    } else if u == 0x09 {
        seq!['\\', 't']
    } else if u == 0x0a {
        seq!['\\', 'n']
    } else if u == 0x0c {
        seq!['\\', 'f']
    } else if u == 0x0d {
        seq!['\\', 'r']
    } else if u < 0x20 {
        seq!['\\', 'u', '0', '0', hex_digit(u as int / 16), hex_digit(u as int % 16)]
    } else {
        seq![c]
    }
}

/// What stands for a text inside a JSON string.
pub open spec fn escaped(s: Seq<char>) -> Seq<char>
    decreases s.len(),
{
    if s.len() == 0 {
        Seq::empty()
    } else {
        escaped(s.drop_last()) + escaped_char(s.last())
    }
}

/// A text as a JSON string.
pub open spec fn quoted(s: Seq<char>) -> Seq<char> {
    seq!['"'] + escaped(s) + seq!['"']
}

/// `serde_json::to_string` on a string: quotes around the characters, with
/// the quote, the backslash and the control characters escaped.
#[verifier::external_body]
fn quote(s: &str) -> (r: String)
    ensures
        r@ == quoted(s@),
{
    serde_json::to_string(s).unwrap()
}

/// Texts with commas between them.
pub open spec fn comma_joined(parts: Seq<Seq<char>>) -> Seq<char>
    decreases parts.len(),
{
    if parts.len() == 0 {
        Seq::empty()
    } else if parts.len() == 1 {
        parts[0]
    } else {
        comma_joined(parts.drop_last()) + seq![','] + parts.last()
    }
}

/// The compact text of a value.
pub open spec fn json_text(m: JsonModel) -> Seq<char>
    decreases m,
{
    match m {
        JsonModel::Null => "null"@,
        JsonModel::Bool(b) => if b {
            "true"@
        } else {
            "false"@
        },
        JsonModel::Number(t) => t,
        JsonModel::Str(s) => quoted(s),
        JsonModel::Raw(t) => t,
        JsonModel::Array(a) => seq!['['] + comma_joined(element_texts(a)) + seq![']'],
        JsonModel::Object(e) => seq!['{'] + comma_joined(member_texts(e)) + seq!['}'],
    }
}

/// The texts of the elements of an array.
pub open spec fn element_texts(a: Seq<JsonModel>) -> Seq<Seq<char>>
    decreases a,
{
    Seq::new(
        a.len(),
        |i: int|
            if 0 <= i < a.len() {
                json_text(a[i])
            } else {
                Seq::empty()
            },
    )
}

/// The texts of the members of an object.
pub open spec fn member_texts(e: Seq<(Seq<char>, JsonModel)>) -> Seq<Seq<char>>
    decreases e,
{
    Seq::new(
        e.len(),
        |i: int|
            if 0 <= i < e.len() {
                quoted(e[i].0) + seq![':'] + json_text(e[i].1)
            } else {
                Seq::empty()
            },
    )
}

/// The text of the first parts, and one part more.
proof fn lemma_comma(parts: Seq<Seq<char>>, n: int)
    requires
        0 <= n < parts.len(),
    ensures
        comma_joined(parts.take(n + 1)) == comma_joined(parts.take(n)) + (if n == 0 {
            Seq::empty()
        } else {
            seq![',']
        }) + parts[n],
{
    assert(parts.take(n + 1).drop_last() =~= parts.take(n));
    if n == 0 {
        assert(parts.take(0) =~= Seq::empty());
        assert(Seq::<char>::empty() + Seq::<char>::empty() + parts[0] =~= parts[0]);
    }
}

/// Appends the compact text of a value.
fn write_json(out: &mut String, j: &Json)
    ensures
        final(out)@ == old(out)@ + json_text(j@),
    decreases j,
{
    match j {
        Json::Null => {
            out.append("null");
        },
        Json::Bool(b) => {
            if *b {
                out.append("true");
            } else {
                out.append("false");
            }
        },
        Json::Number(t) => {
            out.append(t.as_str());
        },
        Json::Str(s) => {
            let q: String = quote(s.as_str());
            out.append(q.as_str());
        },
        Json::Raw(t) => {
            out.append(t.as_str());
        },
        Json::Array(a) => {
            let ghost start = out@;
            let ghost model = j@->Array_0;
            let ghost parts = element_texts(model);
            out.push('[');
            assert(parts.take(0) =~= Seq::empty());
            assert(out@ =~= start + seq!['['] + comma_joined(parts.take(0)));
            for i in 0..a.len()
                invariant
                    j == Json::Array(*a),
                    model == j@->Array_0,
                    model.len() == a@.len(),
                    parts == element_texts(model),
                    out@ == start + seq!['['] + comma_joined(parts.take(i as int)),
            {
                if i > 0 {
                    out.push(',');
                }
                assert(decreases_to!(j => a@[i as int]));
                write_json(out, &a[i]);
                proof {
                    lemma_comma(parts, i as int);
                    assert(parts[i as int] == json_text(a@[i as int]@));
                    assert(out@ =~= start + seq!['['] + comma_joined(parts.take(i + 1)));
                }
            }
            out.push(']');
            proof {
                assert(parts.take(a@.len() as int) =~= parts);
                assert(out@ =~= start + json_text(j@));
            }
        },
        Json::Object(m) => {
            let ghost start = out@;
            let ghost model = j@->Object_0;
            let ghost parts = member_texts(model);
            out.push('{');
            assert(parts.take(0) =~= Seq::empty());
            assert(out@ =~= start + seq!['{'] + comma_joined(parts.take(0)));
            for i in 0..m.len()
                invariant
                    j == Json::Object(*m),
                    model == j@->Object_0,
                    model.len() == m@.len(),
                    parts == member_texts(model),
                    out@ == start + seq!['{'] + comma_joined(parts.take(i as int)),
            {
                if i > 0 {
                    out.push(',');
                }
                let q: String = quote(m[i].0.as_str());
                out.append(q.as_str());
                out.push(':');
                assert(decreases_to!(j => m@[i as int].1));
                write_json(out, &m[i].1);
                proof {
                    lemma_comma(parts, i as int);
                    assert(model[i as int] == (m@[i as int].0@, m@[i as int].1@));
                    assert(parts[i as int] == quoted(m@[i as int].0@) + seq![':'] + json_text(
                        m@[i as int].1@,
                    ));
                    assert(out@ =~= start + seq!['{'] + comma_joined(parts.take(i + 1)));
                }
            }
            out.push('}');
            proof {
                assert(parts.take(m@.len() as int) =~= parts);
                assert(out@ =~= start + json_text(j@));
            }
        },
    }
}

/// The compact text of a value.
pub fn to_text(j: &Json) -> (r: String)
    ensures
        r@ == json_text(j@),
{
    let mut r: String = String::new();
    write_json(&mut r, j);
    assert(r@ =~= json_text(j@));
    r
}

// ---------------------------------------------------------------- order

/// The order of keys: by the first character in which they differ.
pub open spec fn key_le(a: Seq<char>, b: Seq<char>) -> bool
    decreases a.len(),
{
    if a.len() == 0 {
        true
    } else if b.len() == 0 {
        false
    } else if a[0] != b[0] {
        a[0] < b[0]
    } else {
        key_le(a.skip(1), b.skip(1))
    }
}

/// A key is not above itself.
pub proof fn lemma_key_reflexive(a: Seq<char>)
    ensures
        key_le(a, a),
    decreases a.len(),
{
    if a.len() > 0 {
        lemma_key_reflexive(a.skip(1));
    }
}

/// Of two keys one is not above the other; where neither is, they are equal.
pub proof fn lemma_key_total(a: Seq<char>, b: Seq<char>)
    ensures
        key_le(a, b) || key_le(b, a),
        key_le(a, b) && key_le(b, a) ==> a == b,
    decreases a.len(),
{
    if a.len() == 0 {
        if key_le(b, a) {
            assert(a =~= b);
        }
    } else if b.len() == 0 {
        assert(key_le(b, a));
    } else {
        if a[0] == b[0] {
            lemma_key_total(a.skip(1), b.skip(1));
            if key_le(a, b) && key_le(b, a) {
                assert(a =~= seq![a[0]] + a.skip(1));
                assert(b =~= seq![b[0]] + b.skip(1));
            }
        }
    }
}

pub proof fn lemma_key_transitive(a: Seq<char>, b: Seq<char>, c: Seq<char>)
    requires
        key_le(a, b),
        key_le(b, c),
    ensures
        key_le(a, c),
    decreases a.len(),
{
    if a.len() > 0 && b.len() > 0 && c.len() > 0 && a[0] == b[0] && b[0] == c[0] {
        lemma_key_transitive(a.skip(1), b.skip(1), c.skip(1));
    }
}

/// Whether `a` is not above `b`.
fn key_at_most(a: &str, b: &str) -> (r: bool)
    ensures
        r == key_le(a@, b@),
{
    let x: Vec<char> = chars_of(a);
    let y: Vec<char> = chars_of(b);
    let mut i: usize = 0;
    assert(x@.skip(0) =~= x@);
    assert(y@.skip(0) =~= y@);
    while i < x.len() && i < y.len() && x[i] == y[i]
        invariant
            i <= x@.len(),
            i <= y@.len(),
            key_le(x@, y@) == key_le(x@.skip(i as int), y@.skip(i as int)),
        decreases x@.len() - i,
    {
        assert(x@.skip(i as int).skip(1) =~= x@.skip(i + 1));
        assert(y@.skip(i as int).skip(1) =~= y@.skip(i + 1));
        i += 1;
    }
    if i >= x.len() {
        true
    } else if i >= y.len() {
        false
    } else {
        x[i] < y[i]
    }
}

// ---------------------------------------------------------------- sorting

/// `s` with the member `e` put in behind all members whose key is not above
/// that of `e`, from the end of `s`.
pub open spec fn with_member<V>(s: Seq<(Seq<char>, V)>, e: (Seq<char>, V)) -> Seq<(Seq<char>, V)>
    decreases s.len(),
{
    if s.len() == 0 {
        seq![e]
    } else if key_le(s.last().0, e.0) {
        s.push(e)
    } else {
        with_member(s.drop_last(), e).push(s.last())
    }
}

/// The members in ascending order of their keys.
pub open spec fn by_key<V>(s: Seq<(Seq<char>, V)>) -> Seq<(Seq<char>, V)>
    decreases s.len(),
{
    if s.len() == 0 {
        Seq::empty()
    } else {
        with_member(by_key(s.drop_last()), s.last())
    }
}

/// The canonical form of a value.
pub open spec fn canonical(m: JsonModel) -> JsonModel
    decreases m,
{
    match m {
        JsonModel::Array(a) => JsonModel::Array(canonical_elements(a)),
        JsonModel::Object(e) => JsonModel::Object(by_key(canonical_members(e))),
        _ => m,
    }
}

/// The canonical forms of the elements of an array.
pub open spec fn canonical_elements(a: Seq<JsonModel>) -> Seq<JsonModel>
    decreases a,
{
    Seq::new(
        a.len(),
        |i: int|
            if 0 <= i < a.len() {
                canonical(a[i])
            } else {
                JsonModel::Null
            },
    )
}

/// The members of an object with the canonical forms of their values.
pub open spec fn canonical_members(e: Seq<(Seq<char>, JsonModel)>) -> Seq<(Seq<char>, JsonModel)>
    decreases e,
{
    Seq::new(
        e.len(),
        |i: int|
            if 0 <= i < e.len() {
                (e[i].0, canonical(e[i].1))
            } else {
                (Seq::empty(), JsonModel::Null)
            },
    )
}

/// Where a member goes.
proof fn lemma_with_member<V>(s: Seq<(Seq<char>, V)>, e: (Seq<char>, V), n: int)
    requires
        0 <= n <= s.len(),
        forall|j: int| n <= j < s.len() ==> !key_le((#[trigger] s[j]).0, e.0),
        n > 0 ==> key_le(s[n - 1].0, e.0),
    ensures
        with_member(s, e) == s.insert(n, e),
    decreases s.len(),
{
    if s.len() > 0 {
        if n == s.len() {
            assert(s.insert(n, e) =~= s.push(e));
        } else {
            assert(!key_le(s[s.len() - 1].0, e.0));
            lemma_with_member(s.drop_last(), e, n);
            assert(s.insert(n, e) =~= s.drop_last().insert(n, e).push(s.last()));
        }
    } else {
        assert(s.insert(0, e) =~= seq![e]);
    }
}

/// Puts a member into its place.
fn add_member(out: &mut Vec<(String, Json)>, key: String, value: Json)
    ensures
        member_models(final(out)@) == with_member(member_models(old(out)@), (key@, value@)),
{
    let mut n: usize = out.len();
    while n > 0 && !key_at_most(out[n - 1].0.as_str(), key.as_str())
        invariant
            n <= out@.len(),
            forall|j: int|
                n <= j < out@.len() ==> !key_le((#[trigger] member_models(out@)[j]).0, key@),
        decreases n,
    {
        n -= 1;
    }
    let ghost before = out@;
    proof {
        if n > 0 {
            assert(member_models(before)[n - 1].0 == before[n - 1].0@);
        }
        lemma_with_member(member_models(before), (key@, value@), n as int);
    }
    let ghost e = (key, value);
    out.insert(n, (key, value));
    proof {
        assert(out@ == before.insert(n as int, e));
        assert(member_models(out@) =~= member_models(before).insert(n as int, (e.0@, e.1@)));
    }
}

/// The canonical form of a value.
pub fn sort_obj(v: &Json) -> (r: Json)
    ensures
        r@ == canonical(v@),
    decreases v,
{
    match v {
        Json::Null => Json::Null,
        Json::Bool(b) => Json::Bool(*b),
        Json::Number(t) => Json::Number(t.clone()),
        Json::Str(s) => Json::Str(s.clone()),
        Json::Raw(t) => Json::Raw(t.clone()),
        Json::Array(a) => {
            let mut out: Vec<Json> = Vec::new();
            let ghost model = v@->Array_0;
            for i in 0..a.len()
                invariant
                    v == Json::Array(*a),
                    model == element_models(a@),
                    out@.len() == i,
                    forall|k: int| 0 <= k < i ==> (#[trigger] out@[k])@ == canonical(model[k]),
            {
                assert(v->Array_0@[i as int] == a@[i as int]);
                assert(decreases_to!(v => a@[i as int]));
                let e: Json = sort_obj(&a[i]);
                out.push(e);
            }
            proof {
                assert(element_models(out@) =~= canonical_elements(model));
            }
            Json::Array(out)
        },
        Json::Object(m) => {
            let mut out: Vec<(String, Json)> = Vec::new();
            let ghost model = v@->Object_0;
            let ghost all = canonical_members(model);
            assert(all.take(0) =~= Seq::empty());
            assert(member_models(out@) =~= by_key(all.take(0)));
            for i in 0..m.len()
                invariant
                    v == Json::Object(*m),
                    model == member_models(m@),
                    all == canonical_members(model),
                    member_models(out@) == by_key(all.take(i as int)),
            {
                assert(v->Object_0@[i as int] == m@[i as int]);
                assert(decreases_to!(v => m@[i as int].1));
                let e: Json = sort_obj(&m[i].1);
                proof {
                    assert(model[i as int] == (m@[i as int].0@, m@[i as int].1@));
                    assert(all[i as int] == (m@[i as int].0@, e@));
                    assert(all.take(i + 1).drop_last() =~= all.take(i as int));
                    assert(all.take(i + 1).last() == all[i as int]);
                }
                add_member(&mut out, m[i].0.clone(), e);
            }
            assert(all.take(m@.len() as int) =~= all);
            Json::Object(out)
        },
    }
}

/// The text of the canonical form of a value.
pub fn canonical_json(v: &Json) -> (r: String)
    ensures
        r@ == json_text(canonical(v@)),
{
    let c: Json = sort_obj(v);
    to_text(&c)
}

// ---------------------------------------------------------------- whole numbers

/// A count in JSON.
pub open spec fn whole_model(n: nat) -> JsonModel {
    JsonModel::Number(decimal(n))
}

/// A whole number in JSON.
pub open spec fn signed_model(n: int) -> JsonModel {
    JsonModel::Number(signed_decimal(n))
}

/// A count in JSON.
pub fn whole_json(n: u64) -> (j: Json)
    ensures
        j@ == whole_model(n as nat),
{
    let d: Vec<char> = to_decimal(n);
    Json::Number(string_of(d.as_slice()))
}

/// A whole number in JSON.
pub fn signed_json(n: i64) -> (j: Json)
    ensures
        j@ == signed_model(n as int),
{
    let d: Vec<char> = to_signed_decimal(n);
    Json::Number(string_of(d.as_slice()))
}

// ---------------------------------------------------------------- stored values

/// The text of any JSON text once it has been read and printed again; none
/// where it is no JSON text.
pub uninterp spec fn reprinted(text: Seq<char>) -> Option<Seq<char>>;

/// The text of an optional string.
pub open spec fn optional_text(r: Option<String>) -> Option<Seq<char>> {
    match r {
        Some(t) => Some(t@),
        None => None,
    }
}

/// `serde_json::from_str` into a `serde_json::Value`, printed by its
/// `to_string`: the result is a function of the text.  What the printed form
/// looks like is not stated; a number may be printed with other digits than it
/// was written with.
#[verifier::external_body]
fn reprint(text: &str) -> (r: Option<String>)
    ensures
        optional_text(r) == reprinted(text@),
{
    match serde_json::from_str::<serde_json::Value>(text) {
        Ok(v) => Some(v.to_string()),
        Err(_) => None,
    }
}

/// A stored JSON text as a value.
pub fn stored(text: &str) -> (r: Option<Json>)
    ensures
        match reprinted(text@) {
            Some(t) => r matches Some(j) && j@ == JsonModel::Raw(t),
            None => r is None,
        },
{
    match reprint(text) {
        Some(t) => Some(Json::Raw(t)),
        None => None,
    }
}

} // verus!
