//! A compact JSON text belongs to one value.

use crate::json::{
    comma_joined, element_texts, escaped, escaped_char, json_text, member_texts, quoted, JsonModel,
};
use crate::numeral::{hex_digit, is_digit};
use vstd::prelude::*;

verus! {

/// A character that may stand in a number.
pub open spec fn in_number(c: char) -> bool {
    is_digit(c) || c == '-' || c == '+' || c == '.' || c == 'e' || c == 'E'
}

/// A text that can be a number.
pub open spec fn number_text(t: Seq<char>) -> bool {
    &&& t.len() > 0
    &&& is_digit(t[0]) || t[0] == '-'
    &&& forall|i: int| 0 <= i < t.len() ==> in_number(#[trigger] t[i])
}

/// A value whose numbers are written as numbers, and in which nothing is
/// already written.
pub open spec fn plain(m: JsonModel) -> bool
    decreases m,
{
    match m {
        JsonModel::Number(t) => number_text(t),
        JsonModel::Raw(_) => false,
        JsonModel::Array(a) => forall|i: int| 0 <= i < a.len() ==> plain(#[trigger] a[i]),
        JsonModel::Object(e) => forall|i: int| 0 <= i < e.len() ==> plain((#[trigger] e[i]).1),
        _ => true,
    }
}

/// A character that ends a value inside another.
pub open spec fn closing(c: char) -> bool {
    c == ',' || c == ']' || c == '}'
}

/// What may follow a value.
pub open spec fn tail(u: Seq<char>) -> bool {
    u.len() > 0 ==> closing(u[0])
}

/// Equal texts with parts of one length have equal parts.
proof fn lemma_parts(a: Seq<char>, u: Seq<char>, b: Seq<char>, v: Seq<char>)
    requires
        a + u == b + v,
        a.len() == b.len(),
    ensures
        a == b,
        u == v,
{
    let w = a + u;
    assert(a =~= w.take(a.len() as int));
    assert(b =~= w.take(a.len() as int));
    assert(u =~= w.skip(a.len() as int));
    assert(v =~= w.skip(a.len() as int));
}

proof fn lemma_number(t: Seq<char>, u: Seq<char>, w: Seq<char>, v: Seq<char>)
    requires
        number_text(t),
        number_text(w),
        tail(u),
        tail(v),
        t + u == w + v,
    ensures
        t == w,
        u == v,
{
    let n = t.len() as int;
    let k = w.len() as int;
    if n < k {
        assert((t + u)[n] == u[0]);
        assert((w + v)[n] == w[n]);
        assert(in_number(w[n]));
    } else if k < n {
        assert((w + v)[k] == v[0]);
        assert((t + u)[k] == t[k]);
        assert(in_number(t[k]));
    }
    lemma_parts(t, u, w, v);
}

// ----------------------------------------------------------------------- strings

proof fn lemma_escaped_front(s: Seq<char>)
    requires
        s.len() > 0,
    ensures
        escaped(s) == escaped_char(s[0]) + escaped(s.skip(1)),
    decreases s.len(),
{
    if s.len() == 1 {
        assert(s.drop_last() =~= Seq::empty());
        assert(s.skip(1) =~= Seq::empty());
        assert(escaped(Seq::<char>::empty()) =~= Seq::empty());
        assert(escaped(s) =~= escaped_char(s[0]));
        assert(escaped_char(s[0]) + Seq::<char>::empty() =~= escaped_char(s[0]));
    } else {
        lemma_escaped_front(s.drop_last());
        assert(s.drop_last().skip(1) =~= s.skip(1).drop_last());
        assert(s.skip(1).last() == s.last());
        assert(escaped(s) =~= escaped_char(s[0]) + escaped(s.skip(1)));
    }
}

proof fn lemma_hex_pair(a: int, b: int)
    requires
        0 <= a < 16,
        0 <= b < 16,
        hex_digit(a) == hex_digit(b),
    ensures
        a == b,
{
}

proof fn lemma_escaped_char(c: char, x: Seq<char>, d: char, y: Seq<char>)
    requires
        escaped_char(c) + x == escaped_char(d) + y,
    ensures
        c == d,
        x == y,
{
    let p = escaped_char(c);
    let q = escaped_char(d);
    let w = p + x;
    assert(w == q + y);
    assert(w[0] == p[0] && w[0] == q[0]);
    if p[0] == '\\' {
        assert(p.len() >= 2 && q.len() >= 2);
        assert(w[1] == p[1] && w[1] == q[1]);
        if p[1] == 'u' {
            assert(p.len() == 6 && q.len() == 6);
            assert(w[4] == p[4] && w[4] == q[4]);
            assert(w[5] == p[5] && w[5] == q[5]);
            let a = c as u32 as int;
            let b = d as u32 as int;
            lemma_hex_pair(a / 16, b / 16);
            lemma_hex_pair(a % 16, b % 16);
            assert(a == b);
        }
    }
    assert(c == d);
    lemma_parts(p, x, q, y);
}

/// A quoted text ends at its quote.
proof fn lemma_string(s: Seq<char>, u: Seq<char>, t: Seq<char>, v: Seq<char>)
    requires
        escaped(s) + (seq!['"'] + u) == escaped(t) + (seq!['"'] + v),
    ensures
        s == t,
        u == v,
    decreases s.len(),
{
    let x = seq!['"'] + u;
    let y = seq!['"'] + v;
    if s.len() == 0 {
        assert(escaped(s) + x =~= x);
        if t.len() > 0 {
            lemma_escaped_front(t);
            assert((escaped(t) + y)[0] == escaped_char(t[0])[0]);
            assert(x[0] == '"');
        }
        assert(escaped(t) + y =~= y);
        assert(s =~= t);
        lemma_parts(seq!['"'], u, seq!['"'], v);
    } else if t.len() == 0 {
        assert(escaped(t) + y =~= y);
        lemma_escaped_front(s);
        assert((escaped(s) + x)[0] == escaped_char(s[0])[0]);
        assert(y[0] == '"');
    } else {
        lemma_escaped_front(s);
        lemma_escaped_front(t);
        assert(escaped(s) + x =~= escaped_char(s[0]) + (escaped(s.skip(1)) + x));
        assert(escaped(t) + y =~= escaped_char(t[0]) + (escaped(t.skip(1)) + y));
        lemma_escaped_char(s[0], escaped(s.skip(1)) + x, t[0], escaped(t.skip(1)) + y);
        lemma_string(s.skip(1), u, t.skip(1), v);
        assert(s =~= seq![s[0]] + s.skip(1));
        assert(t =~= seq![t[0]] + t.skip(1));
    }
}

proof fn lemma_quoted(s: Seq<char>, u: Seq<char>, t: Seq<char>, v: Seq<char>)
    requires
        quoted(s) + u == quoted(t) + v,
    ensures
        s == t,
        u == v,
{
    let x = escaped(s) + (seq!['"'] + u);
    let y = escaped(t) + (seq!['"'] + v);
    assert(quoted(s) + u =~= seq!['"'] + x);
    assert(quoted(t) + v =~= seq!['"'] + y);
    lemma_parts(seq!['"'], x, seq!['"'], y);
    lemma_string(s, u, t, v);
}

// ------------------------------------------------------------------------ values

/// What the text of a value begins with.
proof fn lemma_head(m: JsonModel)
    requires
        plain(m),
    ensures
        json_text(m).len() > 0,
        match m {
            JsonModel::Null => json_text(m)[0] == 'n',
            JsonModel::Bool(b) => json_text(m)[0] == (if b {
                't'
            } else {
                'f'
            }),
            JsonModel::Number(t) => is_digit(json_text(m)[0]) || json_text(m)[0] == '-',
            JsonModel::Str(s) => json_text(m)[0] == '"',
            JsonModel::Raw(t) => false,
            JsonModel::Array(a) => json_text(m)[0] == '[',
            JsonModel::Object(e) => json_text(m)[0] == '{',
        },
        !closing(json_text(m)[0]),
{
    reveal_strlit("null");
    reveal_strlit("true");
    reveal_strlit("false");
}

proof fn lemma_comma_front(parts: Seq<Seq<char>>)
    requires
        parts.len() > 0,
    ensures
        comma_joined(parts) == parts[0] + (if parts.len() == 1 {
            Seq::empty()
        } else {
            seq![','] + comma_joined(parts.skip(1))
        }),
    decreases parts.len(),
{
    if parts.len() == 1 {
        assert(parts[0] + Seq::<char>::empty() =~= parts[0]);
    } else {
        let p = parts.drop_last();
        lemma_comma_front(p);
        let r = parts.skip(1);
        assert(r.last() == parts.last());
        assert(r.drop_last() =~= p.skip(1));
        if parts.len() == 2 {
            assert(comma_joined(p) =~= parts[0]);
            assert(comma_joined(r) == r[0]);
        }
        assert(comma_joined(parts) =~= parts[0] + (seq![','] + comma_joined(r)));
    }
}

/// What follows part `k` of a list that is closed by `c`.
spec fn rest(parts: Seq<Seq<char>>, k: int, c: char, u: Seq<char>) -> Seq<char> {
    (if k + 1 == parts.len() {
        Seq::empty()
    } else {
        seq![','] + comma_joined(parts.skip(k + 1))
    }) + (seq![c] + u)
}

/// A list from part `k` on, closed by `c`.
spec fn closed(parts: Seq<Seq<char>>, k: int, c: char, u: Seq<char>) -> Seq<char> {
    comma_joined(parts.skip(k)) + (seq![c] + u)
}

proof fn lemma_closed(parts: Seq<Seq<char>>, k: int, c: char, u: Seq<char>)
    requires
        0 <= k <= parts.len(),
    ensures
        k == parts.len() ==> closed(parts, k, c, u) == seq![c] + u,
        k < parts.len() ==> closed(parts, k, c, u) == parts[k] + rest(parts, k, c, u),
{
    let p = parts.skip(k);
    if k < parts.len() {
        lemma_comma_front(p);
        assert(p.skip(1) =~= parts.skip(k + 1));
        assert(closed(parts, k, c, u) =~= parts[k] + rest(parts, k, c, u));
    } else {
        assert(p =~= Seq::empty());
        assert(closed(parts, k, c, u) =~= seq![c] + u);
    }
}

/// Where what follows a part is the same in two lists, so are the lists from
/// the next part on.
proof fn lemma_rest(
    p: Seq<Seq<char>>,
    q: Seq<Seq<char>>,
    k: int,
    c: char,
    u: Seq<char>,
    v: Seq<char>,
)
    requires
        0 <= k < p.len(),
        k < q.len(),
        c == ']' || c == '}',
        rest(p, k, c, u) == rest(q, k, c, v),
    ensures
        closed(p, k + 1, c, u) == closed(q, k + 1, c, v),
{
    lemma_closed(p, k + 1, c, u);
    lemma_closed(q, k + 1, c, v);
    let x = rest(p, k, c, u);
    if k + 1 == p.len() {
        assert(x =~= seq![c] + u);
        if k + 1 < q.len() {
            assert(rest(q, k, c, v)[0] == ',');
            assert(x[0] == c);
        }
        assert(rest(q, k, c, v) =~= seq![c] + v);
    } else {
        assert(x =~= seq![','] + closed(p, k + 1, c, u));
        if k + 1 == q.len() {
            assert(rest(q, k, c, v) =~= seq![c] + v);
            assert(rest(q, k, c, v)[0] == c);
            assert(x[0] == ',');
        }
        assert(rest(q, k, c, v) =~= seq![','] + closed(q, k + 1, c, v));
        lemma_parts(seq![','], closed(p, k + 1, c, u), seq![','], closed(q, k + 1, c, v));
    }
}

proof fn lemma_elements(m: JsonModel, n: JsonModel, k: int, u: Seq<char>, v: Seq<char>)
    requires
        m is Array,
        n is Array,
        plain(m),
        plain(n),
        0 <= k <= m->Array_0.len(),
        k <= n->Array_0.len(),
        m->Array_0.take(k) == n->Array_0.take(k),
        closed(element_texts(m->Array_0), k, ']', u) == closed(
            element_texts(n->Array_0),
            k,
            ']',
            v,
        ),
    ensures
        m == n,
        u == v,
    decreases m, 0int, m->Array_0.len() - k,
{
    let a = m->Array_0;
    let b = n->Array_0;
    let p = element_texts(a);
    let q = element_texts(b);
    lemma_closed(p, k, ']', u);
    lemma_closed(q, k, ']', v);
    let x = closed(p, k, ']', u);
    let y = closed(q, k, ']', v);
    if k < a.len() {
        lemma_head(a[k]);
        assert(x[0] == p[k][0]);
    }
    if k < b.len() {
        lemma_head(b[k]);
        assert(y[0] == q[k][0]);
    }
    if k == a.len() {
        assert(x[0] == ']');
        assert(k == b.len());
        assert(a =~= a.take(k) && b =~= b.take(k));
        lemma_parts(seq![']'], u, seq![']'], v);
    } else {
        if k == b.len() {
            assert(y[0] == ']');
        }
        assert(decreases_to!(m => a[k]));
        assert(rest(p, k, ']', u)[0] == ',' || rest(p, k, ']', u)[0] == ']');
        assert(rest(q, k, ']', v)[0] == ',' || rest(q, k, ']', v)[0] == ']');
        lemma_value(a[k], rest(p, k, ']', u), b[k], rest(q, k, ']', v));
        lemma_rest(p, q, k, ']', u, v);
        assert(a.take(k + 1) =~= a.take(k).push(a[k]));
        assert(b.take(k + 1) =~= b.take(k).push(b[k]));
        lemma_elements(m, n, k + 1, u, v);
    }
}

proof fn lemma_members(m: JsonModel, n: JsonModel, k: int, u: Seq<char>, v: Seq<char>)
    requires
        m is Object,
        n is Object,
        plain(m),
        plain(n),
        0 <= k <= m->Object_0.len(),
        k <= n->Object_0.len(),
        m->Object_0.take(k) == n->Object_0.take(k),
        closed(member_texts(m->Object_0), k, '}', u) == closed(
            member_texts(n->Object_0),
            k,
            '}',
            v,
        ),
    ensures
        m == n,
        u == v,
    decreases m, 0int, m->Object_0.len() - k,
{
    let e = m->Object_0;
    let f = n->Object_0;
    let p = member_texts(e);
    let q = member_texts(f);
    lemma_closed(p, k, '}', u);
    lemma_closed(q, k, '}', v);
    let x = closed(p, k, '}', u);
    let y = closed(q, k, '}', v);
    if k < e.len() {
        assert(p[k][0] == '"');
        assert(x[0] == p[k][0]);
    }
    if k < f.len() {
        assert(q[k][0] == '"');
        assert(y[0] == q[k][0]);
    }
    if k == e.len() {
        assert(x[0] == '}');
        assert(k == f.len());
        assert(e =~= e.take(k) && f =~= f.take(k));
        lemma_parts(seq!['}'], u, seq!['}'], v);
    } else {
        if k == f.len() {
            assert(y[0] == '}');
        }
        let ru = rest(p, k, '}', u);
        let rv = rest(q, k, '}', v);
        assert(ru[0] == ',' || ru[0] == '}');
        assert(rv[0] == ',' || rv[0] == '}');
        let s = json_text(e[k].1) + ru;
        let t = json_text(f[k].1) + rv;
        assert(p[k] + ru =~= quoted(e[k].0) + (seq![':'] + s));
        assert(q[k] + rv =~= quoted(f[k].0) + (seq![':'] + t));
        lemma_quoted(e[k].0, seq![':'] + s, f[k].0, seq![':'] + t);
        lemma_parts(seq![':'], s, seq![':'], t);
        assert(decreases_to!(m => e[k].1));
        assert(plain(e[k].1) && plain(f[k].1));
        lemma_value(e[k].1, ru, f[k].1, rv);
        lemma_rest(p, q, k, '}', u, v);
        assert(e.take(k + 1) =~= e.take(k).push(e[k]));
        assert(f.take(k + 1) =~= f.take(k).push(f[k]));
        assert(e[k] == f[k]);
        lemma_members(m, n, k + 1, u, v);
    }
}

proof fn lemma_value(m: JsonModel, u: Seq<char>, n: JsonModel, v: Seq<char>)
    requires
        plain(m),
        plain(n),
        tail(u),
        tail(v),
        json_text(m) + u == json_text(n) + v,
    ensures
        m == n,
        u == v,
    decreases m, 1int, 0int,
{
    lemma_head(m);
    lemma_head(n);
    assert((json_text(m) + u)[0] == json_text(m)[0]);
    assert((json_text(n) + v)[0] == json_text(n)[0]);
    match m {
        JsonModel::Number(t) => {
            assert(n is Number);
            lemma_number(t, u, n->Number_0, v);
        },
        JsonModel::Str(s) => {
            assert(n is Str);
            lemma_quoted(s, u, n->Str_0, v);
        },
        JsonModel::Array(a) => {
            assert(n is Array);
            let b = n->Array_0;
            let p = element_texts(a);
            let q = element_texts(b);
            assert(p.skip(0) =~= p && q.skip(0) =~= q);
            assert(json_text(m) + u =~= seq!['['] + closed(p, 0, ']', u));
            assert(json_text(n) + v =~= seq!['['] + closed(q, 0, ']', v));
            lemma_parts(seq!['['], closed(p, 0, ']', u), seq!['['], closed(q, 0, ']', v));
            assert(a.take(0) =~= b.take(0));
            lemma_elements(m, n, 0, u, v);
        },
        JsonModel::Object(e) => {
            assert(n is Object);
            let f = n->Object_0;
            let p = member_texts(e);
            let q = member_texts(f);
            assert(p.skip(0) =~= p && q.skip(0) =~= q);
            assert(json_text(m) + u =~= seq!['{'] + closed(p, 0, '}', u));
            assert(json_text(n) + v =~= seq!['{'] + closed(q, 0, '}', v));
            lemma_parts(seq!['{'], closed(p, 0, '}', u), seq!['{'], closed(q, 0, '}', v));
            assert(e.take(0) =~= f.take(0));
            lemma_members(m, n, 0, u, v);
        },
        _ => {
            assert(m == n);
            lemma_parts(json_text(m), u, json_text(n), v);
        },
    }
}

/// Two values with the same text are the same value.
pub proof fn law_text_names_one_value(m: JsonModel, n: JsonModel)
    requires
        plain(m),
        plain(n),
        json_text(m) == json_text(n),
    ensures
        m == n,
{
    lemma_value(m, Seq::empty(), n, Seq::empty());
}

} // verus!
