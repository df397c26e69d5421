//! Laws of the canonical form of JSON values.

use crate::json::{
    by_key, canonical, canonical_elements, canonical_members, json_text, key_le,
    lemma_key_reflexive, lemma_key_total, lemma_key_transitive, with_member, JsonModel,
};
use vstd::prelude::*;

verus! {

/// Keys in ascending order.
pub open spec fn sorted<V>(s: Seq<(Seq<char>, V)>) -> bool {
    forall|i: int, j: int| 0 <= i < j < s.len() ==> key_le((#[trigger] s[i]).0, (#[trigger] s[j]).0)
}

/// No key twice.
pub open spec fn distinct<V>(s: Seq<(Seq<char>, V)>) -> bool {
    forall|i: int, j: int| 0 <= i < j < s.len() ==> (#[trigger] s[i]).0 != (#[trigger] s[j]).0
}

/// Where a member goes among sorted members.
proof fn lemma_place<V>(s: Seq<(Seq<char>, V)>, e: (Seq<char>, V)) -> (n: int)
    requires
        sorted(s),
    ensures
        0 <= n <= s.len(),
        with_member(s, e) == s.insert(n, e),
        forall|j: int| 0 <= j < n ==> key_le((#[trigger] s[j]).0, e.0),
        forall|j: int| n <= j < s.len() ==> !key_le((#[trigger] s[j]).0, e.0),
    decreases s.len(),
{
    if s.len() == 0 {
        assert(s.insert(0, e) =~= seq![e]);
        0
    } else if key_le(s.last().0, e.0) {
        assert forall|j: int| 0 <= j < s.len() implies key_le((#[trigger] s[j]).0, e.0) by {
            if j < s.len() - 1 {
                assert(key_le(s[j].0, s[s.len() - 1].0));
                lemma_key_transitive(s[j].0, s.last().0, e.0);
            }
        }
        assert(s.insert(s.len() as int, e) =~= s.push(e));
        s.len() as int
    } else {
        let t = s.drop_last();
        assert(sorted(t));
        let n = lemma_place(t, e);
        assert(s.insert(n, e) =~= t.insert(n, e).push(s.last()));
        assert forall|j: int| 0 <= j < n implies key_le((#[trigger] s[j]).0, e.0) by {
            assert(s[j] == t[j]);
        }
        assert forall|j: int| n <= j < s.len() implies !key_le((#[trigger] s[j]).0, e.0) by {
            if j < t.len() {
                assert(s[j] == t[j]);
            }
        }
        n
    }
}

/// Sorting yields the same members, in ascending order of their keys.
pub proof fn lemma_by_key<V>(s: Seq<(Seq<char>, V)>)
    ensures
        sorted(by_key(s)),
        by_key(s).len() == s.len(),
        by_key(s).to_multiset() == s.to_multiset(),
    decreases s.len(),
{
    broadcast use vstd::seq_lib::group_to_multiset_ensures;

    if s.len() > 0 {
        let p = s.drop_last();
        let e = s.last();
        lemma_by_key(p);
        let q = by_key(p);
        let n = lemma_place(q, e);
        let r = q.insert(n, e);
        assert(s =~= p.push(e));
        assert(r.to_multiset() =~= q.to_multiset().insert(e));
        assert forall|i: int, j: int| 0 <= i < j < r.len() implies key_le(
            (#[trigger] r[i]).0,
            (#[trigger] r[j]).0,
        ) by {
            if i == n {
                assert(r[j] == q[j - 1]);
                lemma_key_total(q[j - 1].0, e.0);
            } else if j == n {
                assert(r[i] == q[i]);
            } else {
                let a = if i < n {
                    i
                } else {
                    i - 1
                };
                let b = if j < n {
                    j
                } else {
                    j - 1
                };
                assert(r[i] == q[a] && r[j] == q[b]);
            }
        }
    }
}

/// Sorting leaves sorted members as they are.
proof fn lemma_by_key_sorted<V>(s: Seq<(Seq<char>, V)>)
    requires
        sorted(s),
    ensures
        by_key(s) == s,
    decreases s.len(),
{
    if s.len() > 0 {
        let p = s.drop_last();
        assert(sorted(p));
        lemma_by_key_sorted(p);
        if p.len() > 0 {
            assert(key_le(s[s.len() - 2].0, s[s.len() - 1].0));
        }
        assert(p.push(s.last()) =~= s);
        assert(seq![s.last()] =~= p.push(s.last()) || p.len() > 0);
    }
}

/// Every member of `a` stands in `b`.
pub open spec fn within<V>(a: Seq<(Seq<char>, V)>, b: Seq<(Seq<char>, V)>) -> bool {
    forall|i: int| 0 <= i < a.len() ==> b.contains(#[trigger] a[i])
}

/// Sorted members without a key twice are known by their set.
proof fn lemma_sorted_unique<V>(a: Seq<(Seq<char>, V)>, b: Seq<(Seq<char>, V)>)
    requires
        sorted(a),
        sorted(b),
        distinct(a),
        distinct(b),
        within(a, b),
        within(b, a),
    ensures
        a == b,
    decreases a.len(),
{
    if a.len() == 0 {
        if b.len() > 0 {
            assert(a.contains(b[0]));
        }
        assert(a =~= b);
    } else {
        assert(b.contains(a[0]));
        let x = a.last();
        let y = b.last();
        assert(b.contains(a[a.len() - 1]) && a.contains(b[b.len() - 1]));
        let k = choose|k: int| 0 <= k < b.len() && b[k] == x;
        let j = choose|j: int| 0 <= j < a.len() && a[j] == y;
        if k < b.len() - 1 {
            assert(key_le(b[k].0, b[b.len() - 1].0));
        } else {
            lemma_key_reflexive(x.0);
        }
        if j < a.len() - 1 {
            assert(key_le(a[j].0, a[a.len() - 1].0));
        } else {
            lemma_key_reflexive(y.0);
        }
        lemma_key_total(x.0, y.0);
        assert(x.0 == y.0);
        if j < a.len() - 1 {
            assert(a[j].0 != a[a.len() - 1].0);
        }
        assert(x == y);
        let p = a.drop_last();
        let q = b.drop_last();
        assert forall|i: int| 0 <= i < p.len() implies q.contains(#[trigger] p[i]) by {
            assert(p[i] == a[i]);
            assert(b.contains(a[i]));
            let l = choose|l: int| 0 <= l < b.len() && b[l] == a[i];
            assert(a[i].0 != a[a.len() - 1].0);
            assert(l < b.len() - 1);
            assert(q[l] == p[i]);
        }
        assert forall|i: int| 0 <= i < q.len() implies p.contains(#[trigger] q[i]) by {
            assert(q[i] == b[i]);
            assert(a.contains(b[i]));
            let l = choose|l: int| 0 <= l < a.len() && a[l] == b[i];
            assert(b[i].0 != b[b.len() - 1].0);
            assert(l < a.len() - 1);
            assert(p[l] == q[i]);
        }
        assert(sorted(p) && sorted(q) && distinct(p) && distinct(q));
        lemma_sorted_unique(p, q);
        assert(a =~= p.push(x));
        assert(b =~= q.push(y));
    }
}

/// Sorting keeps the set of members, and the distinctness of their keys.
pub proof fn lemma_by_key_set<V>(s: Seq<(Seq<char>, V)>)
    ensures
        within(s, by_key(s)),
        within(by_key(s), s),
        distinct(s) ==> distinct(by_key(s)),
{
    broadcast use vstd::seq_lib::group_to_multiset_ensures;

    lemma_by_key(s);
    let r = by_key(s);
    assert forall|i: int| 0 <= i < s.len() implies r.contains(#[trigger] s[i]) by {
        assert(s.contains(s[i]));
        assert(s.to_multiset().count(s[i]) > 0);
        assert(r.to_multiset().count(s[i]) > 0);
    }
    assert forall|i: int| 0 <= i < r.len() implies s.contains(#[trigger] r[i]) by {
        assert(r.contains(r[i]));
        assert(r.to_multiset().count(r[i]) > 0);
        assert(s.to_multiset().count(r[i]) > 0);
    }
    if distinct(s) {
        assert forall|i: int, j: int| 0 <= i < s.len() && 0 <= j < s.len() && i != j implies s[i]
            != s[j] by {
            if i < j {
                assert(s[i].0 != s[j].0);
            } else {
                assert(s[j].0 != s[i].0);
            }
        }
        s.lemma_multiset_has_no_duplicates();
        r.lemma_multiset_has_no_duplicates_conv();
        assert forall|i: int, j: int| 0 <= i < j < r.len() implies (#[trigger] r[i]).0 != (
        #[trigger] r[j]).0 by {
            assert(s.contains(r[i]) && s.contains(r[j]));
            let a = choose|a: int| 0 <= a < s.len() && s[a] == r[i];
            let b = choose|b: int| 0 <= b < s.len() && s[b] == r[j];
            assert(r[i] != r[j]);
            if a < b {
                assert(s[a].0 != s[b].0);
            } else {
                assert(s[b].0 != s[a].0);
            }
        }
    }
}

/// Two values that differ at most in the order of the members of their
/// objects, at any depth, where no object has a key twice.
pub open spec fn alike(m: JsonModel, n: JsonModel) -> bool
    decreases m,
{
    match (m, n) {
        (JsonModel::Array(a), JsonModel::Array(b)) => a.len() == b.len() && forall|i: int|
            0 <= i < a.len() ==> alike(#[trigger] a[i], b[i]),
        (JsonModel::Object(e), JsonModel::Object(f)) => {
            &&& distinct(e)
            &&& distinct(f)
            &&& forall|i: int|
                0 <= i < e.len() ==> exists|j: int|
                    0 <= j < f.len() && (#[trigger] e[i]).0 == (#[trigger] f[j]).0 && alike(
                        e[i].1,
                        f[j].1,
                    )
            &&& forall|j: int|
                0 <= j < f.len() ==> exists|i: int|
                    0 <= i < e.len() && (#[trigger] e[i]).0 == (#[trigger] f[j]).0 && alike(
                        e[i].1,
                        f[j].1,
                    )
        },
        _ => m == n,
    }
}

/// The canonical form does not depend on the order in which members were
/// written: values that are alike have the same canonical form, and so the
/// same text.
pub proof fn law_canonical_ignores_order(m: JsonModel, n: JsonModel)
    requires
        alike(m, n),
    ensures
        canonical(m) == canonical(n),
        json_text(canonical(m)) == json_text(canonical(n)),
    decreases m,
{
    match (m, n) {
        (JsonModel::Array(a), JsonModel::Array(b)) => {
            assert forall|i: int| 0 <= i < a.len() implies canonical_elements(a)[i]
                == canonical_elements(b)[i] by {
                assert(alike(a[i], b[i]));
                law_canonical_ignores_order(a[i], b[i]);
            }
            assert(canonical_elements(a) =~= canonical_elements(b));
        },
        (JsonModel::Object(e), JsonModel::Object(f)) => {
            let ce = canonical_members(e);
            let cf = canonical_members(f);
            assert forall|i: int| 0 <= i < ce.len() implies cf.contains(#[trigger] ce[i]) by {
                let j = choose|j: int|
                    0 <= j < f.len() && (#[trigger] e[i]).0 == (#[trigger] f[j]).0 && alike(
                        e[i].1,
                        f[j].1,
                    );
                law_canonical_ignores_order(e[i].1, f[j].1);
                assert(ce[i] == cf[j]);
            }
            assert forall|j: int| 0 <= j < cf.len() implies ce.contains(#[trigger] cf[j]) by {
                let i = choose|i: int|
                    0 <= i < e.len() && (#[trigger] e[i]).0 == (#[trigger] f[j]).0 && alike(
                        e[i].1,
                        f[j].1,
                    );
                law_canonical_ignores_order(e[i].1, f[j].1);
                assert(ce[i] == cf[j]);
            }
            assert forall|i: int, j: int| 0 <= i < j < ce.len() implies (#[trigger] ce[i]).0 != (
            #[trigger] ce[j]).0 by {
                assert(e[i].0 != e[j].0);
            }
            assert forall|i: int, j: int| 0 <= i < j < cf.len() implies (#[trigger] cf[i]).0 != (
            #[trigger] cf[j]).0 by {
                assert(f[i].0 != f[j].0);
            }
            lemma_by_key(ce);
            lemma_by_key(cf);
            lemma_by_key_set(ce);
            lemma_by_key_set(cf);
            let re = by_key(ce);
            let rf = by_key(cf);
            assert forall|i: int| 0 <= i < re.len() implies rf.contains(#[trigger] re[i]) by {
                assert(ce.contains(re[i]));
                let k = choose|k: int| 0 <= k < ce.len() && ce[k] == re[i];
                assert(cf.contains(ce[k]));
                let l = choose|l: int| 0 <= l < cf.len() && cf[l] == ce[k];
                assert(rf.contains(cf[l]));
            }
            assert forall|i: int| 0 <= i < rf.len() implies re.contains(#[trigger] rf[i]) by {
                assert(cf.contains(rf[i]));
                let k = choose|k: int| 0 <= k < cf.len() && cf[k] == rf[i];
                assert(ce.contains(cf[k]));
                let l = choose|l: int| 0 <= l < ce.len() && ce[l] == cf[k];
                assert(re.contains(ce[l]));
            }
            lemma_sorted_unique(re, rf);
        },
        _ => {},
    }
}

/// The canonical form of a canonical form is itself.
pub proof fn law_canonical_idempotent(m: JsonModel)
    ensures
        canonical(canonical(m)) == canonical(m),
    decreases m,
{
    match m {
        JsonModel::Array(a) => {
            let c = canonical_elements(a);
            assert forall|i: int| 0 <= i < c.len() implies canonical_elements(c)[i] == c[i] by {
                law_canonical_idempotent(a[i]);
            }
            assert(canonical_elements(c) =~= c);
        },
        JsonModel::Object(e) => {
            let c = canonical_members(e);
            let r = by_key(c);
            lemma_by_key(c);
            lemma_by_key_set(c);
            assert forall|i: int| 0 <= i < r.len() implies canonical_members(r)[i] == r[i] by {
                assert(c.contains(r[i]));
                let k = choose|k: int| 0 <= k < c.len() && c[k] == r[i];
                law_canonical_idempotent(e[k].1);
            }
            assert(canonical_members(r) =~= r);
            lemma_by_key_sorted(r);
        },
        _ => {},
    }
}

} // verus!
