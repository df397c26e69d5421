//! The order of a series of coordinates: repeated values, descents,
//! direction.

use crate::binary64::{lemma_order, Binary64};
use vstd::prelude::*;

verus! {

// ---------------------------------------------------------------- repetition

/// The value at `i` stands there for the first time, and again at `j`.
pub open spec fn repeats(x: Seq<Binary64>, i: int, j: int) -> bool {
    &&& 0 <= i < j < x.len()
    &&& x[i].value() == x[j].value()
    &&& forall|l: int| 0 <= l < i ==> (#[trigger] x[l]).value() != x[i].value()
}

/// `v` is a repeated value of `x`, as it stands where it comes first.
pub open spec fn first_of_repeated(x: Seq<Binary64>, v: Binary64) -> bool {
    exists|i: int, j: int| #[trigger] repeats(x, i, j) && x[i] == v
}

/// `d` holds every repeated value of `x` once, as it stands where it comes
/// first, in increasing order.
pub open spec fn lists_repeated(x: Seq<Binary64>, d: Seq<Binary64>) -> bool {
    &&& forall|a: int, b: int|
        0 <= a < b < d.len() ==> (#[trigger] d[a]).value() < (#[trigger] d[b]).value()
    &&& forall|a: int| 0 <= a < d.len() ==> first_of_repeated(x, #[trigger] d[a])
    &&& forall|i: int, j: int|
        0 <= i < j < x.len() && (#[trigger] x[i]).value() == (#[trigger] x[j]).value()
            ==> exists|a: int| 0 <= a < d.len() && (#[trigger] d[a]).value() == x[i].value()
}

/// The number `v` is in `e`.
spec fn among(e: Seq<int>, v: int) -> bool {
    exists|b: int| 0 <= b < e.len() && #[trigger] e[b] == v
}

/// Numbers in ascending order.
spec fn ascends(d: Seq<int>) -> bool {
    forall|a: int, b: int| 0 <= a < b < d.len() ==> #[trigger] d[a] < #[trigger] d[b]
}

/// Ascending numbers that are the same numbers stand at the same places.
proof fn lemma_ascending_lists(d: Seq<int>, e: Seq<int>, k: int)
    requires
        ascends(d),
        ascends(e),
        forall|a: int| 0 <= a < d.len() ==> #[trigger] among(e, d[a]),
        forall|a: int| 0 <= a < e.len() ==> #[trigger] among(d, e[a]),
        0 <= k <= d.len(),
    ensures
        k <= e.len(),
        forall|a: int| 0 <= a < k ==> #[trigger] d[a] == e[a],
    decreases k,
{
    if k > 0 {
        lemma_ascending_lists(d, e, k - 1);
        assert(among(e, d[k - 1]));
        let b = choose|b: int| 0 <= b < e.len() && #[trigger] e[b] == d[k - 1];
        if b < k - 1 {
            assert(d[b] == e[b]);
            assert(d[b] < d[k - 1]);
        }
        if b > k - 1 {
            assert(e[k - 1] < e[b]);
            assert(among(d, e[k - 1]));
            let c = choose|c: int| 0 <= c < d.len() && #[trigger] d[c] == e[k - 1];
            if c < k - 1 {
                assert(d[c] == e[c]);
                assert(e[c] < e[k - 1]);
            } else if c > k - 1 {
                assert(d[k - 1] < d[c]);
            }
        }
    }
}

spec fn values(d: Seq<Binary64>) -> Seq<int> {
    Seq::new(d.len(), |i: int| d[i].value())
}

proof fn lemma_listed(x: Seq<Binary64>, d: Seq<Binary64>, e: Seq<Binary64>, a: int)
    requires
        lists_repeated(x, d),
        lists_repeated(x, e),
        0 <= a < d.len(),
    ensures
        among(values(e), values(d)[a]),
{
    assert(first_of_repeated(x, d[a]));
    let (i, j) = choose|i: int, j: int| #[trigger] repeats(x, i, j) && x[i] == d[a];
    assert(x[i].value() == x[j].value());
    let b = choose|b: int| 0 <= b < e.len() && (#[trigger] e[b]).value() == x[i].value();
    assert(values(e)[b] == values(d)[a]);
}

/// There is one list of the repeated values.
pub proof fn lemma_repeated_unique(x: Seq<Binary64>, d: Seq<Binary64>, e: Seq<Binary64>)
    requires
        lists_repeated(x, d),
        lists_repeated(x, e),
    ensures
        d == e,
{
    let u = values(d);
    let v = values(e);
    assert forall|a: int| 0 <= a < u.len() implies #[trigger] among(v, u[a]) by {
        lemma_listed(x, d, e, a);
    }
    assert forall|a: int| 0 <= a < v.len() implies #[trigger] among(u, v[a]) by {
        lemma_listed(x, e, d, a);
    }
    assert(ascends(u)) by {
        assert forall|a: int, b: int| 0 <= a < b < u.len() implies #[trigger] u[a]
            < #[trigger] u[b] by {
            assert(d[a].value() < d[b].value());
        }
    }
    assert(ascends(v)) by {
        assert forall|a: int, b: int| 0 <= a < b < v.len() implies #[trigger] v[a]
            < #[trigger] v[b] by {
            assert(e[a].value() < e[b].value());
        }
    }
    lemma_ascending_lists(u, v, u.len() as int);
    lemma_ascending_lists(v, u, v.len() as int);
    assert forall|a: int| 0 <= a < d.len() implies #[trigger] d[a] == e[a] by {
        assert(u[a] == v[a]);
        lemma_first_unique(x, d[a], e[a]);
    }
    assert(d =~= e);
}

proof fn lemma_first_unique(x: Seq<Binary64>, v: Binary64, w: Binary64)
    requires
        first_of_repeated(x, v),
        first_of_repeated(x, w),
        v.value() == w.value(),
    ensures
        v == w,
{
    let (i, j) = choose|i: int, j: int| #[trigger] repeats(x, i, j) && x[i] == v;
    let (k, l) = choose|k: int, l: int| #[trigger] repeats(x, k, l) && x[k] == w;
    if i < k {
        assert(x[i].value() != x[k].value());
    }
    if k < i {
        assert(x[k].value() != x[i].value());
    }
}

/// The order of pairs of integers.
pub open spec fn pair_le(a: (i64, usize), b: (i64, usize)) -> bool {
    a.0 < b.0 || (a.0 == b.0 && a.1 <= b.1)
}

/// `slice::sort` of the standard library, on pairs of integers: the same
/// elements, in ascending order.
#[verifier::external_body]
fn sort_pairs(v: &mut Vec<(i64, usize)>)
    ensures
        final(v)@.to_multiset() == old(v)@.to_multiset(),
        forall|i: int, j: int|
            0 <= i < j < final(v)@.len() ==> pair_le(
                #[trigger] final(v)@[i],
                #[trigger] final(v)@[j],
            ),
{
    v.sort();
}

/// The position `i` stands in one of the pairs.
spec fn placed(s: Seq<(i64, usize)>, i: int) -> bool {
    exists|k: int| 0 <= k < s.len() && (#[trigger] s[k]).1 == i
}

/// Strictly ascending pairs.
#[verifier::opaque]
spec fn ascending(s: Seq<(i64, usize)>) -> bool {
    forall|i: int, j: int|
        0 <= i < j < s.len() ==> pair_le(#[trigger] s[i], #[trigger] s[j]) && s[i] != s[j]
}

proof fn lemma_ascending(s: Seq<(i64, usize)>, i: int, j: int)
    requires
        ascending(s),
        0 <= i < j < s.len(),
    ensures
        pair_le(s[i], s[j]),
        s[i] != s[j],
{
    reveal(ascending);
}

/// `s` holds the pattern and the position of every element of `x`, in
/// ascending order.
spec fn ranked(x: Seq<Binary64>, s: Seq<(i64, usize)>) -> bool {
    &&& s.len() == x.len()
    &&& forall|k: int|
        0 <= k < s.len() ==> (#[trigger] s[k]).1 < x.len() && s[k].0
            == x[s[k].1 as int].signed_pattern()
    &&& forall|i: int| 0 <= i < x.len() ==> #[trigger] placed(s, i)
    &&& ascending(s)
}

fn rank(x: &Vec<Binary64>) -> (s: Vec<(i64, usize)>)
    ensures
        ranked(x@, s@),
{
    let mut s: Vec<(i64, usize)> = Vec::new();
    for i in 0..x.len()
        invariant
            s@.len() == i,
            forall|k: int|
                0 <= k < i ==> (#[trigger] s@[k]).1 == k && s@[k].0 == x@[k].signed_pattern(),
    {
        s.push((x[i].key(), i));
    }
    let ghost p = s@;
    sort_pairs(&mut s);
    proof {
        broadcast use vstd::seq_lib::group_to_multiset_ensures;

        assert(p.no_duplicates());
        p.lemma_multiset_has_no_duplicates();
        s@.lemma_multiset_has_no_duplicates_conv();
        assert(s@.len() == s@.to_multiset().len() && p.len() == p.to_multiset().len());
        assert(ascending(s@)) by {
            reveal(ascending);
        }
        assert forall|k: int| 0 <= k < s@.len() implies (#[trigger] s@[k]).1 < x@.len() && s@[k].0
            == x@[s@[k].1 as int].signed_pattern() by {
            assert(s@.contains(s@[k]));
            assert(s@.to_multiset().count(s@[k]) > 0);
            assert(p.contains(s@[k]));
        }
        assert forall|i: int| 0 <= i < x@.len() implies #[trigger] placed(s@, i) by {
            assert(p.contains(p[i]));
            assert(p.to_multiset().count(p[i]) > 0);
            assert(s@.contains(p[i]));
            let k = choose|k: int| 0 <= k < s@.len() && s@[k] == p[i];
            assert(s@[k].1 == i);
        }
    }
    s
}

/// The pair at `r` begins a run of equal patterns that has a second pair.
spec fn run_start(s: Seq<(i64, usize)>, r: int) -> bool {
    &&& 0 <= r < s.len() - 1
    &&& s[r].0 == s[r + 1].0
    &&& r > 0 ==> s[r - 1].0 < s[r].0
}

/// `v` stands at the start of a run, before position `t`.
spec fn from_run(x: Seq<Binary64>, s: Seq<(i64, usize)>, t: int, v: Binary64) -> bool {
    exists|r: int| r < t && #[trigger] run_start(s, r) && v == x[s[r].1 as int]
}

/// The pattern `key` stands in `d`.
spec fn covers(d: Seq<Binary64>, key: i64) -> bool {
    exists|a: int| 0 <= a < d.len() && (#[trigger] d[a]).signed_pattern() == key
}

/// `d` holds the starts of the runs before `t`, in ascending order.
spec fn runs_before(x: Seq<Binary64>, s: Seq<(i64, usize)>, t: int, d: Seq<Binary64>) -> bool {
    &&& forall|a: int, b: int|
        0 <= a < b < d.len() ==> (#[trigger] d[a]).signed_pattern() < (
        #[trigger] d[b]).signed_pattern()
    &&& forall|a: int| 0 <= a < d.len() ==> from_run(x, s, t, #[trigger] d[a])
    &&& forall|r: int|
        0 <= r < t && (#[trigger] s[r]).0 == s[r + 1].0 ==> covers(d, s[r].0)
}

/// The start of a run is a value where it comes first, and it comes again.
proof fn lemma_run_repeats(x: Seq<Binary64>, s: Seq<(i64, usize)>, r: int)
    requires
        ranked(x, s),
        run_start(s, r),
    ensures
        repeats(x, s[r].1 as int, s[r + 1].1 as int),
{
    let i = s[r].1 as int;
    let j = s[r + 1].1 as int;
    lemma_ascending(s, r, r + 1);
    lemma_order(x[i], x[j]);
    assert forall|l: int| 0 <= l < i implies (#[trigger] x[l]).value() != x[i].value() by {
        lemma_order(x[l], x[i]);
        if x[l].value() == x[i].value() {
            assert(placed(s, l));
            let q = choose|q: int| 0 <= q < s.len() && (#[trigger] s[q]).1 == l;
            if q > r {
                lemma_ascending(s, r, q);
            }
            assert(q < r);
            lemma_ascending(s, q, r);
            if q < r - 1 {
                lemma_ascending(s, q, r - 1);
            }
            assert(false);
        }
    }
}

/// A value that stands at two places stands in two neighbouring pairs.
proof fn lemma_repeat_in_run(x: Seq<Binary64>, s: Seq<(i64, usize)>, i: int, j: int) -> (r: int)
    requires
        ranked(x, s),
        0 <= i < j < x.len(),
        x[i].value() == x[j].value(),
    ensures
        0 <= r < s.len() - 1,
        s[r].0 == s[r + 1].0,
        s[r].0 == x[i].signed_pattern(),
{
    lemma_order(x[i], x[j]);
    assert(placed(s, i) && placed(s, j));
    let qi = choose|q: int| 0 <= q < s.len() && (#[trigger] s[q]).1 == i;
    let qj = choose|q: int| 0 <= q < s.len() && (#[trigger] s[q]).1 == j;
    let r = if qi < qj {
        qi
    } else {
        qj
    };
    let t = if qi < qj {
        qj
    } else {
        qi
    };
    lemma_ascending(s, r, r + 1);
    if r + 1 < t {
        lemma_ascending(s, r + 1, t);
    }
    r
}

/// What the runs say of the repeated values.
proof fn lemma_runs(x: Seq<Binary64>, s: Seq<(i64, usize)>, d: Seq<Binary64>)
    requires
        ranked(x, s),
        runs_before(x, s, s.len() - 1, d),
    ensures
        lists_repeated(x, d),
{
    assert forall|a: int, b: int| 0 <= a < b < d.len() implies (#[trigger] d[a]).value() < (
    #[trigger] d[b]).value() by {
        lemma_order(d[a], d[b]);
    }
    assert forall|a: int| 0 <= a < d.len() implies first_of_repeated(x, #[trigger] d[a]) by {
        assert(from_run(x, s, s.len() - 1, d[a]));
        let r = choose|r: int|
            r < s.len() - 1 && #[trigger] run_start(s, r) && d[a] == x[s[r].1 as int];
        lemma_run_repeats(x, s, r);
        assert(repeats(x, s[r].1 as int, s[r + 1].1 as int) && x[s[r].1 as int] == d[a]);
    }
    assert forall|i: int, j: int|
        0 <= i < j < x.len() && (#[trigger] x[i]).value() == (
        #[trigger] x[j]).value() implies exists|a: int|
        0 <= a < d.len() && (#[trigger] d[a]).value() == x[i].value() by {
        let r = lemma_repeat_in_run(x, s, i, j);
        assert(covers(d, s[r].0));
        let a = choose|a: int| 0 <= a < d.len() && (#[trigger] d[a]).signed_pattern() == s[r].0;
        lemma_order(d[a], x[i]);
    }
}

/// Where the pair at `t` has the pattern of the one before it, that pattern
/// is the last in `d`.
proof fn lemma_last(x: Seq<Binary64>, s: Seq<(i64, usize)>, t: int, d: Seq<Binary64>)
    requires
        ranked(x, s),
        runs_before(x, s, t, d),
        0 <= t < s.len(),
    ensures
        d.len() > 0 ==> d.last().signed_pattern() <= s[t].0,
        t > 0 && s[t - 1].0 == s[t].0 ==> d.len() > 0 && d.last().signed_pattern() == s[t].0,
        t > 0 ==> s[t - 1].0 <= s[t].0,
{
    if t > 0 {
        lemma_ascending(s, t - 1, t);
    }
    if d.len() > 0 {
        assert(from_run(x, s, t, d[d.len() - 1]));
        let r = choose|r: int|
            r < t && #[trigger] run_start(s, r) && d.last() == x[s[r].1 as int];
        lemma_ascending(s, r, t);
    }
    if t > 0 && s[t - 1].0 == s[t].0 {
        assert(covers(d, s[t - 1].0));
        let a = choose|a: int| 0 <= a < d.len() && (#[trigger] d[a]).signed_pattern() == s[t - 1].0;
        if a < d.len() - 1 {
            assert(d[a].signed_pattern() < d[d.len() - 1].signed_pattern());
        }
    }
}

/// The next pair begins a run that is new.
proof fn lemma_step(
    x: Seq<Binary64>,
    s: Seq<(i64, usize)>,
    t: int,
    d: Seq<Binary64>,
    e: Seq<Binary64>,
)
    requires
        ranked(x, s),
        runs_before(x, s, t, d),
        0 <= t < s.len() - 1,
        if s[t].0 == s[t + 1].0 && (d.len() == 0 || d.last().signed_pattern() != s[t].0) {
            e == d.push(x[s[t].1 as int])
        } else {
            e == d
        },
    ensures
        runs_before(x, s, t + 1, e),
{
    lemma_last(x, s, t, d);
    let fresh = s[t].0 == s[t + 1].0 && (d.len() == 0 || d.last().signed_pattern() != s[t].0);
    if fresh {
        assert(run_start(s, t));
        assert(from_run(x, s, t + 1, x[s[t].1 as int]));
        assert forall|a: int, b: int| 0 <= a < b < e.len() implies (
        #[trigger] e[a]).signed_pattern() < (#[trigger] e[b]).signed_pattern() by {
            if b == d.len() && a < d.len() - 1 {
                assert(d[a].signed_pattern() < d[d.len() - 1].signed_pattern());
            }
        }
    }
    assert forall|a: int| 0 <= a < e.len() implies from_run(x, s, t + 1, #[trigger] e[a]) by {
        if a < d.len() {
            assert(from_run(x, s, t, d[a]));
            let r = choose|r: int| r < t && #[trigger] run_start(s, r) && d[a] == x[s[r].1 as int];
            assert(r < t + 1 && run_start(s, r));
        }
    }
    assert forall|r: int| 0 <= r < t + 1 && (#[trigger] s[r]).0 == s[r + 1].0 implies covers(
        e,
        s[r].0,
    ) by {
        if r < t {
            assert(covers(d, s[r].0));
            let a = choose|a: int| 0 <= a < d.len() && (#[trigger] d[a]).signed_pattern() == s[r].0;
            assert(e[a] == d[a]);
        } else {
            assert(e[e.len() - 1].signed_pattern() == s[r].0);
        }
    }
}

/// The repeated values of a series: each once, in increasing order.
pub fn repeated(x: &Vec<Binary64>) -> (d: Vec<Binary64>)
    ensures
        lists_repeated(x@, d@),
{
    let s: Vec<(i64, usize)> = rank(x);
    let mut d: Vec<Binary64> = Vec::new();
    if s.len() == 0 {
        return d;
    }
    let mut t: usize = 0;
    while t < s.len() - 1
        invariant
            ranked(x@, s@),
            t <= s.len() - 1,
            runs_before(x@, s@, t as int, d@),
        decreases s.len() - t,
    {
        let ghost before = d@;
        let n: usize = d.len();
        if s[t].0 == s[t + 1].0 && (n == 0 || d[n - 1].key() != s[t].0) {
            d.push(x[s[t].1]);
        }
        proof {
            lemma_step(x@, s@, t as int, before, d@);
        }
        t = t + 1;
    }
    proof {
        lemma_runs(x@, s@, d@);
    }
    d
}

// ---------------------------------------------------------------- direction

/// A step down from the coordinate before `i`.
pub open spec fn falls(x: Seq<Binary64>, i: int) -> bool {
    x[i].below(x[i - 1])
}

/// A step up from the coordinate before `i`.
pub open spec fn rises(x: Seq<Binary64>, i: int) -> bool {
    x[i - 1].below(x[i])
}

/// Nowhere a step down.
pub open spec fn increasing(x: Seq<Binary64>) -> bool {
    forall|i: int| 0 < i < x.len() ==> !#[trigger] falls(x, i)
}

/// Nowhere a step up.
pub open spec fn decreasing(x: Seq<Binary64>) -> bool {
    forall|i: int| 0 < i < x.len() ==> !#[trigger] rises(x, i)
}

/// Every step down: its position and the two coordinates.
pub open spec fn descents(x: Seq<Binary64>) -> Seq<(usize, Binary64, Binary64)>
    decreases x.len(),
{
    if x.len() < 2 {
        Seq::empty()
    } else {
        let n = x.len() - 1;
        let before = descents(x.drop_last());
        if falls(x, n) {
            before.push((n as usize, x[n - 1], x[n]))
        } else {
            before
        }
    }
}

/// The direction of a series of two or more coordinates.
pub open spec fn direction(x: Seq<Binary64>) -> Option<Seq<char>> {
    if x.len() < 2 {
        None
    } else if increasing(x) {
        Some("increasing"@)
    } else if decreasing(x) {
        Some("decreasing"@)
    } else {
        None
    }
}

/// The steps that break the order: the steps down, unless the whole series
/// decreases, which is a legal order.
pub open spec fn breaks(x: Seq<Binary64>) -> Seq<(usize, Binary64, Binary64)> {
    if decreasing(x) {
        Seq::empty()
    } else {
        descents(x)
    }
}

/// An increasing series has no step down, and one without is increasing.
pub proof fn lemma_descents(x: Seq<Binary64>)
    ensures
        descents(x).len() == 0 <==> increasing(x),
    decreases x.len(),
{
    if x.len() >= 2 {
        lemma_descents(x.drop_last());
        lemma_extend(x.drop_last(), x);
    }
}

/// The direction of a series, and the steps that break its order.
pub fn examine(x: &Vec<Binary64>) -> (r: (Option<String>, Vec<(usize, Binary64, Binary64)>))
    ensures
        match r.0 {
            Some(s) => direction(x@) == Some(s@),
            None => direction(x@) is None,
        },
        r.1@ == breaks(x@),
{
    if x.len() < 2 {
        return (None, Vec::new());
    }
    let mut inc: bool = true;
    let mut dec: bool = true;
    let mut pairs: Vec<(usize, Binary64, Binary64)> = Vec::new();
    for i in 1..x.len()
        invariant
            inc == increasing(x@.take(i as int)),
            dec == decreasing(x@.take(i as int)),
            pairs@ == descents(x@.take(i as int)),
    {
        let ghost p = x@.take(i as int);
        let ghost q = x@.take(i + 1);
        proof {
            assert(q.drop_last() =~= p);
            assert(q[i as int] == x@[i as int] && q[i - 1] == x@[i - 1]);
            lemma_extend(p, q);
        }
        if x[i - 1].lt(&x[i]) {
            dec = false;
        } else if x[i].lt(&x[i - 1]) {
            inc = false;
            pairs.push((i, x[i - 1], x[i]));
        }
    }
    assert(x@.take(x@.len() as int) =~= x@);
    let found: Option<String> = if inc {
        Some("increasing".to_owned())
    } else if dec {
        Some("decreasing".to_owned())
    } else {
        None
    };
    if dec {
        (found, Vec::new())
    } else {
        (found, pairs)
    }
}

/// What one more coordinate does to the direction.
proof fn lemma_extend(p: Seq<Binary64>, q: Seq<Binary64>)
    requires
        q.len() == p.len() + 1,
        p.len() >= 1,
        p == q.drop_last(),
    ensures
        increasing(q) == (increasing(p) && !falls(q, q.len() - 1)),
        decreasing(q) == (decreasing(p) && !rises(q, q.len() - 1)),
{
    assert forall|i: int| 0 < i < p.len() implies #[trigger] falls(p, i) == falls(q, i) && rises(
        p,
        i,
    ) == rises(q, i) by {
        assert(p[i] == q[i] && p[i - 1] == q[i - 1]);
    }
    if increasing(q) {
        assert forall|i: int| 0 < i < p.len() implies !#[trigger] falls(p, i) by {
            assert(!falls(q, i));
        }
    }
    if increasing(p) && !falls(q, q.len() - 1) {
        assert forall|i: int| 0 < i < q.len() implies !#[trigger] falls(q, i) by {
            if i < p.len() {
                assert(!falls(p, i));
            }
        }
    }
    if decreasing(q) {
        assert forall|i: int| 0 < i < p.len() implies !#[trigger] rises(p, i) by {
            assert(!rises(q, i));
            assert(falls(p, i) == falls(q, i));
        }
    }
    if decreasing(p) && !rises(q, q.len() - 1) {
        assert forall|i: int| 0 < i < q.len() implies !#[trigger] rises(q, i) by {
            if i < p.len() {
                assert(!rises(p, i));
                assert(falls(p, i) == falls(q, i));
            }
        }
    }
}

/// The coordinate at `i` is less than the one before it.
pub open spec fn less_at(x: Seq<Binary64>, i: int) -> bool {
    x[i].value() < x[i - 1].value()
}

/// The coordinate at `i` is greater than the one before it.
pub open spec fn greater_at(x: Seq<Binary64>, i: int) -> bool {
    x[i].value() > x[i - 1].value()
}

/// The direction that is told of two or more finite coordinates is the text
/// `increasing` exactly where none is less than the one before it, and
/// `decreasing` exactly where none is greater than the one before it and one is
/// less.  Fewer coordinates, and those that rise and fall, have no direction.
pub proof fn law_direction_is_told(x: Seq<Binary64>)
    requires
        forall|i: int| 0 <= i < x.len() ==> (#[trigger] x[i]).finite(),
    ensures
        ({
            let up = forall|i: int| 0 < i < x.len() ==> !#[trigger] less_at(x, i);
            let down = forall|i: int| 0 < i < x.len() ==> !#[trigger] greater_at(x, i);
            &&& direction(x) == Some("increasing"@) <==> x.len() >= 2 && up
            &&& direction(x) == Some("decreasing"@) <==> x.len() >= 2 && down && !up
            &&& direction(x) is None <==> x.len() < 2 || (!up && !down)
            &&& "increasing"@ != "decreasing"@
        }),
{
    reveal_strlit("increasing");
    reveal_strlit("decreasing");
    assert("increasing"@[0] != "decreasing"@[0]);
    lemma_steps(x);
}

proof fn lemma_steps(x: Seq<Binary64>)
    requires
        forall|i: int| 0 <= i < x.len() ==> (#[trigger] x[i]).finite(),
    ensures
        increasing(x) == forall|i: int| 0 < i < x.len() ==> !#[trigger] less_at(x, i),
        decreasing(x) == forall|i: int| 0 < i < x.len() ==> !#[trigger] greater_at(x, i),
        forall|i: int| 0 < i < x.len() ==> #[trigger] less_at(x, i) == falls(x, i),
{
    assert forall|i: int| 0 < i < x.len() implies #[trigger] less_at(x, i) == falls(x, i) by {
        assert(x[i].finite() && x[i - 1].finite());
    }
    assert forall|i: int| 0 < i < x.len() implies #[trigger] falls(x, i) == less_at(x, i) by {
        assert(x[i].finite() && x[i - 1].finite());
    }
    assert forall|i: int| 0 < i < x.len() implies #[trigger] greater_at(x, i) == rises(x, i) by {
        assert(x[i].finite() && x[i - 1].finite());
    }
    assert forall|i: int| 0 < i < x.len() implies #[trigger] rises(x, i) == greater_at(x, i) by {
        assert(x[i].finite() && x[i - 1].finite());
    }
}

/// The place `i` is one of those told.
pub open spec fn told_at(b: Seq<(usize, Binary64, Binary64)>, i: int) -> bool {
    exists|k: int| 0 <= k < b.len() && (#[trigger] b[k]).0 == i
}

/// The steps that are told to break the order of finite coordinates are, in
/// order, the places at which a coordinate is less than the one before it, each
/// with the two coordinates; none where no coordinate is greater than the one
/// before it.
pub proof fn law_breaks_are_the_descents(x: Seq<Binary64>)
    requires
        x.len() <= usize::MAX,
        forall|i: int| 0 <= i < x.len() ==> (#[trigger] x[i]).finite(),
    ensures
        ({
            let b = breaks(x);
            let down = forall|i: int| 0 < i < x.len() ==> !#[trigger] greater_at(x, i);
            &&& down ==> b.len() == 0
            &&& forall|k: int|
                0 <= k < b.len() ==> {
                    let i = (#[trigger] b[k]).0 as int;
                    0 < i < x.len() && b[k].1 == x[i - 1] && b[k].2 == x[i] && less_at(x, i)
                }
            &&& forall|j: int, k: int|
                0 <= j < k < b.len() ==> (#[trigger] b[j]).0 < (#[trigger] b[k]).0
            &&& forall|i: int|
                0 < i < x.len() && !down && #[trigger] less_at(x, i) ==> told_at(b, i)
        }),
{
    lemma_descents_are(x);
    lemma_steps(x);
}

proof fn lemma_descents_are(x: Seq<Binary64>)
    requires
        x.len() <= usize::MAX,
        forall|i: int| 0 <= i < x.len() ==> (#[trigger] x[i]).finite(),
    ensures
        ({
            let b = descents(x);
            &&& forall|k: int|
                0 <= k < b.len() ==> {
                    let i = (#[trigger] b[k]).0 as int;
                    0 < i < x.len() && b[k].1 == x[i - 1] && b[k].2 == x[i] && less_at(x, i)
                }
            &&& forall|j: int, k: int|
                0 <= j < k < b.len() ==> (#[trigger] b[j]).0 < (#[trigger] b[k]).0
            &&& forall|i: int| 0 < i < x.len() && #[trigger] less_at(x, i) ==> told_at(b, i)
        }),
    decreases x.len(),
{
    if x.len() >= 2 {
        let p = x.drop_last();
        let n = x.len() - 1;
        assert forall|i: int| 0 <= i < p.len() implies (#[trigger] p[i]).finite() by {
            assert(x[i].finite());
        }
        lemma_descents_are(p);
        lemma_steps(x);
        let a = descents(p);
        let b = descents(x);
        assert(less_at(x, n) == falls(x, n));
        assert forall|i: int| 0 < i < x.len() && #[trigger] less_at(x, i) implies told_at(b, i) by {
            if i < n {
                assert(less_at(p, i));
                let k = choose|k: int| 0 <= k < a.len() && (#[trigger] a[k]).0 == i;
                assert(b[k] == a[k]);
            } else {
                assert(b[b.len() - 1].0 == n);
            }
        }
        assert forall|k: int| 0 <= k < b.len() implies ({
            let i = (#[trigger] b[k]).0 as int;
            0 < i < x.len() && b[k].1 == x[i - 1] && b[k].2 == x[i] && less_at(x, i)
        }) by {
            if k < a.len() {
                assert(b[k] == a[k]);
                assert(less_at(p, a[k].0 as int));
            }
        }
    }
}

} // verus!
