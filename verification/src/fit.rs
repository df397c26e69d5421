//! Levenberg-Marquardt nonlinear least squares for peak models.
//!
//! Jacobians use central differences in the space of the free vector.

use crate::arithmetic::{follows, Arithmetic, Meaning};
use crate::binary64::{Binary64, ONE_BITS};
use crate::data::places;
use crate::layout::{from_free, Layout, Plan};
use crate::linalg::{lemma_place, solution, solve};
use crate::model::{eval_peaks, model_value};
use crate::quadrature::TWO_BITS;
use vstd::prelude::*;

verus! {

/// The version of the fitter.
pub const FITTER_VERSION: &'static str = "lma-v1.0.0";

/// The most iterations of a fit.
pub const MAX_ITER: usize = 200;

/// The most attempts to find a step within one iteration.
pub const MAX_ATTEMPTS: usize = 60;

/// The number 1e-7: the relative step of the central differences.
pub const FD_EPS_BITS: u64 = 0x3e7a_d7f2_9abc_af48;

/// The number 1e-3: the initial damping.
pub const LAMBDA0_BITS: u64 = 0x3f50_624d_d2f1_a9fc;

/// The number 10: what the damping is multiplied by after a failure.
pub const LAMBDA_UP_BITS: u64 = 0x4024_0000_0000_0000;

/// The number 0.3: what the damping is multiplied by after a success.
pub const LAMBDA_DOWN_BITS: u64 = 0x3fd3_3333_3333_3333;

/// The number 1e12: the damping above which a fit is given up.
pub const LAMBDA_MAX_BITS: u64 = 0x426d_1a94_a200_0000;

/// The number 1e-10: the relative change of chi-square, and the step of the
/// free vector, below which a fit has converged.
pub const TOLERANCE_BITS: u64 = 0x3ddb_7cdf_d9d7_bdbb;

/// The number 1e-300: the least denominator of the relative change.
pub const CHI_FLOOR_BITS: u64 = 0x01a5_6e1f_c2f8_f359;

/// What is fitted: the points, those excluded, the parameters, and the
/// quadrature for the Voigt profile.
pub struct Problem<'a> {
    pub nodes: &'a Vec<(Binary64, Binary64)>,
    pub xs: &'a Vec<Binary64>,
    pub ys: &'a Vec<Binary64>,
    pub mask: &'a Vec<bool>,
    pub layout: &'a Layout,
}

/// What is fitted, over numbers of the kind `T`.
pub struct Task<T> {
    pub nodes: Seq<(T, T)>,
    pub xs: Seq<T>,
    pub ys: Seq<T>,
    pub mask: Seq<bool>,
    pub plan: Plan<T>,
}

impl<'a> Problem<'a> {
    pub open spec fn view(&self) -> Task<Binary64> {
        Task {
            nodes: self.nodes@,
            xs: self.xs@,
            ys: self.ys@,
            mask: self.mask@,
            plan: self.layout@,
        }
    }
}

/// The positions of the points that are not excluded.
pub open spec fn kept(mask: Seq<bool>) -> Seq<int> {
    places(mask.len(), |i: int| !mask[i])
}

/// The sum of the squares of the first `k` elements.
pub open spec fn sum_squares<T>(m: Meaning<T>, r: Seq<T>, k: int) -> T
    decreases k,
{
    if k <= 0 {
        m.zero()
    } else {
        m.add(sum_squares(m, r, k - 1), m.mul(r[k - 1], r[k - 1]))
    }
}

/// The sum of the products of the first `k` elements.
pub open spec fn dot<T>(m: Meaning<T>, x: Seq<T>, y: Seq<T>, k: int) -> T
    decreases k,
{
    if k <= 0 {
        m.zero()
    } else {
        m.add(dot(m, x, y, k - 1), m.mul(x[k - 1], y[k - 1]))
    }
}

/// The step of a central difference at `v`.
pub open spec fn reach<T>(m: Meaning<T>, v: T) -> T {
    m.mul(m.num(FD_EPS_BITS), m.max(m.one(), m.abs(v)))
}

/// The free vector with element `f` a step further up.
pub open spec fn nudged_up<T>(m: Meaning<T>, q: Seq<T>, f: int) -> Seq<T> {
    q.update(f, m.add(q[f], reach(m, q[f])))
}

/// The free vector with element `f` a step further down.
pub open spec fn nudged_down<T>(m: Meaning<T>, q: Seq<T>, f: int) -> Seq<T> {
    q.update(f, m.sub(q[f], reach(m, q[f])))
}

/// A central difference: the rise from `lo` to `hi` over two steps at `v`.
pub open spec fn slope<T>(m: Meaning<T>, hi: T, lo: T, v: T) -> T {
    m.div(m.sub(hi, lo), m.mul(m.num(TWO_BITS), reach(m, v)))
}

impl<T> Task<T> {
    /// One value and one mark for every point, and sound parameters.
    pub open spec fn sound(self) -> bool {
        &&& self.ys.len() >= self.xs.len()
        &&& self.mask.len() == self.xs.len()
        &&& self.plan.sound()
    }

    /// The model with the parameters `p` at point `i`.
    pub open spec fn model(self, m: Meaning<T>, p: Seq<T>, i: int) -> T {
        model_value(m, self.nodes, self.xs[i], self.plan.kinds, p)
    }

    /// Model less data at every point that is not excluded.
    pub open spec fn residual(self, m: Meaning<T>, p: Seq<T>) -> Seq<T> {
        kept(self.mask).map_values(|i: int| m.sub(self.model(m, p, i), self.ys[i]))
    }

    /// The derivative of the model by free parameter `f`, at every point that
    /// is not excluded.
    pub open spec fn column(self, m: Meaning<T>, q: Seq<T>, f: int) -> Seq<T> {
        let hi = self.plan.full(m, nudged_up(m, q, f));
        let lo = self.plan.full(m, nudged_down(m, q, f));
        kept(self.mask).map_values(
            |i: int| slope(m, self.model(m, hi, i), self.model(m, lo, i), q[f]),
        )
    }

    /// The Jacobian, column by column.
    pub open spec fn columns(self, m: Meaning<T>, q: Seq<T>) -> Seq<Seq<T>> {
        Seq::new(self.plan.free(), |f: int| self.column(m, q, f))
    }
}

/// The products of every two columns, `J^T J`.
pub open spec fn gram<T>(m: Meaning<T>, cols: Seq<Seq<T>>, rows: nat) -> Seq<T> {
    let n = cols.len();
    Seq::new(
        n * n,
        |q: int|
            {
                let a = q / (n as int);
                let b = q % (n as int);
                if b <= a {
                    dot(m, cols[a], cols[b], rows as int)
                } else {
                    dot(m, cols[b], cols[a], rows as int)
                }
            },
    )
}

/// The products of the columns with the residual, with opposite sign:
/// `-J^T r`.
pub open spec fn descent<T>(m: Meaning<T>, cols: Seq<Seq<T>>, r: Seq<T>) -> Seq<T> {
    Seq::new(cols.len(), |a: int| m.neg(dot(m, cols[a], r, r.len() as int)))
}

/// A matrix with its diagonal multiplied by `1 + lambda`.
pub open spec fn damped<T>(m: Meaning<T>, a: Seq<T>, n: nat, lambda: T) -> Seq<T> {
    Seq::new(
        n * n,
        |q: int|
            if q / (n as int) == q % (n as int) {
                m.mul(a[q], m.add(m.one(), lambda))
            } else {
                a[q]
            },
    )
}

/// The damped step: the solution of the damped system, with the damping raised
/// while the system has none.  No step where the damping grows too large, or
/// after the allowed attempts.
pub open spec fn search<T>(
    m: Meaning<T>,
    a: Seq<T>,
    rhs: Seq<T>,
    n: nat,
    lambda: T,
    attempts: nat,
) -> (T, Option<Seq<T>>)
    decreases attempts,
{
    if attempts == 0 {
        (lambda, None)
    } else {
        match solution(m, damped(m, a, n, lambda), rhs, n) {
            Some(s) => (lambda, Some(s)),
            None => {
                let up = m.mul(lambda, m.num(LAMBDA_UP_BITS));
                if m.lt(m.num(LAMBDA_MAX_BITS), up) {
                    (up, None)
                } else {
                    search(m, a, rhs, n, up, (attempts - 1) as nat)
                }
            },
        }
    }
}

/// The positions of the points that are not excluded.
pub fn kept_rows(mask: &Vec<bool>) -> (r: Vec<usize>)
    ensures
        r@.map_values(|i: usize| i as int) == kept(mask@),
        forall|k: int| 0 <= k < r@.len() ==> (#[trigger] r@[k]) < mask@.len(),
{
    let mut r: Vec<usize> = Vec::new();
    for i in 0..mask.len()
        invariant
            r@.map_values(|i: usize| i as int) == places(i as nat, |i: int| !mask@[i]),
            forall|k: int| 0 <= k < r@.len() ==> (#[trigger] r@[k]) < mask@.len(),
    {
        let ghost before = r@;
        if !mask[i] {
            r.push(i);
            assert(r@.map_values(|i: usize| i as int) =~= before.map_values(
                |i: usize| i as int,
            ).push(i as int));
        }
    }
    r
}

/// A copy of a vector of numbers.
pub fn copy_of(v: &Vec<Binary64>) -> (r: Vec<Binary64>)
    ensures
        r@ == v@,
{
    let mut r: Vec<Binary64> = Vec::new();
    for i in 0..v.len()
        invariant
            r@ == v@.take(i as int),
    {
        r.push(v[i]);
        assert(v@.take(i + 1) =~= v@.take(i as int).push(v@[i as int]));
    }
    assert(v@.take(v@.len() as int) =~= v@);
    r
}

/// Model less data at every point that is not excluded.
pub fn residuals<'a, A: Arithmetic>(pb: &Problem<'a>, p: &Vec<Binary64>) -> (r: Vec<Binary64>)
    requires
        pb@.sound(),
        p@.len() == pb@.plan.p0.len(),
    ensures
        r@.len() == kept(pb@.mask).len(),
        forall|m: Meaning<Binary64>| #[trigger] follows::<A>(m) ==> r@ == pb@.residual(m, p@),
{
    let rows: Vec<usize> = kept_rows(pb.mask);
    let ghost ks = kept(pb@.mask);
    let mut r: Vec<Binary64> = Vec::new();
    for k in 0..rows.len()
        invariant
            pb@.sound(),
            p@.len() == pb@.plan.p0.len(),
            ks == kept(pb@.mask),
            rows@.map_values(|i: usize| i as int) == ks,
            forall|k: int| 0 <= k < rows@.len() ==> (#[trigger] rows@[k]) < pb@.mask.len(),
            r@.len() == k,
            forall|m: Meaning<Binary64>, j: int|
                #![trigger follows::<A>(m), r@[j]]
                follows::<A>(m) && 0 <= j < k ==> r@[j] == pb@.residual(m, p@)[j],
    {
        let i: usize = rows[k];
        assert(ks[k as int] == i);
        let v: Binary64 = eval_peaks::<A>(pb.nodes, pb.xs[i], &pb.layout.kinds, p);
        r.push(A::minus(v, pb.ys[i]));
    }
    proof {
        assert(rows@.len() == ks.len());
        assert forall|m: Meaning<Binary64>| #[trigger] follows::<A>(m) implies r@ == pb@.residual(
            m,
            p@,
        ) by {
            assert(r@ =~= pb@.residual(m, p@));
        }
    }
    r
}

/// The sum of squares.
pub fn chi2_of<A: Arithmetic>(r: &Vec<Binary64>) -> (s: Binary64)
    ensures
        forall|m: Meaning<Binary64>| #[trigger]
            follows::<A>(m) ==> s == sum_squares(m, r@, r@.len() as int),
{
    let mut s: Binary64 = Binary64 { bits: 0 };
    for k in 0..r.len()
        invariant
            forall|m: Meaning<Binary64>| #[trigger]
                follows::<A>(m) ==> s == sum_squares(m, r@, k as int),
    {
        s = A::plus(s, A::times(r[k], r[k]));
    }
    s
}

/// The step of a central difference at `v`.
pub fn reach_of<A: Arithmetic>(v: Binary64) -> (h: Binary64)
    ensures
        forall|m: Meaning<Binary64>| #[trigger] follows::<A>(m) ==> h == reach(m, v),
{
    let one: Binary64 = Binary64 { bits: ONE_BITS };
    A::times(Binary64 { bits: FD_EPS_BITS }, one.max(v.abs()))
}

/// The derivative of the model by one free parameter.
fn column_of<'a, A: Arithmetic>(pb: &Problem<'a>, rows: &Vec<usize>, q: &Vec<Binary64>, f: usize) -> (c:
    Vec<Binary64>)
    requires
        pb@.sound(),
        q@.len() == pb@.plan.free(),
        f < q@.len(),
        rows@.map_values(|i: usize| i as int) == kept(pb@.mask),
        forall|k: int| 0 <= k < rows@.len() ==> (#[trigger] rows@[k]) < pb@.mask.len(),
    ensures
        c@.len() == kept(pb@.mask).len(),
        forall|m: Meaning<Binary64>| #[trigger]
            follows::<A>(m) ==> c@ == pb@.column(m, q@, f as int),
{
    let h: Binary64 = reach_of::<A>(q[f]);
    let ghost ks = kept(pb@.mask);
    let mut qp: Vec<Binary64> = copy_of(q);
    let mut qm: Vec<Binary64> = copy_of(q);
    let up: Binary64 = A::plus(q[f], h);
    let down: Binary64 = A::minus(q[f], h);
    qp.set(f, up);
    qm.set(f, down);
    let pp: Vec<Binary64> = from_free::<A>(pb.layout, &qp);
    let pm: Vec<Binary64> = from_free::<A>(pb.layout, &qm);
    let width: Binary64 = A::times(Binary64 { bits: TWO_BITS }, h);
    let mut c: Vec<Binary64> = Vec::new();
    for k in 0..rows.len()
        invariant
            pb@.sound(),
            pp@.len() == pb@.plan.p0.len(),
            pm@.len() == pb@.plan.p0.len(),
            ks == kept(pb@.mask),
            rows@.map_values(|i: usize| i as int) == ks,
            forall|k: int| 0 <= k < rows@.len() ==> (#[trigger] rows@[k]) < pb@.mask.len(),
            c@.len() == k,
            forall|m: Meaning<Binary64>| #[trigger]
                follows::<A>(m) ==> {
                    &&& pp@ == pb@.plan.full(m, nudged_up(m, q@, f as int))
                    &&& pm@ == pb@.plan.full(m, nudged_down(m, q@, f as int))
                    &&& width == m.mul(m.num(TWO_BITS), reach(m, q@[f as int]))
                },
            forall|m: Meaning<Binary64>, j: int|
                #![trigger follows::<A>(m), c@[j]]
                follows::<A>(m) && 0 <= j < k ==> c@[j] == pb@.column(m, q@, f as int)[j],
    {
        let i: usize = rows[k];
        assert(ks[k as int] == i);
        let fp: Binary64 = eval_peaks::<A>(pb.nodes, pb.xs[i], &pb.layout.kinds, &pp);
        let fm: Binary64 = eval_peaks::<A>(pb.nodes, pb.xs[i], &pb.layout.kinds, &pm);
        c.push(A::over(A::minus(fp, fm), width));
    }
    proof {
        assert(rows@.len() == ks.len());
        assert forall|m: Meaning<Binary64>| #[trigger] follows::<A>(m) implies c@ == pb@.column(
            m,
            q@,
            f as int,
        ) by {
            assert(c@ =~= pb@.column(m, q@, f as int));
        }
    }
    c
}

/// The columns of a matrix as sequences.
pub open spec fn column_views(v: Seq<Vec<Binary64>>) -> Seq<Seq<Binary64>> {
    v.map_values(|c: Vec<Binary64>| c@)
}

/// The Jacobian by central differences, column by column.
pub fn jacobian<'a, A: Arithmetic>(pb: &Problem<'a>, q: &Vec<Binary64>) -> (j: Vec<Vec<Binary64>>)
    requires
        pb@.sound(),
        q@.len() == pb@.plan.free(),
    ensures
        j@.len() == q@.len(),
        forall|f: int| 0 <= f < j@.len() ==> (#[trigger] j@[f])@.len() == kept(pb@.mask).len(),
        forall|m: Meaning<Binary64>| #[trigger]
            follows::<A>(m) ==> column_views(j@) == pb@.columns(m, q@),
{
    let rows: Vec<usize> = kept_rows(pb.mask);
    let mut j: Vec<Vec<Binary64>> = Vec::new();
    for f in 0..q.len()
        invariant
            pb@.sound(),
            q@.len() == pb@.plan.free(),
            rows@.map_values(|i: usize| i as int) == kept(pb@.mask),
            forall|k: int| 0 <= k < rows@.len() ==> (#[trigger] rows@[k]) < pb@.mask.len(),
            j@.len() == f,
            forall|g: int| 0 <= g < f ==> (#[trigger] j@[g])@.len() == kept(pb@.mask).len(),
            forall|m: Meaning<Binary64>, g: int|
                #![trigger follows::<A>(m), j@[g]]
                follows::<A>(m) && 0 <= g < f ==> j@[g]@ == pb@.column(m, q@, g),
    {
        j.push(column_of::<A>(pb, &rows, q, f));
    }
    proof {
        assert forall|m: Meaning<Binary64>| #[trigger] follows::<A>(m) implies column_views(j@)
            == pb@.columns(m, q@) by {
            assert(column_views(j@) =~= pb@.columns(m, q@));
        }
    }
    j
}

/// The sum of products of two columns.
fn dot_of<A: Arithmetic>(x: &Vec<Binary64>, y: &Vec<Binary64>) -> (s: Binary64)
    requires
        x@.len() == y@.len(),
    ensures
        forall|m: Meaning<Binary64>| #[trigger]
            follows::<A>(m) ==> s == dot(m, x@, y@, y@.len() as int),
{
    let mut s: Binary64 = Binary64 { bits: 0 };
    for k in 0..y.len()
        invariant
            x@.len() == y@.len(),
            forall|m: Meaning<Binary64>| #[trigger]
                follows::<A>(m) ==> s == dot(m, x@, y@, k as int),
    {
        s = A::plus(s, A::times(x[k], y[k]));
    }
    s
}

/// The products of every two columns.
pub fn gram_of<A: Arithmetic>(cols: &Vec<Vec<Binary64>>, rows: usize) -> (a: Vec<Binary64>)
    requires
        forall|f: int| 0 <= f < cols@.len() ==> (#[trigger] cols@[f])@.len() == rows,
        cols@.len() * cols@.len() <= usize::MAX,
    ensures
        a@.len() == cols@.len() * cols@.len(),
        forall|m: Meaning<Binary64>| #[trigger]
            follows::<A>(m) ==> a@ == gram(m, column_views(cols@), rows as nat),
{
    let n: usize = cols.len();
    let len: usize = n * n;
    let mut a: Vec<Binary64> = Vec::new();
    for q in 0..len
        invariant
            forall|f: int| 0 <= f < cols@.len() ==> (#[trigger] cols@[f])@.len() == rows,
            n == cols@.len(),
            len == n * n,
            a@.len() == q,
            forall|m: Meaning<Binary64>, k: int|
                #![trigger follows::<A>(m), a@[k]]
                follows::<A>(m) && 0 <= k < q ==> a@[k] == gram(
                    m,
                    column_views(cols@),
                    rows as nat,
                )[k],
    {
        proof {
            lemma_place(n as nat, q as int);
        }
        let i: usize = q / n;
        let j: usize = q % n;
        assert(column_views(cols@)[i as int] == cols@[i as int]@);
        assert(column_views(cols@)[j as int] == cols@[j as int]@);
        if j <= i {
            a.push(dot_of::<A>(&cols[i], &cols[j]));
        } else {
            a.push(dot_of::<A>(&cols[j], &cols[i]));
        }
    }
    proof {
        assert forall|m: Meaning<Binary64>| #[trigger] follows::<A>(m) implies a@ == gram(
            m,
            column_views(cols@),
            rows as nat,
        ) by {
            assert(a@ =~= gram(m, column_views(cols@), rows as nat));
        }
    }
    a
}

/// The products of the columns with the residual, with opposite sign.
fn descent_of<A: Arithmetic>(cols: &Vec<Vec<Binary64>>, r: &Vec<Binary64>) -> (g: Vec<Binary64>)
    requires
        forall|f: int| 0 <= f < cols@.len() ==> (#[trigger] cols@[f])@.len() == r@.len(),
    ensures
        g@.len() == cols@.len(),
        forall|m: Meaning<Binary64>| #[trigger]
            follows::<A>(m) ==> g@ == descent(m, column_views(cols@), r@),
{
    let mut g: Vec<Binary64> = Vec::new();
    for a in 0..cols.len()
        invariant
            forall|f: int| 0 <= f < cols@.len() ==> (#[trigger] cols@[f])@.len() == r@.len(),
            g@.len() == a,
            forall|m: Meaning<Binary64>, k: int|
                #![trigger follows::<A>(m), g@[k]]
                follows::<A>(m) && 0 <= k < a ==> g@[k] == descent(m, column_views(cols@), r@)[k],
    {
        assert(column_views(cols@)[a as int] == cols@[a as int]@);
        g.push(dot_of::<A>(&cols[a], r).neg());
    }
    proof {
        assert forall|m: Meaning<Binary64>| #[trigger] follows::<A>(m) implies g@ == descent(
            m,
            column_views(cols@),
            r@,
        ) by {
            assert(g@ =~= descent(m, column_views(cols@), r@));
        }
    }
    g
}

/// A matrix with its diagonal multiplied by `1 + lambda`.
fn damp<A: Arithmetic>(a: &Vec<Binary64>, n: usize, lambda: Binary64) -> (d: Vec<Binary64>)
    requires
        a@.len() == n * n,
    ensures
        d@.len() == n * n,
        forall|m: Meaning<Binary64>| #[trigger]
            follows::<A>(m) ==> d@ == damped(m, a@, n as nat, lambda),
{
    let mut d: Vec<Binary64> = Vec::new();
    let k: Binary64 = A::plus(Binary64 { bits: ONE_BITS }, lambda);
    for q in 0..a.len()
        invariant
            a@.len() == n * n,
            d@.len() == q,
            forall|m: Meaning<Binary64>| #[trigger]
                follows::<A>(m) ==> k == m.add(m.one(), lambda),
            forall|m: Meaning<Binary64>, j: int|
                #![trigger follows::<A>(m), d@[j]]
                follows::<A>(m) && 0 <= j < q ==> d@[j] == damped(m, a@, n as nat, lambda)[j],
    {
        proof {
            lemma_place(n as nat, q as int);
        }
        if q / n == q % n {
            d.push(A::times(a[q], k));
        } else {
            d.push(a[q]);
        }
    }
    proof {
        assert forall|m: Meaning<Binary64>| #[trigger] follows::<A>(m) implies d@ == damped(
            m,
            a@,
            n as nat,
            lambda,
        ) by {
            assert(d@ =~= damped(m, a@, n as nat, lambda));
        }
    }
    d
}

/// The damped step, with the damping raised while there is none.
fn find_step<A: Arithmetic>(a: &Vec<Binary64>, rhs: &Vec<Binary64>, n: usize, lambda: Binary64) -> (r: (
    Binary64,
    Option<Vec<Binary64>>,
))
    requires
        a@.len() == n * n,
        rhs@.len() == n,
    ensures
        r.1 matches Some(s) ==> s@.len() == n,
        forall|m: Meaning<Binary64>| #[trigger]
            follows::<A>(m) ==> {
                let x = search(m, a@, rhs@, n as nat, lambda, MAX_ATTEMPTS as nat);
                &&& r.0 == x.0
                &&& match r.1 {
                    Some(s) => x.1 == Some(s@),
                    None => x.1 is None,
                }
            },
{
    let mut lam: Binary64 = lambda;
    let mut left: usize = MAX_ATTEMPTS;
    let up: Binary64 = Binary64 { bits: LAMBDA_UP_BITS };
    let cap: Binary64 = Binary64 { bits: LAMBDA_MAX_BITS };
    while left > 0
        invariant
            a@.len() == n * n,
            rhs@.len() == n,
            left <= MAX_ATTEMPTS,
            up == (Binary64 { bits: LAMBDA_UP_BITS }),
            cap == (Binary64 { bits: LAMBDA_MAX_BITS }),
            forall|m: Meaning<Binary64>| #[trigger]
                follows::<A>(m) ==> search(
                    m,
                    a@,
                    rhs@,
                    n as nat,
                    lambda,
                    MAX_ATTEMPTS as nat,
                ) == search(m, a@, rhs@, n as nat, lam, left as nat),
        decreases left,
    {
        let mut d: Vec<Binary64> = damp::<A>(a, n, lam);
        let mut b: Vec<Binary64> = copy_of(rhs);
        match solve::<A>(&mut d, &mut b, n) {
            Some(_) => {
                return (lam, Some(b));
            },
            None => {
                lam = A::times(lam, up);
                if cap.lt(&lam) {
                    return (lam, None);
                }
            },
        }
        left = left - 1;
    }
    (lam, None)
}

// --------------------------------------------------------------- the iteration

/// Where a fit stands: the free vector, the parameters, the residual,
/// chi-square and the damping.
pub struct Stand<T> {
    pub q: Seq<T>,
    pub p: Seq<T>,
    pub r: Seq<T>,
    pub chi: T,
    pub lambda: T,
}

/// One line of the record of a fit.
pub struct Entry<T> {
    pub iter: nat,
    pub chi2: T,
    pub lambda: T,
    pub accepted: bool,
    pub params: Seq<T>,
}

/// How a fit ended.
#[derive(Clone, Copy, Debug, PartialEq, Eq, Structural)]
pub enum Status {
    MaxIterations,
    Underdetermined,
    NoFiniteStep,
    Converged,
}

impl Status {
    /// The name of a status.
    pub open spec fn name(self) -> Seq<char> {
        match self {
            Status::MaxIterations => "max_iterations"@,
            Status::Underdetermined => "underdetermined"@,
            Status::NoFiniteStep => "no_finite_step"@,
            Status::Converged => "converged"@,
        }
    }

    /// The name of a status.
    pub fn as_str(self) -> (r: &'static str)
        ensures
            r@ == self.name(),
    {
        match self {
            Status::MaxIterations => "max_iterations",
            Status::Underdetermined => "underdetermined",
            Status::NoFiniteStep => "no_finite_step",
            Status::Converged => "converged",
        }
    }
}

/// The sums of corresponding elements.
pub open spec fn stepped<T>(m: Meaning<T>, q: Seq<T>, s: Seq<T>) -> Seq<T> {
    Seq::new(q.len(), |i: int| m.add(q[i], s[i]))
}

/// The largest magnitude of the differences of the first `k` elements.
pub open spec fn step_size<T>(m: Meaning<T>, q: Seq<T>, s: Seq<T>, k: int) -> T
    decreases k,
{
    if k <= 0 {
        m.zero()
    } else {
        m.max(step_size(m, q, s, k - 1), m.abs(m.sub(q[k - 1], s[k - 1])))
    }
}

/// The relative change of chi-square.
pub open spec fn change<T>(m: Meaning<T>, old_chi: T, new_chi: T) -> T {
    if m.lt(m.zero(), old_chi) {
        m.div(m.abs(m.sub(old_chi, new_chi)), m.max(old_chi, m.num(CHI_FLOOR_BITS)))
    } else {
        m.zero()
    }
}

impl<T> Task<T> {
    /// Where a fit stands with the free vector `q`.
    pub open spec fn stand(self, m: Meaning<T>, q: Seq<T>, lambda: T) -> Stand<T> {
        let p = self.plan.full(m, q);
        let r = self.residual(m, p);
        Stand { q, p, r, chi: sum_squares(m, r, r.len() as int), lambda }
    }

    /// The damping and the step that an iteration arrives at.
    pub open spec fn proposed(self, m: Meaning<T>, s: Stand<T>) -> (T, Option<Seq<T>>) {
        let cols = self.columns(m, s.q);
        search(
            m,
            gram(m, cols, s.r.len()),
            descent(m, cols, s.r),
            self.plan.free(),
            s.lambda,
            MAX_ATTEMPTS as nat,
        )
    }

    /// One iteration: where the fit stands after it, its line in the record,
    /// and the status where it ends the fit.
    ///
    /// A step is accepted where chi-square is finite and falls.  The damping
    /// is then lowered, and the fit has converged where chi-square or the free
    /// vector hardly changed.  Otherwise the fit stays where it is, the damping
    /// is raised, and the fit is given up where there was no finite step or the
    /// damping is too large.
    pub open spec fn iterated(self, m: Meaning<T>, s: Stand<T>, it: nat) -> (
        Stand<T>,
        Entry<T>,
        Option<Status>,
    ) {
        let (lambda, step) = self.proposed(m, s);
        let next = self.stand(m, stepped(m, s.q, step->0), lambda);
        let found = step is Some && m.fin(next.chi);
        if found && m.lt(next.chi, s.chi) {
            let down = m.mul(lambda, m.num(LAMBDA_DOWN_BITS));
            let done = m.lt(change(m, s.chi, next.chi), m.num(TOLERANCE_BITS)) || m.lt(
                step_size(m, s.q, next.q, s.q.len() as int),
                m.num(TOLERANCE_BITS),
            );
            (
                Stand { lambda: down, ..next },
                Entry { iter: it, chi2: next.chi, lambda: down, accepted: true, params: next.p },
                if done {
                    Some(Status::Converged)
                } else {
                    None
                },
            )
        } else {
            let up = m.mul(lambda, m.num(LAMBDA_UP_BITS));
            (
                Stand { lambda: up, ..s },
                Entry {
                    iter: it,
                    chi2: if found {
                        next.chi
                    } else {
                        s.chi
                    },
                    lambda: up,
                    accepted: false,
                    params: if found {
                        next.p
                    } else {
                        s.p
                    },
                },
                if !found || m.lt(m.num(LAMBDA_MAX_BITS), up) {
                    Some(Status::NoFiniteStep)
                } else {
                    None
                },
            )
        }
    }
}

/// How a fit ended: where it stands, its record, its status and the number of
/// iterations.
pub struct Ending<T> {
    pub stand: Stand<T>,
    pub trace: Seq<Entry<T>>,
    pub status: Status,
    pub iterations: nat,
}

impl<T> Task<T> {
    /// The iterations from `it` on.
    pub open spec fn run(self, m: Meaning<T>, s: Stand<T>, trace: Seq<Entry<T>>, it: nat) -> Ending<
        T,
    >
        decreases MAX_ITER + 1 - it,
    {
        if it > MAX_ITER {
            Ending { stand: s, trace, status: Status::MaxIterations, iterations: MAX_ITER as nat }
        } else {
            let (next, entry, end) = self.iterated(m, s, it);
            match end {
                Some(status) => Ending {
                    stand: next,
                    trace: trace.push(entry),
                    status,
                    iterations: it,
                },
                None => self.run(m, next, trace.push(entry), it + 1),
            }
        }
    }

    /// Where a fit begins: at the initial parameters.
    pub open spec fn start(self, m: Meaning<T>) -> Stand<T> {
        self.stand(m, self.plan.freed(m, self.plan.p0), m.num(LAMBDA0_BITS))
    }

    /// The first line of the record of a fit that begins at `s`.
    pub open spec fn opening(self, s: Stand<T>) -> Entry<T> {
        Entry { iter: 0, chi2: s.chi, lambda: s.lambda, accepted: true, params: s.p }
    }

    /// The whole fit.  With no more points than free parameters there is no
    /// iteration.
    pub open spec fn ending(self, m: Meaning<T>) -> Ending<T> {
        let s = self.start(m);
        let trace = seq![self.opening(s)];
        if kept(self.mask).len() <= self.plan.free() {
            Ending { stand: s, trace, status: Status::Underdetermined, iterations: 1 }
        } else {
            self.run(m, s, trace, 1)
        }
    }
}

/// One line of the record of a fit.
pub struct IterTrace {
    pub iter: usize,
    pub chi2: Binary64,
    pub lambda: Binary64,
    pub accepted: bool,
    pub params: Vec<Binary64>,
}

impl IterTrace {
    pub open spec fn view(&self) -> Entry<Binary64> {
        Entry {
            iter: self.iter as nat,
            chi2: self.chi2,
            lambda: self.lambda,
            accepted: self.accepted,
            params: self.params@,
        }
    }
}

/// The lines of a record.
pub open spec fn entries(v: Seq<IterTrace>) -> Seq<Entry<Binary64>> {
    v.map_values(|t: IterTrace| t@)
}

/// Where a fit stands.
pub struct Point {
    pub q: Vec<Binary64>,
    pub p: Vec<Binary64>,
    pub r: Vec<Binary64>,
    pub chi: Binary64,
    pub lambda: Binary64,
}

impl Point {
    pub open spec fn view(&self) -> Stand<Binary64> {
        Stand { q: self.q@, p: self.p@, r: self.r@, chi: self.chi, lambda: self.lambda }
    }

    /// As many elements as the task has parameters and points.
    pub open spec fn suits(&self, t: Task<Binary64>) -> bool {
        &&& self.q@.len() == t.plan.free()
        &&& self.p@.len() == t.plan.p0.len()
        &&& self.r@.len() == kept(t.mask).len()
    }
}

/// Where a fit stands with a given free vector.
pub fn stand_at<'a, A: Arithmetic>(pb: &Problem<'a>, q: Vec<Binary64>, lambda: Binary64) -> (s: Point)
    requires
        pb@.sound(),
        q@.len() == pb@.plan.free(),
    ensures
        s.suits(pb@),
        forall|m: Meaning<Binary64>| #[trigger]
            follows::<A>(m) ==> s@ == pb@.stand(m, q@, lambda),
{
    let p: Vec<Binary64> = from_free::<A>(pb.layout, &q);
    let r: Vec<Binary64> = residuals::<A>(pb, &p);
    let chi: Binary64 = chi2_of::<A>(&r);
    Point { q, p, r, chi, lambda }
}

/// The sums of corresponding elements.
fn step_of<A: Arithmetic>(q: &Vec<Binary64>, s: &Vec<Binary64>) -> (r: Vec<Binary64>)
    requires
        q@.len() == s@.len(),
    ensures
        r@.len() == q@.len(),
        forall|m: Meaning<Binary64>| #[trigger] follows::<A>(m) ==> r@ == stepped(m, q@, s@),
{
    let mut r: Vec<Binary64> = Vec::new();
    for i in 0..q.len()
        invariant
            q@.len() == s@.len(),
            r@.len() == i,
            forall|m: Meaning<Binary64>, k: int|
                #![trigger follows::<A>(m), r@[k]]
                follows::<A>(m) && 0 <= k < i ==> r@[k] == m.add(q@[k], s@[k]),
    {
        r.push(A::plus(q[i], s[i]));
    }
    proof {
        assert forall|m: Meaning<Binary64>| #[trigger] follows::<A>(m) implies r@ == stepped(
            m,
            q@,
            s@,
        ) by {
            assert(r@ =~= stepped(m, q@, s@));
        }
    }
    r
}

/// The largest magnitude of the differences.
fn size_of<A: Arithmetic>(q: &Vec<Binary64>, s: &Vec<Binary64>) -> (v: Binary64)
    requires
        q@.len() == s@.len(),
    ensures
        forall|m: Meaning<Binary64>| #[trigger]
            follows::<A>(m) ==> v == step_size(m, q@, s@, q@.len() as int),
{
    let mut v: Binary64 = Binary64 { bits: 0 };
    for k in 0..q.len()
        invariant
            q@.len() == s@.len(),
            forall|m: Meaning<Binary64>| #[trigger]
                follows::<A>(m) ==> v == step_size(m, q@, s@, k as int),
    {
        v = v.max(A::minus(q[k], s[k]).abs());
    }
    v
}

/// The relative change of chi-square.
fn change_of<A: Arithmetic>(old_chi: Binary64, new_chi: Binary64) -> (v: Binary64)
    ensures
        forall|m: Meaning<Binary64>| #[trigger]
            follows::<A>(m) ==> v == change(m, old_chi, new_chi),
{
    let zero: Binary64 = Binary64 { bits: 0 };
    if zero.lt(&old_chi) {
        A::over(
            A::minus(old_chi, new_chi).abs(),
            old_chi.max(Binary64 { bits: CHI_FLOOR_BITS }),
        )
    } else {
        zero
    }
}

/// The damping and the step that an iteration arrives at.
fn propose<'a, A: Arithmetic>(pb: &Problem<'a>, s: &Point) -> (r: (Binary64, Option<Vec<Binary64>>))
    requires
        pb@.sound(),
        s.suits(pb@),
        pb@.plan.free() * pb@.plan.free() <= usize::MAX,
    ensures
        r.1 matches Some(v) ==> v@.len() == pb@.plan.free(),
        forall|m: Meaning<Binary64>| #[trigger]
            follows::<A>(m) ==> {
                let x = pb@.proposed(m, s@);
                &&& r.0 == x.0
                &&& match r.1 {
                    Some(v) => x.1 == Some(v@),
                    None => x.1 is None,
                }
            },
{
    let cols: Vec<Vec<Binary64>> = jacobian::<A>(pb, &s.q);
    let a: Vec<Binary64> = gram_of::<A>(&cols, s.r.len());
    let rhs: Vec<Binary64> = descent_of::<A>(&cols, &s.r);
    find_step::<A>(&a, &rhs, s.q.len(), s.lambda)
}

/// One iteration.
pub fn iterate<'a, A: Arithmetic>(pb: &Problem<'a>, s: Point, it: usize) -> (r: (
    Point,
    IterTrace,
    Option<Status>,
))
    requires
        pb@.sound(),
        s.suits(pb@),
        pb@.plan.free() * pb@.plan.free() <= usize::MAX,
    ensures
        r.0.suits(pb@),
        forall|m: Meaning<Binary64>| #[trigger]
            follows::<A>(m) ==> (r.0@, r.1@, r.2) == pb@.iterated(m, s@, it as nat),
{
    let (lambda, step) = propose::<A>(pb, &s);
    let tol: Binary64 = Binary64 { bits: TOLERANCE_BITS };
    let up: Binary64 = A::times(lambda, Binary64 { bits: LAMBDA_UP_BITS });
    let chi_old: Binary64 = s.chi;
    match step {
        Some(v) => {
            let qn: Vec<Binary64> = step_of::<A>(&s.q, &v);
            let next: Point = stand_at::<A>(pb, qn, lambda);
            if next.chi.is_finite() {
                if next.chi.lt(&chi_old) {
                    let down: Binary64 = A::times(lambda, Binary64 { bits: LAMBDA_DOWN_BITS });
                    let rel: Binary64 = change_of::<A>(chi_old, next.chi);
                    let size: Binary64 = size_of::<A>(&s.q, &next.q);
                    let end: Option<Status> = if rel.lt(&tol) || size.lt(&tol) {
                        Some(Status::Converged)
                    } else {
                        None
                    };
                    let entry: IterTrace = IterTrace {
                        iter: it,
                        chi2: next.chi,
                        lambda: down,
                        accepted: true,
                        params: copy_of(&next.p),
                    };
                    let Point { q, p, r, chi, .. } = next;
                    return (Point { q, p, r, chi, lambda: down }, entry, end);
                }
                let cap: Binary64 = Binary64 { bits: LAMBDA_MAX_BITS };
                let end: Option<Status> = if cap.lt(&up) {
                    Some(Status::NoFiniteStep)
                } else {
                    None
                };
                let entry: IterTrace = IterTrace {
                    iter: it,
                    chi2: next.chi,
                    lambda: up,
                    accepted: false,
                    params: next.p,
                };
                let Point { q, p, r, chi, .. } = s;
                return (Point { q, p, r, chi, lambda: up }, entry, end);
            }
        },
        None => {},
    }
    let entry: IterTrace = IterTrace {
        iter: it,
        chi2: chi_old,
        lambda: up,
        accepted: false,
        params: copy_of(&s.p),
    };
    let Point { q, p, r, chi, .. } = s;
    (Point { q, p, r, chi, lambda: up }, entry, Some(Status::NoFiniteStep))
}

} // verus!
