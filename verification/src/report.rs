//! What a fit reports: quality measures, covariance, and per peak the area
//! with its uncertainty.

use crate::arithmetic::{follows, Arithmetic, Meaning};
use crate::binary64::{Binary64, ONE_BITS};
use crate::data::places;
use crate::fit::{
    copy_of, entries, gram, gram_of, iterate, jacobian, kept, nudged_up, reach, reach_of, slope,
    stand_at, Ending, IterTrace, Point, Problem, Status, Task, LAMBDA0_BITS, MAX_ITER,
};
use crate::layout::{build_layout, free_map, from_free, owns, planned, to_free, Layout};
use crate::linalg::{at, lemma_at, lemma_place, solution, solve};
use crate::model::{
    area, eval_peaks, lemma_offset, offset, peak_area, voigt, voigt_value, PeakKind, PeakSpec,
    LN_2_BITS, NAN_BITS, WIDTH_FLOOR_BITS,
};
use crate::quadrature::TWO_BITS;
use vstd::prelude::*;

verus! {

/// The number 1.9599643482753495: the factor of a 95% interval.
pub const T95_BITS: u64 = 0x3fff_5c03_9392_b281;

/// The number 0.5346.
pub const WIDTH_A_BITS: u64 = 0x3fe1_1b71_758e_2196;

/// The number 0.2166.
pub const WIDTH_B_BITS: u64 = 0x3fcb_b98c_7e28_240b;

// ------------------------------------------------------------ quality measures

/// The degrees of freedom with `n` points and `k` free parameters.
pub open spec fn freedom(n: nat, k: nat) -> nat {
    if n > k {
        (n - k) as nat
    } else {
        0
    }
}

/// The root of the mean square.
pub open spec fn rmse<T>(m: Meaning<T>, chi: T, n: nat) -> T {
    m.sqrt(
        m.div(
            chi,
            m.count(
                if n > 1 {
                    n
                } else {
                    1
                },
            ),
        ),
    )
}

/// `n ln(chi/n)`
pub open spec fn log_spread<T>(m: Meaning<T>, chi: T, n: nat) -> T {
    m.mul(m.count(n), m.log(m.div(chi, m.count(n))))
}

/// `n ln(chi/n) + 2k`; not a number without points or misfit.
pub open spec fn aic<T>(m: Meaning<T>, chi: T, n: nat, k: nat) -> T {
    if n > 0 && m.lt(m.zero(), chi) {
        m.add(log_spread(m, chi, n), m.mul(m.num(TWO_BITS), m.count(k)))
    } else {
        m.num(NAN_BITS)
    }
}

/// `n ln(chi/n) + k ln n`; not a number without points or misfit.
pub open spec fn bic<T>(m: Meaning<T>, chi: T, n: nat, k: nat) -> T {
    if n > 0 && m.lt(m.zero(), chi) {
        m.add(log_spread(m, chi, n), m.mul(m.count(k), m.log(m.count(n))))
    } else {
        m.num(NAN_BITS)
    }
}

/// The variance of one observation; not a number without a degree of freedom.
pub open spec fn variance<T>(m: Meaning<T>, chi: T, dof: nat) -> T {
    if dof > 0 {
        m.div(chi, m.count(dof))
    } else {
        m.num(NAN_BITS)
    }
}

/// `rmse`, `aic` and `bic`.
fn measures<A: Arithmetic>(chi: Binary64, n: usize, k: usize) -> (r: (Binary64, Binary64, Binary64))
    ensures
        forall|m: Meaning<Binary64>| #[trigger]
            follows::<A>(m) ==> {
                &&& r.0 == rmse(m, chi, n as nat)
                &&& r.1 == aic(m, chi, n as nat, k as nat)
                &&& r.2 == bic(m, chi, n as nat, k as nat)
            },
{
    let least: usize = if n > 1 {
        n
    } else {
        1
    };
    let rmse: Binary64 = A::root(A::over(chi, A::of_count(least)));
    let zero: Binary64 = Binary64 { bits: 0 };
    let nan: Binary64 = Binary64 { bits: NAN_BITS };
    if n > 0 && zero.lt(&chi) {
        let s: Binary64 = A::times(A::of_count(n), A::ln(A::over(chi, A::of_count(n))));
        let aic: Binary64 = A::plus(s, A::times(Binary64 { bits: TWO_BITS }, A::of_count(k)));
        let bic: Binary64 = A::plus(s, A::times(A::of_count(k), A::ln(A::of_count(n))));
        (rmse, aic, bic)
    } else {
        (rmse, nan, nan)
    }
}

// ------------------------------------------------------------------ covariance

/// The unit vector in direction `col`.
pub open spec fn basis<T>(m: Meaning<T>, n: nat, col: int) -> Seq<T> {
    Seq::new(
        n,
        |i: int|
            if i == col {
                m.one()
            } else {
                m.zero()
            },
    )
}

/// The covariance of the free parameters, `s2 (J^T J)^-1`.  A column without a
/// solution, and the whole without a finite variance, is not a number.
pub open spec fn covariance<T>(m: Meaning<T>, jtj: Seq<T>, n: nat, s2: T) -> Seq<T> {
    Seq::new(
        n * n,
        |q: int|
            {
                let i = q / (n as int);
                let j = q % (n as int);
                match solution(m, jtj, basis(m, n, j), n) {
                    Some(x) if m.fin(s2) => m.mul(x[i], s2),
                    _ => m.num(NAN_BITS),
                }
            },
    )
}

/// The standard deviation of free parameter `a`.
pub open spec fn deviation<T>(m: Meaning<T>, cov: Seq<T>, n: nat, a: int) -> T {
    m.sqrt(m.max(cov[at(n, a, a)], m.zero()))
}

/// The correlation of the free parameters; not a number where one of the
/// deviations is not positive.
pub open spec fn correlation<T>(m: Meaning<T>, cov: Seq<T>, n: nat) -> Seq<T> {
    Seq::new(
        n * n,
        |q: int|
            {
                let da = deviation(m, cov, n, q / (n as int));
                let db = deviation(m, cov, n, q % (n as int));
                if m.lt(m.zero(), da) && m.lt(m.zero(), db) {
                    m.div(cov[q], m.mul(da, db))
                } else {
                    m.num(NAN_BITS)
                }
            },
    )
}

/// The unit vector in direction `col`.
fn basis_of(n: usize, col: usize) -> (b: Vec<Binary64>)
    ensures
        b@.len() == n,
        forall|i: int|
            0 <= i < n ==> #[trigger] b@[i] == (Binary64 {
                bits: if i == col {
                    ONE_BITS
                } else {
                    0
                },
            }),
{
    let mut b: Vec<Binary64> = Vec::new();
    for i in 0..n
        invariant
            b@.len() == i,
            forall|k: int|
                0 <= k < i ==> #[trigger] b@[k] == (Binary64 {
                    bits: if k == col {
                        ONE_BITS
                    } else {
                        0
                    },
                }),
    {
        if i == col {
            b.push(Binary64 { bits: ONE_BITS });
        } else {
            b.push(Binary64 { bits: 0 });
        }
    }
    b
}

/// The columns before `col` of the covariance.
spec fn columns_done(
    m: Meaning<Binary64>,
    jtj: Seq<Binary64>,
    cov: Seq<Binary64>,
    n: nat,
    s2: Binary64,
    col: int,
) -> bool {
    forall|i: int, j: int|
        0 <= i < n && 0 <= j < n ==> #[trigger] cov[at(n, i, j)] == if j < col {
            covariance(m, jtj, n, s2)[at(n, i, j)]
        } else {
            Binary64 { bits: NAN_BITS }
        }
}

/// The rows before `row` of column `col`, and the columns before it.
spec fn column_filled(
    m: Meaning<Binary64>,
    jtj: Seq<Binary64>,
    cov: Seq<Binary64>,
    n: nat,
    s2: Binary64,
    col: int,
    row: int,
) -> bool {
    forall|i: int, j: int|
        0 <= i < n && 0 <= j < n ==> #[trigger] cov[at(n, i, j)] == if j < col || (j == col && i
            < row) {
            covariance(m, jtj, n, s2)[at(n, i, j)]
        } else {
            Binary64 { bits: NAN_BITS }
        }
}

/// The covariance of the free parameters.
fn covariance_of<A: Arithmetic>(jtj: &Vec<Binary64>, n: usize, s2: Binary64) -> (cov: Vec<Binary64>)
    requires
        jtj@.len() == n * n,
    ensures
        cov@.len() == n * n,
        forall|m: Meaning<Binary64>| #[trigger]
            follows::<A>(m) ==> cov@ == covariance(m, jtj@, n as nat, s2),
{
    let ghost nn = n as nat;
    let nan: Binary64 = Binary64 { bits: NAN_BITS };
    let mut cov: Vec<Binary64> = Vec::new();
    for q in 0..jtj.len()
        invariant
            nan == (Binary64 { bits: NAN_BITS }),
            cov@.len() == q,
            forall|k: int| 0 <= k < q ==> #[trigger] cov@[k] == nan,
    {
        cov.push(nan);
    }
    if !s2.is_finite() {
        proof {
            assert forall|m: Meaning<Binary64>| #[trigger] follows::<A>(m) implies cov@
                == covariance(m, jtj@, nn, s2) by {
                assert(cov@ =~= covariance(m, jtj@, nn, s2));
            }
        }
        return cov;
    }
    proof {
        assert forall|i: int, j: int| 0 <= i < n && 0 <= j < n implies #[trigger] cov@[at(nn, i, j)]
            == nan by {
            lemma_at(nn, i, j);
        }
    }
    for col in 0..n
        invariant
            nn == n,
            s2.finite(),
            jtj@.len() == n * n,
            cov@.len() == n * n,
            forall|m: Meaning<Binary64>| #[trigger]
                follows::<A>(m) ==> columns_done(m, jtj@, cov@, nn, s2, col as int),
    {
        let mut a: Vec<Binary64> = copy_of(jtj);
        let mut x: Vec<Binary64> = basis_of(n, col);
        proof {
            assert forall|m: Meaning<Binary64>| #[trigger] follows::<A>(m) implies x@ == basis(
                m,
                nn,
                col as int,
            ) by {
                assert(x@ =~= basis(m, nn, col as int));
            }
        }
        let found: Option<()> = solve::<A>(&mut a, &mut x, n);
        match found {
            Some(_) => {
                for row in 0..n
                    invariant
                        nn == n,
                        col < n,
                        s2.finite(),
                        x@.len() == n,
                        jtj@.len() == n * n,
                        cov@.len() == n * n,
                        forall|m: Meaning<Binary64>| #[trigger]
                            follows::<A>(m) ==> {
                                &&& column_filled(
                                    m,
                                    jtj@,
                                    cov@,
                                    nn,
                                    s2,
                                    col as int,
                                    row as int,
                                )
                                &&& solution(m, jtj@, basis(m, nn, col as int), nn) == Some(x@)
                            },
                {
                    let len: usize = cov.len();
                    proof {
                        lemma_at(nn, row as int, col as int);
                        assert(row * n <= len);
                    }
                    let q: usize = row * n + col;
                    let v: Binary64 = A::times(x[row], s2);
                    let ghost before = cov@;
                    cov.set(q, v);
                    proof {
                        assert forall|m: Meaning<Binary64>| #[trigger]
                            follows::<A>(m) implies column_filled(
                            m,
                            jtj@,
                            cov@,
                            nn,
                            s2,
                            col as int,
                            row + 1,
                        ) by {
                            assert forall|i: int, j: int|
                                0 <= i < n && 0 <= j < n implies #[trigger] cov@[at(nn, i, j)]
                                == if j < col || (j == col && i < row + 1) {
                                covariance(m, jtj@, nn, s2)[at(nn, i, j)]
                            } else {
                                Binary64 { bits: NAN_BITS }
                            } by {
                                lemma_at(nn, i, j);
                                assert(before[at(nn, i, j)] == before[at(nn, i, j)]);
                            }
                        }
                    }
                }
            },
            None => {},
        }
        proof {
            assert forall|m: Meaning<Binary64>| #[trigger] follows::<A>(m) implies columns_done(
                m,
                jtj@,
                cov@,
                nn,
                s2,
                col + 1,
            ) by {
                assert forall|i: int, j: int| 0 <= i < n && 0 <= j < n implies #[trigger] cov@[at(
                    nn,
                    i,
                    j,
                )] == if j < col + 1 {
                    covariance(m, jtj@, nn, s2)[at(nn, i, j)]
                } else {
                    Binary64 { bits: NAN_BITS }
                } by {
                    lemma_at(nn, i, j);
                }
            }
        }
    }
    proof {
        assert forall|m: Meaning<Binary64>| #[trigger] follows::<A>(m) implies cov@ == covariance(
            m,
            jtj@,
            nn,
            s2,
        ) by {
            assert forall|q: int| 0 <= q < n * n implies cov@[q] == covariance(m, jtj@, nn, s2)[q] by {
                lemma_place(nn, q);
                assert(cov@[at(nn, q / (n as int), q % (n as int))] == cov@[q]);
            }
            assert(cov@ =~= covariance(m, jtj@, nn, s2));
        }
    }
    cov
}

/// The correlation of the free parameters.
fn correlation_of<A: Arithmetic>(cov: &Vec<Binary64>, n: usize) -> (corr: Vec<Binary64>)
    requires
        cov@.len() == n * n,
    ensures
        corr@.len() == n * n,
        forall|m: Meaning<Binary64>| #[trigger]
            follows::<A>(m) ==> corr@ == correlation(m, cov@, n as nat),
{
    let ghost nn = n as nat;
    let zero: Binary64 = Binary64 { bits: 0 };
    let mut dev: Vec<Binary64> = Vec::new();
    for a in 0..n
        invariant
            nn == n,
            zero == (Binary64 { bits: 0 }),
            cov@.len() == n * n,
            dev@.len() == a,
            forall|m: Meaning<Binary64>, k: int|
                #![trigger follows::<A>(m), dev@[k]]
                follows::<A>(m) && 0 <= k < a ==> dev@[k] == deviation(m, cov@, nn, k),
    {
        let len: usize = cov.len();
        proof {
            lemma_at(nn, a as int, a as int);
            assert(a * n <= len);
        }
        dev.push(A::root(cov[a * n + a].max(zero)));
    }
    let mut corr: Vec<Binary64> = Vec::new();
    for q in 0..cov.len()
        invariant
            nn == n,
            zero == (Binary64 { bits: 0 }),
            cov@.len() == n * n,
            dev@.len() == n,
            corr@.len() == q,
            forall|m: Meaning<Binary64>, k: int|
                #![trigger follows::<A>(m), dev@[k]]
                follows::<A>(m) && 0 <= k < n ==> dev@[k] == deviation(m, cov@, nn, k),
            forall|m: Meaning<Binary64>, k: int|
                #![trigger follows::<A>(m), corr@[k]]
                follows::<A>(m) && 0 <= k < q ==> corr@[k] == correlation(m, cov@, nn)[k],
    {
        proof {
            lemma_place(nn, q as int);
        }
        let da: Binary64 = dev[q / n];
        let db: Binary64 = dev[q % n];
        if zero.lt(&da) && zero.lt(&db) {
            corr.push(A::over(cov[q], A::times(da, db)));
        } else {
            corr.push(Binary64 { bits: NAN_BITS });
        }
    }
    proof {
        assert forall|m: Meaning<Binary64>| #[trigger] follows::<A>(m) implies corr@ == correlation(
            m,
            cov@,
            nn,
        ) by {
            assert(corr@ =~= correlation(m, cov@, nn));
        }
    }
    corr
}

// ----------------------------------------------------------------------- peaks

/// The free vector with element `f` a step further down, by adding the
/// opposite step.
pub open spec fn nudged_back<T>(m: Meaning<T>, q: Seq<T>, f: int) -> Seq<T> {
    q.update(f, m.add(q[f], m.neg(reach(m, q[f]))))
}

/// The derivative of the area of a peak by free parameter `f`.
pub open spec fn area_slope<T>(m: Meaning<T>, t: Task<T>, q: Seq<T>, k: int, f: int) -> T {
    let off = offset(t.plan.kinds, k) as int;
    let hi = area(m, t.plan.kinds[k], t.plan.full(m, nudged_up(m, q, f)), off);
    let lo = area(m, t.plan.kinds[k], t.plan.full(m, nudged_back(m, q, f)), off);
    slope(m, hi, lo, q[f])
}

/// The gradient of the area of a peak.
pub open spec fn area_gradient<T>(m: Meaning<T>, t: Task<T>, q: Seq<T>, k: int) -> Seq<T> {
    Seq::new(t.plan.free(), |f: int| area_slope(m, t, q, k, f))
}

/// The first `c` terms of `g^T cov g`; entries that are not finite are left
/// out.
pub open spec fn quadratic<T>(m: Meaning<T>, g: Seq<T>, cov: Seq<T>, n: nat, c: int) -> T
    decreases c,
{
    if c <= 0 {
        m.zero()
    } else {
        let before = quadratic(m, g, cov, n, c - 1);
        let v = cov[c - 1];
        if m.fin(v) {
            m.add(before, m.mul(m.mul(g[(c - 1) / (n as int)], g[(c - 1) % (n as int)]), v))
        } else {
            before
        }
    }
}

/// The standard error of the area of a peak, by the gradient and the
/// covariance.
pub open spec fn area_error<T>(m: Meaning<T>, t: Task<T>, q: Seq<T>, cov: Seq<T>, k: int) -> T {
    let n = t.plan.free();
    m.sqrt(m.max(quadratic(m, area_gradient(m, t, q, k), cov, n, (n * n) as int), m.zero()))
}

/// The full width at half maximum of a Voigt profile, by its two widths.
pub open spec fn voigt_width<T>(m: Meaning<T>, sigma: T, gamma: T) -> T {
    let two = m.num(TWO_BITS);
    let g = m.mul(m.mul(two, m.sqrt(m.mul(two, m.num(LN_2_BITS)))), sigma);
    let l = m.mul(two, gamma);
    m.add(
        m.mul(m.num(WIDTH_A_BITS), l),
        m.sqrt(m.add(m.mul(m.mul(m.num(WIDTH_B_BITS), l), l), m.mul(g, g))),
    )
}

/// One fitted peak.
pub struct PeakResult {
    pub kind: PeakKind,
    pub center: Binary64,
    pub width: Binary64,
    pub height: Binary64,
    /// The Gaussian width of a Voigt profile.
    pub sigma: Option<Binary64>,
    /// The Lorentzian width of a Voigt profile.
    pub gamma: Option<Binary64>,
    pub area: Binary64,
    pub area_ci95: (Binary64, Binary64),
    pub area_se: Binary64,
}

impl PeakResult {
    /// This is peak `k` of the parameters `p`, which belong to the free vector
    /// `q` with the covariance `cov`.
    pub open spec fn tells(
        self,
        m: Meaning<Binary64>,
        t: Task<Binary64>,
        p: Seq<Binary64>,
        q: Seq<Binary64>,
        cov: Seq<Binary64>,
        k: int,
    ) -> bool {
        let off = offset(t.plan.kinds, k) as int;
        let kind = t.plan.kinds[k];
        let a = area(m, kind, p, off);
        let se = area_error(m, t, q, cov, k);
        let reach95 = m.mul(m.num(T95_BITS), se);
        &&& self.kind == kind
        &&& self.center == p[off]
        &&& self.area == a
        &&& self.area_se == se
        &&& self.area_ci95 == (m.sub(a, reach95), m.add(a, reach95))
        &&& match kind {
            PeakKind::Gauss | PeakKind::Lorentz => {
                &&& self.width == p[off + 1]
                &&& self.height == p[off + 2]
                &&& self.sigma is None
                &&& self.gamma is None
            },
            PeakKind::Voigt => {
                let sigma = p[off + 1];
                let gamma = p[off + 2];
                &&& self.width == voigt_width(m, sigma, gamma)
                &&& self.height == m.mul(
                    a,
                    voigt_value(
                        m,
                        t.nodes,
                        p[off],
                        p[off],
                        m.max(sigma, m.num(WIDTH_FLOOR_BITS)),
                        gamma,
                    ),
                )
                &&& self.sigma == Some(sigma)
                &&& self.gamma == Some(gamma)
            },
        }
    }
}

/// The gradient of the area of peak `k`, whose parameters begin at `off`.
fn gradient_of<'a, A: Arithmetic>(pb: &Problem<'a>, q: &Vec<Binary64>, k: usize, off: usize) -> (g:
    Vec<Binary64>)
    requires
        pb@.sound(),
        q@.len() == pb@.plan.free(),
        k < pb@.plan.kinds.len(),
        off == offset(pb@.plan.kinds, k as int),
    ensures
        g@.len() == q@.len(),
        forall|m: Meaning<Binary64>| #[trigger]
            follows::<A>(m) ==> g@ == area_gradient(m, pb@, q@, k as int),
{
    let kind: PeakKind = pb.layout.kinds[k];
    proof {
        lemma_offset(pb@.plan.kinds, k + 1, pb@.plan.kinds.len() as int);
    }
    let mut g: Vec<Binary64> = Vec::new();
    for f in 0..q.len()
        invariant
            pb@.sound(),
            q@.len() == pb@.plan.free(),
            k < pb@.plan.kinds.len(),
            kind == pb@.plan.kinds[k as int],
            off == offset(pb@.plan.kinds, k as int),
            off + kind.params() <= pb@.plan.p0.len(),
            g@.len() == f,
            forall|m: Meaning<Binary64>, j: int|
                #![trigger follows::<A>(m), g@[j]]
                follows::<A>(m) && 0 <= j < f ==> g@[j] == area_slope(m, pb@, q@, k as int, j),
    {
        let h: Binary64 = reach_of::<A>(q[f]);
        let mut qp: Vec<Binary64> = copy_of(q);
        let mut qm: Vec<Binary64> = copy_of(q);
        let up: Binary64 = A::plus(q[f], h);
        let down: Binary64 = A::plus(q[f], h.neg());
        qp.set(f, up);
        qm.set(f, down);
        let pp: Vec<Binary64> = from_free::<A>(pb.layout, &qp);
        let pm: Vec<Binary64> = from_free::<A>(pb.layout, &qm);
        let hi: Binary64 = peak_area::<A>(kind, &pp, off);
        let lo: Binary64 = peak_area::<A>(kind, &pm, off);
        g.push(A::over(A::minus(hi, lo), A::times(Binary64 { bits: TWO_BITS }, h)));
    }
    proof {
        assert forall|m: Meaning<Binary64>| #[trigger] follows::<A>(m) implies g@ == area_gradient(
            m,
            pb@,
            q@,
            k as int,
        ) by {
            assert(g@ =~= area_gradient(m, pb@, q@, k as int));
        }
    }
    g
}

/// `g^T cov g` over the finite entries.
fn quadratic_of<A: Arithmetic>(g: &Vec<Binary64>, cov: &Vec<Binary64>) -> (v: Binary64)
    requires
        cov@.len() == g@.len() * g@.len(),
    ensures
        forall|m: Meaning<Binary64>| #[trigger]
            follows::<A>(m) ==> v == quadratic(m, g@, cov@, g@.len(), cov@.len() as int),
{
    let n: usize = g.len();
    let mut v: Binary64 = Binary64 { bits: 0 };
    for c in 0..cov.len()
        invariant
            n == g@.len(),
            cov@.len() == n * n,
            forall|m: Meaning<Binary64>| #[trigger]
                follows::<A>(m) ==> v == quadratic(m, g@, cov@, n as nat, c as int),
    {
        proof {
            lemma_place(n as nat, c as int);
        }
        if cov[c].is_finite() {
            v = A::plus(v, A::times(A::times(g[c / n], g[c % n]), cov[c]));
        }
    }
    v
}

/// The full width at half maximum of a Voigt profile.
fn voigt_width_of<A: Arithmetic>(sigma: Binary64, gamma: Binary64) -> (w: Binary64)
    ensures
        forall|m: Meaning<Binary64>| #[trigger]
            follows::<A>(m) ==> w == voigt_width(m, sigma, gamma),
{
    let two: Binary64 = Binary64 { bits: TWO_BITS };
    let root: Binary64 = A::root(A::times(two, Binary64 { bits: LN_2_BITS }));
    let g: Binary64 = A::times(A::times(two, root), sigma);
    let l: Binary64 = A::times(two, gamma);
    let square: Binary64 = A::plus(
        A::times(A::times(Binary64 { bits: WIDTH_B_BITS }, l), l),
        A::times(g, g),
    );
    A::plus(A::times(Binary64 { bits: WIDTH_A_BITS }, l), A::root(square))
}

/// Peak `k`, whose parameters begin at `off`.
fn peak_of<'a, A: Arithmetic>(
    pb: &Problem<'a>,
    p: &Vec<Binary64>,
    q: &Vec<Binary64>,
    cov: &Vec<Binary64>,
    k: usize,
    off: usize,
) -> (r: PeakResult)
    requires
        pb@.sound(),
        p@.len() == pb@.plan.p0.len(),
        q@.len() == pb@.plan.free(),
        cov@.len() == q@.len() * q@.len(),
        k < pb@.plan.kinds.len(),
        off == offset(pb@.plan.kinds, k as int),
    ensures
        forall|m: Meaning<Binary64>| #[trigger]
            follows::<A>(m) ==> r.tells(m, pb@, p@, q@, cov@, k as int),
{
    let kind: PeakKind = pb.layout.kinds[k];
    let len: usize = p.len();
    proof {
        lemma_offset(pb@.plan.kinds, k + 1, pb@.plan.kinds.len() as int);
        assert(off + kind.params() <= len);
    }
    let area: Binary64 = peak_area::<A>(kind, p, off);
    let g: Vec<Binary64> = gradient_of::<A>(pb, q, k, off);
    let var: Binary64 = quadratic_of::<A>(&g, cov);
    let se: Binary64 = A::root(var.max(Binary64 { bits: 0 }));
    let reach95: Binary64 = A::times(Binary64 { bits: T95_BITS }, se);
    let area_ci95: (Binary64, Binary64) = (A::minus(area, reach95), A::plus(area, reach95));
    match kind {
        PeakKind::Gauss | PeakKind::Lorentz => PeakResult {
            kind,
            center: p[off],
            width: p[off + 1],
            height: p[off + 2],
            sigma: None,
            gamma: None,
            area,
            area_ci95,
            area_se: se,
        },
        PeakKind::Voigt => {
            let sigma: Binary64 = p[off + 1];
            let gamma: Binary64 = p[off + 2];
            let top: Binary64 = voigt::<A>(
                pb.nodes,
                p[off],
                p[off],
                sigma.max(Binary64 { bits: WIDTH_FLOOR_BITS }),
                gamma,
            );
            PeakResult {
                kind,
                center: p[off],
                width: voigt_width_of::<A>(sigma, gamma),
                height: A::times(area, top),
                sigma: Some(sigma),
                gamma: Some(gamma),
                area,
                area_ci95,
                area_se: se,
            }
        },
    }
}

/// All peaks.
fn peaks_of<'a, A: Arithmetic>(
    pb: &Problem<'a>,
    p: &Vec<Binary64>,
    q: &Vec<Binary64>,
    cov: &Vec<Binary64>,
) -> (r: Vec<PeakResult>)
    requires
        pb@.sound(),
        p@.len() == pb@.plan.p0.len(),
        q@.len() == pb@.plan.free(),
        cov@.len() == q@.len() * q@.len(),
    ensures
        r@.len() == pb@.plan.kinds.len(),
        forall|m: Meaning<Binary64>, k: int|
            #![trigger follows::<A>(m), r@[k]]
            follows::<A>(m) && 0 <= k < r@.len() ==> r@[k].tells(m, pb@, p@, q@, cov@, k),
{
    let mut r: Vec<PeakResult> = Vec::new();
    let mut off: usize = 0;
    for k in 0..pb.layout.kinds.len()
        invariant
            pb@.sound(),
            p@.len() == pb@.plan.p0.len(),
            q@.len() == pb@.plan.free(),
            cov@.len() == q@.len() * q@.len(),
            off == offset(pb@.plan.kinds, k as int),
            r@.len() == k,
            forall|m: Meaning<Binary64>, j: int|
                #![trigger follows::<A>(m), r@[j]]
                follows::<A>(m) && 0 <= j < k ==> r@[j].tells(m, pb@, p@, q@, cov@, j),
    {
        let len: usize = p.len();
        proof {
            lemma_offset(pb@.plan.kinds, k + 1, pb@.plan.kinds.len() as int);
            assert(off + pb@.plan.kinds[k as int].params() <= len);
        }
        r.push(peak_of::<A>(pb, p, q, cov, k, off));
        off = off + pb.layout.kinds[k].n_params();
    }
    r
}

// ------------------------------------------------------------------ the report

/// The number of points before `i` that are not excluded.
pub open spec fn rank(mask: Seq<bool>, i: int) -> nat {
    places(i as nat, |j: int| !mask[j]).len()
}

proof fn lemma_rank(mask: Seq<bool>, i: int, n: int)
    requires
        0 <= i <= n,
    ensures
        rank(mask, i) <= rank(mask, n),
    decreases n - i,
{
    if i < n {
        lemma_rank(mask, i, n - 1);
    }
}

/// The residual over all points; not a number where a point is excluded.
pub open spec fn spread_residual<T>(m: Meaning<T>, mask: Seq<bool>, r: Seq<T>) -> Seq<T> {
    Seq::new(
        mask.len(),
        |i: int|
            if mask[i] {
                m.num(NAN_BITS)
            } else {
                r[rank(mask, i) as int]
            },
    )
}

/// The residual over all points.
fn spread<A: Arithmetic>(mask: &Vec<bool>, r: &Vec<Binary64>) -> (s: Vec<Binary64>)
    requires
        r@.len() == kept(mask@).len(),
    ensures
        s@.len() == mask@.len(),
        forall|m: Meaning<Binary64>| #[trigger]
            follows::<A>(m) ==> s@ == spread_residual(m, mask@, r@),
{
    let mut s: Vec<Binary64> = Vec::new();
    let mut row: usize = 0;
    for i in 0..mask.len()
        invariant
            r@.len() == kept(mask@).len(),
            row == rank(mask@, i as int),
            row <= r.len(),
            s@.len() == i,
            forall|m: Meaning<Binary64>, k: int|
                #![trigger follows::<A>(m), s@[k]]
                follows::<A>(m) && 0 <= k < i ==> s@[k] == spread_residual(m, mask@, r@)[k],
    {
        proof {
            lemma_rank(mask@, i + 1, mask@.len() as int);
        }
        if mask[i] {
            s.push(Binary64 { bits: NAN_BITS });
        } else {
            s.push(r[row]);
            row = row + 1;
        }
    }
    proof {
        assert forall|m: Meaning<Binary64>| #[trigger] follows::<A>(m) implies s@
            == spread_residual(m, mask@, r@) by {
            assert(s@ =~= spread_residual(m, mask@, r@));
        }
    }
    s
}

/// The model over all points.
fn fitted_of<'a, A: Arithmetic>(pb: &Problem<'a>, p: &Vec<Binary64>) -> (v: Vec<Binary64>)
    requires
        pb@.sound(),
        p@.len() == pb@.plan.p0.len(),
    ensures
        v@.len() == pb@.xs.len(),
        forall|m: Meaning<Binary64>, i: int|
            #![trigger follows::<A>(m), v@[i]]
            follows::<A>(m) && 0 <= i < v@.len() ==> v@[i] == pb@.model(m, p@, i),
{
    let mut v: Vec<Binary64> = Vec::new();
    for i in 0..pb.xs.len()
        invariant
            pb@.sound(),
            p@.len() == pb@.plan.p0.len(),
            v@.len() == i,
            forall|m: Meaning<Binary64>, k: int|
                #![trigger follows::<A>(m), v@[k]]
                follows::<A>(m) && 0 <= k < i ==> v@[k] == pb@.model(m, p@, k),
    {
        v.push(eval_peaks::<A>(pb.nodes, pb.xs[i], &pb.layout.kinds, p));
    }
    v
}

/// What a fit reports.
pub struct FitReport {
    pub converged: bool,
    pub status: String,
    pub iterations: usize,
    pub chi2: Binary64,
    pub dof: usize,
    pub rmse: Binary64,
    pub aic: Binary64,
    pub bic: Binary64,
    pub rss: Binary64,
    pub kinds: Vec<PeakKind>,
    pub params: Vec<Binary64>,
    /// Covariance of the free parameters, in the order of the free vector.
    pub covariance: Vec<Binary64>,
    pub correlation: Vec<Binary64>,
    /// The peak and the slot within it of every free parameter.
    pub free_map: Vec<(usize, usize)>,
    pub peaks: Vec<PeakResult>,
    pub fitted: Vec<Binary64>,
    pub residual: Vec<Binary64>,
    pub trace: Vec<IterTrace>,
}

impl FitReport {
    /// This reports a fit of the task `t` that ended as `e` says.
    pub open spec fn tells(
        self,
        m: Meaning<Binary64>,
        t: Task<Binary64>,
        e: Ending<Binary64>,
    ) -> bool {
        let s = e.stand;
        let n = s.r.len();
        let nf = t.plan.free();
        let dof = freedom(n, nf);
        let q = t.plan.freed(m, s.p);
        let cov = covariance(m, gram(m, t.columns(m, q), n), nf, variance(m, s.chi, dof));
        &&& self.converged == (e.status is Converged)
        &&& self.status@ == e.status.name()
        &&& self.iterations == e.iterations
        &&& self.chi2 == s.chi
        &&& self.rss == s.chi
        &&& self.dof == dof
        &&& self.rmse == rmse(m, s.chi, n)
        &&& self.aic == aic(m, s.chi, n, nf)
        &&& self.bic == bic(m, s.chi, n, nf)
        &&& self.kinds@ == t.plan.kinds
        &&& self.params@ == s.p
        &&& self.covariance@ == cov
        &&& self.correlation@ == correlation(m, cov, nf)
        &&& self.free_map@.len() == nf
        &&& forall|f: int|
            0 <= f < nf ==> owns(t.plan.kinds, t.plan.map[f], #[trigger] self.free_map@[f])
        &&& self.peaks@.len() == t.plan.kinds.len()
        &&& forall|k: int|
            0 <= k < t.plan.kinds.len() ==> (#[trigger] self.peaks@[k]).tells(
                m,
                t,
                s.p,
                q,
                cov,
                k,
            )
        &&& self.fitted@.len() == t.xs.len()
        &&& forall|i: int|
            0 <= i < t.xs.len() ==> #[trigger] self.fitted@[i] == t.model(m, s.p, i)
        &&& self.residual@ == spread_residual(m, t.mask, s.r)
        &&& entries(self.trace@) == e.trace
    }
}

/// A copy of the shapes.
fn kinds_of(kinds: &Vec<PeakKind>) -> (r: Vec<PeakKind>)
    ensures
        r@ == kinds@,
{
    let mut r: Vec<PeakKind> = Vec::new();
    for i in 0..kinds.len()
        invariant
            r@ == kinds@.take(i as int),
    {
        r.push(kinds[i]);
        assert(kinds@.take(i + 1) =~= kinds@.take(i as int).push(kinds@[i as int]));
    }
    assert(kinds@.take(kinds@.len() as int) =~= kinds@);
    r
}

/// The report of a fit that ended at `s`.
fn finalize<'a, A: Arithmetic>(
    pb: &Problem<'a>,
    s: Point,
    status: Status,
    iterations: usize,
    trace: Vec<IterTrace>,
) -> (rep: FitReport)
    requires
        pb@.sound(),
        s.suits(pb@),
        pb@.plan.free() * pb@.plan.free() <= usize::MAX,
    ensures
        forall|m: Meaning<Binary64>| #[trigger]
            follows::<A>(m) ==> rep.tells(
                m,
                pb@,
                (Ending { stand: s@, trace: entries(trace@), status, iterations: iterations as nat }),
            ),
{
    let nf: usize = s.q.len();
    let npts: usize = s.r.len();
    let dof: usize = if npts > nf {
        npts - nf
    } else {
        0
    };
    let (rmse, aic, bic) = measures::<A>(s.chi, npts, nf);
    let q: Vec<Binary64> = to_free::<A>(pb.layout, &s.p);
    let cols: Vec<Vec<Binary64>> = jacobian::<A>(pb, &q);
    let jtj: Vec<Binary64> = gram_of::<A>(&cols, npts);
    let s2: Binary64 = if dof > 0 {
        A::over(s.chi, A::of_count(dof))
    } else {
        Binary64 { bits: NAN_BITS }
    };
    let covariance: Vec<Binary64> = covariance_of::<A>(&jtj, nf, s2);
    let correlation: Vec<Binary64> = correlation_of::<A>(&covariance, nf);
    let peaks: Vec<PeakResult> = peaks_of::<A>(pb, &s.p, &q, &covariance);
    let fitted: Vec<Binary64> = fitted_of::<A>(pb, &s.p);
    let residual: Vec<Binary64> = spread::<A>(pb.mask, &s.r);
    let free: Vec<(usize, usize)> = free_map(pb.layout);
    let kinds: Vec<PeakKind> = kinds_of(&pb.layout.kinds);
    let converged: bool = match status {
        Status::Converged => true,
        _ => false,
    };
    FitReport {
        converged,
        status: status.as_str().to_owned(),
        iterations,
        chi2: s.chi,
        dof,
        rmse,
        aic,
        bic,
        rss: s.chi,
        kinds,
        params: s.p,
        covariance,
        correlation,
        free_map: free,
        peaks,
        fitted,
        residual,
        trace,
    }
}

/// The task that a fit of candidate peaks to points poses.
pub open spec fn task_of(
    m: Meaning<Binary64>,
    nodes: Seq<(Binary64, Binary64)>,
    xs: Seq<Binary64>,
    ys: Seq<Binary64>,
    mask: Seq<bool>,
    specs: Seq<PeakSpec>,
) -> Task<Binary64> {
    Task { nodes, xs, ys, mask, plan: planned(m, specs) }
}

/// Fits candidate peaks to points from which a baseline has been taken.  A
/// point with a true mark is excluded.
pub fn fit<A: Arithmetic>(
    nodes: &Vec<(Binary64, Binary64)>,
    xs: &Vec<Binary64>,
    ys: &Vec<Binary64>,
    mask: &Vec<bool>,
    specs: &Vec<PeakSpec>,
) -> (rep: FitReport)
    requires
        xs@.len() <= ys@.len(),
        mask@.len() == xs@.len(),
        (4 * specs@.len()) * (4 * specs@.len()) <= usize::MAX,
    ensures
        forall|m: Meaning<Binary64>| #[trigger]
            follows::<A>(m) ==> {
                let t = task_of(m, nodes@, xs@, ys@, mask@, specs@);
                rep.tells(m, t, t.ending(m))
            },
{
    let layout: Layout = build_layout::<A>(specs);
    let pb: Problem = Problem { nodes, xs, ys, mask, layout: &layout };
    proof {
        lemma_free_bound(layout@.kinds, layout@.map, layout@.p0.len() as int);
        let k = layout@.free() as int;
        let b = 4 * specs@.len() as int;
        assert(k * k <= b * b) by (nonlinear_arith)
            requires
                0 <= k <= b,
        ;
    }
    let q: Vec<Binary64> = to_free::<A>(&layout, &layout.p0);
    let nf: usize = q.len();
    let mut s: Point = stand_at::<A>(&pb, q, Binary64 { bits: LAMBDA0_BITS });
    let mut trace: Vec<IterTrace> = Vec::new();
    trace.push(
        IterTrace { iter: 0, chi2: s.chi, lambda: s.lambda, accepted: true, params: copy_of(&s.p) },
    );
    proof {
        assert forall|m: Meaning<Binary64>| #[trigger] follows::<A>(m) implies s@ == pb@.start(m)
            && entries(trace@) == seq![pb@.opening(s@)] by {
            assert(entries(trace@) =~= seq![pb@.opening(s@)]);
        }
    }
    if s.r.len() <= nf {
        return finalize::<A>(&pb, s, Status::Underdetermined, 1, trace);
    }
    let mut it: usize = 1;
    while it <= MAX_ITER
        invariant
            pb@.sound(),
            s.suits(pb@),
            pb@ == (Task { nodes: nodes@, xs: xs@, ys: ys@, mask: mask@, plan: layout@ }),
            pb@.plan.free() * pb@.plan.free() <= usize::MAX,
            1 <= it <= MAX_ITER + 1,
            forall|m: Meaning<Binary64>| #[trigger]
                follows::<A>(m) ==> {
                    &&& layout@ == planned(m, specs@)
                    &&& pb@.ending(m) == pb@.run(m, s@, entries(trace@), it as nat)
                },
        decreases MAX_ITER + 1 - it,
    {
        let ghost before = entries(trace@);
        let (next, entry, end) = iterate::<A>(&pb, s, it);
        let ghost line = entry@;
        trace.push(entry);
        assert(entries(trace@) =~= before.push(line));
        s = next;
        match end {
            Some(status) => {
                return finalize::<A>(&pb, s, status, it, trace);
            },
            None => {},
        }
        it = it + 1;
    }
    finalize::<A>(&pb, s, Status::MaxIterations, MAX_ITER, trace)
}

/// There are no more free parameters than four for every peak.
proof fn lemma_free_bound(kinds: Seq<PeakKind>, map: Seq<int>, total: int)
    requires
        total == offset(kinds, kinds.len() as int),
        forall|f: int| 0 <= f < map.len() ==> 0 <= #[trigger] map[f] < total,
        forall|f: int, g: int| 0 <= f < g < map.len() ==> #[trigger] map[f] < #[trigger] map[g],
    ensures
        map.len() <= 4 * kinds.len(),
{
    lemma_offset_bound(kinds, kinds.len() as int);
    if map.len() > 0 {
        lemma_ascends(map, map.len() - 1);
    }
}

proof fn lemma_ascends(map: Seq<int>, f: int)
    requires
        0 <= f < map.len(),
        0 <= map[0],
        forall|f: int, g: int| 0 <= f < g < map.len() ==> #[trigger] map[f] < #[trigger] map[g],
    ensures
        f <= map[f],
    decreases f,
{
    if f > 0 {
        lemma_ascends(map, f - 1);
        assert(map[f - 1] < map[f]);
    }
}

proof fn lemma_offset_bound(kinds: Seq<PeakKind>, k: int)
    requires
        0 <= k,
    ensures
        offset(kinds, k) <= 4 * k,
    decreases k,
{
    if k > 0 {
        lemma_offset_bound(kinds, k - 1);
    }
}

} // verus!
