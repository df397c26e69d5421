//! The parameters of a fit: which of them move, and on which scale.
//!
//! Centres are fitted as they are; widths, heights and areas are fitted by
//! their logarithms, which keeps them positive.  A fixed centre is left out of
//! the free vector.

use crate::arithmetic::{follows, Arithmetic, Meaning};
use crate::binary64::Binary64;
use crate::data::{lemma_places, places};
use crate::model::{
    all_pins, all_seeds, initial_vector, lemma_offset, offset, shapes, PeakKind, PeakSpec,
    AMPLITUDE_FLOOR_BITS,
};
use vstd::prelude::*;

verus! {

/// The parameters of a fit.
pub struct Layout {
    pub kinds: Vec<PeakKind>,
    /// the initial parameters
    pub p0: Vec<Binary64>,
    /// the place of each free parameter among all
    pub map: Vec<usize>,
    /// which parameters are fitted by their logarithm
    pub logslot: Vec<bool>,
}

/// The parameters of a fit, over numbers of the kind `T`.
pub struct Plan<T> {
    pub kinds: Seq<PeakKind>,
    pub p0: Seq<T>,
    pub map: Seq<int>,
    pub log: Seq<bool>,
}

/// Which parameters of the first `k` peaks are fitted by their logarithm: all
/// but the centres.
pub open spec fn log_flags(kinds: Seq<PeakKind>, k: int) -> Seq<bool>
    decreases k,
{
    if k <= 0 {
        Seq::empty()
    } else {
        log_flags(kinds, k - 1) + Seq::new(kinds[k - 1].params(), |slot: int| slot != 0)
    }
}

impl<T> Plan<T> {
    /// Every peak has its parameters, and the free ones are listed once each,
    /// in order.
    pub open spec fn sound(self) -> bool {
        &&& self.p0.len() == offset(self.kinds, self.kinds.len() as int)
        &&& self.log == log_flags(self.kinds, self.kinds.len() as int)
        &&& self.log.len() == self.p0.len()
        &&& forall|f: int| 0 <= f < self.map.len() ==> 0 <= #[trigger] self.map[f] < self.p0.len()
        &&& forall|f: int, g: int|
            0 <= f < g < self.map.len() ==> #[trigger] self.map[f] < #[trigger] self.map[g]
    }

    /// The number of free parameters.
    pub open spec fn free(self) -> nat {
        self.map.len()
    }

    /// A parameter as the free vector holds it.
    pub open spec fn inward(self, m: Meaning<T>, p: Seq<T>, i: int) -> T {
        if self.log[i] {
            m.log(m.max(p[i], m.num(AMPLITUDE_FLOOR_BITS)))
        } else {
            p[i]
        }
    }

    /// A parameter from what the free vector holds.
    pub open spec fn outward(self, m: Meaning<T>, v: T, i: int) -> T {
        if self.log[i] {
            m.e(v)
        } else {
            v
        }
    }

    /// The free vector that belongs to the parameters `p`.
    pub open spec fn freed(self, m: Meaning<T>, p: Seq<T>) -> Seq<T> {
        self.map.map_values(|i: int| self.inward(m, p, i))
    }

    /// The initial parameters with the first `k` free ones taken from `q`.
    pub open spec fn filled(self, m: Meaning<T>, q: Seq<T>, k: int) -> Seq<T>
        decreases k,
    {
        if k <= 0 {
            self.p0
        } else {
            let i = self.map[k - 1];
            self.filled(m, q, k - 1).update(i, self.outward(m, q[k - 1], i))
        }
    }

    /// The parameters that belong to the free vector `q`.
    pub open spec fn full(self, m: Meaning<T>, q: Seq<T>) -> Seq<T> {
        self.filled(m, q, self.free() as int)
    }

    /// A filled vector holds what the free vector says, and the initial value
    /// of every other parameter.
    pub proof fn lemma_filled(self, m: Meaning<T>, q: Seq<T>, k: int)
        requires
            self.sound(),
            0 <= k <= self.free(),
        ensures
            self.filled(m, q, k).len() == self.p0.len(),
            forall|f: int|
                0 <= f < k ==> self.filled(m, q, k)[#[trigger] self.map[f]] == self.outward(
                    m,
                    q[f],
                    self.map[f],
                ),
            forall|i: int|
                0 <= i < self.p0.len() && (forall|f: int| 0 <= f < k ==> self.map[f] != i)
                    ==> #[trigger] self.filled(m, q, k)[i] == self.p0[i],
        decreases k,
    {
        if k > 0 {
            self.lemma_filled(m, q, k - 1);
            assert forall|i: int|
                0 <= i < self.p0.len() && (forall|f: int| 0 <= f < k ==> self.map[f] != i) implies
                #[trigger] self.filled(m, q, k)[i] == self.p0[i] by {
                assert(self.filled(m, q, k - 1)[i] == self.p0[i]);
            }
        }
    }
}

/// The parameters that the candidates set up.
pub open spec fn planned(m: Meaning<Binary64>, specs: Seq<PeakSpec>) -> Plan<Binary64> {
    let n = specs.len() as int;
    Plan {
        kinds: shapes(specs),
        p0: all_seeds(m, specs, n),
        map: places(offset(shapes(specs), n), |i: int| !all_pins(specs, n)[i]),
        log: log_flags(shapes(specs), n),
    }
}

impl Layout {
    pub open spec fn view(&self) -> Plan<Binary64> {
        Plan {
            kinds: self.kinds@,
            p0: self.p0@,
            map: self.map@.map_values(|i: usize| i as int),
            log: self.logslot@,
        }
    }
}

/// The parameters that the candidates set up.
pub fn build_layout<A: Arithmetic>(specs: &Vec<PeakSpec>) -> (l: Layout)
    ensures
        l@.sound(),
        l@.kinds == shapes(specs@),
        forall|m: Meaning<Binary64>| #[trigger] follows::<A>(m) ==> l@ == planned(m, specs@),
{
    let (kinds, p0, fixed) = initial_vector::<A>(specs);
    let ghost n = specs@.len() as int;
    let ghost free = |i: int| !all_pins(specs@, n)[i];
    let mut map: Vec<usize> = Vec::new();
    for i in 0..p0.len()
        invariant
            p0@.len() == fixed@.len(),
            fixed@ == all_pins(specs@, n),
            free == (|i: int| !all_pins(specs@, n)[i]),
            map@.map_values(|i: usize| i as int) == places(i as nat, free),
    {
        let ghost before = map@;
        if !fixed[i] {
            map.push(i);
            assert(map@.map_values(|i: usize| i as int) =~= before.map_values(
                |i: usize| i as int,
            ).push(i as int));
        }
    }
    let mut logslot: Vec<bool> = Vec::new();
    for k in 0..kinds.len()
        invariant
            logslot@ == log_flags(kinds@, k as int),
            logslot@.len() == offset(kinds@, k as int),
    {
        let ghost before = logslot@;
        let count: usize = kinds[k].n_params();
        for slot in 0..count
            invariant
                logslot@ == before + Seq::new(slot as nat, |s: int| s != 0),
        {
            logslot.push(slot != 0);
            assert(Seq::new((slot + 1) as nat, |s: int| s != 0) =~= Seq::new(
                slot as nat,
                |s: int| s != 0,
            ).push(slot != 0));
        }
    }
    let l: Layout = Layout { kinds, p0, map, logslot };
    proof {
        lemma_places(l.p0@.len(), free);
        assert(l@.sound());
    }
    l
}

/// The free vector that belongs to parameters.
pub fn to_free<A: Arithmetic>(layout: &Layout, p: &Vec<Binary64>) -> (q: Vec<Binary64>)
    requires
        layout@.sound(),
        p@.len() == layout@.p0.len(),
    ensures
        q@.len() == layout@.free(),
        forall|m: Meaning<Binary64>| #[trigger] follows::<A>(m) ==> q@ == layout@.freed(m, p@),
{
    let mut q: Vec<Binary64> = Vec::new();
    for f in 0..layout.map.len()
        invariant
            layout@.sound(),
            p@.len() == layout@.p0.len(),
            q@.len() == f,
            forall|m: Meaning<Binary64>, k: int|
                #![trigger follows::<A>(m), q@[k]]
                follows::<A>(m) && 0 <= k < f ==> q@[k] == layout@.inward(m, p@, layout@.map[k]),
    {
        let i: usize = layout.map[f];
        assert(layout@.map[f as int] == i);
        if layout.logslot[i] {
            q.push(A::ln(p[i].max(Binary64 { bits: AMPLITUDE_FLOOR_BITS })));
        } else {
            q.push(p[i]);
        }
    }
    proof {
        assert forall|m: Meaning<Binary64>| #[trigger] follows::<A>(m) implies q@ == layout@.freed(
            m,
            p@,
        ) by {
            assert(q@ =~= layout@.freed(m, p@));
        }
    }
    q
}

/// The parameters that belong to a free vector.
pub fn from_free<A: Arithmetic>(layout: &Layout, q: &Vec<Binary64>) -> (p: Vec<Binary64>)
    requires
        layout@.sound(),
        q@.len() == layout@.free(),
    ensures
        p@.len() == layout@.p0.len(),
        forall|m: Meaning<Binary64>| #[trigger] follows::<A>(m) ==> p@ == layout@.full(m, q@),
{
    let mut p: Vec<Binary64> = Vec::new();
    for i in 0..layout.p0.len()
        invariant
            p@ == layout.p0@.take(i as int),
    {
        p.push(layout.p0[i]);
        assert(layout.p0@.take(i + 1) =~= layout.p0@.take(i as int).push(layout.p0@[i as int]));
    }
    assert(layout.p0@.take(layout.p0@.len() as int) =~= layout.p0@);
    for f in 0..layout.map.len()
        invariant
            layout@.sound(),
            q@.len() == layout@.free(),
            p@.len() == layout@.p0.len(),
            forall|m: Meaning<Binary64>| #[trigger]
                follows::<A>(m) ==> p@ == layout@.filled(m, q@, f as int),
    {
        let i: usize = layout.map[f];
        assert(layout@.map[f as int] == i);
        let v: Binary64 = if layout.logslot[i] {
            A::exp(q[f])
        } else {
            q[f]
        };
        p.set(i, v);
    }
    p
}

/// The peak and the slot within it that a free parameter belongs to.
pub open spec fn owns(kinds: Seq<PeakKind>, i: int, owner: (usize, usize)) -> bool {
    &&& owner.0 < kinds.len()
    &&& owner.1 < kinds[owner.0 as int].params()
    &&& i == offset(kinds, owner.0 as int) + owner.1
}

/// The peak and the slot within it of the parameter at place `i`.
fn owner_of(kinds: &Vec<PeakKind>, i: usize) -> (r: (usize, usize))
    requires
        i < offset(kinds@, kinds@.len() as int) <= usize::MAX,
    ensures
        owns(kinds@, i as int, r),
{
    let mut acc: usize = 0;
    let mut k: usize = 0;
    loop
        invariant
            k < kinds.len(),
            acc == offset(kinds@, k as int),
            acc <= i < offset(kinds@, kinds@.len() as int) <= usize::MAX,
        decreases kinds@.len() - k,
    {
        let n: usize = kinds[k].n_params();
        proof {
            lemma_offset(kinds@, k + 1, kinds@.len() as int);
        }
        if i < acc + n {
            return (k, i - acc);
        }
        acc = acc + n;
        k = k + 1;
    }
}

/// The peak and the slot within it of every free parameter.
pub fn free_map(layout: &Layout) -> (r: Vec<(usize, usize)>)
    requires
        layout@.sound(),
    ensures
        r@.len() == layout@.free(),
        forall|f: int|
            0 <= f < r@.len() ==> owns(layout@.kinds, layout@.map[f], #[trigger] r@[f]),
{
    let total: usize = layout.p0.len();
    let mut r: Vec<(usize, usize)> = Vec::new();
    for f in 0..layout.map.len()
        invariant
            layout@.sound(),
            total == layout.p0@.len(),
            r@.len() == f,
            forall|g: int| 0 <= g < f ==> owns(layout@.kinds, layout@.map[g], #[trigger] r@[g]),
    {
        let i: usize = layout.map[f];
        assert(layout@.map[f as int] == i);
        r.push(owner_of(&layout.kinds, i));
    }
    r
}

} // verus!
