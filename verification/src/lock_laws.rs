//! Laws of the parameters of a fit: which of them move, on which scale, and that a
//! locked position stays.

use crate::arithmetic::Meaning;
use crate::binary64::Binary64;
use crate::data::{lemma_places, places};
use crate::fit::{entries, Task};
use crate::fit_laws::law_fixed_parameters_stay;
use crate::layout::{log_flags, owns, planned, Plan};
use crate::model::{
    all_pins, all_seeds, lemma_offset, offset, seeds, shapes, PeakKind, PeakSpec,
    AMPLITUDE_FLOOR_BITS,
};
use crate::report::{task_of, FitReport};
use vstd::prelude::*;

verus! {

/// The number of parameters of a peak.
pub open spec fn slots(kind: PeakKind) -> int {
    if kind is Voigt {
        4
    } else {
        3
    }
}

/// Where parameter `slot` of peak `k` stands.
pub open spec fn place(specs: Seq<PeakSpec>, k: int, slot: int) -> int {
    offset(shapes(specs), k) + slot
}

proof fn lemma_lengths(m: Meaning<Binary64>, specs: Seq<PeakSpec>, n: int)
    requires
        0 <= n <= specs.len(),
    ensures
        all_pins(specs, n).len() == offset(shapes(specs), n),
        all_seeds(m, specs, n).len() == offset(shapes(specs), n),
        log_flags(shapes(specs), n).len() == offset(shapes(specs), n),
    decreases n,
{
    if n > 0 {
        lemma_lengths(m, specs, n - 1);
        assert(shapes(specs)[n - 1] == specs[n - 1].kind);
    }
}

/// What stands at the place of a parameter.
proof fn lemma_at_place(m: Meaning<Binary64>, specs: Seq<PeakSpec>, n: int, k: int, slot: int)
    requires
        0 <= k < n <= specs.len(),
        0 <= slot < slots(specs[k].kind),
    ensures
        place(specs, k, slot) < offset(shapes(specs), n),
        all_pins(specs, n)[place(specs, k, slot)] == (slot == 0 && specs[k].fix_center),
        all_seeds(m, specs, n)[place(specs, k, slot)] == seeds(m, specs[k])[slot],
        log_flags(shapes(specs), n)[place(specs, k, slot)] == (slot != 0),
    decreases n,
{
    lemma_lengths(m, specs, n - 1);
    assert(shapes(specs)[n - 1] == specs[n - 1].kind);
    if k < n - 1 {
        lemma_at_place(m, specs, n - 1, k, slot);
    }
}

proof fn lemma_planned(m: Meaning<Binary64>, specs: Seq<PeakSpec>)
    ensures
        planned(m, specs).sound(),
{
    let n = specs.len() as int;
    lemma_lengths(m, specs, n);
    lemma_places(offset(shapes(specs), n), |i: int| !all_pins(specs, n)[i]);
}

/// The place `i` is that of a free parameter.
pub open spec fn moves<T>(plan: Plan<T>, i: int) -> bool {
    exists|f: int| 0 <= f < plan.map.len() && #[trigger] plan.map[f] == i
}

/// Of the parameters of a peak, whatever its shape, all are free but a locked
/// centre, and the free vector lists each once, in the order of the peaks and of
/// their parameters.
pub proof fn law_all_but_locked_centres_are_free(
    m: Meaning<Binary64>,
    specs: Seq<PeakSpec>,
    k: int,
    slot: int,
)
    requires
        0 <= k < specs.len(),
        0 <= slot < slots(specs[k].kind),
    ensures
        moves(planned(m, specs), place(specs, k, slot)) <==> !(slot == 0 && specs[k].fix_center),
        forall|f: int, g: int|
            0 <= f < g < planned(m, specs).map.len() ==> #[trigger] planned(m, specs).map[f]
                < #[trigger] planned(m, specs).map[g],
{
    let n = specs.len() as int;
    let i = place(specs, k, slot);
    let free = |i: int| !all_pins(specs, n)[i];
    let plan = planned(m, specs);
    lemma_at_place(m, specs, n, k, slot);
    lemma_places(offset(shapes(specs), n), free);
    assert(plan.map == places(offset(shapes(specs), n), free));
    assert(free(i) == !(slot == 0 && specs[k].fix_center));
    if free(i) {
        assert(plan.map.contains(i));
        let f = choose|f: int| 0 <= f < plan.map.len() && plan.map[f] == i;
        assert(plan.map[f] == i);
    } else if moves(plan, i) {
        let f = choose|f: int| 0 <= f < plan.map.len() && #[trigger] plan.map[f] == i;
        assert(free(plan.map[f]));
    }
}

/// A fit starts from the parameters of the candidates, each at its place.
pub proof fn law_fit_starts_from_candidates(
    m: Meaning<Binary64>,
    specs: Seq<PeakSpec>,
    k: int,
    slot: int,
)
    requires
        0 <= k < specs.len(),
        0 <= slot < slots(specs[k].kind),
    ensures
        planned(m, specs).kinds[k] == specs[k].kind,
        planned(m, specs).p0[place(specs, k, slot)] == seeds(m, specs[k])[slot],
        planned(m, specs).p0[place(specs, k, 0)] == specs[k].center0,
{
    lemma_at_place(m, specs, specs.len() as int, k, slot);
    lemma_at_place(m, specs, specs.len() as int, k, 0);
}

/// A centre is fitted as it is, and every other free parameter by its logarithm:
/// in both directions between parameters and the free vector.
pub proof fn law_scale_of_free_parameters(
    m: Meaning<Binary64>,
    specs: Seq<PeakSpec>,
    p: Seq<Binary64>,
    q: Seq<Binary64>,
    f: int,
    k: int,
    slot: int,
)
    requires
        0 <= k < specs.len(),
        0 <= slot < slots(specs[k].kind),
        0 <= f < planned(m, specs).map.len(),
        planned(m, specs).map[f] == place(specs, k, slot),
    ensures
        planned(m, specs).full(m, q)[place(specs, k, slot)] == (if slot == 0 {
            q[f]
        } else {
            m.e(q[f])
        }),
        planned(m, specs).freed(m, p)[f] == (if slot == 0 {
            p[place(specs, k, slot)]
        } else {
            m.log(m.max(p[place(specs, k, slot)], m.num(AMPLITUDE_FLOOR_BITS)))
        }),
{
    let plan = planned(m, specs);
    lemma_at_place(m, specs, specs.len() as int, k, slot);
    lemma_planned(m, specs);
    plan.lemma_filled(m, q, plan.free() as int);
    assert(plan.filled(m, q, plan.free() as int)[plan.map[f]] == plan.outward(
        m,
        q[f],
        plan.map[f],
    ));
}

proof fn lemma_locked(t: Task<Binary64>, m: Meaning<Binary64>, specs: Seq<PeakSpec>, k: int)
    requires
        t.plan == planned(m, specs),
        0 <= k < specs.len(),
        specs[k].fix_center,
    ensures
        t.ending(m).stand.p[place(specs, k, 0)] == specs[k].center0,
        forall|j: int|
            0 <= j < t.ending(m).trace.len() ==> (#[trigger] t.ending(
                m,
            ).trace[j]).params[place(specs, k, 0)] == specs[k].center0,
{
    let n = specs.len() as int;
    let i = place(specs, k, 0);
    lemma_at_place(m, specs, n, k, 0);
    lemma_lengths(m, specs, n);
    lemma_planned(m, specs);
    law_all_but_locked_centres_are_free(m, specs, k, 0);
    assert forall|f: int| 0 <= f < t.plan.free() implies t.plan.map[f] != i by {
        if t.plan.map[f] == i {
            assert(moves(t.plan, i));
        }
    }
    law_fixed_parameters_stay(t, m, i);
}

/// A position that is locked stays where the candidate puts it: in the report, and
/// in every line of the record of the fit, for every shape.
pub proof fn law_locked_position_stays(
    m: Meaning<Binary64>,
    nodes: Seq<(Binary64, Binary64)>,
    xs: Seq<Binary64>,
    ys: Seq<Binary64>,
    mask: Seq<bool>,
    specs: Seq<PeakSpec>,
    rep: FitReport,
    k: int,
)
    requires
        ({
            let t = task_of(m, nodes, xs, ys, mask, specs);
            rep.tells(m, t, t.ending(m))
        }),
        0 <= k < specs.len(),
        specs[k].fix_center,
    ensures
        rep.peaks@[k].center == specs[k].center0,
        rep.params@[place(specs, k, 0)] == specs[k].center0,
        forall|j: int|
            0 <= j < rep.trace@.len() ==> (#[trigger] rep.trace@[j]).params@[place(specs, k, 0)]
                == specs[k].center0,
        forall|f: int|
            0 <= f < rep.free_map@.len() ==> (#[trigger] rep.free_map@[f]) != (k as usize, 0usize),
{
    let t = task_of(m, nodes, xs, ys, mask, specs);
    let e = t.ending(m);
    lemma_locked(t, m, specs, k);
    let i = place(specs, k, 0);
    assert(shapes(specs).len() == specs.len());
    assert(rep.peaks@[k].center == e.stand.p[i]);
    assert forall|j: int| 0 <= j < rep.trace@.len() implies (
    #[trigger] rep.trace@[j]).params@[i] == specs[k].center0 by {
        assert(entries(rep.trace@)[j] == e.trace[j]);
        assert(e.trace[j].params[i] == specs[k].center0);
    }
    law_all_but_locked_centres_are_free(m, specs, k, 0);
    assert forall|f: int| 0 <= f < rep.free_map@.len() implies (#[trigger] rep.free_map@[f]) != (
        k as usize,
        0usize,
    ) by {
        assert(owns(t.plan.kinds, t.plan.map[f], rep.free_map@[f]));
        if rep.free_map@[f] == (k as usize, 0usize) {
            if k as usize == k {
                assert(t.plan.map[f] == i);
                assert(moves(t.plan, i));
            } else {
                assert(rep.free_map@[f].0 < specs.len());
                lemma_few(rep, k);
            }
        }
    }
}

/// As many peaks are reported as can be counted.
proof fn lemma_few(rep: FitReport, k: int)
    requires
        0 <= k < rep.peaks@.len(),
    ensures
        k as usize == k,
{
    assert(rep.peaks.len() == rep.peaks@.len());
}

/// What is reported as free is free: the list names, for each free parameter in
/// order, the peak and the parameter within it; all but locked centres are named.
pub proof fn law_free_map_names_what_moves(
    m: Meaning<Binary64>,
    nodes: Seq<(Binary64, Binary64)>,
    xs: Seq<Binary64>,
    ys: Seq<Binary64>,
    mask: Seq<bool>,
    specs: Seq<PeakSpec>,
    rep: FitReport,
    k: int,
    slot: int,
)
    requires
        ({
            let t = task_of(m, nodes, xs, ys, mask, specs);
            rep.tells(m, t, t.ending(m))
        }),
        0 <= k < specs.len(),
        0 <= slot < slots(specs[k].kind),
        !(slot == 0 && specs[k].fix_center),
    ensures
        exists|f: int| 0 <= f < rep.free_map@.len() && (#[trigger] rep.free_map@[f]).0 == k
            && rep.free_map@[f].1 == slot,
{
    let t = task_of(m, nodes, xs, ys, mask, specs);
    let i = place(specs, k, slot);
    law_all_but_locked_centres_are_free(m, specs, k, slot);
    let f = choose|f: int| 0 <= f < t.plan.map.len() && #[trigger] t.plan.map[f] == i;
    let o = rep.free_map@[f];
    assert(owns(t.plan.kinds, t.plan.map[f], o));
    let kinds = shapes(specs);
    assert(kinds[o.0 as int] == specs[o.0 as int].kind && kinds[k] == specs[k].kind);
    if o.0 < k {
        lemma_offset(kinds, o.0 + 1, k);
    } else if k < o.0 {
        lemma_offset(kinds, k + 1, o.0 as int);
    }
}

} // verus!
