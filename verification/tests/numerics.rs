//! Line shapes, quadrature, linear algebra, units and random numbers, with the
//! floating-point numbers of the machine.

use spectra_lab::arithmetic::Arithmetic;
use spectra_lab::binary64::Binary64;
use spectra_lab::linalg::{polyfit_norm, solve, solve_sym_pos};
use spectra_lab::model::{
    eval_peaks, faddeeva, gauss_line, gaussian_smooth, initial_vector, lorentz_line, peak_area,
    poly_baseline, voigt, PeakKind, PeakSpec,
};
use spectra_lab::notation::Notation;
use spectra_lab::quadrature::{gauss_hermite, voigt_nodes, VOIGT_NODES};
use spectra_lab::rng::{Rng, SYNTH_SEED};
use spectra_lab::synthetic::synthetic_csv;
use spectra_lab::units::{convert_peak, convert_scalar, Interval, XUnit};

struct Float;

fn b(x: f64) -> Binary64 {
    Binary64 { bits: x.to_bits() }
}

fn f(x: Binary64) -> f64 {
    f64::from_bits(x.bits)
}

fn bs(v: &[f64]) -> Vec<Binary64> {
    v.iter().map(|x| b(*x)).collect()
}

impl Arithmetic for Float {
    fn plus(x: Binary64, y: Binary64) -> Binary64 {
        b(f(x) + f(y))
    }
    fn minus(x: Binary64, y: Binary64) -> Binary64 {
        b(f(x) - f(y))
    }
    fn times(x: Binary64, y: Binary64) -> Binary64 {
        b(f(x) * f(y))
    }
    fn over(x: Binary64, y: Binary64) -> Binary64 {
        b(f(x) / f(y))
    }
    fn root(x: Binary64) -> Binary64 {
        b(f(x).sqrt())
    }
    fn exp(x: Binary64) -> Binary64 {
        b(f(x).exp())
    }
    fn ln(x: Binary64) -> Binary64 {
        b(f(x).ln())
    }
    fn hypot(x: Binary64, y: Binary64) -> Binary64 {
        b(f(x).hypot(f(y)))
    }
    fn power(x: Binary64, n: usize) -> Binary64 {
        b(f(x).powi(n as i32))
    }
    fn of_count(n: usize) -> Binary64 {
        b(n as f64)
    }
}

impl Notation for Float {
    fn parse(text: &str) -> Result<Binary64, String> {
        text.parse::<f64>().map(b).map_err(|e| e.to_string())
    }
    fn numeral(x: Binary64) -> Option<String> {
        serde_json::Number::from_f64(f(x)).map(|n| n.to_string())
    }
    fn shortest(x: Binary64) -> String {
        format!("{}", f(x))
    }
    fn fixed(x: Binary64, digits: usize) -> String {
        format!("{:.*}", digits, f(x))
    }
    fn scientific(x: Binary64, digits: usize) -> String {
        format!("{:.*e}", digits, f(x))
    }
}

fn peak(kind: PeakKind, center0: f64, width0: f64, amp0: f64, fix_center: bool) -> PeakSpec {
    PeakSpec { kind, center0: b(center0), width0: b(width0), amp0: b(amp0), fix_center }
}

fn vals(v: &[Binary64]) -> Vec<f64> {
    v.iter().map(|x| f(*x)).collect()
}

// --------------------------------------------------------------------- quadrature

#[test]
fn gh_nodes_integrate_gaussian() {
    for n in [8usize, 32, 64] {
        let qw: Vec<(f64, f64)> =
            gauss_hermite::<Float>(n).unwrap().iter().map(|p| (f(p.0), f(p.1))).collect();
        assert_eq!(qw.len(), n);
        let total: f64 = qw.iter().map(|(_, w)| w).sum();
        assert!((total - std::f64::consts::PI.sqrt()).abs() < 1e-12);
        // integral x^2 e^-x2 = sqrt(pi)/2
        let m2: f64 = qw.iter().map(|(t, w)| t * t * w).sum();
        assert!((m2 - std::f64::consts::PI.sqrt() / 2.0).abs() < 1e-10);
        // symmetry
        for i in 0..n / 2 {
            assert!((qw[i].0 + qw[n - 1 - i].0).abs() < 1e-12);
            assert!((qw[i].1 - qw[n - 1 - i].1).abs() < 1e-12);
        }
        for i in 1..n {
            assert!(qw[i - 1].0 <= qw[i].0);
        }
    }
}

// ------------------------------------------------------------------ linear algebra

#[test]
fn polyfit_recovers_cubic() {
    let xs: Vec<f64> = (0..40).map(|i| i as f64 * 0.2).collect();
    let ys: Vec<f64> = xs.iter().map(|x| 1.0 - 2.0 * x + 0.5 * x * x).collect();
    let w = vec![1.0; xs.len()];
    let t: Vec<f64> =
        xs.iter().map(|x| (x - xs[xs.len() / 2]) / xs[xs.len() - 1]).collect();
    let cf = vals(&polyfit_norm::<Float>(&bs(&t), &bs(&ys), &bs(&w), 2).unwrap());
    for (a, b) in t.iter().zip(ys.iter()) {
        let v = cf[0] + cf[1] * a + cf[2] * a * a;
        assert!((v - b).abs() < 1e-8);
    }
}

#[test]
fn no_polynomial_fits_better() {
    let t: Vec<f64> = (0..9).map(|i| i as f64 * 0.25 - 1.0).collect();
    let y: Vec<f64> = t.iter().map(|x| x.abs() + 0.1 * x).collect();
    let w: Vec<f64> = (0..9).map(|i| 1.0 + (i % 3) as f64).collect();
    let c = vals(&polyfit_norm::<Float>(&bs(&t), &bs(&y), &bs(&w), 2).unwrap());
    let misfit = |c: &[f64]| -> f64 {
        (0..9).map(|l| w[l] * (y[l] - c[0] - c[1] * t[l] - c[2] * t[l] * t[l]).powi(2)).sum()
    };
    let best = misfit(&c);
    for k in 0..3 {
        for d in [-0.1, 0.01, 0.3] {
            let mut other = c.clone();
            other[k] += d;
            assert!(misfit(&other) > best);
        }
    }
}

#[test]
fn polyfit_of_too_few_points_is_singular() {
    let one = bs(&[1.0]);
    assert!(polyfit_norm::<Float>(&one, &one, &one, 1).is_none());
    let none = bs(&[]);
    assert!(polyfit_norm::<Float>(&none, &none, &none, 0).is_none());
}

#[test]
fn elimination_solves_with_pivoting() {
    let mut a = bs(&[0.0, 2.0, 1.0, 4.0]);
    let mut x = bs(&[6.0, 14.0]);
    assert!(solve::<Float>(&mut a, &mut x, 2).is_some());
    assert_eq!(vals(&x), vec![2.0, 3.0]);
    let mut a = bs(&[1.0, 2.0, 2.0, 4.0]);
    let mut x = bs(&[1.0, 1.0]);
    assert!(solve::<Float>(&mut a, &mut x, 2).is_none());
}

#[test]
fn symmetric_systems_need_positive_pivots() {
    let a = bs(&[4.0, 2.0, 2.0, 3.0]);
    let x = solve_sym_pos::<Float>(&a, &bs(&[2.0, 5.0]), 2).unwrap();
    assert!((f(x[0]) + 0.5).abs() < 1e-15 && (f(x[1]) - 2.0).abs() < 1e-15);
    let a = bs(&[1.0, 2.0, 2.0, 1.0]);
    assert!(solve_sym_pos::<Float>(&a, &bs(&[1.0, 1.0]), 2).is_none());
}

// ---------------------------------------------------------------------- line shapes

#[test]
fn gauss_area_consistency() {
    let (c, w, h) = (2.0_f64, 0.4, 3.0);
    let analytic = h * w * (std::f64::consts::PI / (4.0 * std::f64::consts::LN_2)).sqrt();
    let xs: Vec<f64> = (-4000..4000).map(|i| c + i as f64 * 0.001).collect();
    let dx = xs[1] - xs[0];
    let num: f64 =
        xs.iter().map(|x| f(gauss_line::<Float>(b(*x), b(c), b(w), b(h)))).sum::<f64>() * dx;
    assert!((num - analytic).abs() < 1e-7 * analytic);
}

#[test]
fn lorentz_area_consistency() {
    let (c, w, h) = (0.0_f64, 0.5, 2.0);
    let analytic = h * w * std::f64::consts::PI / 2.0;
    let dx = 0.005;
    let xs: Vec<f64> = (0..400_000).map(|i| -1000.0 + i as f64 * dx).collect();
    let num: f64 =
        xs.iter().map(|x| f(lorentz_line::<Float>(b(*x), b(c), b(w), b(h)))).sum::<f64>() * dx;
    // trapezoidal-ish truncation error dominates the heavy lorentz tails
    assert!((num - analytic).abs() / analytic < 2e-4, "num {num} analytic {analytic}");
}

#[test]
fn the_voigt_quadrature_has_its_nodes() {
    let nodes = voigt_nodes::<Float>().unwrap();
    assert_eq!((nodes.len(), VOIGT_NODES), (64, 64));
    assert_eq!(nodes, gauss_hermite::<Float>(64).unwrap());
}

#[test]
fn voigt_is_normalised() {
    let nodes = voigt_nodes::<Float>().unwrap();
    for (sigma, gamma) in [(0.2_f64, 0.0), (0.2, 0.3), (0.05, 1.0), (1.0, 0.01)] {
        // integrate to +/-100*max(sigma,gamma) to capture lorentz tails
        let half = 100.0 * sigma.max(gamma);
        let n = 200_000;
        let dx = 2.0 * half / n as f64;
        let xs: Vec<f64> = (0..=n).map(|i| -half + i as f64 * dx).collect();
        let num: f64 = xs
            .iter()
            .map(|x| f(voigt::<Float>(&nodes, b(*x), b(0.0), b(sigma), b(gamma))))
            .sum::<f64>()
            * dx;
        assert!((num - 1.0).abs() < 8e-3, "sigma={sigma} gamma={gamma} {num}");
    }
}

#[test]
fn voigt_pure_lorentz_limit() {
    let nodes = voigt_nodes::<Float>().unwrap();
    // sigma -> small approaches h*gamma/(pi(dx^2+gamma^2)); check centre.
    let v = f(voigt::<Float>(&nodes, b(0.0), b(0.0), b(1e-4), b(0.3)));
    let expect = 1.0 / (std::f64::consts::PI * 0.3);
    assert!((v - expect).abs() / expect < 1e-3);
}

#[test]
fn voigt_without_lorentz_part_is_a_gaussian() {
    let nodes = voigt_nodes::<Float>().unwrap();
    let sigma = 0.7_f64;
    for gamma in [0.0, -1.0, sigma * 0.9e-10] {
        for x in [0.0, 0.3, 1.9] {
            let v = f(voigt::<Float>(&nodes, b(x), b(0.0), b(sigma), b(gamma)));
            let want = (-x * x / (2.0 * sigma * sigma)).exp()
                / (sigma * (2.0 * std::f64::consts::PI).sqrt());
            assert!((v - want).abs() < 1e-14, "{gamma} {x} {v} {want}");
        }
    }
}

#[test]
fn faddeeva_function_on_the_imaginary_axis() {
    let nodes = voigt_nodes::<Float>().unwrap();
    // w(i) = e * erfc(1), w(2i) = e^4 * erfc(2)
    let (re, im) = faddeeva::<Float>(&nodes, b(0.0), b(1.0));
    assert!((f(re) - 0.427_583_576_155_807).abs() < 1e-6);
    assert!(f(im).abs() < 1e-12);
    let (re, _) = faddeeva::<Float>(&nodes, b(0.0), b(2.0));
    assert!((f(re) - 0.255_395_676_310_506).abs() < 1e-9);
}

#[test]
fn lines_have_their_height_and_width() {
    let (c, w, h) = (b(3.0), b(0.5), b(2.0));
    for line in [gauss_line::<Float>, lorentz_line::<Float>] {
        assert_eq!(f(line(c, c, w, h)), 2.0);
        assert!((f(line(b(3.25), c, w, h)) - 1.0).abs() < 1e-15);
        assert!((f(line(b(2.75), c, w, h)) - 1.0).abs() < 1e-15);
    }
}

#[test]
fn areas_follow_their_formulas() {
    let p = bs(&[9.0, 3.0, 0.5, 2.0, 7.5]);
    let g = f(peak_area::<Float>(PeakKind::Gauss, &p, 1));
    assert_eq!(g, 2.0 * 0.5 * (std::f64::consts::PI / (4.0 * std::f64::consts::LN_2)).sqrt());
    let l = f(peak_area::<Float>(PeakKind::Lorentz, &p, 1));
    assert_eq!(l, 2.0 * 0.5 * std::f64::consts::PI / 2.0);
    assert_eq!(f(peak_area::<Float>(PeakKind::Voigt, &p, 1)), 7.5);
}

#[test]
fn peaks_add_up() {
    let nodes = voigt_nodes::<Float>().unwrap();
    let kinds = vec![PeakKind::Gauss, PeakKind::Voigt, PeakKind::Lorentz];
    let p = bs(&[1.0, 0.5, 2.0, 3.0, 0.2, 0.1, 1.5, 4.0, 0.3, 0.7]);
    let x = b(2.2);
    let want = f(gauss_line::<Float>(x, p[0], p[1], p[2]))
        + 1.5 * f(voigt::<Float>(&nodes, x, p[3], p[4], p[5]))
        + f(lorentz_line::<Float>(x, p[7], p[8], p[9]));
    let got = f(eval_peaks::<Float>(&nodes, x, &kinds, &p));
    assert!((got - want).abs() < 1e-15);
}

#[test]
fn kinds_have_names_and_parameters() {
    for (k, name, n) in [
        (PeakKind::Gauss, "gauss", 3),
        (PeakKind::Lorentz, "lorentz", 3),
        (PeakKind::Voigt, "voigt", 4),
    ] {
        assert_eq!(k.as_str(), name);
        assert_eq!(PeakKind::parse(name), Some(k));
        assert_eq!(PeakKind::parse(&name.to_uppercase()), Some(k));
        assert_eq!(k.n_params(), n);
    }
    assert_eq!(PeakKind::parse("triangle"), None);
}

#[test]
fn candidates_make_the_initial_vector() {
    let specs = vec![
        peak(PeakKind::Lorentz, 5.0, 0.0, 1.5, true),
        peak(PeakKind::Voigt, 7.0, 0.4, 0.0, false),
    ];
    let (kinds, p, fixed) = initial_vector::<Float>(&specs);
    let v = vals(&p);
    assert_eq!(v.len(), 7);
    assert_eq!(v[0], 5.0);
    assert!(v[1] > 0.0 && v[1] < 1e-6);
    assert_eq!(v[2], 1.5);
    assert_eq!(v[4], 0.4 / (2.0 * (2.0 * std::f64::consts::LN_2).sqrt()));
    assert_eq!(v[5], 0.2);
    assert!(v[6] > 0.0);
    assert_eq!(fixed, vec![true, false, false, false, false, false, false]);
    assert_eq!(kinds, vec![PeakKind::Lorentz, PeakKind::Voigt]);
}

// -------------------------------------------------------------- baseline, smoothing

#[test]
fn baseline_takes_a_polynomial_away() {
    let xs: Vec<f64> = (0..60).map(|i| 400.0 + i as f64).collect();
    let ys: Vec<f64> = xs.iter().map(|x| 2.0 + 0.1 * (x - 430.0) - 1e-3 * (x - 430.0).powi(2)).collect();
    let mut seen = ys.clone();
    for y in seen.iter_mut().skip(20).take(20) {
        *y += 5.0;
    }
    let windows = vec![(b(400.0), b(419.0)), (b(440.0), b(459.0))];
    let mask = vec![false; xs.len()];
    let base = poly_baseline::<Float>(&bs(&xs), &bs(&seen), &mask, &windows, 2).unwrap();
    for (v, y) in base.iter().zip(&ys) {
        assert!((f(*v) - y).abs() < 1e-9);
    }
}

#[test]
fn baseline_failures_are_told() {
    let xs = bs(&[1.0, 2.0, 3.0]);
    let mask = vec![false; 3];
    let all = vec![(b(0.0), b(9.0))];
    let e = poly_baseline::<Float>(&xs, &xs, &mask, &all, 7).unwrap_err();
    assert_eq!(e, "baseline degree must be 0..=6");
    let e = poly_baseline::<Float>(&xs, &xs, &mask, &all, 2).unwrap_err();
    assert_eq!(e, "baseline needs >= 4 anchor points, found 3");
    let same = bs(&[5.0, 5.0, 5.0]);
    let e = poly_baseline::<Float>(&same, &xs, &mask, &all, 1).unwrap_err();
    assert_eq!(e, "singular baseline normal equations");
    let masked = vec![false, true, false];
    let e = poly_baseline::<Float>(&xs, &xs, &masked, &all, 1).unwrap_err();
    assert_eq!(e, "baseline needs >= 3 anchor points, found 2");
}

#[test]
fn smoothing_weighs_neighbours() {
    let xs = bs(&[0.0, 1.0, 2.0]);
    let ys = bs(&[1.0, 4.0, f64::NAN]);
    let mask = vec![false, false, true];
    let v = gaussian_smooth::<Float>(&xs, &ys, &mask, b(0.5));
    // weights exp(-((x_i-x_j)/(2s))^2)
    let w = (-1.0_f64).exp();
    assert!((f(v[0]) - (1.0 + w * 4.0) / (1.0 + w)).abs() < 1e-15);
    assert!((f(v[1]) - (w * 1.0 + 4.0) / (1.0 + w)).abs() < 1e-15);
    assert!(f(v[2]).is_nan());
}

#[test]
fn smoothing_keeps_bounds_and_constants() {
    let xs: Vec<f64> = (0..50).map(|i| i as f64 * 0.3).collect();
    let ys: Vec<f64> = xs.iter().map(|x| x.sin()).collect();
    let mask = vec![false; 50];
    for y in vals(&gaussian_smooth::<Float>(&bs(&xs), &bs(&ys), &mask, b(0.8))) {
        assert!((-1.0..=1.0).contains(&y));
    }
    for y in vals(&gaussian_smooth::<Float>(&bs(&xs), &vec![b(3.0); 50], &mask, b(0.8))) {
        assert!((y - 3.0).abs() < 1e-14);
    }
}

// -------------------------------------------------------------------- random numbers

#[test]
fn deterministic() {
    let mut a = Rng::new(SYNTH_SEED);
    let stream: Vec<u64> = (0..8).map(|_| a.u64()).collect();
    for (i, v) in stream.iter().enumerate() {
        let mut r = Rng::new(SYNTH_SEED);
        for _ in 0..i {
            r.u64();
        }
        assert_eq!(r.u64(), *v);
    }
}

#[test]
fn synth_is_deterministic() {
    let a = synthetic_csv::<Float, Float>().unwrap();
    let b = synthetic_csv::<Float, Float>().unwrap();
    assert_eq!(a, b);
    assert_eq!(a.lines().count(), 901);
}

#[test]
fn normal_mean_variance() {
    let mut r = Rng::new(7001);
    let n = 2_000_000u64;
    let (m, v) = (0..n).fold((0.0f64, 0.0f64), |(s, s2), _| {
        let z = f(r.normal::<Float>().unwrap());
        (s + z, s2 + z * z)
    });
    assert!((m / n as f64).abs() < 1e-3);
    assert!((v / n as f64 - 1.0).abs() < 1e-2);
}

#[test]
fn generator_steps_as_described() {
    let mut r = Rng { s0: 1, s1: 2, spare: None };
    let t: u64 = 1 ^ (1 << 23);
    let s1 = t ^ 2 ^ (t >> 18) ^ (2 >> 5);
    assert_eq!(r.u64(), s1 + 2);
    assert_eq!((r.s0, r.s1), (2, s1));
    let mut a = Rng::new(5);
    let mut c = Rng::new(5);
    let u = f(a.uniform());
    assert_eq!(u, (c.u64() >> 11) as f64 / (1u64 << 53) as f64);
    assert!((0.0..1.0).contains(&u));
}

#[test]
fn a_normal_deviate_comes_of_the_first_pair_within_the_circle() {
    for seed in 0..200u64 {
        let mut r = Rng::new(seed);
        let mut g = Rng::new(seed);
        let (u, v, s) = loop {
            let u = f(g.uniform()) * 2.0 - 1.0;
            let v = f(g.uniform()) * 2.0 - 1.0;
            let s = u * u + v * v;
            if s < 1.0 && s > 0.0 {
                break (u, v, s);
            }
        };
        let k = (-2.0 * s.ln() / s).sqrt();
        assert_eq!(f(r.normal::<Float>().unwrap()), u * k);
        assert_eq!((r.s0, r.s1), (g.s0, g.s1));
        assert_eq!(f(r.spare.unwrap()), v * k);
    }
}

#[test]
fn normal_deviates_come_in_pairs() {
    let mut r = Rng::new(3);
    let z = r.normal::<Float>();
    assert!(z.is_some());
    let spare = r.spare;
    assert!(spare.is_some());
    let words = (r.s0, r.s1);
    assert_eq!(r.normal::<Float>(), spare);
    assert_eq!((r.s0, r.s1), words);
    assert!(r.spare.is_none());
}

// ---------------------------------------------------------------------------- units

#[test]
fn scalar_roundtrip() {
    for x in [400.0_f64, 550.0, 800.0] {
        for u in [XUnit::Nm, XUnit::CmInv, XUnit::Ev] {
            for v in [XUnit::Nm, XUnit::CmInv, XUnit::Ev] {
                let back =
                    f(convert_scalar::<Float>(convert_scalar::<Float>(b(x), u, v), v, u));
                assert!((back - x).abs() < 1e-10 * x, "{x} {u:?} {v:?} {back}");
            }
        }
    }
}

#[test]
fn known_constants() {
    let ev = f(convert_scalar::<Float>(b(1239.841_984_392_919_6), XUnit::Nm, XUnit::Ev));
    assert!((ev - 1.0).abs() < 1e-12);
    let cm = f(convert_scalar::<Float>(b(500.0), XUnit::Nm, XUnit::CmInv));
    assert!((cm - 20000.0).abs() < 1e-9);
}

#[test]
fn interval_preserves_range_through_inversion() {
    let nm = Interval::new(b(500.0), b(510.0), XUnit::Nm);
    let ev = nm.to_unit::<Float>(XUnit::Ev);
    // reciprocal transform reverses ordering; constructor re-sorts.
    assert!(f(ev.lo) < f(ev.hi));
    assert!(nm.same_physical_range::<Float>(&ev, b(1e-12)));
    // A point inside the range stays inside after both are converted.
    let p_nm = 505.0;
    let p_ev = convert_scalar::<Float>(b(p_nm), XUnit::Nm, XUnit::Ev);
    assert!(ev.contains(p_ev));
}

#[test]
fn peak_width_maps_to_same_range() {
    let (c, w) = convert_peak::<Float>(b(500.0), b(2.0), XUnit::Nm, XUnit::Ev);
    let (cn, wn) = convert_peak::<Float>(c, w, XUnit::Ev, XUnit::Nm);
    let (cn, wn) = (f(cn), f(wn));
    assert!((cn - 500.0).abs() < 1e-9);
    // symmetric-span convention; reciprocal transform gives small
    // asymmetry, tolerance reflects the documented convention.
    assert!((wn - 2.0).abs() / 2.0 < 1e-5, "wn {wn}");
}

#[test]
fn what_has_no_reciprocal_is_left_alone() {
    for x in [0.0, -0.0, f64::INFINITY, f64::NAN] {
        let y = convert_scalar::<Float>(b(x), XUnit::Nm, XUnit::Ev);
        assert_eq!(y.bits, x.to_bits());
    }
    let i = Interval::new(b(3.0), b(1.0), XUnit::Nm);
    assert_eq!((f(i.lo), f(i.hi)), (1.0, 3.0));
    assert!(i.contains(b(1.0)) && i.contains(b(3.0)) && !i.contains(b(3.1)));
    let j = Interval::new(b(1.0), b(3.5), XUnit::Nm);
    assert!(!i.same_physical_range::<Float>(&j, b(1e-12)));
}

#[test]
fn converted_intervals_keep_their_points() {
    let units = [XUnit::Nm, XUnit::CmInv, XUnit::Ev];
    for (lo, hi) in [(500.0, 510.0), (0.3, 0.3), (1e-5, 9e5), (1.7, 2.9)] {
        for from in units {
            for to in units {
                let i = Interval::new(b(lo), b(hi), from);
                let j = i.to_unit::<Float>(to);
                assert!(j.unit == to && f(j.lo) <= f(j.hi));
                let p = f(convert_scalar::<Float>(b(lo), from, to));
                let q = f(convert_scalar::<Float>(b(hi), from, to));
                let swapped = (from == XUnit::Nm) != (to == XUnit::Nm);
                assert_eq!((f(j.lo), f(j.hi)), if swapped { (q, p) } else { (p, q) });
                assert!(i.same_physical_range::<Float>(&j, b(1e-12)));
                for k in 0..=100 {
                    let x = (lo + (hi - lo) * k as f64 / 100.0).min(hi);
                    assert!(j.contains(convert_scalar::<Float>(b(x), from, to)));
                }
            }
        }
    }
}

#[test]
fn an_endpoint_that_is_no_number_fails() {
    let nm = |lo: f64, hi: f64| Interval { lo: b(lo), hi: b(hi), unit: XUnit::Nm };
    let tol = b(1e-12);
    let point = nm(5.0, 5.0);
    assert!(point.same_physical_range::<Float>(&nm(5.0, 5.0), tol));
    assert!(!nm(f64::NAN, 5.0).same_physical_range::<Float>(&point, tol));
    assert!(!nm(5.0, f64::NAN).same_physical_range::<Float>(&point, tol));
    assert!(!point.same_physical_range::<Float>(&nm(f64::NAN, 5.0), tol));
    assert!(!point.same_physical_range::<Float>(&nm(5.0, f64::NAN), tol));
    let none = nm(f64::NAN, f64::NAN);
    assert!(!none.same_physical_range::<Float>(&none, tol));
}

#[test]
fn units_are_named() {
    assert_eq!(XUnit::parse(" NM "), Some(XUnit::Nm));
    assert_eq!(XUnit::parse("cm^-1"), Some(XUnit::CmInv));
    assert_eq!(XUnit::parse("eV"), Some(XUnit::Ev));
    assert_eq!(XUnit::parse("parsec"), None);
    for u in [XUnit::Nm, XUnit::CmInv, XUnit::Ev] {
        assert_eq!(XUnit::parse(u.as_str()), Some(u));
    }
}

// ----------------------------------------------------------------- numbers as patterns

#[test]
fn comparisons_are_those_of_the_machine() {
    let all = [
        0.0, -0.0, 1.0, -1.0, 2.5, -2.5, 5e-324, -5e-324, f64::MAX, f64::MIN, f64::INFINITY,
        f64::NEG_INFINITY, f64::NAN, 1e-310, 0.1,
    ];
    for x in all {
        assert_eq!(b(x).is_nan(), x.is_nan());
        assert_eq!(b(x).is_finite(), x.is_finite());
        assert_eq!(b(x).is_zero(), x == 0.0);
        assert_eq!(b(x).abs().bits, x.abs().to_bits());
        assert_eq!(b(x).neg().bits, (-x).to_bits());
        for y in all {
            assert_eq!(b(x).lt(&b(y)), x < y, "{x} {y}");
            assert_eq!(b(x).le(&b(y)), x <= y, "{x} {y}");
            assert_eq!(b(x).same(&b(y)), x == y, "{x} {y}");
            assert_eq!(b(x).copysign(b(y)).bits, x.copysign(y).to_bits());
            if x != y {
                if !x.is_nan() || !y.is_nan() {
                    assert_eq!(f(b(x).max(b(y))), x.max(y), "{x} {y}");
                    assert_eq!(f(b(x).min(b(y))), x.min(y), "{x} {y}");
                }
            }
        }
    }
}
