//! Peak fits with the floating-point numbers of the machine.

use spectra_lab::arithmetic::Arithmetic;
use spectra_lab::binary64::Binary64;
use spectra_lab::fit::{gram_of, jacobian, residuals, Problem, MAX_ITER};
use spectra_lab::layout::{build_layout, from_free, to_free};
use spectra_lab::model::{eval_peaks, gauss_line, PeakKind, PeakSpec};
use spectra_lab::quadrature::voigt_nodes;
use spectra_lab::report::{fit, FitReport};
use spectra_lab::rng::Rng;

struct Float;

fn b(x: f64) -> Binary64 {
    Binary64 { bits: x.to_bits() }
}

fn f(x: Binary64) -> f64 {
    f64::from_bits(x.bits)
}

fn bs(v: &[f64]) -> Vec<Binary64> {
    v.iter().map(|x| b(*x)).collect()
}

impl Arithmetic for Float {
    fn plus(x: Binary64, y: Binary64) -> Binary64 {
        b(f(x) + f(y))
    }
    fn minus(x: Binary64, y: Binary64) -> Binary64 {
        b(f(x) - f(y))
    }
    fn times(x: Binary64, y: Binary64) -> Binary64 {
        b(f(x) * f(y))
    }
    fn over(x: Binary64, y: Binary64) -> Binary64 {
        b(f(x) / f(y))
    }
    fn root(x: Binary64) -> Binary64 {
        b(f(x).sqrt())
    }
    fn exp(x: Binary64) -> Binary64 {
        b(f(x).exp())
    }
    fn ln(x: Binary64) -> Binary64 {
        b(f(x).ln())
    }
    fn hypot(x: Binary64, y: Binary64) -> Binary64 {
        b(f(x).hypot(f(y)))
    }
    fn power(x: Binary64, n: usize) -> Binary64 {
        b(f(x).powi(n as i32))
    }
    fn of_count(n: usize) -> Binary64 {
        b(n as f64)
    }
}

fn peak(kind: PeakKind, center0: f64, width0: f64, amp0: f64, fix_center: bool) -> PeakSpec {
    PeakSpec { kind, center0: b(center0), width0: b(width0), amp0: b(amp0), fix_center }
}

fn recover(specs: Vec<PeakSpec>, truth: &[(PeakKind, f64, f64, f64)]) {
    let nodes = voigt_nodes::<Float>().unwrap();
    let xs: Vec<Binary64> = (0..1000).map(|i| b(i as f64 * 0.01)).collect();
    let kinds: Vec<PeakKind> = truth.iter().map(|t| t.0).collect();
    let p: Vec<Binary64> = truth.iter().flat_map(|t| vec![b(t.1), b(t.2), b(t.3)]).collect();
    let ys: Vec<Binary64> =
        xs.iter().map(|x| eval_peaks::<Float>(&nodes, *x, &kinds, &p)).collect();
    let mask = vec![false; xs.len()];
    let rep: FitReport = fit::<Float>(&nodes, &xs, &ys, &mask, &specs);
    assert!(rep.converged, "{}", rep.status);
    assert!(f(rep.rmse) < 1e-6, "rmse {}", f(rep.rmse));
    for (got, t) in rep.peaks.iter().zip(truth) {
        assert!((f(got.center) - t.1).abs() < 1e-4, "center {} {}", f(got.center), t.1);
        assert!((f(got.width) - t.2).abs() < 1e-4 * t.2, "width");
        assert!((f(got.height) - t.3).abs() < 1e-5 * t.3, "height");
    }
}

#[test]
fn recovers_two_gaussians() {
    recover(
        vec![
            peak(PeakKind::Gauss, 2.9, 0.5, 1.0, false),
            peak(PeakKind::Gauss, 7.2, 0.4, 0.5, false),
        ],
        &[(PeakKind::Gauss, 3.0, 0.3, 2.0), (PeakKind::Gauss, 7.0, 0.2, 0.7)],
    );
}

#[test]
fn recovers_lorentzian_with_fixed_center() {
    recover(
        vec![peak(PeakKind::Lorentz, 5.0, 0.7, 1.0, true)],
        &[(PeakKind::Lorentz, 5.0, 0.4, 3.0)],
    );
}

#[test]
fn noisy_fit_ci_coverage_rate() {
    let (c, w, h) = (6.0_f64, 0.25, 2.0);
    let truth = h * w * (std::f64::consts::PI / (4.0 * std::f64::consts::LN_2)).sqrt();
    let mut covered = 0;
    let total = 12;
    let nodes: Vec<(Binary64, Binary64)> = Vec::new();
    for seed in 1..=12u64 {
        let mut rng = Rng::new(7000 + seed);
        let xs: Vec<Binary64> = (0..2400).map(|i| b(i as f64 * 0.005)).collect();
        let ys: Vec<Binary64> = xs
            .iter()
            .map(|x| {
                let z = rng.normal::<Float>().unwrap();
                b(f(gauss_line::<Float>(*x, b(c), b(w), b(h))) + f(z) * 0.005)
            })
            .collect();
        let mask = vec![false; xs.len()];
        let rep = fit::<Float>(
            &nodes,
            &xs,
            &ys,
            &mask,
            &vec![peak(PeakKind::Gauss, 6.05, 0.4, 1.5, false)],
        );
        assert!(rep.converged);
        let ci = rep.peaks[0].area_ci95;
        if truth > f(ci.0) && truth < f(ci.1) {
            covered += 1;
        }
    }
    assert!(covered >= 8, "coverage {covered}/{total} (67% floor, nominal 95%)");
}

fn grid(n: usize, step: f64) -> Vec<Binary64> {
    (0..n).map(|i| b(i as f64 * step)).collect()
}

/// A noisy Gaussian with its fit.
fn noisy_gauss() -> (Vec<Binary64>, Vec<Binary64>, Vec<PeakSpec>, FitReport) {
    let mut rng = Rng::new(11);
    let xs = grid(400, 0.02);
    let ys: Vec<Binary64> = xs
        .iter()
        .map(|x| {
            let z = rng.normal::<Float>().unwrap();
            b(f(gauss_line::<Float>(*x, b(4.0), b(0.5), b(2.0))) + 0.01 * f(z))
        })
        .collect();
    let specs = vec![peak(PeakKind::Gauss, 4.1, 0.7, 1.0, false)];
    let rep = fit::<Float>(&Vec::new(), &xs, &ys, &vec![false; xs.len()], &specs);
    (xs, ys, specs, rep)
}

#[test]
fn quality_measures_follow_their_formulas() {
    let (xs, ys, _, rep) = noisy_gauss();
    assert!(rep.converged);
    let n = xs.len() as f64;
    let k = 3.0;
    let rss: f64 = rep.fitted.iter().zip(&ys).map(|(m, y)| (f(*m) - f(*y)).powi(2)).sum();
    assert!((f(rep.rss) - rss).abs() < 1e-12 * rss);
    assert_eq!(rep.chi2.bits, rep.rss.bits);
    assert_eq!(rep.dof, xs.len() - 3);
    assert_eq!(f(rep.rmse), (f(rep.rss) / n).sqrt());
    assert_eq!(f(rep.aic), n * (f(rep.rss) / n).ln() + 2.0 * k);
    assert_eq!(f(rep.bic), n * (f(rep.rss) / n).ln() + k * n.ln());
    assert_eq!(rep.free_map, vec![(0, 0), (0, 1), (0, 2)]);
}

#[test]
fn covariance_is_the_inverse_of_the_normal_matrix() {
    let (xs, ys, specs, rep) = noisy_gauss();
    let layout = build_layout::<Float>(&specs);
    let mask = vec![false; xs.len()];
    let nodes = Vec::new();
    let q = to_free::<Float>(&layout, &rep.params);
    let pb = Problem { nodes: &nodes, xs: &xs, ys: &ys, mask: &mask, layout: &layout };
    let cols = jacobian::<Float>(&pb, &q);
    let jtj = gram_of::<Float>(&cols, xs.len());
    let s2 = f(rep.rss) / rep.dof as f64;
    for i in 0..3 {
        for j in 0..3 {
            let v: f64 = (0..3).map(|k| f(jtj[i * 3 + k]) * f(rep.covariance[k * 3 + j])).sum();
            let want = if i == j { s2 } else { 0.0 };
            assert!((v - want).abs() < 1e-8 * s2, "{i} {j} {v}");
        }
    }
    for i in 0..3 {
        assert!((f(rep.correlation[i * 3 + i]) - 1.0).abs() < 1e-12);
        for j in 0..3 {
            assert_eq!(jtj[i * 3 + j], jtj[j * 3 + i]);
            let gap = f(rep.correlation[i * 3 + j]) - f(rep.correlation[j * 3 + i]);
            assert!(gap.abs() < 1e-9);
        }
    }
}

#[test]
fn interval_is_centred_on_the_area() {
    let (_, _, _, rep) = noisy_gauss();
    let p = &rep.peaks[0];
    let area = f(p.height) * f(p.width)
        * (std::f64::consts::PI / (4.0 * std::f64::consts::LN_2)).sqrt();
    assert!((f(p.area) - area).abs() < 1e-14 * area);
    assert_eq!(f(p.area_ci95.0), f(p.area) - 1.959_964_348_275_349_5 * f(p.area_se));
    assert_eq!(f(p.area_ci95.1), f(p.area) + 1.959_964_348_275_349_5 * f(p.area_se));
    assert!(p.sigma.is_none() && p.gamma.is_none());
}

#[test]
fn excluded_points_do_not_matter() {
    let xs = grid(300, 0.02);
    let ys: Vec<Binary64> =
        xs.iter().map(|x| gauss_line::<Float>(*x, b(3.0), b(0.4), b(1.5))).collect();
    let mut mask = vec![false; xs.len()];
    mask[17] = true;
    mask[150] = true;
    let mut spiked = ys.clone();
    spiked[17] = b(1e6);
    spiked[150] = b(f64::NAN);
    let specs = vec![peak(PeakKind::Gauss, 3.1, 0.5, 1.0, false)];
    let a = fit::<Float>(&Vec::new(), &xs, &ys, &mask, &specs);
    let c = fit::<Float>(&Vec::new(), &xs, &spiked, &mask, &specs);
    assert!(a.converged && c.converged);
    assert_eq!(a.chi2.bits, c.chi2.bits);
    assert_eq!(a.params, c.params);
    assert_eq!(a.iterations, c.iterations);
    assert_eq!(a.dof, 295);
    assert!(f(c.residual[150]).is_nan() && !f(c.residual[149]).is_nan());
    // every other field is the same, too
    assert_eq!(a.status, c.status);
    for (x, y) in [(a.rmse, c.rmse), (a.aic, c.aic), (a.bic, c.bic), (a.rss, c.rss)] {
        assert_eq!(x.bits, y.bits);
    }
    assert_eq!(a.covariance, c.covariance);
    assert_eq!(a.correlation, c.correlation);
    assert_eq!(a.free_map, c.free_map);
    assert_eq!(a.fitted, c.fitted);
    assert_eq!(a.peaks[0].area.bits, c.peaks[0].area.bits);
    assert_eq!(a.peaks[0].area_se.bits, c.peaks[0].area_se.bits);
    assert_eq!(a.trace.len(), c.trace.len());
    for (x, y) in a.trace.iter().zip(&c.trace) {
        assert_eq!((x.iter, x.chi2, &x.params), (y.iter, y.chi2, &y.params));
    }
    for (x, y) in a.residual.iter().zip(&c.residual) {
        assert!(x.bits == y.bits || f(*x).is_nan() && f(*y).is_nan());
    }
}

#[test]
fn fixed_centre_stays_and_widths_stay_positive() {
    let (xs, ys, _, _) = noisy_gauss();
    let specs = vec![peak(PeakKind::Lorentz, 4.05, 0.7, 1.0, true)];
    let rep = fit::<Float>(&Vec::new(), &xs, &ys, &vec![false; xs.len()], &specs);
    assert_eq!(f(rep.peaks[0].center), 4.05);
    assert_eq!(rep.free_map, vec![(0, 1), (0, 2)]);
    for t in &rep.trace {
        assert_eq!(f(t.params[0]), 4.05);
        assert!(f(t.params[1]) > 0.0 && f(t.params[2]) > 0.0);
    }
}

#[test]
fn chi_square_falls_along_the_accepted_steps() {
    let (_, _, _, rep) = noisy_gauss();
    let mut last = f64::INFINITY;
    for t in rep.trace.iter().filter(|t| t.accepted) {
        assert!(f(t.chi2) < last);
        last = f(t.chi2);
    }
    assert_eq!(last, f(rep.chi2));
    assert_eq!(rep.trace[0].iter, 0);
    assert_eq!(rep.trace.len(), rep.iterations + 1);
}

#[test]
fn free_vector_and_parameters_belong_together() {
    let specs = vec![
        peak(PeakKind::Gauss, 1.0, 0.5, 2.0, true),
        peak(PeakKind::Voigt, 2.0, 0.25, 3.0, false),
    ];
    let layout = build_layout::<Float>(&specs);
    let q = to_free::<Float>(&layout, &layout.p0);
    assert_eq!(q.len(), 6);
    assert_eq!(f(q[0]), 0.5_f64.ln());
    assert_eq!(f(q[2]), 2.0);
    let p = from_free::<Float>(&layout, &q);
    for (x, y) in p.iter().zip(&layout.p0) {
        assert!((f(*x) - f(*y)).abs() < 1e-15 * f(*y));
    }
    assert_eq!(p[0], layout.p0[0]);
}

#[test]
fn too_few_points_are_underdetermined() {
    let xs = grid(3, 1.0);
    let ys = bs(&[0.0, 1.0, 0.0]);
    let specs = vec![peak(PeakKind::Gauss, 1.0, 1.0, 1.0, false)];
    let rep = fit::<Float>(&Vec::new(), &xs, &ys, &vec![false; 3], &specs);
    assert!(!rep.converged);
    assert_eq!(rep.status, "underdetermined");
    assert_eq!(rep.dof, 0);
    assert_eq!(rep.trace.len(), 1);
    assert!(f(rep.covariance[0]).is_nan());
}

#[test]
fn a_fit_without_finite_values_takes_no_step() {
    let xs = grid(20, 1.0);
    let mut ys = vec![b(1.0); 20];
    ys[5] = b(f64::NAN);
    let specs = vec![peak(PeakKind::Gauss, 9.0, 3.0, 1.0, false)];
    let rep = fit::<Float>(&Vec::new(), &xs, &ys, &vec![false; 20], &specs);
    assert!(!rep.converged);
    assert_eq!(rep.status, "no_finite_step");
    assert!(!rep.trace.is_empty());
    assert!(rep.iterations <= MAX_ITER);
}

#[test]
fn voigt_profile_is_fitted() {
    let nodes = voigt_nodes::<Float>().unwrap();
    let xs = grid(400, 0.02);
    let kinds = vec![PeakKind::Voigt];
    let truth = bs(&[4.0, 0.3, 0.2, 1.5]);
    let ys: Vec<Binary64> =
        xs.iter().map(|x| eval_peaks::<Float>(&nodes, *x, &kinds, &truth)).collect();
    let specs = vec![peak(PeakKind::Voigt, 4.1, 0.5, 1.0, false)];
    let rep = fit::<Float>(&nodes, &xs, &ys, &vec![false; xs.len()], &specs);
    assert!(rep.converged, "{}", rep.status);
    let p = &rep.peaks[0];
    assert!((f(p.area) - 1.5).abs() < 1e-4);
    assert!((f(p.sigma.unwrap()) - 0.3).abs() < 1e-3);
    assert!((f(p.gamma.unwrap()) - 0.2).abs() < 1e-3);
}

#[test]
fn steps_go_downhill() {
    let (xs, ys, specs, rep) = noisy_gauss();
    let layout = build_layout::<Float>(&specs);
    let mask = vec![false; xs.len()];
    let nodes = Vec::new();
    let pb = Problem { nodes: &nodes, xs: &xs, ys: &ys, mask: &mask, layout: &layout };
    let taken: Vec<_> = rep.trace.iter().filter(|t| t.accepted).collect();
    assert!(taken.len() > 3);
    for pair in taken.windows(2).take(3) {
        let q = to_free::<Float>(&layout, &pair[0].params);
        let next = to_free::<Float>(&layout, &pair[1].params);
        let cols = jacobian::<Float>(&pb, &q);
        let r = residuals::<Float>(&pb, &pair[0].params);
        let mut rise = 0.0;
        for k in 0..q.len() {
            let slope: f64 = cols[k].iter().zip(&r).map(|(a, b)| f(*a) * f(*b)).sum();
            rise += slope * (f(next[k]) - f(q[k]));
        }
        assert!(rise < 0.0, "{rise}");
    }
}
