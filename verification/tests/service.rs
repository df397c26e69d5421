//! Uploads, evaluations and requests from end to end, over a store in memory.

use spectra_lab::acceptance::{accept_scheme, accepted_reply, read_wish};
use spectra_lab::api::{
    convert_endpoint, create_scheme, created_reply, dataset_query, list_schemes, prepare_upload,
    upload_reply, ConvertRequest, Reply, SchemeLine,
};
use spectra_lab::arithmetic::Arithmetic;
use spectra_lab::binary64::Binary64;
use spectra_lab::data::{parse_csv, Spectrum, MIN_ROWS};
use spectra_lab::db::{Artifact, Change, Dataset, JobHit, NewFit, NewScheme};
use spectra_lab::hash::sha256_hex;
use spectra_lab::json::canonical_json;
use spectra_lab::model::{gauss_line, PeakKind, PeakSpec};
use spectra_lab::notation::Notation;
use spectra_lab::quadrature::voigt_nodes;
use spectra_lab::run::{run_fit, Course, FitRequest, News, Order};
use spectra_lab::scheme::{
    artifact_hash, exclusion_mask, fingerprint, run_pipeline, BaselineSpec, SchemeSpec,
};
use spectra_lab::server::{route, Target};
use spectra_lab::synthetic::{synthetic_csv, synthetic_truth};
use spectra_lab::units::XUnit;
use serde_json::Value;

struct Float;

fn b(x: f64) -> Binary64 {
    Binary64 { bits: x.to_bits() }
}

fn f(x: Binary64) -> f64 {
    f64::from_bits(x.bits)
}

fn bs(v: &[f64]) -> Vec<Binary64> {
    v.iter().map(|x| b(*x)).collect()
}

impl Arithmetic for Float {
    fn plus(x: Binary64, y: Binary64) -> Binary64 {
        b(f(x) + f(y))
    }
    fn minus(x: Binary64, y: Binary64) -> Binary64 {
        b(f(x) - f(y))
    }
    fn times(x: Binary64, y: Binary64) -> Binary64 {
        b(f(x) * f(y))
    }
    fn over(x: Binary64, y: Binary64) -> Binary64 {
        b(f(x) / f(y))
    }
    fn root(x: Binary64) -> Binary64 {
        b(f(x).sqrt())
    }
    fn exp(x: Binary64) -> Binary64 {
        b(f(x).exp())
    }
    fn ln(x: Binary64) -> Binary64 {
        b(f(x).ln())
    }
    fn hypot(x: Binary64, y: Binary64) -> Binary64 {
        b(f(x).hypot(f(y)))
    }
    fn power(x: Binary64, n: usize) -> Binary64 {
        b(f(x).powi(n as i32))
    }
    fn of_count(n: usize) -> Binary64 {
        b(n as f64)
    }
}

impl Notation for Float {
    fn parse(text: &str) -> Result<Binary64, String> {
        text.parse::<f64>().map(b).map_err(|e| e.to_string())
    }
    fn numeral(x: Binary64) -> Option<String> {
        serde_json::Number::from_f64(f(x)).map(|n| n.to_string())
    }
    fn shortest(x: Binary64) -> String {
        format!("{}", f(x))
    }
    fn fixed(x: Binary64, digits: usize) -> String {
        format!("{:.*}", digits, f(x))
    }
    fn scientific(x: Binary64, digits: usize) -> String {
        format!("{:.*e}", digits, f(x))
    }
}

fn peak(kind: PeakKind, center0: f64, width0: f64, amp0: f64, fix_center: bool) -> PeakSpec {
    PeakSpec { kind, center0: b(center0), width0: b(width0), amp0: b(amp0), fix_center }
}

fn s(t: &str) -> String {
    t.to_string()
}

fn spectrum(csv: &str) -> Spectrum {
    match parse_csv::<Float>(csv) {
        Ok(sp) => sp,
        Err(e) => panic!("{e}"),
    }
}

fn parsed(r: &Reply) -> (u16, Value) {
    (r.code, serde_json::from_str(&r.payload).unwrap())
}

// ---------------------------------------------------------------------- diagnostics

#[test]
fn diagnostics_independent() {
    let csv = "w,y\n1,1\n2,2\n2,3\n3,nan\n4,5\n3,4\n5,6";
    let s = spectrum(csv);
    assert_eq!(s.diagnostics.rows_read, 7);
    assert_eq!(s.diagnostics.rows_kept, 6);
    assert_eq!(s.diagnostics.nonfinite_rows, vec![5]);
    assert_eq!(s.diagnostics.duplicate_x, vec![b(2.0)]);
    assert_eq!(s.diagnostics.nonmonotonic_pairs.len(), 1);
    assert!(s.diagnostics.too_few_rows);
}

#[test]
fn decreasing_is_monotonic() {
    let s = spectrum("w,y\n5,1\n4,1\n3,1\n2,1\n1,1\n0,1\n-1,1\n-2,1");
    assert_eq!(s.diagnostics.monotonic.as_deref(), Some("decreasing"));
    assert!(!s.diagnostics.too_few_rows);
    assert!(s.diagnostics.nonmonotonic_pairs.is_empty());
}

#[test]
fn header_units_detected() {
    let s = spectrum("energy(eV),absorbance\n1,1\n2,2\n3,3\n4,4\n5,5\n6,6\n7,7\n8,8");
    assert!(XUnit::parse(&s.x_header).is_some());
}

#[test]
fn every_row_is_accounted_for() {
    let s = spectrum("w,y\n# note\n1,1\n\n2\nx,2\n3,y\ninf,1\n4,4");
    let d = &s.diagnostics;
    assert_eq!(d.rows_read, 6);
    assert_eq!(d.rows_kept + d.nonfinite_rows.len() + d.parse_errors.len(), d.rows_read);
    assert_eq!(s.source_rows, vec![3, 9]);
    assert_eq!(d.nonfinite_rows, vec![8]);
    let rows: Vec<usize> = d.parse_errors.iter().map(|p| p.0).collect();
    assert_eq!(rows, vec![5, 6, 7]);
    assert_eq!(d.parse_errors[0].1, "expected 2 numeric columns");
    assert_eq!(d.parse_errors[1].1, "x parse error: invalid float literal");
    assert_eq!(d.parse_errors[2].1, "y parse error: invalid float literal");
    assert_eq!(MIN_ROWS, 8);
}

#[test]
fn rows_have_the_numbers_of_their_lines() {
    let s = spectrum("# note\nw,y\n1,1\n\n2,2");
    let x: Vec<f64> = s.x.iter().map(|v| f(*v)).collect();
    assert_eq!(x, vec![1.0, 2.0]);
    assert_eq!(s.source_rows, vec![3, 5]);
    let t = spectrum("w,y\n1,1\n2,2");
    assert_eq!(t.source_rows, vec![2, 3]);
}

#[test]
fn a_text_is_read_in_one_way() {
    let text = "w,y\n5,1\nx,1\n5,2\nnan,1\n4,2";
    let (a, c) = (spectrum(text), spectrum(text));
    assert_eq!((&a.x, &a.y, &a.source_rows), (&c.x, &c.y, &c.source_rows));
    assert_eq!(a.diagnostics.parse_errors, c.diagnostics.parse_errors);
    assert_eq!(a.diagnostics.nonfinite_rows, c.diagnostics.nonfinite_rows);
    assert_eq!(a.diagnostics.duplicate_x, c.diagnostics.duplicate_x);
}

#[test]
fn repeated_coordinates_are_listed_in_order() {
    let s = spectrum("w,y\n5,1\n-1,1\n5,2\n0.0,1\n-0.0,2\n-1,3\n5,4\n7,1");
    let d: Vec<f64> = s.diagnostics.duplicate_x.iter().map(|x| f(*x)).collect();
    assert_eq!(d, vec![-1.0, 0.0, 5.0]);
    assert_eq!(s.diagnostics.monotonic, None);
    let breaks: Vec<usize> = s.diagnostics.nonmonotonic_pairs.iter().map(|p| p.0).collect();
    assert_eq!(breaks, vec![1, 3, 5]);
}

#[test]
fn texts_that_are_no_tables_are_refused() {
    let fault = |t: &str| match parse_csv::<Float>(t) {
        Err(e) => e,
        Ok(_) => panic!("a table"),
    };
    assert_eq!(fault(""), "empty CSV");
    assert_eq!(fault("# only notes\n\n"), "empty CSV");
    assert_eq!(fault("one column\n1\n"), "header must contain at least two columns");
}

// ------------------------------------------------------------------------- schemes

fn one_peak() -> SchemeSpec {
    SchemeSpec {
        smooth_sigma: b(0.0),
        baseline: BaselineSpec {
            degree: 1,
            windows: vec![(b(0.0), b(1.0)), (b(9.0), b(10.0))],
        },
        excluded_x: vec![],
        peaks: vec![peak(PeakKind::Gauss, 5.0, 0.5, 1.0, false)],
    }
}

#[test]
fn fingerprint_stable_and_sensitive() {
    let s = one_peak();
    let f1 = fingerprint::<Float>("abc", &s);
    let f2 = fingerprint::<Float>("abc", &s);
    assert_eq!(f1, f2);
    let mut s2 = one_peak();
    s2.peaks[0].fix_center = true;
    assert_ne!(f1, fingerprint::<Float>("abc", &s2));
    assert_ne!(f1, fingerprint::<Float>("abd", &s));
}

#[test]
fn fingerprint_changes_with_every_choice() {
    let mut all = vec![fingerprint::<Float>("abc", &one_peak())];
    let mut changed = |change: &dyn Fn(&mut SchemeSpec)| {
        let mut s = one_peak();
        change(&mut s);
        all.push(fingerprint::<Float>("abc", &s));
    };
    changed(&|s| s.smooth_sigma = b(0.1));
    changed(&|s| s.baseline.degree = 2);
    changed(&|s| s.baseline.windows[1].0 = b(9.5));
    changed(&|s| s.baseline.windows.truncate(1));
    changed(&|s| s.excluded_x.push(b(3.0)));
    changed(&|s| s.peaks[0].kind = PeakKind::Voigt);
    changed(&|s| s.peaks[0].center0 = b(5.5));
    changed(&|s| s.peaks[0].width0 = b(0.25));
    changed(&|s| s.peaks[0].amp0 = b(-1.0));
    changed(&|s| s.peaks.clear());
    for i in 0..all.len() {
        for j in 0..i {
            assert_ne!(all[i], all[j], "{i} {j}");
        }
    }
}

#[test]
fn fingerprint_is_taken_of_the_canonical_scheme() {
    let body = "abc\n{\"baseline\":{\"degree\":1,\"windows\":[[0.0,1.0],[9.0,10.0]]},\"excluded_x\":[],\"peaks\":[{\"amp0\":1.0,\"center0\":5.0,\"fix_center\":false,\"kind\":\"gauss\",\"width0\":0.5}],\"smooth_sigma\":0.0}\nmodel-v1.0.0\nlma-v1.0.0\nscheme-v1.0.0";
    assert_eq!(fingerprint::<Float>("abc", &one_peak()), sha256_hex(body.as_bytes()));
}

#[test]
fn artifact_hash_binds_a_curve_to_its_origin() {
    let (xs, ys) = (bs(&[1.0, 2.5]), bs(&[-0.5, 3.0]));
    let h = artifact_hash::<Float>("in", None, "m1", "{}", &xs, &ys);
    let body = "in\n-\nm1\n{}\n1.000000000000000e0,-5.000000000000000e-1;2.500000000000000e0,3.000000000000000e0;";
    assert_eq!(h, sha256_hex(body.as_bytes()));
    let others = [
        artifact_hash::<Float>("in", Some("up"), "m1", "{}", &xs, &ys),
        artifact_hash::<Float>("jn", None, "m1", "{}", &xs, &ys),
        artifact_hash::<Float>("in", None, "m2", "{}", &xs, &ys),
        artifact_hash::<Float>("in", None, "m1", "[]", &xs, &ys),
        artifact_hash::<Float>("in", None, "m1", "{}", &xs, &xs),
    ];
    for o in others {
        assert_ne!(o, h);
    }
}

#[test]
fn pipeline_excludes_and_baselines() {
    let xs: Vec<f64> = (0..200).map(|i| i as f64 * 0.05).collect();
    let ys: Vec<f64> = xs
        .iter()
        .map(|x| 0.3 + 0.01 * x + f(gauss_line::<Float>(b(*x), b(5.0), b(0.4), b(2.0))))
        .collect();
    let spec = SchemeSpec {
        smooth_sigma: b(0.05),
        baseline: BaselineSpec {
            degree: 1,
            windows: vec![(b(0.0), b(3.5)), (b(6.5), b(10.0))],
        },
        excluded_x: vec![b(7.7)],
        peaks: vec![peak(PeakKind::Gauss, 5.0, 0.5, 1.5, false)],
    };
    let pf = match run_pipeline::<Float>(&Vec::new(), &bs(&xs), &bs(&ys), &spec) {
        Ok(pf) => pf,
        Err(e) => panic!("{e}"),
    };
    assert!(pf.mask[154]); // 7.7 = index 154
    assert!(pf.report.converged);
    assert!(pf.smoothed.is_some());
    assert_eq!(pf.mask.iter().filter(|m| **m).count(), 1);
    for (c, (y, v)) in pf.corrected.iter().zip(ys.iter().zip(&pf.baseline)) {
        assert_eq!(f(*c), y - f(*v));
    }
    // smoothing is for display
    let rough = SchemeSpec { smooth_sigma: b(0.0), ..spec };
    let pg = match run_pipeline::<Float>(&Vec::new(), &bs(&xs), &bs(&ys), &rough) {
        Ok(pg) => pg,
        Err(e) => panic!("{e}"),
    };
    assert!(pg.smoothed.is_none());
    assert_eq!((&pg.mask, &pg.baseline, &pg.corrected), (&pf.mask, &pf.baseline, &pf.corrected));
    assert_eq!(pg.report.params, pf.report.params);
    assert_eq!(pg.report.covariance, pf.report.covariance);
    assert_eq!(pg.report.status, pf.report.status);
}

#[test]
fn exclusion_is_relative_to_the_coordinate() {
    let xs = bs(&[500.0, 500.0000004, 500.0000006, 1e-10, 3.0]);
    let mask = exclusion_mask::<Float>(&xs, &bs(&[500.0, 0.0]));
    assert_eq!(mask, vec![true, true, false, true, false]);
}

// ------------------------------------------------------------------------ the store

struct Scheme {
    row: NewScheme,
    accepted: bool,
}

struct Job {
    fingerprint: String,
    status: String,
    fit: Option<usize>,
}

/// A store in memory; rows are numbered from one.
#[derive(Default)]
struct Store {
    datasets: Vec<Dataset>,
    schemes: Vec<Scheme>,
    jobs: Vec<Job>,
    fits: Vec<NewFit>,
    artifacts: Vec<Artifact>,
}

impl Store {
    fn make(&mut self, c: Change) {
        match c {
            Change::AddDataset(d) => {
                if !self.datasets.iter().any(|e| e.input_hash == d.input_hash) {
                    self.datasets.push(d);
                }
            }
            Change::AddScheme(row) => self.schemes.push(Scheme { row, accepted: false }),
            Change::ClearAccepted(ds) => {
                for k in self.schemes.iter_mut().filter(|k| k.row.dataset == ds) {
                    k.accepted = false;
                }
            }
            Change::SetAccepted(k, a) => self.schemes[k as usize - 1].accepted = a,
            Change::AddJob(fingerprint, _, _) => {
                if !self.jobs.iter().any(|j| j.fingerprint == fingerprint) {
                    self.jobs.push(Job { fingerprint, status: s("queued"), fit: None });
                }
            }
            Change::ResetRunning => {}
            Change::FinishJob(j) => self.jobs[j as usize - 1].status = s("done"),
            Change::AddFit(n) => self.fits.push(n),
            Change::LinkFit(j) => self.jobs[j as usize - 1].fit = Some(self.fits.len() - 1),
            Change::AddArtifact(_, a) => {
                if !self.artifacts.iter().any(|e| e.artifact_hash == a.artifact_hash) {
                    self.artifacts.push(a);
                }
            }
        }
    }

    fn csv(&self, id: i64) -> Option<String> {
        self.datasets.get((id - 1) as usize).map(|d| d.raw_csv.clone())
    }

    fn fit_of(&self, fingerprint: &str) -> Option<&NewFit> {
        let job = self.jobs.iter().find(|j| j.fingerprint == fingerprint)?;
        job.fit.map(|k| &self.fits[k])
    }

    fn upload(&mut self, csv: Option<&str>) -> (u16, Value) {
        let synthetic = csv.is_none();
        let text = match csv {
            Some(t) => s(t),
            None => synthetic_csv::<Float, Float>().unwrap(),
        };
        let up = match prepare_upload::<Float>(text, synthetic, None, None) {
            Ok(up) => up,
            Err(r) => return parsed(&r),
        };
        let hash = up.input_hash.clone();
        self.make(Change::AddDataset(up.dataset::<Float>()));
        let id = self.datasets.iter().position(|d| d.input_hash == hash).unwrap() as i64 + 1;
        let truth = if synthetic { Some(synthetic_truth::<Float>()) } else { None };
        parsed(&upload_reply::<Float>(&up, truth, id))
    }

    fn fit(&mut self, dataset_id: i64, spec: SchemeSpec, auto_candidate: bool) -> (u16, Value) {
        let nodes = voigt_nodes::<Float>().unwrap();
        let req = FitRequest { dataset_id, spec, auto_candidate };
        let mut course = Course::Begun;
        let mut news = News::Dataset(self.csv(dataset_id));
        loop {
            let (next, order) = run_fit::<Float, Float>(&nodes, &req, course, news);
            news = match order {
                Order::FindFit(fp) => News::Fit(self.fit_of(&fp).map(|n| n.report_json.clone())),
                Order::AddScheme(n) => {
                    self.make(Change::AddScheme(n));
                    News::Scheme(Ok(self.schemes.len() as i64))
                }
                Order::ClaimJob(fp, ds, k) => {
                    let find = fp.clone();
                    self.make(Change::AddJob(fp, ds, k));
                    let i = self.jobs.iter().position(|j| j.fingerprint == find).unwrap();
                    let job = &self.jobs[i];
                    News::Job(Ok(JobHit {
                        id: i as i64 + 1,
                        status: job.status.clone(),
                        fit_id: job.fit.map(|k| k as i64 + 1),
                    }))
                }
                Order::Commit(changes) => {
                    for c in changes {
                        self.make(c);
                    }
                    News::Committed(Ok(()))
                }
                Order::Answer(r) => return parsed(&r),
                Order::GiveUp => panic!("given up"),
            };
            course = next.unwrap();
        }
    }

    fn accept(&mut self, body: &str) -> (u16, Value) {
        let w = match read_wish(body) {
            Ok(w) => w,
            Err(r) => return parsed(&r),
        };
        let found = self.schemes.get(w.scheme as usize - 1);
        let origin = found.map(|k| k.row.origin.clone());
        let converged = found.and_then(|k| self.fit_of(&k.row.fingerprint)).map(|n| n.converged);
        let dataset = found.map(|k| k.row.dataset).ok_or(s("Query returned no rows"));
        match accept_scheme(&w, origin, converged, dataset) {
            Err(r) => parsed(&r),
            Ok(changes) => {
                for c in changes {
                    self.make(c);
                }
                parsed(&accepted_reply(&w, Ok(())))
            }
        }
    }

    fn schemes(&self, query: &str) -> (u16, Value) {
        let id = match dataset_query(query) {
            Ok(id) => id,
            Err(r) => return parsed(&r),
        };
        let mut rows: Vec<SchemeLine> = Vec::new();
        for (i, k) in self.schemes.iter().enumerate() {
            if k.row.dataset == id {
                rows.push(SchemeLine {
                    id: i as i64 + 1,
                    spec_json: k.row.spec_json.clone(),
                    origin: k.row.origin.clone(),
                    accepted: k.accepted as i64,
                    parent: k.row.parent,
                    fingerprint: k.row.fingerprint.clone(),
                });
            }
        }
        parsed(&list_schemes(&rows).unwrap())
    }
}

fn spec_v(center: f64, width: f64, fix: bool) -> SchemeSpec {
    SchemeSpec {
        smooth_sigma: b(0.5),
        baseline: BaselineSpec {
            degree: 1,
            windows: vec![(b(380.0), b(470.0)), (b(650.0), b(720.0))],
        },
        excluded_x: vec![],
        peaks: vec![
            peak(PeakKind::Gauss, center, width, 1.0, fix),
            peak(PeakKind::Gauss, 520.0, 9.0, 0.6, false),
            peak(PeakKind::Lorentz, 610.0, 14.0, 0.5, false),
        ],
    }
}

#[test]
fn synthetic_upload_fit_replay_and_immutability() {
    let mut g = Store::default();

    let (code, up) = g.upload(None);
    assert_eq!(code, 200);
    let did = up["dataset_id"].as_i64().unwrap();
    assert_eq!(up["n_points"].as_i64().unwrap(), 900);
    assert!(up["diagnostics"]["duplicate_x"].as_array().unwrap().is_empty());
    assert_eq!(up["synthetic_truth"]["peaks"].as_array().unwrap().len(), 3);
    let raw = g.csv(did).unwrap();

    // First fit
    let (c1, f1) = g.fit(did, spec_v(498.0, 9.0, false), false);
    assert_eq!(c1, 200, "{f1}");
    assert_eq!(f1["replayed"], false);
    assert!(f1["report"]["converged"].as_bool().unwrap(), "{}", f1["report"]["status"]);
    assert!(f1["report"]["peaks"][0]["area_ci95"][0].as_f64().unwrap() > 0.0);
    let fp1 = f1["fingerprint"].as_str().unwrap().to_string();

    // Same inputs/initials/constraints -> dedup replay, identical fingerprint
    let (c2, f2) = g.fit(did, spec_v(498.0, 9.0, false), false);
    assert_eq!(c2, 200);
    assert_eq!(f2["replayed"], true);
    assert_eq!(f2["fingerprint"].as_str().unwrap(), fp1);
    assert_eq!(f2["report"]["status"], f1["report"]["status"]);
    assert_eq!(f2["report"]["iterations"], f1["report"]["iterations"]);
    assert_eq!(g.schemes.len(), 1);
    assert_eq!((g.jobs.len(), g.fits.len(), g.artifacts.len()), (1, 1, 2));
    let kept: Value = serde_json::from_str(&g.fits[0].report_json).unwrap();
    assert_eq!(f2["report"], serde_json::from_str::<Value>(&kept.to_string()).unwrap());

    // Locking the centre is a NEW scheme/fingerprint; the old one remains.
    let (c3, f3) = g.fit(did, spec_v(498.0, 9.0, true), false);
    assert_eq!(c3, 200);
    assert_ne!(f3["fingerprint"].as_str().unwrap(), fp1);

    // Multiple schemes coexist.
    let (_, sc) = g.schemes(&format!("dataset_id={did}"));
    assert!(sc["schemes"].as_array().unwrap().len() >= 2, "schemes {sc}");

    // Auto candidate never auto-accepts; explicit promotion needs the flag.
    let (_, ac) = g.fit(did, spec_v(500.0, 8.0, false), true);
    assert_eq!(ac["accepted"], false);
    let sid = ac["scheme_id"].as_i64().unwrap();
    let (cac0, _) = g.accept(&format!("{{\"scheme_id\":{sid},\"accepted\":true}}"));
    assert_eq!(cac0, 409, "auto candidate must not be promoted silently");
    assert!(!g.schemes[sid as usize - 1].accepted);
    let (cacc, _) = g.accept(&format!(
        "{{\"scheme_id\":{sid},\"accepted\":true,\"confirm_promote_auto\":true}}"
    ));
    assert_eq!(cacc, 200);
    assert!(g.schemes[sid as usize - 1].accepted);

    // Another acceptance takes its place.
    assert_eq!(g.accept("{\"scheme_id\":1}").0, 200);
    let held: Vec<bool> = g.schemes.iter().map(|k| k.accepted).collect();
    assert_eq!(held, vec![true, false, false]);

    // The raw data is what was loaded, and curves are linked.
    assert_eq!(g.csv(did).unwrap(), raw);
    assert_eq!(sha256_hex(raw.as_bytes()), up["input_hash"].as_str().unwrap());
    assert_eq!(g.artifacts[0].kind, "baseline");
    assert_eq!(g.artifacts[0].upstream_hash, None);
    assert_eq!(g.artifacts[1].kind, "smoothed");
    assert_eq!(g.artifacts[1].upstream_hash.as_ref(), Some(&g.artifacts[0].artifact_hash));
    assert_eq!(g.artifacts[1].params_json, "{\"smooth_sigma\":0.5}");

    // index page
    assert!(route("GET", "/") == Target::Index);
}

#[test]
fn unit_conversion_preserves_ranges() {
    let req = ConvertRequest {
        from: s("nm"),
        to: s("eV"),
        x: None,
        intervals: Some(vec![(b(500.0), b(510.0))]),
        peaks: Some(vec![(b(505.0), b(2.0))]),
    };
    let (code, v) = parsed(&convert_endpoint::<Float, Float>(&req));
    assert_eq!(code, 200, "convert response: {v}");
    let iv = v["intervals"][0].as_array().unwrap();
    assert!(iv[0].as_f64().unwrap() < iv[1].as_f64().unwrap());
    // centre of 505 nm = 1239.841984/505 eV
    let c = v["peaks"][0][0].as_f64().unwrap();
    assert!((c - 1239.841_984_392_919_6 / 505.0).abs() < 1e-9);
    assert_eq!(v["x"], Value::Null);
    assert_eq!(v["units_version"], "units-v1.0.0");
    let req = ConvertRequest { from: s("furlong"), to: s("nm"), x: None, intervals: None, peaks: None };
    let (code, v) = parsed(&convert_endpoint::<Float, Float>(&req));
    assert_eq!((code, v["error"].as_str()), (400, Some("unknown unit")));
}

#[test]
fn bad_inputs_are_diagnosed_not_crashing() {
    let mut g = Store::default();
    let csv = "w,y\n1,1\n2,2\n2,3\n3,nan";
    let (code, v) = g.upload(Some(csv));
    assert_eq!(code, 200);
    assert_eq!(v["diagnostics"]["nonfinite_rows"][0], 5);
    assert_eq!(v["diagnostics"]["duplicate_x"][0], 2.0);
    assert_eq!(v["diagnostics"]["too_few_rows"], true);

    // fitting a too-small dataset is refused, not stored as accepted.
    let did = v["dataset_id"].as_i64().unwrap();
    let spec = SchemeSpec {
        smooth_sigma: b(0.0),
        baseline: BaselineSpec { degree: 0, windows: vec![(b(0.0), b(9.0))] },
        excluded_x: vec![],
        peaks: vec![peak(PeakKind::Gauss, 2.0, 1.0, 1.0, false)],
    };
    let (code, f) = g.fit(did, spec, false);
    assert_eq!(code, 400);
    assert!(f["error"].as_str().unwrap().contains("too few"));
    assert!(g.schemes.is_empty() && g.fits.is_empty());

    assert_eq!(g.fit(77, one_peak(), false).0, 404);
    assert_eq!(g.upload(Some("")).0, 400);
}

#[test]
fn nonconverged_fit_is_reported_not_accepted() {
    let mut g = Store::default();
    let (_, up) = g.upload(None);
    let did = up["dataset_id"].as_i64().unwrap();

    // A single narrow, height-locked-by-log gaussian cannot model three
    // peaks; with a deliberately tiny width the LM reaches its step limit.
    let spec = SchemeSpec {
        smooth_sigma: b(0.0),
        baseline: BaselineSpec { degree: 0, windows: vec![(b(380.0), b(720.0))] },
        excluded_x: vec![],
        peaks: vec![peak(PeakKind::Gauss, 500.0, 0.0001, 0.0001, true)],
    };
    let (code, f) = g.fit(did, spec, false);
    assert_eq!(code, 200);
    // Either it converges poorly or reports non-convergence; in every case
    // it must never be auto-accepted.
    assert_eq!(f["accepted"], false);
    assert_eq!(f["auto_candidate"], false);
    // The last finite iterate + trace are retained for diagnosis.
    let trace = f["report"]["trace"].as_array().unwrap();
    assert!(!trace.is_empty());
    if !f["report"]["converged"].as_bool().unwrap() {
        assert_ne!(f["report"]["status"], "converged");
        let (code, _) = g.accept("{\"scheme_id\":1}");
        assert_eq!(code, 409);
        assert!(!g.schemes[0].accepted);
    }
    assert_eq!(f["smoothed"], Value::Null);
    assert_eq!(g.artifacts.len(), 1);
}

#[test]
fn an_unfitted_baseline_refuses_the_fit() {
    let mut g = Store::default();
    let (_, up) = g.upload(None);
    let did = up["dataset_id"].as_i64().unwrap();
    let mut spec = spec_v(498.0, 9.0, false);
    spec.baseline.degree = 9;
    let (code, v) = g.fit(did, spec, false);
    assert_eq!((code, v["error"].as_str()), (400, Some("baseline degree must be 0..=6")));
    assert_eq!(g.schemes.len(), 1);
    assert!(g.jobs.is_empty() && g.fits.is_empty());
}

#[test]
fn schemes_are_created_beside_their_parents() {
    let mut g = Store::default();
    let (_, up) = g.upload(Some("wavenumber,Absorbance\n1,1\n2,2"));
    assert_eq!(up["x_unit"], "cm^-1");
    assert_eq!(up["y_kind"], "absorbance");
    let csv = g.csv(1);
    let n = match create_scheme::<Float>(1, Some(4), &one_peak(), csv) {
        Ok(n) => n,
        Err(r) => panic!("{}", r.payload),
    };
    assert_eq!((n.dataset, n.parent, n.origin.as_str()), (1, Some(4), "manual"));
    let hash = up["input_hash"].as_str().unwrap();
    assert_eq!(n.fingerprint, fingerprint::<Float>(hash, &one_peak()));
    let r = created_reply(12, &n.fingerprint);
    assert_eq!(parsed(&r).1["scheme_id"], 12);
    g.make(Change::AddScheme(n));
    let (_, sc) = g.schemes("dataset_id=1");
    assert_eq!(sc["schemes"][0]["spec"]["peaks"][0]["kind"], "gauss");
    assert_eq!(sc["schemes"][0]["parent_id"], 4);
    assert!(create_scheme::<Float>(2, None, &one_peak(), g.csv(2)).is_err());
}

#[test]
fn synthetic_spectrum_is_recovered() {
    let csv = synthetic_csv::<Float, Float>().unwrap();
    let sp = spectrum(&csv);
    assert_eq!(sp.x.len(), 900);
    assert_eq!((f(sp.x[0]), f(sp.x[899])), (380.0, 720.0));
    let nodes = voigt_nodes::<Float>().unwrap();
    let pf = match run_pipeline::<Float>(&nodes, &sp.x, &sp.y, &spec_v(498.0, 9.0, false)) {
        Ok(pf) => pf,
        Err(e) => panic!("{e}"),
    };
    assert!(pf.report.converged);
    let centre = f(pf.report.peaks[0].center);
    assert!((centre - 500.0).abs() < 1.0, "{centre}");
    assert_eq!(
        canonical_json(&synthetic_truth::<Float>()),
        "{\"baseline\":{\"coef_about_550\":[0.15,-0.0004,2e-6],\"form\":\"quadratic\"},\"cosmic_ray_rows\":[123,455,701],\"generator\":\"rng-xorshift128plus-v1\",\"n\":900,\"noise_sigma\":0.01,\"peaks\":[{\"center_nm\":500.0,\"fwhm_nm\":8.0,\"height\":1.2,\"kind\":\"gauss\"},{\"center_nm\":512.0,\"fwhm_nm\":10.0,\"height\":0.8,\"kind\":\"gauss\"},{\"center_nm\":610.0,\"fwhm_nm\":14.0,\"height\":0.55,\"kind\":\"lorentz\"}],\"seed\":20260921,\"x_range_nm\":[380.0,720.0]}"
    );
}
