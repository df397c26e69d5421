//! Auditable spectroscopy baseline and peak fitting: the verified core.

use vstd::prelude::*;

pub mod acceptance;
pub mod api;
pub mod arithmetic;
pub mod binary64;
pub mod canon;
pub mod cholesky_laws;
pub mod constant_laws;
pub mod data;
pub mod db;
pub mod db_laws;
pub mod error_laws;
pub mod fit;
pub mod fit_laws;
pub mod hash;
pub mod iteration_laws;
pub mod json;
pub mod layout;
pub mod least_squares;
pub mod linalg;
pub mod linalg_laws;
pub mod lock_laws;
pub mod message_laws;
pub mod model;
pub mod model_laws;
pub mod naming_laws;
pub mod notation;
pub mod number_laws;
pub mod numeral;
pub mod payload;
pub mod preparing_laws;
pub mod products;
pub mod provenance;
pub mod quadrature;
pub mod quadrature_laws;
pub mod reading;
pub mod reply_laws;
pub mod report;
pub mod report_laws;
pub mod request_laws;
pub mod rng;
pub mod rounding_laws;
pub mod run;
pub mod run_laws;
pub mod scheme;
pub mod series;
pub mod server;
pub mod server_laws;
pub mod solver_laws;
pub mod step_laws;
pub mod sums;
pub mod synthetic;
pub mod synthetic_laws;
pub mod table_laws;
pub mod text;
pub mod units;
pub mod voigt_laws;
pub mod writing_laws;

verus! {

} // verus!
