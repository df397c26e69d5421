# spectra-lab

Baseline correction and peak fitting of spectra on the local machine, with every
manual choice, every fit and the raw data linked by SHA-256 hashes into a record
that can be replayed.  The library is verified with Verus; a small program around
it serves the JSON interface and keeps the store.

## Layout

- `src/` is the library.  All of it is verified.  The contracts on the calls into
  `serde_json`, `sha2` and the standard library are believed, not proved; the doc
  comment above each such call says what is claimed of it.
  - Numbers: `binary64` (bit patterns), `arithmetic` and `notation` (the providers
    of arithmetic and of the written form of numbers, and the readings of them that
    contracts speak of), `numeral`, `sums`.
  - Input: `text`, `data`, `series`, `units`.
  - Evaluation: `linalg`, `quadrature`, `model`, `layout`, `fit`, `report`,
    `scheme`, `rng`, `synthetic`.
  - Record: `json`, `hash`, `payload`, `db`.
  - Service: `server`, `api`, `acceptance`, `run`.
  - Laws that relate several functions: `canon`, `reading`, `provenance`,
    `linalg_laws`, `cholesky_laws`, `least_squares`, `quadrature_laws`,
    `model_laws`, `step_laws`, `fit_laws`, `report_laws`, `db_laws`,
    `server_laws`, `run_laws`, `rounding_laws`.
- `tests/` runs the library with the floating-point numbers of the machine.
- `app/` is the program: the machine's arithmetic, SQLite, HTTP and the JSON
  bodies of requests.  Pages are served from `static/` in the working directory.

## How numbers are treated

Computations are written over a provider of arithmetic.  A contract says which
formula a computation yields, for every reading of the operations that the
provider follows.  The formulas are generic in the kind of number, so the same
formula is also read over the real numbers, where laws such as "the solution
solves the system" or "no polynomial fits better" are proved.

## Running

    spectra-lab --listen 127.0.0.1:5332 [--db spectra-lab.sqlite]

| Method | Path | |
|---|---|---|
| POST | `/api/upload` | load a CSV text, or the synthetic spectrum |
| POST | `/api/convert` | convert between `nm`, `cm^-1` and `eV` |
| POST | `/api/fit` | fit, or replay a fit with the same fingerprint |
| POST | `/api/schemes/create` | store a scheme |
| GET | `/api/schemes?dataset_id=` | the schemes of a data set |
| POST | `/api/schemes/accept` | accept a scheme, or take that back |
| GET | `/api/datasets` | the data sets |
