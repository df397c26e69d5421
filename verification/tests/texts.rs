//! Texts: fields, numerals, JSON, hashes, requests and responses.

use spectra_lab::acceptance::{accept_scheme, accepted_reply, read_wish, wish_of, Wish};
use spectra_lab::api::{
    choose_source, created_reply, dataset_query, datasets, json_err, json_ok, list_schemes,
    DatasetLine, SchemeLine, Source,
};
use spectra_lab::data::split_fields;
use spectra_lab::db::{publish_fit, set_scheme_accepted, Artifact, Change, NewFit};
use spectra_lab::hash::sha256_hex;
use spectra_lab::json::{
    canonical_json, signed_json, sort_obj, stored, to_text, whole_json, Json,
};
use spectra_lab::numeral::{read_i64, read_usize, to_decimal, to_hex, to_signed_decimal};
use spectra_lab::run::replay_reply;
use spectra_lab::server::{
    length_of, parse_request, progress, read_request, response_head, route, Progress, Target,
    MAX_BODY,
};
use spectra_lab::text::{
    after_first, chars_of, contains, lines, remove, same, search, split, starts_with, string_of,
    to_lower, trim, white, Class,
};

fn s(t: &str) -> String {
    t.to_string()
}

fn cs(t: &str) -> Vec<char> {
    t.chars().collect()
}

// --------------------------------------------------------------------------- text

#[test]
fn white_space_is_that_of_unicode() {
    for u in 0..=0x10ffffu32 {
        if let Some(c) = char::from_u32(u) {
            assert_eq!(white(c), c.is_whitespace(), "{u:x}");
        }
    }
}

#[test]
fn lines_and_pieces_are_those_of_the_standard_library() {
    for t in ["", "a", "a\n", "a\nb", "a\r\nb\r\n", "\n\n", "a\rb\n", "\r\n", "a\r"] {
        let c = cs(t);
        let got: Vec<String> = lines(&c).iter().map(|l| string_of(l)).collect();
        let want: Vec<String> = t.lines().map(s).collect();
        assert_eq!(got, want, "{t:?}");
    }
    let c = cs("a,b;c\td,");
    let got: Vec<String> = split(&c, Class::Column).iter().map(|p| string_of(p)).collect();
    assert_eq!(got, vec!["a", "b", "c", "d", ""]);
    assert_eq!(string_of(trim(&cs(" \t x y\u{a0}\n"), Class::White)), "x y");
    assert_eq!(string_of(&to_lower(&cs("AbZ\u{c4}"))), "abz\u{c4}");
    assert_eq!(string_of(&remove(&cs(" a b "), Class::One(' '))), "ab");
    assert!(same(&cs("abc"), "abc") && !same(&cs("abc"), "abd") && !same(&cs("ab"), "abc"));
}

#[test]
fn parts_are_found() {
    let text = cs("xxabab");
    assert_eq!(search(&text, &cs("ab")), 2);
    assert_eq!(search(&text, &cs("ba")), 3);
    assert!(contains(&text, &cs("ab")) && !contains(&text, &cs("aa")));
    assert!(starts_with(&text, &cs("xx")) && !starts_with(&text, &cs("xxx")));
    assert_eq!(string_of(after_first(&cs("a--b--c"), &cs("--"))), "b");
    assert_eq!(string_of(after_first(&cs("a"), &cs("--"))), "");
    assert_eq!(chars_of("a\u{20ac}"), vec!['a', '\u{20ac}']);
}

#[test]
fn fields_are_split() {
    assert_eq!(split_fields("1,2;3\t4"), vec!["1", "2", "3", "4"]);
    assert_eq!(split_fields(" \"a b\" , c "), vec!["a b", "c"]);
    assert_eq!(split_fields(""), vec![""]);
}

// ------------------------------------------------------------------------ numerals

#[test]
fn numerals_are_written_and_read() {
    for n in [0u64, 7, 10, 99, 1234567890, u64::MAX] {
        assert_eq!(string_of(&to_decimal(n)), n.to_string());
    }
    for n in [0i64, -1, 42, i64::MIN, i64::MAX] {
        assert_eq!(string_of(&to_signed_decimal(n)), n.to_string());
    }
    for t in ["", "0", "12", "+5", "-5", "+", "-", "1x", " 1", "18446744073709551616", "007"] {
        assert_eq!(read_usize(&cs(t)), t.parse::<usize>().ok(), "{t:?}");
        assert_eq!(read_i64(&cs(t)), t.parse::<i64>().ok(), "{t:?}");
    }
    assert_eq!(read_i64(&cs("-9223372036854775808")), Some(i64::MIN));
    assert_eq!(read_i64(&cs("9223372036854775808")), None);
    assert_eq!(string_of(&to_hex(&[0, 15, 16, 0xab, 0xff])), "000f10abff");
}

// -------------------------------------------------------------------------- hashes

#[test]
fn hashes_are_known() {
    assert_eq!(
        sha256_hex(b"abc"),
        "ba7816bf8f01cfea414140de5dae2223b00361a396177a9cb410ff61f20015ad"
    );
    assert_eq!(
        sha256_hex(b""),
        "e3b0c44298fc1c149afbf4c8996fb92427ae41e4649b934ca495991b7852b855"
    );
}

// ---------------------------------------------------------------------------- JSON

#[test]
fn strings_are_quoted_as_json_asks() {
    let mut all = String::new();
    for u in 0..0x250u32 {
        if let Some(c) = char::from_u32(u) {
            all.push(c);
        }
    }
    all.push('\u{20ac}');
    all.push('\u{1f600}');
    let got = to_text(&Json::Str(all.clone()));
    let back: String = serde_json::from_str(&got).unwrap();
    assert_eq!(back, all);
    assert_eq!(to_text(&Json::Str(s("a\"\\\n\u{1}"))), "\"a\\\"\\\\\\n\\u0001\"");
}

fn sample() -> Json {
    Json::Object(vec![
        (s("b"), Json::Array(vec![Json::Null, Json::Bool(true), Json::Bool(false)])),
        (
            s("a"),
            Json::Object(vec![
                (s("z"), Json::Number(s("1.5"))),
                (s("\u{e9}"), Json::Str(s("x"))),
                (s("Z"), whole_json(3)),
            ]),
        ),
        (s("aa"), signed_json(-4)),
    ])
}

#[test]
fn canonical_text_is_sorted_and_compact() {
    let want = "{\"a\":{\"Z\":3,\"z\":1.5,\"\u{e9}\":\"x\"},\"aa\":-4,\"b\":[null,true,false]}";
    assert_eq!(canonical_json(&sample()), want);
    assert_eq!(to_text(&sort_obj(&sort_obj(&sample()))), want);
    let v: serde_json::Value = serde_json::from_str(&to_text(&sample())).unwrap();
    assert_eq!(v.to_string(), want);
}

#[test]
fn different_values_have_different_texts() {
    let one = |v: Json| Json::Array(vec![v]);
    let all = [
        Json::Null,
        Json::Bool(true),
        Json::Bool(false),
        Json::Number(s("1")),
        Json::Number(s("10")),
        Json::Str(s("")),
        Json::Str(s("1")),
        Json::Str(s("null")),
        Json::Str(s("\",\"")),
        Json::Array(vec![]),
        one(Json::Null),
        one(Json::Array(vec![])),
        Json::Array(vec![Json::Str(s("")), Json::Str(s(""))]),
        one(Json::Str(s("\",\""))),
        Json::Object(vec![]),
        Json::Object(vec![(s(""), Json::Null)]),
        Json::Object(vec![(s("a"), Json::Null), (s("b"), Json::Null)]),
        Json::Object(vec![(s("a\":null,\"b"), Json::Null)]),
    ];
    let texts: Vec<String> = all.iter().map(to_text).collect();
    for i in 0..texts.len() {
        for j in 0..i {
            assert_ne!(texts[i], texts[j]);
        }
    }
}

#[test]
fn stored_texts_are_shown_as_values() {
    let j = stored("{ \"b\" : 1, \"a\" : [ 1, 2 ] }").unwrap();
    assert_eq!(to_text(&j), "{\"a\":[1,2],\"b\":1}");
    assert!(stored("{").is_none());
    let r = replay_reply("f00", "{\"y\": 1, \"x\": 2}").unwrap();
    assert_eq!(r.code, 200);
    assert_eq!(
        r.payload,
        "{\"fingerprint\":\"f00\",\"replayed\":true,\"report\":{\"x\":2,\"y\":1}}"
    );
    assert!(replay_reply("f00", "nonsense").is_none());
}

#[test]
fn replies_are_framed() {
    let r = json_ok(&sample());
    assert_eq!((r.code, r.payload), (200, canonical_json(&sample())));
    let r = json_err(404, "no \"such\" thing");
    assert_eq!((r.code, r.payload.as_str()), (404, "{\"error\":\"no \\\"such\\\" thing\"}"));
    let r = created_reply(7, "ab");
    assert_eq!(r.payload, "{\"fingerprint\":\"ab\",\"scheme_id\":7}");
}

#[test]
fn lists_are_answered() {
    let rows = vec![DatasetLine {
        id: 3,
        input_hash: s("h"),
        x_unit: s("nm"),
        n_points: 9,
        created_at: s("now"),
    }];
    assert_eq!(
        datasets(&rows).payload,
        "{\"datasets\":[{\"created_at\":\"now\",\"id\":3,\"input_hash\":\"h\",\"n_points\":9,\"x_unit\":\"nm\"}]}"
    );
    let mut rows = vec![SchemeLine {
        id: 1,
        spec_json: s("{\"k\":[]}"),
        origin: s("manual"),
        accepted: 1,
        parent: None,
        fingerprint: s("f"),
    }];
    assert_eq!(
        list_schemes(&rows).unwrap().payload,
        "{\"schemes\":[{\"accepted\":true,\"fingerprint\":\"f\",\"id\":1,\"origin\":\"manual\",\"parent_id\":null,\"spec\":{\"k\":[]}}]}"
    );
    rows[0].spec_json = s("no json");
    assert!(list_schemes(&rows).is_none());
}

// ------------------------------------------------------------------------ requests

#[test]
fn requests_are_framed() {
    assert!(matches!(progress(&b"GET / HTTP/1.1\r\nHost: x\r\n".to_vec()), Progress::More));
    assert!(matches!(progress(&b"GET / HTTP/1.1\r\n\r\n".to_vec()), Progress::Complete));
    let head = b"POST /a HTTP/1.1\r\ncontent-LENGTH: 5\r\n\r\n".to_vec();
    let mut part = head.clone();
    part.extend_from_slice(b"1234");
    assert!(matches!(progress(&part), Progress::More));
    part.push(b'5');
    assert!(matches!(progress(&part), Progress::Complete));
    part.push(b'6');
    assert!(matches!(progress(&part), Progress::Complete));
    // the bytes of a body count, whatever they are
    let mut raw = b"POST /\xc3\xa9 HTTP/1.1\r\nContent-Length: 2\r\n\r\n".to_vec();
    raw.push(0xff);
    assert!(matches!(progress(&raw), Progress::More));
    raw.push(0xc3);
    assert!(matches!(progress(&raw), Progress::Complete));
    assert!(matches!(progress(&vec![b'x'; MAX_BODY]), Progress::More));
    assert!(matches!(progress(&vec![b'x'; MAX_BODY + 1]), Progress::TooLarge));
    assert_eq!(length_of("A: 1\nContent-Length:  12 \nContent-Length: 3"), 12);
    assert_eq!(length_of("Content-Length: many"), 0);
    assert_eq!(length_of("Host: x"), 0);
}

#[test]
fn requests_are_read() {
    let q = parse_request("POST /api/x?dataset_id=4&b=?c HTTP/1.1\r\nA: b\r\n\r\n{\"k\":1}").unwrap();
    assert_eq!(q.method, "POST");
    assert_eq!(q.path, "/api/x");
    assert_eq!(q.query, "dataset_id=4&b=?c");
    assert_eq!(q.body, "{\"k\":1}");
    let q = parse_request("GET /api/datasets HTTP/1.1\r\n\r\nbody").unwrap();
    assert_eq!(q.path, "/api/datasets");
    assert_eq!((q.query.as_str(), q.body.as_str()), ("", "body"));
    let q = parse_request("  ").unwrap();
    assert_eq!((q.method.as_str(), q.path.as_str(), q.body.as_str()), ("GET", "/", ""));
    let q = parse_request("PUT").unwrap();
    assert_eq!((q.method.as_str(), q.path.as_str(), q.query.as_str()), ("PUT", "/", ""));
    assert!(parse_request("").is_none());
    let q = read_request(&b"GET /\xff HTTP/1.0\r\n\r\n".to_vec()).unwrap();
    assert_eq!(q.path, "/\u{fffd}");
    let q = read_request(&"GET /\u{e9} HTTP/1.0\r\n\r\n".as_bytes().to_vec()).unwrap();
    assert_eq!(q.path, "/\u{e9}");
}

#[test]
fn targets_are_routed() {
    for (m, p, t) in [
        ("GET", "/", Target::Index),
        ("GET", "/index.html", Target::Index),
        ("POST", "/", Target::NotFound),
        ("GET", "/app.js", Target::Code),
        ("GET", "/styles.css", Target::Style),
        ("OPTIONS", "/api/fit", Target::Preflight),
        ("GET", "/api/datasets", Target::Datasets),
        ("POST", "/api/upload", Target::Upload),
        ("POST", "/api/convert", Target::Convert),
        ("GET", "/api/schemes", Target::Schemes),
        ("POST", "/api/schemes/create", Target::CreateScheme),
        ("POST", "/api/schemes/accept", Target::AcceptScheme),
        ("POST", "/api/fit", Target::Fit),
        ("GET", "/api/fits", Target::NotFound),
    ] {
        assert!(route(m, p) == t, "{m} {p}");
    }
}

#[test]
fn responses_have_heads() {
    assert_eq!(
        response_head(409, "application/json", 12),
        "HTTP/1.1 409 Conflict\r\nContent-Type: application/json\r\nContent-Length: 12\r\nConnection: close\r\nAccess-Control-Allow-Origin: *\r\n\r\n"
    );
    for (code, reason) in [
        (200, "OK"),
        (201, "Created"),
        (400, "Bad Request"),
        (404, "Not Found"),
        (500, "Internal Server Error"),
        (418, "OK"),
    ] {
        let want = format!("HTTP/1.1 {code} {reason}\r\n");
        assert!(response_head(code, "a/b", 0).starts_with(&want));
    }
}

#[test]
fn queries_name_a_data_set() {
    assert_eq!(dataset_query("dataset_id=12").ok(), Some(12));
    assert_eq!(dataset_query("a=-3=4").ok(), Some(-3));
    for q in ["", "dataset_id", "dataset_id=", "x=1y"] {
        let e = dataset_query(q).unwrap_err();
        assert_eq!((e.code, e.payload.as_str()), (400, "{\"error\":\"need dataset_id\"}"));
    }
}

#[test]
fn uploads_need_a_source() {
    assert!(matches!(choose_source(Some(true), None), Ok(Source::Synthetic)));
    assert!(matches!(choose_source(Some(true), Some(s("x"))), Ok(Source::Synthetic)));
    assert!(matches!(choose_source(None, Some(s("x"))), Ok(Source::Given(_))));
    let e = match choose_source(Some(false), None) {
        Err(e) => e,
        Ok(_) => panic!("no source"),
    };
    assert_eq!((e.code, e.payload.as_str()), (400, "{\"error\":\"missing csv\"}"));
}

// ---------------------------------------------------------------------- acceptance

#[test]
fn wishes_are_read() {
    let w = read_wish("{\"scheme_id\": 5}").ok();
    assert_eq!(w, Some(Wish { scheme: 5, accepted: true, confirmed: false }));
    let w = read_wish("{\"scheme_id\": 5, \"accepted\": false, \"confirm_promote_auto\": true}").ok();
    assert_eq!(w, Some(Wish { scheme: 5, accepted: false, confirmed: true }));
    let w = read_wish("{\"scheme_id\": 5, \"accepted\": \"no\"}").ok();
    assert_eq!(w, Some(Wish { scheme: 5, accepted: true, confirmed: false }));
    for t in ["{}", "[]", "{\"scheme_id\": \"5\"}", "{\"scheme_id\": 1.5}"] {
        let e = read_wish(t).unwrap_err();
        assert_eq!((e.code, e.payload.as_str()), (400, "{\"error\":\"need scheme_id\"}"));
    }
    let e = read_wish("{").unwrap_err();
    assert_eq!(e.code, 400);
    assert!(e.payload.contains("EOF while parsing an object"));
    assert!(wish_of(None, None, None).is_err());
}

#[test]
fn acceptance_needs_confirmation_and_convergence() {
    let plain = Wish { scheme: 2, accepted: true, confirmed: false };
    let sure = Wish { scheme: 2, accepted: true, confirmed: true };
    let back = Wish { scheme: 2, accepted: false, confirmed: false };
    let auto = || Some(s("auto_candidate"));
    let refused = |r: Result<Vec<Change>, spectra_lab::api::Reply>| match r {
        Err(e) => Some((e.code, e.payload)),
        Ok(_) => None,
    };
    let e = refused(accept_scheme(&plain, auto(), Some(true), Ok(1))).unwrap();
    assert_eq!(e.0, 409);
    assert!(e.1.contains("confirm_promote_auto=true"));
    assert!(refused(accept_scheme(&sure, auto(), Some(true), Ok(1))).is_none());
    assert!(refused(accept_scheme(&plain, Some(s("manual")), Some(true), Ok(1))).is_none());
    assert!(refused(accept_scheme(&plain, Some(s("manual")), None, Ok(1))).is_none());
    let e = refused(accept_scheme(&sure, auto(), Some(false), Ok(1))).unwrap();
    assert_eq!(e.0, 409);
    assert!(e.1.contains("did not converge"));
    assert!(refused(accept_scheme(&back, auto(), Some(false), Ok(1))).is_none());
    let e = refused(accept_scheme(&plain, None, None, Err(s("gone")))).unwrap();
    assert_eq!(e, (500, s("{\"error\":\"gone\"}")));
    let r = accepted_reply(&back, Ok(()));
    assert_eq!((r.code, r.payload.as_str()), (200, "{\"accepted\":false,\"scheme_id\":2}"));
    assert_eq!(accepted_reply(&back, Err(s("x"))).code, 500);
}

// --------------------------------------------------------------------- transactions

#[test]
fn transactions_list_their_changes() {
    let c = set_scheme_accepted(4, 9, true);
    assert_eq!(c.len(), 2);
    assert!(matches!(c[0], Change::ClearAccepted(4)));
    assert!(matches!(c[1], Change::SetAccepted(9, true)));
    let art = |k: &str| Artifact {
        kind: s(k),
        method_version: s("m"),
        params_json: s("{}"),
        input_hash: s("i"),
        upstream_hash: None,
        artifact_hash: s(k),
        x_json: s("[]"),
        y_json: s("[]"),
    };
    let fit = NewFit { job: 3, report_json: s("{}"), baseline_json: s("{}"), converged: false };
    let c = publish_fit(fit, vec![art("baseline"), art("smoothed")]);
    assert_eq!(c.len(), 5);
    assert!(matches!(c[0], Change::FinishJob(3)));
    assert!(matches!(&c[1], Change::AddFit(f) if f.job == 3 && !f.converged));
    assert!(matches!(c[2], Change::LinkFit(3)));
    assert!(matches!(&c[3], Change::AddArtifact(3, a) if a.kind == "baseline"));
    assert!(matches!(&c[4], Change::AddArtifact(3, a) if a.kind == "smoothed"));
}
