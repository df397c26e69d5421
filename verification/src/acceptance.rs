//! Acceptance of schemes.
//!
//! A scheme is accepted by an explicit request alone.  An automatic candidate
//! needs a confirmation besides, and a scheme whose fit did not converge is
//! never accepted.

use crate::api::{json_err, json_ok, Reply};
use crate::db::{acceptance, set_scheme_accepted, Change};
use crate::json::{member_models, optional_text, signed_json, signed_model, Json, JsonModel};
use crate::text::{chars_of, same};
use vstd::prelude::*;

verus! {

/// Why a text is no JSON text; none where it is one.
pub uninterp spec fn json_fault(text: Seq<char>) -> Option<Seq<char>>;

/// The whole number that a member of an object in JSON text holds.
pub uninterp spec fn json_int(text: Seq<char>, key: Seq<char>) -> Option<i64>;

/// The truth value that a member of an object in JSON text holds.
pub uninterp spec fn json_bool(text: Seq<char>, key: Seq<char>) -> Option<bool>;

/// `serde_json::from_str` into a `serde_json::Value`: the message of its error,
/// where there is one, is a function of the text.
#[verifier::external_body]
fn fault_of(text: &str) -> (r: Option<String>)
    ensures
        optional_text(r) == json_fault(text@),
{
    match serde_json::from_str::<serde_json::Value>(text) {
        Ok(_) => None,
        Err(e) => Some(e.to_string()),
    }
}

/// `serde_json::Value::get` and `as_i64` on the value of a text: the result is
/// a function of the text and the key.
#[verifier::external_body]
fn int_of(text: &str, key: &str) -> (r: Option<i64>)
    ensures
        r == json_int(text@, key@),
{
    serde_json::from_str::<serde_json::Value>(text).ok()?.get(key)?.as_i64()
}

/// `serde_json::Value::get` and `as_bool` on the value of a text: the result is
/// a function of the text and the key.
#[verifier::external_body]
fn bool_of(text: &str, key: &str) -> (r: Option<bool>)
    ensures
        r == json_bool(text@, key@),
{
    serde_json::from_str::<serde_json::Value>(text).ok()?.get(key)?.as_bool()
}

/// What a request wants of a scheme.
#[derive(Clone, Copy, Debug, PartialEq, Eq, Structural)]
pub struct Wish {
    pub scheme: i64,
    pub accepted: bool,
    /// An automatic candidate may be accepted.
    pub confirmed: bool,
}

/// What a request wants, by its members: a scheme must be named; acceptance is
/// meant where nothing is said, and nothing is confirmed where nothing is said.
pub fn wish_of(scheme: Option<i64>, accepted: Option<bool>, confirmed: Option<bool>) -> (r: Result<
    Wish,
    Reply,
>)
    ensures
        match scheme {
            Some(k) => r == Ok::<Wish, Reply>(
                Wish {
                    scheme: k,
                    accepted: accepted != Some(false),
                    confirmed: confirmed == Some(true),
                },
            ),
            None => r matches Err(e) && e.refuses(400, "need scheme_id"@),
        },
{
    let accepted: bool = match accepted {
        Some(b) => b,
        None => true,
    };
    let confirmed: bool = match confirmed {
        Some(b) => b,
        None => false,
    };
    match scheme {
        Some(k) => Ok(Wish { scheme: k, accepted, confirmed }),
        None => Err(json_err(400, "need scheme_id")),
    }
}

/// What the body of a request wants.
pub fn read_wish(body: &str) -> (r: Result<Wish, Reply>)
    ensures
        match json_fault(body@) {
            Some(m) => r matches Err(e) && e.refuses(400, m),
            None => match json_int(body@, "scheme_id"@) {
                Some(k) => r == Ok::<Wish, Reply>(
                    Wish {
                        scheme: k,
                        accepted: json_bool(body@, "accepted"@) != Some(false),
                        confirmed: json_bool(body@, "confirm_promote_auto"@) == Some(true),
                    },
                ),
                None => r matches Err(e) && e.refuses(400, "need scheme_id"@),
            },
        },
{
    if let Some(m) = fault_of(body) {
        return Err(json_err(400, m.as_str()));
    }
    wish_of(
        int_of(body, "scheme_id"),
        bool_of(body, "accepted"),
        bool_of(body, "confirm_promote_auto"),
    )
}

/// The reason why an automatic candidate is not accepted.
pub open spec fn needs_confirmation() -> Seq<char> {
    "auto_candidate requires confirm_promote_auto=true (manual confirmation)"@
}

/// The reason why a scheme without a converged fit is not accepted.
pub open spec fn not_converged() -> Seq<char> {
    "a fit that did not converge cannot be accepted"@
}

/// The scheme is an automatic candidate that nobody confirmed.
pub open spec fn unconfirmed(w: Wish, origin: Option<Seq<char>>) -> bool {
    w.accepted && !w.confirmed && origin == Some("auto_candidate"@)
}

/// The wish is granted, given the origin of the scheme and whether its fit
/// converged.
pub open spec fn granted(w: Wish, origin: Option<Seq<char>>, converged: Option<bool>) -> bool {
    !unconfirmed(w, origin) && !(w.accepted && converged == Some(false))
}

/// What is done about a wish, given the origin of the scheme, whether the
/// stored fit for its fingerprint converged, and the data set that it belongs
/// to, as far as they are known.
pub fn accept_scheme(
    w: &Wish,
    origin: Option<String>,
    converged: Option<bool>,
    dataset: Result<i64, String>,
) -> (r: Result<Vec<Change>, Reply>)
    ensures
        ({
            if unconfirmed(*w, optional_text(origin)) {
                r matches Err(e) && e.refuses(409, needs_confirmation())
            } else if w.accepted && converged == Some(false) {
                r matches Err(e) && e.refuses(409, not_converged())
            } else {
                &&& granted(*w, optional_text(origin), converged)
                &&& match dataset {
                    Ok(ds) => r matches Ok(c) && c@ == acceptance(ds, w.scheme, w.accepted),
                    Err(m) => r matches Err(e) && e.refuses(500, m@),
                }
            }
        }),
{
    if w.accepted && !w.confirmed {
        if let Some(o) = origin {
            let cs: Vec<char> = chars_of(o.as_str());
            if same(cs.as_slice(), "auto_candidate") {
                return Err(
                    json_err(
                        409,
                        "auto_candidate requires confirm_promote_auto=true (manual confirmation)",
                    ),
                );
            }
        }
    }
    if w.accepted {
        match converged {
            Some(false) => {
                return Err(json_err(409, "a fit that did not converge cannot be accepted"));
            },
            _ => {},
        }
    }
    match dataset {
        Ok(ds) => Ok(set_scheme_accepted(ds, w.scheme, w.accepted)),
        Err(m) => Err(json_err(500, m.as_str())),
    }
}

/// What an acceptance is answered, in JSON.
pub open spec fn accepted_model(w: Wish) -> JsonModel {
    JsonModel::Object(
        seq![
            ("scheme_id"@, signed_model(w.scheme as int)),
            ("accepted"@, JsonModel::Bool(w.accepted)),
        ],
    )
}

/// The answer to a wish whose changes have been made, or not.
pub fn accepted_reply(w: &Wish, done: Result<(), String>) -> (r: Reply)
    ensures
        match done {
            Ok(_) => r.says(accepted_model(*w)),
            Err(m) => r.refuses(500, m@),
        },
{
    if let Err(m) = done {
        return json_err(500, m.as_str());
    }
    let mut o: Vec<(String, Json)> = Vec::new();
    o.push(("scheme_id".to_owned(), signed_json(w.scheme)));
    o.push(("accepted".to_owned(), Json::Bool(w.accepted)));
    let ghost all = o@;
    let j: Json = Json::Object(o);
    proof {
        assert(member_models(all) =~= accepted_model(*w)->Object_0);
    }
    json_ok(&j)
}

} // verus!
