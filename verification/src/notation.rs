//! The written form of numbers.
//!
//! As with arithmetic, what is written is stated for every reading of the
//! notation that its provider follows.

use crate::binary64::Binary64;
use crate::json::{element_models, optional_text, Json, JsonModel};
use vstd::prelude::*;

verus! {

/// A provider of the written form of numbers.
pub trait Notation {
    /// The number that a text denotes, or why it denotes none.
    fn parse(text: &str) -> (r: Result<Binary64, String>);

    /// The JSON numeral of a number; none where it is not finite.
    fn numeral(x: Binary64) -> (r: Option<String>);

    /// The shortest decimal form that reads back as the same number.
    fn shortest(x: Binary64) -> (r: String);

    /// The decimal form with a given number of digits after the point.
    fn fixed(x: Binary64, digits: usize) -> (r: String);

    /// The form with an exponent, and a given number of digits after the
    /// point.
    fn scientific(x: Binary64, digits: usize) -> (r: String);
}

/// A reading of the notation as functions.
pub struct Script {
    /// the number that a text denotes, or the reason why it denotes none
    pub parse: spec_fn(Seq<char>) -> Result<Binary64, Seq<char>>,
    pub numeral: spec_fn(Binary64) -> Option<Seq<char>>,
    pub shortest: spec_fn(Binary64) -> Seq<char>,
    pub fixed: spec_fn(Binary64, nat) -> Seq<char>,
    pub scientific: spec_fn(Binary64, nat) -> Seq<char>,
}

/// A result with the text of its reason.
pub open spec fn reading_text(r: Result<Binary64, String>) -> Result<Binary64, Seq<char>> {
    match r {
        Ok(x) => Ok(x),
        Err(e) => Err(e@),
    }
}

/// `N` reads and writes what the reading `s` says.
pub open spec fn writes<N: Notation>(s: Script) -> bool {
    &&& forall|t: &str, r: Result<Binary64, String>| #[trigger]
        call_ensures(N::parse, (t,), r) ==> (s.parse)(t@) == reading_text(r)
    &&& forall|x: Binary64, r: Option<String>| #[trigger]
        call_ensures(N::numeral, (x,), r) ==> (s.numeral)(x) == optional_text(r)
    &&& forall|x: Binary64, r: String| #[trigger]
        call_ensures(N::shortest, (x,), r) ==> (s.shortest)(x) == r@
    &&& forall|x: Binary64, d: usize, r: String| #[trigger]
        call_ensures(N::fixed, (x, d), r) ==> (s.fixed)(x, d as nat) == r@
    &&& forall|x: Binary64, d: usize, r: String| #[trigger]
        call_ensures(N::scientific, (x, d), r) ==> (s.scientific)(x, d as nat) == r@
}

/// A number in JSON; null where it is not finite.
pub open spec fn number_model(s: Script, x: Binary64) -> JsonModel {
    match (s.numeral)(x) {
        Some(t) => JsonModel::Number(t),
        None => JsonModel::Null,
    }
}

/// Numbers in JSON.
pub open spec fn numbers_model(s: Script, v: Seq<Binary64>) -> JsonModel {
    JsonModel::Array(v.map_values(|x: Binary64| number_model(s, x)))
}

/// A number in JSON.
pub fn number_json<N: Notation>(x: Binary64) -> (j: Json)
    ensures
        forall|s: Script| #[trigger] writes::<N>(s) ==> j@ == number_model(s, x),
{
    match N::numeral(x) {
        Some(t) => Json::Number(t),
        None => Json::Null,
    }
}

/// Numbers in JSON.
pub fn numbers_json<N: Notation>(v: &Vec<Binary64>) -> (j: Json)
    ensures
        forall|s: Script| #[trigger] writes::<N>(s) ==> j@ == numbers_model(s, v@),
{
    let mut a: Vec<Json> = Vec::new();
    for i in 0..v.len()
        invariant
            a@.len() == i,
            forall|s: Script, k: int|
                #![trigger writes::<N>(s), a@[k]]
                writes::<N>(s) && 0 <= k < i ==> a@[k]@ == number_model(s, v@[k]),
    {
        a.push(number_json::<N>(v[i]));
    }
    let ghost all = a@;
    let j: Json = Json::Array(a);
    proof {
        assert forall|s: Script| #[trigger] writes::<N>(s) implies j@ == numbers_model(s, v@) by {
            assert(element_models(all) =~= v@.map_values(|x: Binary64| number_model(s, x)));
        }
    }
    j
}

} // verus!
