//! Laws of names: of units and shapes, of what is asked for, and of choices.

use crate::api::{kind_choice, ordered_bounds, unit_choice};
use crate::arithmetic::Meaning;
use crate::binary64::Binary64;
use crate::model::PeakKind;
use crate::server::routed;
use crate::table_laws::{all_of, edged, free_of, law_surroundings_are_taken_off};
use crate::text::{has_part, lower_char, lowered, without, Class};
use crate::units::{bare, converted, XUnit};
use vstd::prelude::*;

verus! {

proof fn lemma_without_none(t: Seq<char>, k: Class)
    requires
        free_of(t, k),
    ensures
        without(t, k) == t,
    decreases t.len(),
{
    reveal(Seq::filter);
    if t.len() > 0 {
        let p = t.drop_last();
        assert forall|i: int| 0 <= i < p.len() implies !k.has(#[trigger] p[i]) by {
            assert(p[i] == t[i]);
        }
        lemma_without_none(p, k);
        assert(!k.has(t[t.len() - 1]));
        assert(p.push(t.last()) =~= t);
    }
}

/// A text without blanks inside, whatever white space stands around it.
proof fn lemma_bare(a: Seq<char>, s: Seq<char>, b: Seq<char>)
    requires
        all_of(a, Class::White),
        all_of(b, Class::White),
        edged(s, Class::White),
        free_of(lowered(s), Class::One(' ')),
    ensures
        bare(a + s + b) == lowered(s),
{
    law_surroundings_are_taken_off(a, s, b, Class::White);
    lemma_without_none(lowered(s), Class::One(' '));
}

/// The names of wavelengths.
proof fn lemma_wavelength_names()
    ensures
        "nm"@.len() == 2 && "nm"@[0] == 'n',
        "wavelength"@.len() == 10 && "wavelength"@[4] == 'l',
        "wavelength_nm"@.len() == 13,
        "wavelength(nm)"@.len() == 14,
        free_of("nm"@, Class::One(' ')),
        free_of("wavelength"@, Class::One(' ')),
        free_of("wavelength_nm"@, Class::One(' ')),
        free_of("wavelength(nm)"@, Class::One(' ')),
{
    reveal_strlit("nm");
    reveal_strlit("wavelength");
    reveal_strlit("wavelength_nm");
    reveal_strlit("wavelength(nm)");
}

/// The names of wavenumbers.
proof fn lemma_wavenumber_names()
    ensures
        "cm^-1"@.len() == 5,
        "cm-1"@.len() == 4,
        "cm_inv"@.len() == 6 && "cm_inv"@[0] == 'c',
        "wavenumber"@.len() == 10 && "wavenumber"@[4] == 'n' && "wavenumber"@[0] == 'w',
        "1/cm"@.len() == 4,
        "wavenumber(cm^-1)"@.len() == 17,
        free_of("cm^-1"@, Class::One(' ')),
        free_of("cm-1"@, Class::One(' ')),
        free_of("cm_inv"@, Class::One(' ')),
        free_of("wavenumber"@, Class::One(' ')),
        free_of("1/cm"@, Class::One(' ')),
        free_of("wavenumber(cm^-1)"@, Class::One(' ')),
{
    reveal_strlit("cm^-1");
    reveal_strlit("cm-1");
    reveal_strlit("cm_inv");
    reveal_strlit("wavenumber");
    reveal_strlit("1/cm");
    reveal_strlit("wavenumber(cm^-1)");
}

/// The names of energies.
proof fn lemma_energy_names()
    ensures
        "ev"@.len() == 2 && "ev"@[0] == 'e',
        "energy"@.len() == 6 && "energy"@[0] == 'e',
        "energy_ev"@.len() == 9,
        "energy(ev)"@.len() == 10 && "energy(ev)"@[0] == 'e' && "energy(ev)"@[4] == 'g',
        free_of("ev"@, Class::One(' ')),
        free_of("energy"@, Class::One(' ')),
        free_of("energy_ev"@, Class::One(' ')),
        free_of("energy(ev)"@, Class::One(' ')),
{
    reveal_strlit("ev");
    reveal_strlit("energy");
    reveal_strlit("energy_ev");
    reveal_strlit("energy(ev)");
}

/// The names that units go by, in any letter case and with any white space around
/// them.
pub proof fn law_spellings_of_units(a: Seq<char>, s: Seq<char>, b: Seq<char>)
    requires
        all_of(a, Class::White),
        all_of(b, Class::White),
        edged(s, Class::White),
    ensures
        ({
            let t = lowered(s);
            let u = XUnit::named(a + s + b);
            &&& t == "nm"@ || t == "wavelength"@ || t == "wavelength_nm"@ || t == "wavelength(nm)"@
                ==> u == Some(XUnit::Nm)
            &&& t == "cm^-1"@ || t == "cm-1"@ || t == "cm_inv"@ || t == "wavenumber"@ || t
                == "1/cm"@ || t == "wavenumber(cm^-1)"@ ==> u == Some(XUnit::CmInv)
            &&& t == "ev"@ || t == "energy"@ || t == "energy_ev"@ || t == "energy(ev)"@ ==> u
                == Some(XUnit::Ev)
        }),
{
    lemma_wavelength_names();
    lemma_wavenumber_names();
    lemma_energy_names();
    if free_of(lowered(s), Class::One(' ')) {
        lemma_bare(a, s, b);
    }
}

/// A unit is known by the name that it is written with.
pub proof fn law_units_are_known_by_their_names(u: XUnit)
    ensures
        XUnit::named(u.name()) == Some(u),
{
    let e = Seq::<char>::empty();
    let s = u.name();
    reveal_strlit("nm");
    reveal_strlit("cm^-1");
    reveal_strlit("eV");
    reveal_strlit("ev");
    assert(lower_char('n') == 'n' && lower_char('m') == 'm' && lower_char('c') == 'c');
    assert(lower_char('^') == '^' && lower_char('-') == '-' && lower_char('1') == '1');
    assert(lower_char('e') == 'e' && lower_char('V') == 'v');
    assert(u == XUnit::Nm ==> lowered(s) =~= "nm"@);
    assert(u == XUnit::CmInv ==> lowered(s) =~= "cm^-1"@);
    assert(u == XUnit::Ev ==> lowered(s) =~= "ev"@);
    law_spellings_of_units(e, s, e);
    assert(e + s + e =~= s);
}

/// The names that shapes go by, in any letter case.
pub proof fn law_spellings_of_shapes(s: Seq<char>)
    ensures
        lowered(s) == "gauss"@ || lowered(s) == "gaussian"@ ==> PeakKind::named(s) == Some(
            PeakKind::Gauss,
        ),
        lowered(s) == "lorentz"@ || lowered(s) == "lorentzian"@ ==> PeakKind::named(s) == Some(
            PeakKind::Lorentz,
        ),
        lowered(s) == "voigt"@ ==> PeakKind::named(s) == Some(PeakKind::Voigt),
{
    reveal_strlit("gauss");
    reveal_strlit("gaussian");
    reveal_strlit("lorentz");
    reveal_strlit("lorentzian");
    reveal_strlit("voigt");
    assert("gauss"@.len() == 5 && "gauss"@[0] == 'g');
    assert("gaussian"@.len() == 8);
    assert("lorentz"@.len() == 7);
    assert("lorentzian"@.len() == 10);
    assert("voigt"@.len() == 5 && "voigt"@[0] == 'v');
}

/// The unit of an upload is the one that the request names, or else the one that the
/// header names, or else nanometres.  Its values are what the request says, or else
/// absorbances where the header speaks of them, or else intensities.
pub proof fn law_choices_of_an_upload(asked: Option<Seq<char>>, header: Seq<char>)
    ensures
        asked matches Some(t) ==> (XUnit::named(t) matches Some(u) ==> unit_choice(asked, header)
            == u),
        asked is None || XUnit::named(asked->0) is None ==> {
            &&& XUnit::named(header) matches Some(u) ==> unit_choice(asked, header) == u
            &&& XUnit::named(header) is None ==> unit_choice(asked, header) == XUnit::Nm
        },
        asked matches Some(t) ==> kind_choice(asked, header) == t,
        asked is None && has_part(lowered(header), "absorb"@) ==> kind_choice(asked, header)
            == "absorbance"@,
        asked is None && !has_part(lowered(header), "absorb"@) ==> kind_choice(asked, header)
            == "intensity"@,
{
}

/// The bounds of a converted interval are its two converted bounds, exchanged if and
/// only if the second is below the first.
pub proof fn law_converted_bounds_are_ordered(
    m: Meaning<Binary64>,
    p: (Binary64, Binary64),
    from: XUnit,
    to: XUnit,
)
    ensures
        ({
            let a = converted(m, p.0, from, to);
            let b = converted(m, p.1, from, to);
            let r = ordered_bounds(m, p, from, to);
            &&& m.lt(b, a) ==> r == (b, a)
            &&& !m.lt(b, a) ==> r == (a, b)
        }),
{
}

/// Pages are answered to `GET` alone, every request with the method `OPTIONS` for
/// another path is a preflight, and each path of the interface leads to its own
/// target with every other method.
pub proof fn law_paths_lead_to_their_targets(method: Seq<char>, path: Seq<char>)
    ensures
        ({
            let r = routed(method, path);
            let page = r is Index || r is Code || r is Style;
            &&& page ==> method == "GET"@
            &&& method == "OPTIONS"@ ==> r is Preflight
            &&& method == "GET"@ && path == "/"@ ==> r is Index
            &&& method == "GET"@ && path == "/index.html"@ ==> r is Index
            &&& method == "GET"@ && path == "/app.js"@ ==> r is Code
            &&& method == "GET"@ && path == "/styles.css"@ ==> r is Style
            &&& method != "OPTIONS"@ ==> {
                &&& r is Datasets <==> path == "/api/datasets"@
                &&& r is Upload <==> path == "/api/upload"@
                &&& r is Convert <==> path == "/api/convert"@
                &&& r is Schemes <==> path == "/api/schemes"@
                &&& r is CreateScheme <==> path == "/api/schemes/create"@
                &&& r is AcceptScheme <==> path == "/api/schemes/accept"@
                &&& r is Fit <==> path == "/api/fit"@
                &&& !(r is Preflight)
            }
        }),
{
    reveal_strlit("GET");
    reveal_strlit("OPTIONS");
    assert("GET"@.len() == 3 && "OPTIONS"@.len() == 7);
    lemma_paths();
}

/// The paths differ.
proof fn lemma_paths()
    ensures
        "/"@.len() == 1,
        "/index.html"@.len() == 11 && "/index.html"@[1] == 'i',
        "/app.js"@.len() == 7,
        "/styles.css"@.len() == 11 && "/styles.css"@[1] == 's',
        "/api/datasets"@.len() == 13,
        "/api/upload"@.len() == 11 && "/api/upload"@[1] == 'a',
        "/api/convert"@.len() == 12 && "/api/convert"@[5] == 'c',
        "/api/schemes"@.len() == 12 && "/api/schemes"@[5] == 's',
        "/api/schemes/create"@.len() == 19 && "/api/schemes/create"@[13] == 'c',
        "/api/schemes/accept"@.len() == 19 && "/api/schemes/accept"@[13] == 'a',
        "/api/fit"@.len() == 8,
{
    reveal_strlit("/");
    reveal_strlit("/index.html");
    reveal_strlit("/app.js");
    reveal_strlit("/styles.css");
    reveal_strlit("/api/datasets");
    reveal_strlit("/api/upload");
    reveal_strlit("/api/convert");
    reveal_strlit("/api/schemes");
    reveal_strlit("/api/schemes/create");
    reveal_strlit("/api/schemes/accept");
    reveal_strlit("/api/fit");
}

} // verus!
