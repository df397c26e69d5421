//! Laws of what goes over the wire and of what is hashed, line by line.

use crate::fit::FITTER_VERSION;
use crate::model::MODEL_VERSION;
use crate::numeral::{decimal, is_digit, unsigned};
use crate::scheme::{fingerprint_body, SCHEME_VERSION};
use crate::server::{announced, head_text, reason};
use crate::table_laws::{
    all_of, free_of, joined_by, law_lines_are_read_back, law_parts_are_cut_apart,
    law_surroundings_are_taken_off, written_lines,
};
use crate::text::{line_seq, lower_char, lowered, pieces, Class};
use crate::writing_laws::{law_numerals_are_read_back, lemma_decimal_digits};
use vstd::prelude::*;

verus! {

/// A header line announces the number that it holds, in whatever letter case its name
/// is written and whatever white space stands around the number.
pub proof fn law_announced_length(name: Seq<char>, a: Seq<char>, n: nat, b: Seq<char>)
    requires
        lowered(name) == "content-length:"@,
        all_of(a, Class::White),
        all_of(b, Class::White),
        n <= usize::MAX,
    ensures
        announced(name + (a + decimal(n) + b)) == Some(n),
{
    let key = "content-length:"@;
    let rest = a + decimal(n) + b;
    let line = name + rest;
    let l = lowered(line);
    lemma_decimal_digits(n);
    assert forall|i: int| 0 <= i < rest.len() implies lower_char(#[trigger] rest[i]) == rest[i] by {
        if i < a.len() {
            assert(Class::White.has(a[i]));
        } else if i < a.len() + decimal(n).len() {
            assert(is_digit(decimal(n)[i - a.len()]));
        } else {
            assert(Class::White.has(b[i - a.len() - decimal(n).len()]));
        }
    }
    assert(name.len() == key.len());
    assert(l.take(key.len() as int) =~= lowered(name));
    assert(l.skip(key.len() as int) =~= rest);
    let d = decimal(n);
    assert(is_digit(d[0]) && is_digit(d[d.len() - 1]));
    law_surroundings_are_taken_off(a, d, b, Class::White);
    law_numerals_are_read_back(n as int);
    assert(unsigned(d) == Some(n));
}

/// The lines of the head of a response.
pub open spec fn head_lines(code: u16, ctype: Seq<char>, len: nat) -> Seq<Seq<char>> {
    seq![
        "HTTP/1.1 "@ + decimal(code as nat) + " "@ + reason(code),
        "Content-Type: "@ + ctype,
        "Content-Length: "@ + decimal(len),
        "Connection: close"@,
        "Access-Control-Allow-Origin: *"@,
        Seq::empty(),
    ]
}

/// The head of a response consists of the status line, the type, the length of the
/// body, and two lines that are always the same, and ends in a blank line.
pub proof fn law_head_of_a_response(code: u16, ctype: Seq<char>, len: nat)
    requires
        free_of(ctype, Class::One('\n')),
        ctype.len() > 0 && ctype.last() != '\r',
    ensures
        line_seq(head_text(code, ctype, len)) == head_lines(code, ctype, len),
{
    let ls = head_lines(code, ctype, len);
    lemma_decimal_digits(code as nat);
    lemma_decimal_digits(len);
    lemma_fixed_parts(code);
    assert forall|i: int| 0 <= i < ls.len() implies free_of(#[trigger] ls[i], Class::One('\n')) && (
    ls[i].len() > 0 ==> ls[i].last() != '\r') by {
        lemma_joined(code, ctype, len, i);
    }
    law_lines_are_read_back(ls, true);
    lemma_written(code, ctype, len);
}

/// The fixed parts hold no line break.
proof fn lemma_fixed_parts(code: u16)
    ensures
        free_of("HTTP/1.1 "@, Class::One('\n')),
        free_of(" "@, Class::One('\n')),
        free_of(reason(code), Class::One('\n')),
        reason(code).len() > 0 && reason(code).last() != '\r',
        free_of("Content-Type: "@, Class::One('\n')),
        free_of("Content-Length: "@, Class::One('\n')),
        free_of("Connection: close"@, Class::One('\n')),
        "Connection: close"@.len() > 0 && "Connection: close"@.last() != '\r',
        free_of("Access-Control-Allow-Origin: *"@, Class::One('\n')),
        "Access-Control-Allow-Origin: *"@.len() > 0 && "Access-Control-Allow-Origin: *"@.last()
            != '\r',
{
    reveal_strlit("HTTP/1.1 ");
    reveal_strlit(" ");
    reveal_strlit("Created");
    reveal_strlit("Bad Request");
    reveal_strlit("Not Found");
    reveal_strlit("Conflict");
    reveal_strlit("Internal Server Error");
    reveal_strlit("OK");
    reveal_strlit("Content-Type: ");
    reveal_strlit("Content-Length: ");
    reveal_strlit("Connection: close");
    reveal_strlit("Access-Control-Allow-Origin: *");
}

proof fn lemma_both(a: Seq<char>, b: Seq<char>)
    requires
        free_of(a, Class::One('\n')),
        free_of(b, Class::One('\n')),
    ensures
        free_of(a + b, Class::One('\n')),
        b.len() > 0 ==> (a + b).last() == b.last(),
{
    assert forall|i: int| 0 <= i < (a + b).len() implies !Class::One('\n').has(
        #[trigger] (a + b)[i],
    ) by {
        if i < a.len() {
            assert((a + b)[i] == a[i]);
        } else {
            assert((a + b)[i] == b[i - a.len()]);
        }
    }
}

proof fn lemma_digits(n: nat)
    ensures
        free_of(decimal(n), Class::One('\n')),
        decimal(n).len() > 0,
        decimal(n).last() != '\r',
{
    lemma_decimal_digits(n);
    let d = decimal(n);
    assert forall|i: int| 0 <= i < d.len() implies !Class::One('\n').has(#[trigger] d[i]) by {
        assert(is_digit(d[i]));
    }
    assert(is_digit(d[d.len() - 1]));
}

proof fn lemma_joined(code: u16, ctype: Seq<char>, len: nat, i: int)
    requires
        0 <= i < 6,
        free_of(ctype, Class::One('\n')),
        ctype.len() > 0 && ctype.last() != '\r',
    ensures
        free_of(head_lines(code, ctype, len)[i], Class::One('\n')),
        head_lines(code, ctype, len)[i].len() > 0 ==> head_lines(code, ctype, len)[i].last()
            != '\r',
{
    lemma_fixed_parts(code);
    lemma_digits(code as nat);
    lemma_digits(len);
    let ls = head_lines(code, ctype, len);
    if i == 0 {
        let a = "HTTP/1.1 "@ + decimal(code as nat);
        lemma_both("HTTP/1.1 "@, decimal(code as nat));
        lemma_both(a, " "@);
        lemma_both(a + " "@, reason(code));
        assert(ls[0] == a + " "@ + reason(code));
    } else if i == 1 {
        lemma_both("Content-Type: "@, ctype);
        assert(ls[1] == "Content-Type: "@ + ctype);
    } else if i == 2 {
        lemma_both("Content-Length: "@, decimal(len));
        assert(ls[2] == "Content-Length: "@ + decimal(len));
    } else {
        assert(ls[3] == "Connection: close"@);
        assert(ls[4] == "Access-Control-Allow-Origin: *"@);
        assert(ls[5].len() == 0);
    }
}

proof fn lemma_written(code: u16, ctype: Seq<char>, len: nat)
    ensures
        head_text(code, ctype, len) == written_lines(head_lines(code, ctype, len), true),
{
    let ls = head_lines(code, ctype, len);
    let e = seq!['\r', '\n'];
    reveal_strlit("\r\nContent-Type: ");
    reveal_strlit("\r\nContent-Length: ");
    reveal_strlit("\r\nConnection: close\r\nAccess-Control-Allow-Origin: *\r\n\r\n");
    reveal_strlit("Content-Type: ");
    reveal_strlit("Content-Length: ");
    reveal_strlit("Connection: close");
    reveal_strlit("Access-Control-Allow-Origin: *");
    assert("\r\nContent-Type: "@ =~= e + "Content-Type: "@);
    assert("\r\nContent-Length: "@ =~= e + "Content-Length: "@);
    assert("\r\nConnection: close\r\nAccess-Control-Allow-Origin: *\r\n\r\n"@ =~= e
        + "Connection: close"@ + e + "Access-Control-Allow-Origin: *"@ + e + e);
    let s5 = ls.skip(1).skip(1).skip(1).skip(1).skip(1);
    let s4 = ls.skip(1).skip(1).skip(1).skip(1);
    let s3 = ls.skip(1).skip(1).skip(1);
    let s2 = ls.skip(1).skip(1);
    let s1 = ls.skip(1);
    assert(s5.len() == 1 && s5[0] == ls[5]);
    assert(s5.skip(1).len() == 0);
    assert(written_lines(s5.skip(1), true) =~= Seq::<char>::empty());
    assert(written_lines(s5, true) =~= e);
    assert(s4.len() == 2 && s4[0] == ls[4]);
    assert(written_lines(s4, true) =~= ls[4] + e + e);
    assert(s3.len() == 3 && s3[0] == ls[3]);
    assert(written_lines(s3, true) =~= ls[3] + e + (ls[4] + e + e));
    assert(s2.len() == 4 && s2[0] == ls[2]);
    assert(written_lines(s2, true) =~= ls[2] + e + (ls[3] + e + (ls[4] + e + e)));
    assert(s1.len() == 5 && s1[0] == ls[1]);
    assert(written_lines(s1, true) =~= ls[1] + e + (ls[2] + e + (ls[3] + e + (ls[4] + e + e))));
    assert(written_lines(ls, true) =~= ls[0] + e + (ls[1] + e + (ls[2] + e + (ls[3] + e + (ls[4]
        + e + e)))));
    assert(head_text(code, ctype, len) =~= written_lines(ls, true));
}

/// A fingerprint is taken of five lines: the hash of the input, the scheme, and the
/// versions of the model, of the fitter and of the scheme.
pub proof fn law_fingerprint_has_five_lines(input_hash: Seq<char>, scheme: Seq<char>)
    requires
        free_of(input_hash, Class::One('\n')),
        free_of(scheme, Class::One('\n')),
    ensures
        pieces(fingerprint_body(input_hash, scheme), Class::One('\n')) == seq![
            input_hash,
            scheme,
            MODEL_VERSION@,
            FITTER_VERSION@,
            SCHEME_VERSION@,
        ],
{
    let ps = seq![input_hash, scheme, MODEL_VERSION@, FITTER_VERSION@, SCHEME_VERSION@];
    lemma_versions();
    assert forall|i: int| 0 <= i < ps.len() implies free_of(#[trigger] ps[i], Class::One('\n')) by {
        assert(i == 0 || i == 1 || i == 2 || i == 3 || i == 4);
    }
    law_parts_are_cut_apart(ps, Class::One('\n'), '\n');
    reveal_strlit("\n");
    assert("\n"@ =~= seq!['\n']);
    let c = seq!['\n'];
    let s1 = ps.skip(1);
    let s2 = s1.skip(1);
    let s3 = s2.skip(1);
    let s4 = s3.skip(1);
    assert(s4.len() == 1 && s4[0] == ps[4]);
    assert(joined_by(s4, '\n') == ps[4]);
    assert(s3.len() == 2 && s3[0] == ps[3]);
    assert(joined_by(s3, '\n') =~= ps[3] + c + ps[4]);
    assert(s2.len() == 3 && s2[0] == ps[2]);
    assert(joined_by(s2, '\n') =~= ps[2] + c + (ps[3] + c + ps[4]));
    assert(s1.len() == 4 && s1[0] == ps[1]);
    assert(joined_by(s1, '\n') =~= ps[1] + c + (ps[2] + c + (ps[3] + c + ps[4])));
    assert(joined_by(ps, '\n') =~= ps[0] + c + (ps[1] + c + (ps[2] + c + (ps[3] + c + ps[4]))));
    assert(fingerprint_body(input_hash, scheme) =~= joined_by(ps, '\n'));
}

/// The versions hold no line break.
proof fn lemma_versions()
    ensures
        free_of(MODEL_VERSION@, Class::One('\n')),
        free_of(FITTER_VERSION@, Class::One('\n')),
        free_of(SCHEME_VERSION@, Class::One('\n')),
{
    reveal_strlit("model-v1.0.0");
    reveal_strlit("lma-v1.0.0");
    reveal_strlit("scheme-v1.0.0");
}

} // verus!
