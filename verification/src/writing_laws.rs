//! Laws of what is written: numerals, hexadecimal text, and the canonical form.

use crate::canon::{lemma_by_key, lemma_by_key_set, sorted};
use crate::json::{by_key, canonical, canonical_members, key_le, JsonModel};
use crate::numeral::{
    decimal, digits_value, hex, is_digit, magnitude, signed, signed_decimal, unsigned,
};
use vstd::prelude::*;

verus! {

/// The digits of a numeral, and their value.
pub proof fn lemma_decimal_digits(n: nat)
    ensures
        decimal(n).len() > 0,
        forall|i: int| 0 <= i < decimal(n).len() ==> is_digit(#[trigger] decimal(n)[i]),
        digits_value(decimal(n)) == n,
        n >= 10 ==> decimal(n)[0] != '0',
        n >= 1 ==> decimal(n)[0] != '0',
    decreases n,
{
    let s = decimal(n);
    if n >= 10 {
        lemma_decimal_digits(n / 10);
        assert(s.drop_last() =~= decimal(n / 10));
        assert(s[0] == decimal(n / 10)[0]);
        assert(s.last() as u32 == 0x30 + n % 10);
    } else {
        assert(s.drop_last().len() == 0);
        assert(s.last() as u32 == 0x30 + n);
        assert(digits_value(s.drop_last()) == 0);
    }
}

/// A count that is written is read back, and so is a whole number with its sign.  A
/// numeral of a number above zero begins with no zero.
pub proof fn law_numerals_are_read_back(n: int)
    ensures
        signed(signed_decimal(n)) == Some(n),
        n >= 0 ==> unsigned(decimal(n as nat)) == Some(n as nat),
        n > 0 ==> decimal(n as nat)[0] != '0',
{
    if n < 0 {
        let s = signed_decimal(n);
        lemma_decimal_digits((-n) as nat);
        assert(s.skip(1) =~= decimal((-n) as nat));
        assert(s[0] == '-');
    } else {
        let s = decimal(n as nat);
        lemma_decimal_digits(n as nat);
        assert(is_digit(s[0]));
        assert(magnitude(s) == Some(n as nat));
    }
}

/// The value of a hexadecimal digit.
pub open spec fn nibble(c: char) -> int {
    if '0' <= c <= '9' {
        c as u32 - '0' as u32
    } else {
        c as u32 - 'a' as u32 + 10
    }
}

/// Every byte is written as two hexadecimal digits, the higher one first.
pub proof fn law_hex_digits_mean_bytes(s: Seq<u8>, i: int)
    requires
        0 <= i < s.len(),
    ensures
        hex(s).len() == 2 * s.len(),
        nibble(hex(s)[2 * i]) * 16 + nibble(hex(s)[2 * i + 1]) == s[i],
{
    let b = s[i] as int;
    assert((2 * i) / 2 == i && (2 * i + 1) / 2 == i);
    assert((2 * i) % 2 == 0 && (2 * i + 1) % 2 == 1);
    let h = b / 16;
    let l = b % 16;
    assert(0 <= h < 16 && 0 <= l < 16);
}

/// Keys are ordered by the first character in which they differ, and a key comes
/// before those that it begins.
pub proof fn law_order_of_keys(a: Seq<char>, b: Seq<char>, k: int)
    requires
        0 <= k <= a.len(),
        k < b.len(),
        a.take(k) == b.take(k),
        k < a.len() ==> a[k] < b[k],
    ensures
        key_le(a, b),
        !key_le(b, a),
    decreases k,
{
    if k > 0 {
        assert(a[0] == a.take(k)[0] && b[0] == b.take(k)[0]);
        let x = a.skip(1);
        let y = b.skip(1);
        assert(x.take(k - 1) =~= a.take(k).skip(1));
        assert(y.take(k - 1) =~= b.take(k).skip(1));
        law_order_of_keys(x, y, k - 1);
    }
}

/// The canonical form of an object holds the canonical forms of its members, no more
/// and no fewer, in ascending order of their keys; that of an array those of its
/// elements in their order; every other value is its own.
pub proof fn law_canonical_form(m: JsonModel)
    ensures
        match m {
            JsonModel::Object(e) => {
                let f = canonical(m)->Object_0;
                &&& canonical(m) is Object
                &&& f.len() == e.len()
                &&& sorted(f)
                &&& forall|i: int|
                    0 <= i < e.len() ==> f.contains(((#[trigger] e[i]).0, canonical(e[i].1)))
            },
            JsonModel::Array(a) => {
                let f = canonical(m)->Array_0;
                &&& canonical(m) is Array
                &&& f.len() == a.len()
                &&& forall|i: int| 0 <= i < a.len() ==> f[i] == canonical(#[trigger] a[i])
            },
            _ => canonical(m) == m,
        },
{
    match m {
        JsonModel::Object(e) => {
            let c = canonical_members(e);
            lemma_by_key(c);
            lemma_by_key_set(c);
            assert forall|i: int| 0 <= i < e.len() implies by_key(c).contains(
                ((#[trigger] e[i]).0, canonical(e[i].1)),
            ) by {
                assert(c[i] == (e[i].0, canonical(e[i].1)));
            }
        },
        _ => {},
    }
}

} // verus!
