//! Decimal and hexadecimal numerals.

use vstd::prelude::*;
use vstd::slice::slice_subrange;

verus! {

// ---------------------------------------------------------------- writing

/// The digit with the value `d`.
pub open spec fn digit(d: nat) -> char
    recommends
        d < 10,
{
    (0x30 + d) as char
}

/// The decimal numeral of `n`, without leading zeros.
pub open spec fn decimal(n: nat) -> Seq<char>
    decreases n,
{
    if n < 10 {
        seq![digit(n)]
    } else {
        decimal(n / 10).push(digit(n % 10))
    }
}

/// The decimal numeral of `n`.
pub fn to_decimal(n: u64) -> (r: Vec<char>)
    ensures
        r@ == decimal(n as nat),
    decreases n,
{
    let d: char = (0x30 + (n % 10) as u8) as char;
    let mut r: Vec<char> = if n < 10 {
        Vec::new()
    } else {
        to_decimal(n / 10)
    };
    r.push(d);
    assert(r@ =~= decimal(n as nat));
    r
}

/// The lower-case hexadecimal digit with the value `d`.
pub open spec fn hex_digit(d: int) -> char
    recommends
        0 <= d < 16,
{
    if d < 10 {
        (0x30 + d) as char
    } else {
        (0x57 + d) as char
    }
}

/// Two hexadecimal digits for each byte.
pub open spec fn hex(s: Seq<u8>) -> Seq<char> {
    Seq::new(
        2 * s.len(),
        |i: int|
            if i % 2 == 0 {
                hex_digit(s[i / 2] as int / 16)
            } else {
                hex_digit(s[i / 2] as int % 16)
            },
    )
}

fn to_hex_digit(d: u8) -> (c: char)
    requires
        d < 16,
    ensures
        c == hex_digit(d as int),
{
    if d < 10 {
        (0x30 + d) as char
    } else {
        (0x57 + d) as char
    }
}

/// Two hexadecimal digits for each byte.
pub fn to_hex(s: &[u8]) -> (r: Vec<char>)
    ensures
        r@ == hex(s@),
{
    let mut r: Vec<char> = Vec::new();
    for i in 0..s.len()
        invariant
            r@ == hex(s@.take(i as int)),
    {
        let b: u8 = s[i];
        r.push(to_hex_digit(b / 16));
        r.push(to_hex_digit(b % 16));
        assert(r@ =~= hex(s@.take(i + 1)));
    }
    assert(s@.take(s@.len() as int) =~= s@);
    r
}

/// Hexadecimal digits in lower case throughout.
pub open spec fn lower_hex(s: Seq<char>) -> bool {
    forall|i: int|
        0 <= i < s.len() ==> '0' <= #[trigger] s[i] <= '9' || 'a' <= s[i] <= 'f'
}

/// A hexadecimal text has two digits for each byte, in lower case.
pub proof fn law_hex_is_in_lower_case(a: Seq<u8>)
    ensures
        hex(a).len() == 2 * a.len(),
        lower_hex(hex(a)),
{
    let t = hex(a);
    assert forall|i: int| 0 <= i < t.len() implies '0' <= #[trigger] t[i] <= '9' || 'a' <= t[i]
        <= 'f' by {
        let b = a[i / 2] as int;
        assert(t[i] == hex_digit(b / 16) || t[i] == hex_digit(b % 16));
    }
}

/// A hexadecimal text names one sequence of bytes.
pub proof fn law_hex_names_one_sequence(a: Seq<u8>, b: Seq<u8>)
    requires
        hex(a) == hex(b),
    ensures
        a == b,
{
    assert(hex(a).len() == 2 * a.len() && hex(b).len() == 2 * b.len());
    assert forall|i: int| 0 <= i < a.len() implies a[i] == b[i] by {
        let x = a[i] as int;
        let y = b[i] as int;
        assert((2 * i) / 2 == i && (2 * i + 1) / 2 == i);
        assert((2 * i) % 2 == 0 && (2 * i + 1) % 2 == 1);
        assert(hex(a)[2 * i] == hex_digit(x / 16) && hex(a)[2 * i + 1] == hex_digit(x % 16));
        assert(hex(b)[2 * i] == hex_digit(y / 16) && hex(b)[2 * i + 1] == hex_digit(y % 16));
        assert(x / 16 == y / 16 && x % 16 == y % 16);
    }
    assert(a =~= b);
}

// ---------------------------------------------------------------- reading

/// `c` is a decimal digit.
pub open spec fn is_digit(c: char) -> bool {
    0x30 <= c as u32 <= 0x39
}

/// Decimal digits throughout.
pub open spec fn all_digits(s: Seq<char>) -> bool {
    forall|i: int| 0 <= i < s.len() ==> is_digit(#[trigger] s[i])
}

/// The value of a row of decimal digits.
pub open spec fn digits_value(s: Seq<char>) -> nat
    decreases s.len(),
{
    if s.len() == 0 {
        0
    } else {
        (10 * digits_value(s.drop_last()) + (s.last() as u32 - 0x30)) as nat
    }
}

/// The value that a row of digits denotes, where it is one.
pub open spec fn magnitude(s: Seq<char>) -> Option<nat> {
    if s.len() > 0 && all_digits(s) {
        Some(digits_value(s))
    } else {
        None
    }
}

/// Further digits do not lower the value.
proof fn lemma_value_grows(s: Seq<char>, n: int)
    requires
        all_digits(s),
        0 <= n <= s.len(),
    ensures
        digits_value(s.take(n)) <= digits_value(s),
    decreases s.len() - n,
{
    if n < s.len() {
        lemma_value_grows(s, n + 1);
        assert(s.take(n + 1).drop_last() =~= s.take(n));
        assert(is_digit(s[n]));
        assert(digits_value(s.take(n + 1)) >= 10 * digits_value(s.take(n)));
    } else {
        assert(s.take(n) =~= s);
    }
}

/// The value of a row of digits, where it is one and at most `max`.
fn read_magnitude(s: &[char], max: u64) -> (r: Option<u64>)
    ensures
        match magnitude(s@) {
            Some(v) => if v <= max {
                r == Some(v as u64)
            } else {
                r is None
            },
            None => r is None,
        },
{
    if s.len() == 0 {
        return None;
    }
    let mut acc: u64 = 0;
    let mut big: bool = false;
    assert(s@.take(0) =~= Seq::empty());
    for i in 0..s.len()
        invariant
            all_digits(s@.take(i as int)),
            acc <= max,
            !big ==> acc == digits_value(s@.take(i as int)),
            big ==> digits_value(s@.take(i as int)) > max,
    {
        let u: u32 = s[i] as u32;
        if u < 0x30 || u > 0x39 {
            assert(!is_digit(s@[i as int]));
            return None;
        }
        let d: u64 = (u - 0x30) as u64;
        proof {
            let t = s@.take(i + 1);
            assert(t.drop_last() =~= s@.take(i as int));
            assert(t.last() == s@[i as int]);
            assert(digits_value(t) == 10 * digits_value(s@.take(i as int)) + d);
            assert forall|j: int| 0 <= j < t.len() implies is_digit(#[trigger] t[j]) by {
                if j < i {
                    assert(t[j] == s@.take(i as int)[j]);
                }
            }
        }
        if !big {
            if acc > max / 10 || d > max - 10 * acc {
                big = true;
            } else {
                acc = 10 * acc + d;
            }
        }
    }
    assert(s@.take(s@.len() as int) =~= s@);
    if big {
        None
    } else {
        Some(acc)
    }
}

/// A numeral without a sign, or with a plus sign.
pub open spec fn unsigned(s: Seq<char>) -> Option<nat> {
    if s.len() > 0 && s[0] == '+' {
        magnitude(s.skip(1))
    } else {
        magnitude(s)
    }
}

/// The number that a numeral denotes, where it is one and fits.
pub fn read_usize(s: &[char]) -> (r: Option<usize>)
    ensures
        match unsigned(s@) {
            Some(v) => if v <= usize::MAX {
                r == Some(v as usize)
            } else {
                r is None
            },
            None => r is None,
        },
{
    let body: &[char] = if s.len() > 0 && s[0] == '+' {
        slice_subrange(s, 1, s.len())
    } else {
        s
    };
    assert(s@.len() > 0 && s@[0] == '+' ==> body@ =~= s@.skip(1));
    match read_magnitude(body, usize::MAX as u64) {
        Some(v) => Some(v as usize),
        None => None,
    }
}

/// A numeral with an optional sign.
pub open spec fn signed(s: Seq<char>) -> Option<int> {
    if s.len() > 0 && s[0] == '-' {
        match magnitude(s.skip(1)) {
            Some(v) => Some(-(v as int)),
            None => None,
        }
    } else {
        match unsigned(s) {
            Some(v) => Some(v as int),
            None => None,
        }
    }
}

/// The number that a numeral denotes, where it is one and fits.
pub fn read_i64(s: &[char]) -> (r: Option<i64>)
    ensures
        match signed(s@) {
            Some(v) => if i64::MIN <= v <= i64::MAX {
                r == Some(v as i64)
            } else {
                r is None
            },
            None => r is None,
        },
{
    let negative: bool = s.len() > 0 && s[0] == '-';
    let marked: bool = negative || (s.len() > 0 && s[0] == '+');
    let body: &[char] = if marked {
        slice_subrange(s, 1, s.len())
    } else {
        s
    };
    assert(marked ==> body@ =~= s@.skip(1));
    let max: u64 = if negative {
        0x8000_0000_0000_0000
    } else {
        0x7fff_ffff_ffff_ffff
    };
    match read_magnitude(body, max) {
        Some(v) => if negative {
            if v == 0x8000_0000_0000_0000 {
                Some(i64::MIN)
            } else {
                Some(-(v as i64))
            }
        } else {
            Some(v as i64)
        },
        None => None,
    }
}

/// The decimal form of a whole number.
pub open spec fn signed_decimal(n: int) -> Seq<char> {
    if n < 0 {
        seq!['-'] + decimal((-n) as nat)
    } else {
        decimal(n as nat)
    }
}

/// The decimal form of a whole number.
pub fn to_signed_decimal(n: i64) -> (r: Vec<char>)
    ensures
        r@ == signed_decimal(n as int),
{
    if n >= 0 {
        return to_decimal(n as u64);
    }
    let size: u64 = if n == i64::MIN {
        0x8000_0000_0000_0000
    } else {
        (-n) as u64
    };
    let d: Vec<char> = to_decimal(size);
    let mut r: Vec<char> = Vec::new();
    r.push('-');
    for i in 0..d.len()
        invariant
            r@ == seq!['-'] + d@.take(i as int),
    {
        r.push(d[i]);
        assert(d@.take(i + 1) =~= d@.take(i as int).push(d@[i as int]));
    }
    assert(d@.take(d@.len() as int) =~= d@);
    r
}

} // verus!
