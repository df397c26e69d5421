//! Text on the level of characters: trimming, splitting, lines, decimal
//! numerals.
//!
//! A text is modelled by its sequence of characters.  The executable
//! functions work on slices of characters, so that a piece of a text is a
//! piece of the slice.

use vstd::prelude::*;
use vstd::slice::slice_subrange;

verus! {

/// `String::push` of the standard library: the string grows by the one
/// character, at its end.
pub assume_specification[ String::push ](s: &mut String, c: char)
    ensures
        final(s)@ == old(s)@.push(c),
;

// ---------------------------------------------------------------- classes

/// The Unicode property `White_Space`.
pub open spec fn is_white(c: char) -> bool {
    let u = c as u32;
    ||| 0x09 <= u <= 0x0d
    ||| u == 0x20
    ||| u == 0x85
    ||| u == 0xa0
    ||| u == 0x1680
    ||| 0x2000 <= u <= 0x200a
    ||| u == 0x2028
    ||| u == 0x2029
    ||| u == 0x202f
    ||| u == 0x205f
    ||| u == 0x3000
}

/// Whether `c` is white space.
pub fn white(c: char) -> (b: bool)
    ensures
        b == is_white(c),
{
    let u: u32 = c as u32;
    (0x09 <= u && u <= 0x0d) || u == 0x20 || u == 0x85 || u == 0xa0 || u == 0x1680 || (0x2000 <= u
        && u <= 0x200a) || u == 0x2028 || u == 0x2029 || u == 0x202f || u == 0x205f || u == 0x3000
}

/// A set of characters at which a text is cut or trimmed.
#[derive(Clone, Copy, Debug)]
pub enum Class {
    /// White space.
    White,
    /// The column separators of a table: comma, semicolon, tab.
    Column,
    /// One character.
    One(char),
}

impl Class {
    /// Membership.
    pub open spec fn has(self, c: char) -> bool {
        match self {
            Class::White => is_white(c),
            Class::Column => c == ',' || c == ';' || c == '\t',
            Class::One(d) => c == d,
        }
    }

    /// Whether `c` belongs to the class.
    pub fn holds(&self, c: char) -> (b: bool)
        ensures
            b == self.has(c),
    {
        match self {
            Class::White => white(c),
            Class::Column => c == ',' || c == ';' || c == '\t',
            Class::One(d) => c == *d,
        }
    }
}

// ---------------------------------------------------------------- conversion

/// The characters of `s`, in order.
pub fn chars_of(s: &str) -> (r: Vec<char>)
    ensures
        r@ == s@,
{
    let mut r: Vec<char> = Vec::new();
    for c in it: s.chars()
        invariant
            it.seq() == s@,
            r@ == s@.subrange(0, it.index() as int),
    {
        r.push(c);
    }
    r
}

/// The string with the characters `cs`.
pub fn string_of(cs: &[char]) -> (r: String)
    ensures
        r@ == cs@,
{
    let mut r: String = String::new();
    for i in 0..cs.len()
        invariant
            r@ == cs@.subrange(0, i as int),
    {
        r.push(cs[i]);
        assert(cs@.subrange(0, i + 1) =~= cs@.subrange(0, i as int).push(cs@[i as int]));
    }
    assert(cs@.subrange(0, cs@.len() as int) =~= cs@);
    r
}

/// Whether the characters are those of `b`.
pub fn same(a: &[char], b: &str) -> (r: bool)
    ensures
        r == (a@ == b@),
{
    let cs: Vec<char> = chars_of(b);
    if a.len() != cs.len() {
        return false;
    }
    for i in 0..a.len()
        invariant
            a@.len() == cs@.len(),
            cs@ == b@,
            forall|j: int| 0 <= j < i ==> a@[j] == cs@[j],
    {
        if a[i] != cs[i] {
            assert(a@[i as int] != b@[i as int]);
            return false;
        }
    }
    assert(a@ =~= b@);
    true
}

// ---------------------------------------------------------------- searching

/// The first position of a member of `k` in `s`, or the length of `s`.
pub open spec fn first_at(s: Seq<char>, k: Class) -> nat
    decreases s.len(),
{
    if s.len() == 0 {
        0
    } else if k.has(s[0]) {
        0
    } else {
        1 + first_at(s.skip(1), k)
    }
}

/// What makes a position the first one.
pub proof fn lemma_first_at(s: Seq<char>, k: Class)
    ensures
        0 <= first_at(s, k) <= s.len(),
        forall|j: int| 0 <= j < first_at(s, k) ==> !k.has(#[trigger] s[j]),
        first_at(s, k) < s.len() ==> k.has(s[first_at(s, k) as int]),
    decreases s.len(),
{
    if s.len() != 0 && !k.has(s[0]) {
        lemma_first_at(s.skip(1), k);
        assert forall|j: int| 0 <= j < first_at(s, k) implies !k.has(#[trigger] s[j]) by {
            if j > 0 {
                assert(s[j] == s.skip(1)[j - 1]);
            }
        }
    }
}

/// There is one such position.
pub proof fn lemma_first_at_is(s: Seq<char>, k: Class, n: int)
    requires
        0 <= n <= s.len(),
        forall|j: int| 0 <= j < n ==> !k.has(#[trigger] s[j]),
        n < s.len() ==> k.has(s[n]),
    ensures
        first_at(s, k) == n,
{
    lemma_first_at(s, k);
    let f = first_at(s, k) as int;
    if f < n {
        assert(!k.has(s[f]));
    }
    if n < f {
        assert(!k.has(s[n]));
    }
}

/// The first position of a member of `k`, at `from` or later.
pub fn find(s: &[char], k: Class, from: usize) -> (r: usize)
    requires
        from <= s@.len(),
    ensures
        from <= r <= s@.len(),
        r - from == first_at(s@.skip(from as int), k),
{
    let mut i: usize = from;
    while i < s.len() && !k.holds(s[i])
        invariant
            from <= i <= s@.len(),
            forall|j: int| from <= j < i ==> !k.has(#[trigger] s@[j]),
        decreases s@.len() - i,
    {
        i += 1;
    }
    proof {
        let t = s@.skip(from as int);
        assert forall|j: int| 0 <= j < i - from implies !k.has(#[trigger] t[j]) by {
            assert(t[j] == s@[from + j]);
        }
        lemma_first_at_is(t, k, i - from);
    }
    i
}

// ---------------------------------------------------------------- trimming

/// `s` without its leading members of `k`.
pub open spec fn trimmed_start(s: Seq<char>, k: Class) -> Seq<char>
    decreases s.len(),
{
    if s.len() > 0 && k.has(s[0]) {
        trimmed_start(s.skip(1), k)
    } else {
        s
    }
}

/// `s` without its trailing members of `k`.
pub open spec fn trimmed_end(s: Seq<char>, k: Class) -> Seq<char>
    decreases s.len(),
{
    if s.len() > 0 && k.has(s.last()) {
        trimmed_end(s.drop_last(), k)
    } else {
        s
    }
}

/// `s` without its leading and trailing members of `k`.
pub open spec fn trimmed(s: Seq<char>, k: Class) -> Seq<char> {
    trimmed_end(trimmed_start(s, k), k)
}

/// `s` without its leading and trailing members of `k`.
pub fn trim<'a>(s: &'a [char], k: Class) -> (r: &'a [char])
    ensures
        r@ == trimmed(s@, k),
{
    let mut lo: usize = 0;
    assert(s@.skip(0) =~= s@);
    while lo < s.len() && k.holds(s[lo])
        invariant
            lo <= s@.len(),
            trimmed_start(s@.skip(lo as int), k) == trimmed_start(s@, k),
        decreases s@.len() - lo,
    {
        assert(s@.skip(lo as int).skip(1) =~= s@.skip(lo + 1));
        lo += 1;
    }
    assert(trimmed_start(s@, k) == s@.skip(lo as int));
    let ghost t = s@.skip(lo as int);
    let mut hi: usize = s.len();
    assert(t =~= s@.subrange(lo as int, hi as int));
    while lo < hi && k.holds(s[hi - 1])
        invariant
            lo <= hi <= s@.len(),
            trimmed_end(s@.subrange(lo as int, hi as int), k) == trimmed_end(t, k),
        decreases hi,
    {
        assert(s@.subrange(lo as int, hi as int).drop_last() =~= s@.subrange(lo as int, hi - 1));
        hi -= 1;
    }
    slice_subrange(s, lo, hi)
}

// ---------------------------------------------------------------- splitting

/// The texts behind a sequence of slices.
pub open spec fn views(v: Seq<&[char]>) -> Seq<Seq<char>> {
    v.map_values(|x: &[char]| x@)
}

/// `s` cut at every member of `k`: one piece more than there are cuts.
pub open spec fn pieces(s: Seq<char>, k: Class) -> Seq<Seq<char>>
    decreases s.len(),
{
    let n = first_at(s, k) as int;
    if n >= s.len() {
        seq![s]
    } else {
        seq![s.take(n)] + pieces(s.skip(n + 1), k)
    }
}

/// `s` cut at every member of `k`.
pub fn split<'a>(s: &'a [char], k: Class) -> (r: Vec<&'a [char]>)
    ensures
        views(r@) == pieces(s@, k),
        r@.len() >= 1,
{
    let mut r: Vec<&'a [char]> = Vec::new();
    let mut start: usize = 0;
    assert(s@.skip(0) =~= s@);
    assert(views(r@) + pieces(s@, k) =~= pieces(s@, k));
    loop
        invariant_except_break
            start <= s@.len(),
            views(r@) + pieces(s@.skip(start as int), k) == pieces(s@, k),
        ensures
            views(r@) == pieces(s@, k),
            r@.len() >= 1,
        decreases s@.len() - start,
    {
        let end: usize = find(s, k, start);
        let ghost rest = s@.skip(start as int);
        let ghost before = r@;
        let piece: &'a [char] = slice_subrange(s, start, end);
        r.push(piece);
        proof {
            assert(piece@ =~= rest.take(end - start));
            assert(views(r@) =~= views(before).push(piece@));
        }
        if end >= s.len() {
            proof {
                assert(piece@ =~= rest);
                assert(views(r@) =~= views(before) + seq![rest]);
            }
            break;
        }
        proof {
            assert(rest.skip(end - start + 1) =~= s@.skip(end + 1));
            let tail = pieces(s@.skip(end + 1), k);
            assert(views(before) + (seq![piece@] + tail) =~= views(r@) + tail);
        }
        start = end + 1;
    }
    r
}

// ---------------------------------------------------------------- lines

/// A line without the carriage return that stands before its line feed.
pub open spec fn without_return(s: Seq<char>) -> Seq<char> {
    if s.len() > 0 && s.last() == '\r' {
        s.drop_last()
    } else {
        s
    }
}

/// The lines of a text.  A line ends at a line feed or at the end of the
/// text; the text has no empty last line.
pub open spec fn line_seq(s: Seq<char>) -> Seq<Seq<char>>
    decreases s.len(),
{
    let n = first_at(s, Class::One('\n')) as int;
    if s.len() == 0 {
        seq![]
    } else if n >= s.len() {
        seq![s]
    } else {
        seq![without_return(s.take(n))] + line_seq(s.skip(n + 1))
    }
}

/// The lines of a text.
pub fn lines<'a>(s: &'a [char]) -> (r: Vec<&'a [char]>)
    ensures
        views(r@) == line_seq(s@),
{
    let mut r: Vec<&'a [char]> = Vec::new();
    let mut start: usize = 0;
    let k: Class = Class::One('\n');
    assert(s@.skip(0) =~= s@);
    assert(views(r@) + line_seq(s@) =~= line_seq(s@));
    while start < s.len()
        invariant
            start <= s@.len(),
            k == Class::One('\n'),
            views(r@) + line_seq(s@.skip(start as int)) == line_seq(s@),
        decreases s@.len() - start,
    {
        let end: usize = find(s, k, start);
        let ghost rest = s@.skip(start as int);
        let ghost before = r@;
        proof {
            assert(rest.take(end - start) =~= s@.subrange(start as int, end as int));
        }
        if end >= s.len() {
            let piece: &'a [char] = slice_subrange(s, start, end);
            r.push(piece);
            proof {
                assert(piece@ =~= rest);
                assert(views(r@) =~= views(before) + seq![rest]);
                assert(s@.skip(s@.len() as int) =~= Seq::empty());
                assert(views(r@) + line_seq(s@.skip(s@.len() as int)) =~= views(r@));
            }
            start = s.len();
        } else {
            let cut: usize = if end > start && s[end - 1] == '\r' {
                end - 1
            } else {
                end
            };
            let piece: &'a [char] = slice_subrange(s, start, cut);
            r.push(piece);
            proof {
                assert(piece@ =~= without_return(rest.take(end - start)));
                assert(views(r@) =~= views(before).push(piece@));
                assert(rest.skip(end - start + 1) =~= s@.skip(end + 1));
                let tail = line_seq(s@.skip(end + 1));
                assert(views(before) + (seq![piece@] + tail) =~= views(r@) + tail);
            }
            start = end + 1;
        }
    }
    proof {
        assert(s@.skip(start as int) =~= Seq::empty());
        assert(views(r@) + line_seq(s@.skip(start as int)) =~= views(r@));
    }
    r
}

// ---------------------------------------------------------------- case

/// The ASCII lower case of a character; other characters stand for themselves.
pub open spec fn lower_char(c: char) -> char {
    if 0x41 <= c as u32 <= 0x5a {
        ((c as u32) + 0x20) as char
    } else {
        c
    }
}

/// The ASCII lower case of a text.
pub open spec fn lowered(s: Seq<char>) -> Seq<char> {
    s.map_values(|c: char| lower_char(c))
}

/// The ASCII lower case of a text.
pub fn to_lower(s: &[char]) -> (r: Vec<char>)
    ensures
        r@ == lowered(s@),
{
    let mut r: Vec<char> = Vec::new();
    for i in 0..s.len()
        invariant
            r@ == lowered(s@.take(i as int)),
    {
        let c: char = s[i];
        let u: u32 = c as u32;
        let d: char = if 0x41 <= u && u <= 0x5a {
            (u as u8 + 0x20) as char
        } else {
            c
        };
        r.push(d);
        assert(s@.take(i + 1) =~= s@.take(i as int).push(c));
        assert(r@ =~= lowered(s@.take(i + 1)));
    }
    assert(s@.take(s@.len() as int) =~= s@);
    r
}

/// `s` without the members of `k`.
pub open spec fn without(s: Seq<char>, k: Class) -> Seq<char> {
    s.filter(|c: char| !k.has(c))
}

/// `s` without the members of `k`.
pub fn remove(s: &[char], k: Class) -> (r: Vec<char>)
    ensures
        r@ == without(s@, k),
{
    let mut r: Vec<char> = Vec::new();
    let ghost keep = |c: char| !k.has(c);
    proof {
        reveal(Seq::filter);
    }
    assert(s@.take(0) =~= Seq::empty());
    for i in 0..s.len()
        invariant
            keep == (|c: char| !k.has(c)),
            r@ == s@.take(i as int).filter(keep),
    {
        let c: char = s[i];
        proof {
            reveal(Seq::filter);
            assert(s@.take(i + 1).drop_last() =~= s@.take(i as int));
            assert(s@.take(i + 1).last() == c);
        }
        if !k.holds(c) {
            r.push(c);
        }
    }
    assert(s@.take(s@.len() as int) =~= s@);
    r
}

// ---------------------------------------------------------------- patterns

/// `p` stands in `s` at position `i`.
pub open spec fn occurs_at<T>(s: Seq<T>, p: Seq<T>, i: int) -> bool {
    0 <= i && i + p.len() <= s.len() && s.subrange(i, i + p.len()) == p
}

/// The first position at which `p` stands in `s`, or the length of `s`.
pub open spec fn seek<T>(s: Seq<T>, p: Seq<T>) -> nat
    decreases s.len(),
{
    if s.len() == 0 || occurs_at(s, p, 0) {
        0
    } else {
        1 + seek(s.skip(1), p)
    }
}

/// What makes a position the first one.
pub proof fn lemma_seek<T>(s: Seq<T>, p: Seq<T>)
    requires
        p.len() > 0,
    ensures
        seek(s, p) <= s.len(),
        forall|j: int| 0 <= j < seek(s, p) ==> !#[trigger] occurs_at(s, p, j),
        seek(s, p) < s.len() ==> occurs_at(s, p, seek(s, p) as int),
        seek(s, p) == s.len() ==> forall|j: int| !#[trigger] occurs_at(s, p, j),
    decreases s.len(),
{
    if s.len() != 0 && !occurs_at(s, p, 0) {
        let t = s.skip(1);
        lemma_seek(t, p);
        assert forall|j: int| 1 <= j implies #[trigger] occurs_at(s, p, j) == occurs_at(t, p, j - 1) by {
            if j + p.len() <= s.len() {
                assert(s.subrange(j, j + p.len()) =~= t.subrange(j - 1, j - 1 + p.len()));
            }
        }
        assert forall|j: int| 0 <= j < seek(s, p) implies !#[trigger] occurs_at(s, p, j) by {
            if j > 0 {
                assert(!occurs_at(t, p, j - 1));
            }
        }
        if seek(s, p) == s.len() {
            assert forall|j: int| !#[trigger] occurs_at(s, p, j) by {
                if j > 0 {
                    assert(!occurs_at(t, p, j - 1));
                }
            }
        }
    }
}

/// There is one such position.
pub proof fn lemma_seek_is<T>(s: Seq<T>, p: Seq<T>, n: int)
    requires
        p.len() > 0,
        occurs_at(s, p, n),
        forall|j: int| 0 <= j < n ==> !#[trigger] occurs_at(s, p, j),
    ensures
        seek(s, p) == n,
{
    lemma_seek(s, p);
    let f = seek(s, p) as int;
    if f < n {
        assert(!occurs_at(s, p, f));
    }
}

/// A position that is the first one stays the first one when `s` grows.
pub proof fn lemma_seek_extend<T>(s: Seq<T>, more: Seq<T>, p: Seq<T>)
    requires
        p.len() > 0,
        seek(s, p) < s.len(),
    ensures
        seek(s + more, p) == seek(s, p),
{
    lemma_seek(s, p);
    let f = seek(s, p) as int;
    let t = s + more;
    assert forall|j: int| 0 <= j <= f implies #[trigger] occurs_at(t, p, j) == occurs_at(s, p, j) by {
        assert(t.subrange(j, j + p.len()) =~= s.subrange(j, j + p.len()));
    }
    lemma_seek_is(t, p, f);
}

/// Whether `p` stands in `s` at position `i`.
fn matches_at(s: &[char], p: &[char], i: usize) -> (r: bool)
    requires
        i <= s@.len(),
    ensures
        r == occurs_at(s@, p@, i as int),
{
    if s.len() - i < p.len() {
        return false;
    }
    for j in 0..p.len()
        invariant
            i + p.len() <= s.len(),
            forall|l: int| 0 <= l < j ==> s@[i + l] == p@[l],
    {
        if s[i + j] != p[j] {
            assert(s@.subrange(i as int, i + p@.len())[j as int] != p@[j as int]);
            return false;
        }
    }
    assert(s@.subrange(i as int, i + p@.len()) =~= p@);
    true
}

/// The first position at which `p` stands in `s`, or the length of `s`.
pub fn search(s: &[char], p: &[char]) -> (r: usize)
    requires
        p@.len() > 0,
    ensures
        r == seek(s@, p@),
{
    let mut i: usize = 0;
    while i < s.len()
        invariant
            i <= s@.len(),
            p@.len() > 0,
            forall|j: int| 0 <= j < i ==> !#[trigger] occurs_at(s@, p@, j),
        decreases s@.len() - i,
    {
        if matches_at(s, p, i) {
            proof {
                lemma_seek_is(s@, p@, i as int);
            }
            return i;
        }
        i += 1;
    }
    proof {
        lemma_seek(s@, p@);
        if seek(s@, p@) < s@.len() {
            assert(!occurs_at(s@, p@, seek(s@, p@) as int));
        }
    }
    i
}

/// The text between the first and the second `p` in `s`, or from the first to
/// the end; empty where there is no `p`.
pub open spec fn second_part(s: Seq<char>, p: Seq<char>) -> Seq<char> {
    let h = seek(s, p);
    if h >= s.len() {
        Seq::empty()
    } else {
        let rest = s.skip((h + p.len()) as int);
        rest.take(seek(rest, p) as int)
    }
}

/// The text between the first and the second `p`.
pub fn after_first<'a>(s: &'a [char], p: &[char]) -> (r: &'a [char])
    requires
        p@.len() > 0,
    ensures
        r@ == second_part(s@, p@),
{
    let h: usize = search(s, p);
    proof {
        lemma_seek(s@, p@);
    }
    if h >= s.len() {
        return slice_subrange(s, 0, 0);
    }
    let rest: &'a [char] = slice_subrange(s, h + p.len(), s.len());
    proof {
        assert(rest@ =~= s@.skip(h + p@.len()));
        lemma_seek(rest@, p@);
    }
    let n: usize = search(rest, p);
    slice_subrange(rest, 0, n)
}

/// `p` stands somewhere in `s`.
pub open spec fn has_part(s: Seq<char>, p: Seq<char>) -> bool {
    exists|i: int| occurs_at(s, p, i)
}

/// Whether `p` stands somewhere in `s`.
pub fn contains(s: &[char], p: &[char]) -> (r: bool)
    requires
        p@.len() > 0,
    ensures
        r == has_part(s@, p@),
{
    let n: usize = search(s, p);
    proof {
        lemma_seek(s@, p@);
    }
    n < s.len()
}

/// `s` begins with `p`.
pub open spec fn begins(s: Seq<char>, p: Seq<char>) -> bool {
    p.len() <= s.len() && s.take(p.len() as int) == p
}

/// Whether `s` begins with `p`.
pub fn starts_with(s: &[char], p: &[char]) -> (r: bool)
    ensures
        r == begins(s@, p@),
{
    let r: bool = matches_at(s, p, 0);
    proof {
        if p@.len() <= s@.len() {
            assert(s@.subrange(0, p@.len() as int) =~= s@.take(p@.len() as int));
        }
    }
    r
}

} // verus!
