//! HTTP/1.1: framing of requests, their parts, routing, and response heads.

use crate::numeral::{decimal, read_usize, to_decimal, unsigned};
use crate::text::{
    after_first, begins, chars_of, find, first_at, lemma_seek, lemma_seek_is, line_seq, lines,
    lowered, occurs_at, same, second_part, seek, starts_with, string_of, to_lower, trim, trimmed,
    trimmed_start, views, Class,
};
use vstd::prelude::*;
use vstd::slice::slice_subrange;
use vstd::utf8::{decode_utf8, valid_utf8};

verus! {

/// The most bytes of a request that is not complete.
pub const MAX_BODY: usize = 33554432;

// ---------------------------------------------------------------------- framing

/// The bytes as text, with what is not UTF-8 replaced.
pub uninterp spec fn lossy(bytes: Seq<u8>) -> Seq<char>;

/// `String::from_utf8_lossy` of the standard library: the text is a function
/// of the bytes, and the decoded text where the bytes are UTF-8.  How other
/// bytes are replaced is not stated.
#[verifier::external_body]
fn lossy_text(bytes: &[u8]) -> (r: String)
    ensures
        r@ == lossy(bytes@),
        valid_utf8(bytes@) ==> r@ == decode_utf8(bytes@),
{
    String::from_utf8_lossy(bytes).into_owned()
}

/// The bytes between the head and the body of a request.
pub open spec fn terminator() -> Seq<u8> {
    seq![13u8, 10u8, 13u8, 10u8]
}

/// The length that a header line announces, where it is a `Content-Length`
/// line; zero where it announces no number.
pub open spec fn announced(line: Seq<char>) -> Option<nat> {
    let l = lowered(line);
    let name = "content-length:"@;
    if begins(l, name) {
        match unsigned(trimmed(l.skip(name.len() as int), Class::White)) {
            Some(v) if v <= usize::MAX => Some(v),
            _ => Some(0),
        }
    } else {
        None
    }
}

/// The length of the body by the first line that announces one; zero where no
/// line does.
pub open spec fn body_length(ls: Seq<Seq<char>>) -> nat
    decreases ls.len(),
{
    if ls.len() == 0 {
        0
    } else {
        match announced(ls[0]) {
            Some(v) => v,
            None => body_length(ls.skip(1)),
        }
    }
}

/// The length of the body that a head announces.
pub open spec fn content_length(head: Seq<char>) -> nat {
    body_length(line_seq(head))
}

/// The bytes of a request before the terminator, or all of them where there is
/// none.
pub open spec fn head_bytes(all: Seq<u8>) -> Seq<u8> {
    all.take(seek(all, terminator()) as int)
}

/// The head of a request is there, and as many bytes of its body as the text
/// of the head announces.
pub open spec fn complete_by(all: Seq<u8>, head: Seq<char>) -> bool {
    let h = seek(all, terminator()) as int;
    h < all.len() && all.len() >= h + 4 + content_length(head)
}

/// The request is complete: its head is there, and as many bytes of its body
/// as the head announces.
pub open spec fn complete(all: Seq<u8>) -> bool {
    complete_by(all, lossy(head_bytes(all)))
}

/// What to do with the bytes read so far.
#[derive(Clone, Copy, Debug, PartialEq, Eq, Structural)]
pub enum Progress {
    /// Read on.
    More,
    /// The request is complete.
    Complete,
    /// The request is too large; drop the connection.
    TooLarge,
}

/// The position of the terminator, or the number of bytes.
fn find_terminator(all: &Vec<u8>) -> (r: usize)
    ensures
        r == seek(all@, terminator()),
{
    let n: usize = all.len();
    let mut i: usize = 0;
    while i < n
        invariant
            n == all@.len(),
            i <= n,
            forall|j: int| 0 <= j < i ==> !#[trigger] occurs_at(all@, terminator(), j),
        decreases n - i,
    {
        if n - i >= 4 && all[i] == 13 && all[i + 1] == 10 && all[i + 2] == 13 && all[i + 3] == 10 {
            proof {
                assert(all@.subrange(i as int, i + 4) =~= terminator());
                lemma_seek_is(all@, terminator(), i as int);
            }
            return i;
        }
        proof {
            if occurs_at(all@, terminator(), i as int) {
                let w = all@.subrange(i as int, i + 4);
                assert(w[0] == 13 && w[1] == 10 && w[2] == 13 && w[3] == 10);
            }
        }
        i = i + 1;
    }
    proof {
        lemma_seek(all@, terminator());
        if seek(all@, terminator()) < n {
            assert(!occurs_at(all@, terminator(), seek(all@, terminator()) as int));
        }
    }
    i
}

fn announced_by(line: &[char]) -> (r: Option<usize>)
    ensures
        match announced(line@) {
            Some(v) => v <= usize::MAX && r == Some(v as usize),
            None => r is None,
        },
{
    let l: Vec<char> = to_lower(line);
    let name: Vec<char> = chars_of("content-length:");
    if !starts_with(l.as_slice(), name.as_slice()) {
        return None;
    }
    let rest: &[char] = slice_subrange(l.as_slice(), name.len(), l.len());
    assert(rest@ =~= l@.skip(name@.len() as int));
    match read_usize(trim(rest, Class::White)) {
        Some(v) => Some(v),
        None => Some(0),
    }
}

/// The length of the body that a head announces.
pub fn length_of(head: &str) -> (r: usize)
    ensures
        r == content_length(head@),
{
    let cs: Vec<char> = chars_of(head);
    let ls: Vec<&[char]> = lines(cs.as_slice());
    assert(views(ls@).skip(0) =~= views(ls@));
    for i in 0..ls.len()
        invariant
            views(ls@) == line_seq(head@),
            body_length(views(ls@).skip(i as int)) == content_length(head@),
    {
        assert(views(ls@).skip(i as int)[0] == ls@[i as int]@);
        match announced_by(ls[i]) {
            Some(v) => {
                return v;
            },
            None => {},
        }
        assert(views(ls@).skip(i as int).skip(1) =~= views(ls@).skip(i + 1));
    }
    0
}

/// What to do with the bytes read so far.  A request that is complete is
/// answered, however large it is; one that is not may not grow beyond the
/// limit.  Where the head is UTF-8, the decoded text says how long the body is.
pub fn progress(all: &Vec<u8>) -> (r: Progress)
    ensures
        r is Complete <==> complete(all@),
        r is TooLarge <==> !complete(all@) && all@.len() > MAX_BODY,
        valid_utf8(head_bytes(all@)) ==> (r is Complete <==> complete_by(
            all@,
            decode_utf8(head_bytes(all@)),
        )),
{
    let n: usize = all.len();
    let h: usize = find_terminator(all);
    proof {
        lemma_seek(all@, terminator());
    }
    if h < n {
        let head: String = lossy_text(slice_subrange(all.as_slice(), 0, h));
        assert(all@.subrange(0, h as int) =~= all@.take(h as int));
        let len: usize = length_of(head.as_str());
        if n - h - 4 >= len {
            return Progress::Complete;
        }
    }
    if n > MAX_BODY {
        Progress::TooLarge
    } else {
        Progress::More
    }
}

// ---------------------------------------------------------------------- requests

/// The parts of a request.
pub struct Request {
    pub method: String,
    pub path: String,
    pub query: String,
    pub body: String,
}

/// The first word of a text, and what follows it; none in white space alone.
pub open spec fn first_word(s: Seq<char>) -> Option<(Seq<char>, Seq<char>)> {
    let t = trimmed_start(s, Class::White);
    if t.len() == 0 {
        None
    } else {
        let n = first_at(t, Class::White) as int;
        Some((t.take(n), t.skip(n)))
    }
}

/// The method and the target of a request line, `GET` and `/` where they are
/// missing.
pub open spec fn line_parts(line: Seq<char>) -> (Seq<char>, Seq<char>) {
    match first_word(line) {
        None => ("GET"@, "/"@),
        Some((method, rest)) => match first_word(rest) {
            None => (method, "/"@),
            Some((target, _)) => (method, target),
        },
    }
}

/// The path of a target: what stands before the first question mark.
pub open spec fn path_of(target: Seq<char>) -> Seq<char> {
    target.take(first_at(target, Class::One('?')) as int)
}

/// The query of a target: what stands behind the first question mark.
pub open spec fn query_of(target: Seq<char>) -> Seq<char> {
    let n = first_at(target, Class::One('?')) as int;
    if n < target.len() {
        target.skip(n + 1)
    } else {
        Seq::empty()
    }
}

/// The body of a request: what stands between the first and the second blank
/// line, or behind the first.
pub open spec fn body_of(text: Seq<char>) -> Seq<char> {
    second_part(text, "\r\n\r\n"@)
}

impl Request {
    /// These are the parts of the request with the given text.
    pub open spec fn reads(self, text: Seq<char>) -> bool {
        let (method, target) = line_parts(line_seq(text)[0]);
        &&& self.method@ == method
        &&& self.path@ == path_of(target)
        &&& self.query@ == query_of(target)
        &&& self.body@ == body_of(text)
    }
}

/// The first word of a text and what follows it.
fn word<'a>(s: &'a [char]) -> (r: Option<(&'a [char], &'a [char])>)
    ensures
        match first_word(s@) {
            None => r is None,
            Some((w, rest)) => r matches Some((a, b)) && a@ == w && b@ == rest,
        },
{
    let mut lo: usize = 0;
    assert(s@.skip(0) =~= s@);
    while lo < s.len() && Class::White.holds(s[lo])
        invariant
            lo <= s@.len(),
            trimmed_start(s@.skip(lo as int), Class::White) == trimmed_start(s@, Class::White),
        decreases s@.len() - lo,
    {
        assert(s@.skip(lo as int).skip(1) =~= s@.skip(lo + 1));
        lo += 1;
    }
    if lo >= s.len() {
        return None;
    }
    let t: &[char] = slice_subrange(s, lo, s.len());
    assert(t@ =~= s@.skip(lo as int));
    let n: usize = find(t, Class::White, 0);
    assert(t@.skip(0) =~= t@);
    let a: &[char] = slice_subrange(t, 0, n);
    let b: &[char] = slice_subrange(t, n, t.len());
    assert(a@ =~= t@.take(n as int));
    assert(b@ =~= t@.skip(n as int));
    Some((a, b))
}

/// The parts of the request with the given text; none where it has no line.
pub fn parse_request(text: &str) -> (r: Option<Request>)
    ensures
        r is Some <==> text@.len() > 0,
        r matches Some(q) ==> q.reads(text@),
{
    let cs: Vec<char> = chars_of(text);
    let all: &[char] = cs.as_slice();
    let ls: Vec<&[char]> = lines(all);
    assert(views(ls@).len() == ls@.len());
    if ls.len() == 0 {
        return None;
    }
    assert(views(ls@)[0] == ls@[0]@);
    let get: Vec<char> = chars_of("GET");
    let slash: Vec<char> = chars_of("/");
    let (method, target): (&[char], &[char]) = match word(ls[0]) {
        None => (get.as_slice(), slash.as_slice()),
        Some((m, rest)) => match word(rest) {
            None => (m, slash.as_slice()),
            Some((t, _)) => (m, t),
        },
    };
    let n: usize = find(target, Class::One('?'), 0);
    assert(target@.skip(0) =~= target@);
    let path: &[char] = slice_subrange(target, 0, n);
    assert(path@ =~= target@.take(n as int));
    let query: &[char] = if n < target.len() {
        slice_subrange(target, n + 1, target.len())
    } else {
        slice_subrange(target, 0, 0)
    };
    assert(query@ =~= query_of(target@));
    let blank: Vec<char> = chars_of("\r\n\r\n");
    proof {
        reveal_strlit("\r\n\r\n");
    }
    let body: &[char] = after_first(all, blank.as_slice());
    Some(
        Request {
            method: string_of(method),
            path: string_of(path),
            query: string_of(query),
            body: string_of(body),
        },
    )
}

/// The parts of the request with the given bytes; none where there are none.
pub fn read_request(all: &Vec<u8>) -> (r: Option<Request>)
    ensures
        r is Some <==> lossy(all@).len() > 0,
        r matches Some(q) ==> q.reads(lossy(all@)),
        valid_utf8(all@) ==> (r is Some <==> decode_utf8(all@).len() > 0),
        valid_utf8(all@) ==> (r matches Some(q) ==> q.reads(decode_utf8(all@))),
{
    let text: String = lossy_text(all.as_slice());
    parse_request(text.as_str())
}

// ----------------------------------------------------------------------- routing

/// What a request asks for.
#[derive(Clone, Copy, Debug, PartialEq, Eq, Structural)]
pub enum Target {
    Index,
    Code,
    Style,
    Preflight,
    Datasets,
    Upload,
    Convert,
    Schemes,
    CreateScheme,
    AcceptScheme,
    Fit,
    NotFound,
}

/// What a request with a method and a path asks for.  Pages are answered to
/// `GET` alone, the interface to any method but `OPTIONS`.
pub open spec fn routed(method: Seq<char>, path: Seq<char>) -> Target {
    let get = method == "GET"@;
    if get && (path == "/"@ || path == "/index.html"@) {
        Target::Index
    } else if get && path == "/app.js"@ {
        Target::Code
    } else if get && path == "/styles.css"@ {
        Target::Style
    } else if method == "OPTIONS"@ {
        Target::Preflight
    } else if path == "/api/datasets"@ {
        Target::Datasets
    } else if path == "/api/upload"@ {
        Target::Upload
    } else if path == "/api/convert"@ {
        Target::Convert
    } else if path == "/api/schemes"@ {
        Target::Schemes
    } else if path == "/api/schemes/create"@ {
        Target::CreateScheme
    } else if path == "/api/schemes/accept"@ {
        Target::AcceptScheme
    } else if path == "/api/fit"@ {
        Target::Fit
    } else {
        Target::NotFound
    }
}

/// What a request with a method and a path asks for.
pub fn route(method: &str, path: &str) -> (r: Target)
    ensures
        r == routed(method@, path@),
{
    let m: Vec<char> = chars_of(method);
    let p: Vec<char> = chars_of(path);
    let m: &[char] = m.as_slice();
    let p: &[char] = p.as_slice();
    let get: bool = same(m, "GET");
    if get && (same(p, "/") || same(p, "/index.html")) {
        Target::Index
    } else if get && same(p, "/app.js") {
        Target::Code
    } else if get && same(p, "/styles.css") {
        Target::Style
    } else if same(m, "OPTIONS") {
        Target::Preflight
    } else if same(p, "/api/datasets") {
        Target::Datasets
    } else if same(p, "/api/upload") {
        Target::Upload
    } else if same(p, "/api/convert") {
        Target::Convert
    } else if same(p, "/api/schemes") {
        Target::Schemes
    } else if same(p, "/api/schemes/create") {
        Target::CreateScheme
    } else if same(p, "/api/schemes/accept") {
        Target::AcceptScheme
    } else if same(p, "/api/fit") {
        Target::Fit
    } else {
        Target::NotFound
    }
}

// --------------------------------------------------------------------- responses

/// The reason phrase of a status code.
pub open spec fn reason(code: u16) -> Seq<char> {
    if code == 201 {
        "Created"@
    } else if code == 400 {
        "Bad Request"@
    } else if code == 404 {
        "Not Found"@
    } else if code == 409 {
        "Conflict"@
    } else if code == 500 {
        "Internal Server Error"@
    } else {
        "OK"@
    }
}

/// The head of a response with a status code, a type and a length.
pub open spec fn head_text(code: u16, ctype: Seq<char>, len: nat) -> Seq<char> {
    "HTTP/1.1 "@ + decimal(code as nat) + " "@ + reason(code) + "\r\nContent-Type: "@ + ctype
        + "\r\nContent-Length: "@ + decimal(len)
        + "\r\nConnection: close\r\nAccess-Control-Allow-Origin: *\r\n\r\n"@
}

fn reason_of(code: u16) -> (r: &'static str)
    ensures
        r@ == reason(code),
{
    if code == 201 {
        "Created"
    } else if code == 400 {
        "Bad Request"
    } else if code == 404 {
        "Not Found"
    } else if code == 409 {
        "Conflict"
    } else if code == 500 {
        "Internal Server Error"
    } else {
        "OK"
    }
}

/// The head of a response with a status code, a type and a length.
pub fn response_head(code: u16, ctype: &str, len: usize) -> (r: String)
    ensures
        r@ == head_text(code, ctype@, len as nat),
{
    let c: Vec<char> = to_decimal(code as u64);
    let n: Vec<char> = to_decimal(len as u64);
    let c: String = string_of(c.as_slice());
    let n: String = string_of(n.as_slice());
    let mut r: String = "HTTP/1.1 ".to_owned();
    r.append(c.as_str());
    r.append(" ");
    r.append(reason_of(code));
    r.append("\r\nContent-Type: ");
    r.append(ctype);
    r.append("\r\nContent-Length: ");
    r.append(n.as_str());
    r.append("\r\nConnection: close\r\nAccess-Control-Allow-Origin: *\r\n\r\n");
    r
}

} // verus!
