//! Laws of the framing and reading of requests.

use crate::server::{
    complete, content_length, head_bytes, line_parts, lossy, terminator, Request,
};
use crate::text::{
    begins, is_white, lemma_first_at_is, lemma_seek, lemma_seek_extend, lemma_seek_is, line_seq,
    occurs_at, seek, trimmed_start, Class,
};
use vstd::prelude::*;
use vstd::utf8::{is_char_boundary_iff_not_is_continuation_byte, valid_utf8, valid_utf8_split};

verus! {

// ---------------------------------------------------------------------- framing

/// A request that is complete stays complete when more bytes arrive.
pub proof fn law_complete_stays(all: Seq<u8>, more: Seq<u8>)
    requires
        complete(all),
    ensures
        complete(all + more),
{
    lemma_seek_extend(all, more, terminator());
    lemma_seek(all, terminator());
    assert(head_bytes(all + more) =~= head_bytes(all));
}

/// Where the bytes of a request are UTF-8, those of its head are.
pub proof fn law_head_is_text(all: Seq<u8>)
    requires
        valid_utf8(all),
    ensures
        valid_utf8(head_bytes(all)),
{
    let h = seek(all, terminator()) as int;
    lemma_seek(all, terminator());
    if h < all.len() {
        assert(all.subrange(h, h + 4)[0] == 13);
        is_char_boundary_iff_not_is_continuation_byte(all, h);
        valid_utf8_split(all, h);
        assert(all.subrange(0, h) =~= head_bytes(all));
    } else {
        assert(all.take(all.len() as int) =~= all);
    }
}

/// A request is complete exactly from the byte on at which the body has the
/// length that the head announces.
pub proof fn law_complete_from(head: Seq<u8>, body: Seq<u8>, k: int)
    requires
        seek(head + terminator() + body, terminator()) == head.len(),
        0 <= k <= head.len() + 4 + body.len(),
    ensures
        complete((head + terminator() + body).take(k)) <==> k >= head.len() + 4 + content_length(
            lossy(head),
        ),
{
    let all = head + terminator() + body;
    let part = all.take(k);
    let h = head.len() as int;
    lemma_seek(all, terminator());
    assert forall|j: int| 0 <= j && j + 4 <= k implies #[trigger] occurs_at(part, terminator(), j)
        == occurs_at(all, terminator(), j) by {
        assert(part.subrange(j, j + 4) =~= all.subrange(j, j + 4));
    }
    lemma_seek(part, terminator());
    if k >= h + 4 {
        assert(occurs_at(all, terminator(), h));
        assert(occurs_at(part, terminator(), h));
        assert forall|j: int| 0 <= j < h implies !#[trigger] occurs_at(part, terminator(), j) by {
            assert(!occurs_at(all, terminator(), j));
        }
        lemma_seek_is(part, terminator(), h);
        assert(part.take(h) =~= head);
    } else {
        let f = seek(part, terminator()) as int;
        if f < part.len() {
            assert(occurs_at(part, terminator(), f));
            assert(occurs_at(all, terminator(), f));
            assert(!occurs_at(all, terminator(), f));
        }
    }
}

// ------------------------------------------------------------------ reading back

/// A text without white space.
pub open spec fn unbroken(t: Seq<char>) -> bool {
    forall|i: int| 0 <= i < t.len() ==> !is_white(#[trigger] t[i])
}

/// The target of a request for a path, with or without a query.
pub open spec fn target_text(path: Seq<char>, query: Option<Seq<char>>) -> Seq<char> {
    match query {
        Some(q) => path + seq!['?'] + q,
        None => path,
    }
}

/// A request line.
pub open spec fn request_line(
    method: Seq<char>,
    path: Seq<char>,
    query: Option<Seq<char>>,
) -> Seq<char> {
    method + seq![' '] + target_text(path, query) + seq![' '] + "HTTP/1.1"@
}

/// The words of a request line.
proof fn lemma_line_words(method: Seq<char>, target: Seq<char>, rest: Seq<char>)
    requires
        method.len() > 0,
        unbroken(method),
        target.len() > 0,
        unbroken(target),
    ensures
        line_parts(method + seq![' '] + target + seq![' '] + rest) == (method, target),
{
    let line = method + seq![' '] + target + seq![' '] + rest;
    let n = method.len() as int;
    assert(line[0] == method[0]);
    assert(trimmed_start(line, Class::White) == line);
    assert forall|j: int| 0 <= j < n implies !Class::White.has(#[trigger] line[j]) by {
        assert(line[j] == method[j]);
    }
    assert(line[n] == ' ');
    lemma_first_at_is(line, Class::White, n);
    assert(line.take(n) =~= method);
    let after = line.skip(n);
    let words = target + seq![' '] + rest;
    assert(after =~= seq![' '] + words);
    assert(after.skip(1) =~= words);
    assert(words[0] == target[0]);
    assert(trimmed_start(words, Class::White) == words);
    assert(trimmed_start(after, Class::White) == words);
    let k = target.len() as int;
    assert forall|j: int| 0 <= j < k implies !Class::White.has(#[trigger] words[j]) by {
        assert(words[j] == target[j]);
    }
    assert(words[k] == ' ');
    lemma_first_at_is(words, Class::White, k);
    assert(words.take(k) =~= target);
}

/// A request is read back as it was sent: the method, the path, the query,
/// which is empty where the target has none, and the body, whatever further
/// header lines there are, where neither the header lines nor the body hold a
/// blank line.
pub proof fn law_request_is_read_back(
    method: Seq<char>,
    path: Seq<char>,
    query: Option<Seq<char>>,
    headers: Seq<char>,
    body: Seq<char>,
    r: Request,
)
    requires
        method.len() > 0,
        unbroken(method),
        unbroken(path),
        match query {
            Some(q) => unbroken(q),
            None => path.len() > 0,
        },
        forall|i: int| 0 <= i < path.len() ==> #[trigger] path[i] != '?',
        headers.len() == 0 || begins(headers, "\r\n"@),
        ({
            let head = request_line(method, path, query) + headers;
            &&& forall|j: int| #[trigger]
                occurs_at(head + "\r\n\r\n"@, "\r\n\r\n"@, j) ==> j == head.len()
            &&& forall|j: int| !#[trigger] occurs_at(body, "\r\n\r\n"@, j)
            &&& r.reads(head + "\r\n\r\n"@ + body)
        }),
    ensures
        r.method@ == method,
        r.path@ == path,
        r.query@ == (match query {
            Some(q) => q,
            None => Seq::empty(),
        }),
        r.body@ == body,
{
    reveal_strlit("\r\n");
    reveal_strlit("\r\n\r\n");
    reveal_strlit("HTTP/1.1");
    let blank = "\r\n\r\n"@;
    let target = target_text(path, query);
    let line = request_line(method, path, query);
    let head = line + headers;
    let text = head + blank + body;
    // the first line
    let n = line.len() as int;
    assert forall|j: int| 0 <= j < n implies #[trigger] line[j] != '\n' by {
        if j < method.len() {
            assert(line[j] == method[j]);
        } else if method.len() < j < method.len() + 1 + target.len() {
            assert(line[j] == target[j - method.len() - 1]);
            if j - method.len() - 1 < path.len() {
                assert(line[j] == path[j - method.len() - 1]);
            } else if j - method.len() - 1 > path.len() {
                assert(line[j] == query->0[j - method.len() - 2 - path.len()]);
            }
        }
    }
    assert(text[n] == '\r' && text[n + 1] == '\n') by {
        if headers.len() > 0 {
            assert(headers.take(2) =~= "\r\n"@);
            assert(headers[0] == headers.take(2)[0] && headers[1] == headers.take(2)[1]);
        }
    }
    assert forall|j: int| 0 <= j < n + 1 implies !Class::One('\n').has(#[trigger] text[j]) by {
        if j < n {
            assert(text[j] == line[j]);
        }
    }
    lemma_first_at_is(text, Class::One('\n'), n + 1);
    assert(text.take(n + 1).drop_last() =~= line);
    assert(line_seq(text)[0] == line);
    // its words
    assert forall|i: int| 0 <= i < target.len() implies !is_white(#[trigger] target[i]) by {
        if i < path.len() {
            assert(target[i] == path[i]);
        } else if i > path.len() {
            assert(target[i] == query->0[i - path.len() - 1]);
        }
    }
    lemma_line_words(method, target, "HTTP/1.1"@);
    assert forall|j: int| 0 <= j < path.len() implies !Class::One('?').has(
        #[trigger] target[j],
    ) by {
        assert(target[j] == path[j]);
    }
    lemma_first_at_is(target, Class::One('?'), path.len() as int);
    assert(target.take(path.len() as int) =~= path);
    if query is Some {
        assert(target.skip(path.len() as int + 1) =~= query->0);
    }
    // the body
    let front = head + blank;
    let h = head.len() as int;
    assert(front.subrange(h, h + 4) =~= blank);
    lemma_seek_is(front, blank, h);
    lemma_seek_extend(front, body, blank);
    assert(text =~= front + body);
    assert(text.skip(h + 4) =~= body);
    lemma_seek(body, blank);
    if seek(body, blank) < body.len() {
        assert(!occurs_at(body, blank, seek(body, blank) as int));
    }
    assert(body.take(body.len() as int) =~= body);
}

} // verus!
