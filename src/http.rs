//! The decisions of a small web responder: which page answers a request
//! line, and the bytes of the reply that carries it.
use crate::decimal::{decimal, decimal_text};
use vstd::prelude::*;

verus! {

/// The status line and the page file that answer `request_line`: the
/// greeting page for a plain `GET /`, the not-found page for anything else.
pub open spec fn page_for(request_line: Seq<char>) -> (Seq<char>, Seq<char>) {
    if request_line == "GET / HTTP/1.1"@ {
        ("HTTP/1.1 200 OK"@, "hello.html"@)
    } else {
        ("HTTP/1.1 404 NOT FOUND"@, "404.html"@)
    }
}

/// The reply with status line `status_line` and body `contents`, whose
/// length counts the bytes of its UTF-8 encoding.
pub open spec fn reply_text(status_line: Seq<char>, contents: &str) -> Seq<char> {
    status_line + "\r\nContent-Length: "@ + decimal(contents.len() as nat) + "\r\n\r\n"@
        + contents@
}

/// Whether `a` and `b` hold the same characters.
pub fn same_text(a: &str, b: &str) -> (r: bool)
    ensures
        r == (a@ == b@),
{
    let n = a.unicode_len();
    if n != b.unicode_len() {
        return false;
    }
    let mut i: usize = 0;
    while i < n
        invariant
            n == a@.len(),
            n == b@.len(),
            i <= n,
            a@.take(i as int) == b@.take(i as int),
        decreases n - i,
    {
        if a.get_char(i) != b.get_char(i) {
            return false;
        }
        assert(a@.take(i + 1) =~= a@.take(i as int).push(a@[i as int]));
        assert(b@.take(i + 1) =~= b@.take(i as int).push(b@[i as int]));
        i = i + 1;
    }
    assert(a@ =~= a@.take(n as int));
    assert(b@ =~= b@.take(n as int));
    true
}

/// The status line and page file that answer `request_line`.
pub fn route(request_line: &str) -> (r: (&'static str, &'static str))
    ensures
        (r.0@, r.1@) == page_for(request_line@),
{
    if same_text(request_line, "GET / HTTP/1.1") {
        ("HTTP/1.1 200 OK", "hello.html")
    } else {
        ("HTTP/1.1 404 NOT FOUND", "404.html")
    }
}

/// The reply that sends `contents` under `status_line`.
pub fn response(status_line: &str, contents: &str) -> (r: String)
    ensures
        r@ == reply_text(status_line@, contents),
{
    let mut out = String::from_str(status_line);
    out.append("\r\nContent-Length: ");
    let length = decimal_text(contents.len() as u64);
    out.append(length.as_str());
    out.append("\r\n\r\n");
    out.append(contents);
    assert(out@ =~= reply_text(status_line@, contents));
    out
}

} // verus!
