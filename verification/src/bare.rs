//! Requests of one line, without headers or a body.

use crate::http::{blank_line_bytes, line_break, request_head, HeadView};
use crate::scan::{
    blank, first_at, law_first_at_is_first, lemma_run_ends, pieces, stands_at, trim_start,
};
use vstd::prelude::*;
use vstd::utf8::{encode_utf8, is_ascii_chars, is_ascii_chars_encode_utf8};

verus! {

/// Whether a text is a word of letters, digits and signs: there is something of it, and no white
/// space.
pub open spec fn plain_word(w: Seq<char>) -> bool {
    &&& w.len() > 0
    &&& is_ascii_chars(w)
    &&& forall|i: int| 0 <= i < w.len() ==> !blank(#[trigger] w[i])
}

/// The first line of a request.
pub open spec fn request_line(method: Seq<char>, path: Seq<char>) -> Seq<char> {
    method + seq![' '] + path + " HTTP/1.1"@
}

/// What a request says that has no headers.
pub open spec fn bare_head(method: Seq<char>, path: Seq<char>) -> HeadView {
    HeadView {
        method,
        path,
        content_len: None,
        chunked: false,
        expect_100: false,
        want_close: false,
    }
}

/// A request line has no line break in it, and is made of letters, digits and signs.
pub proof fn lemma_request_line(method: Seq<char>, path: Seq<char>)
    requires
        plain_word(method),
        plain_word(path),
    ensures
        is_ascii_chars(request_line(method, path)),
        forall|i: int|
            0 <= i < request_line(method, path).len() ==> #[trigger] request_line(method, path)[i]
                != '\r',
{
    reveal_strlit(" HTTP/1.1");
    let s = request_line(method, path);
    let n = method.len();
    let k = n + 1 + path.len();
    assert forall|i: int| 0 <= i < s.len() implies '\0' <= #[trigger] s[i] <= '\u{7f}' && s[i]
        != '\r' by {
        if i < n {
            assert(s[i] == method[i]);
            assert(!blank(method[i]));
        } else if i == n {
            assert(s[i] == ' ');
        } else if i < k {
            assert(s[i] == path[i - n - 1]);
            assert(!blank(path[i - n - 1]));
        } else {
            assert(s[i] == " HTTP/1.1"@[i - k]);
        }
    }
}

/// A request of one line is read as what that line says.
pub proof fn law_request_line_is_read(method: Seq<char>, path: Seq<char>)
    requires
        plain_word(method),
        plain_word(path),
    ensures
        request_head(request_line(method, path)) == bare_head(method, path),
{
    reveal_strlit(" HTTP/1.1");
    reveal_with_fuel(trim_start, 2);
    let s = request_line(method, path);
    let version = " HTTP/1.1"@;
    lemma_request_line(method, path);
    law_first_at_is_first(s, line_break(), 0);
    if first_at(s, line_break(), 0) is Some {
        let k = first_at(s, line_break(), 0)->0;
        assert(s.subrange(k, k + 2)[0] == s[k]);
        assert(s[k] == '\r');
    }
    assert(pieces(s, line_break()) == seq![s]);
    let rest = seq![' '] + path + version;
    assert(s =~= method + rest);
    assert(s[0] == method[0]);
    assert(!blank(method[0]));
    lemma_run_ends(method, rest);
    assert(s.take(method.len() as int) =~= method);
    assert(s.skip(method.len() as int) =~= rest);
    let t = path + version;
    assert(rest.skip(1) =~= t);
    assert(t[0] == path[0]);
    assert(!blank(path[0]));
    lemma_run_ends(path, version);
    assert(t.take(path.len() as int) =~= path);
}

/// The bytes of a request of one line.
pub open spec fn bare_request(method: Seq<char>, path: Seq<char>) -> Seq<u8> {
    encode_utf8(request_line(method, path)) + blank_line_bytes()
}

/// The head of a request of one line ends with that line, whatever follows.
pub proof fn lemma_bare_request_ends(method: Seq<char>, path: Seq<char>, rest: Seq<u8>)
    requires
        plain_word(method),
        plain_word(path),
    ensures
        ({
            let line = encode_utf8(request_line(method, path));
            let b = bare_request(method, path) + rest;
            &&& first_at(b, blank_line_bytes(), 0) == Some(line.len() as int)
            &&& b.take(line.len() as int) == line
            &&& b.skip(line.len() as int + 4) == rest
        }),
{
    let s = request_line(method, path);
    let line = encode_utf8(s);
    let b = bare_request(method, path) + rest;
    lemma_request_line(method, path);
    is_ascii_chars_encode_utf8(s);
    let n = line.len() as int;
    assert(b.subrange(n, n + 4) =~= blank_line_bytes());
    assert(stands_at(b, n, blank_line_bytes()));
    law_first_at_is_first(b, blank_line_bytes(), 0);
    let k = first_at(b, blank_line_bytes(), 0)->0;
    assert(k <= n);
    if k < n {
        assert(b.subrange(k, k + 4)[0] == b[k]);
        assert(b[k] == line[k]);
        assert(s[k] as u8 == line[k]);
        assert(s[k] != '\r');
        assert('\0' <= s[k] <= '\u{7f}');
    }
    assert(b.take(n) =~= line);
    assert(b.skip(n + 4) =~= rest);
}

} // verus!
