//! Requests and replies on the wire.

use crate::le::{put_bytes, utf8_to_string};
use crate::scan::{
    blank, chars_of, digit_of, digits_value, first_at, first_comma, first_line,
    law_first_at_is_first, lowered, next_word, number, pieces, read_number, same_ignoring_case,
    stands_at, starts, strip_start, trim, trim_end, trim_start, trimmed, word_and_rest,
};
use crate::tensors::hex_digit;
use crate::text::{decimal, write_decimal};
use vstd::prelude::*;
use vstd::slice::slice_subrange;
use vstd::utf8::{
    decode_utf8, encode_utf8, encode_utf8_decode_utf8, encode_utf8_valid_utf8, is_ascii_chars,
    is_ascii_chars_encode_utf8, valid_utf8,
};

verus! {

/// What the head of a request says.
#[derive(Debug)]
pub struct ReqMeta {
    pub method: String,
    pub path: String,
    pub content_len: Option<usize>,
    pub chunked: bool,
    pub expect_100: bool,
    pub want_close: bool,
}

/// What the head of a request says, with text as sequences of characters.
#[verifier::ext_equal]
pub struct HeadView {
    pub method: Seq<char>,
    pub path: Seq<char>,
    pub content_len: Option<usize>,
    pub chunked: bool,
    pub expect_100: bool,
    pub want_close: bool,
}

impl View for ReqMeta {
    type V = HeadView;

    open spec fn view(&self) -> HeadView {
        HeadView {
            method: self.method@,
            path: self.path@,
            content_len: self.content_len,
            chunked: self.chunked,
            expect_100: self.expect_100,
            want_close: self.want_close,
        }
    }
}

/// A line break.
pub open spec fn line_break() -> Seq<char> {
    seq!['\r', '\n']
}

/// What follows one of two spellings of a header's name.
pub open spec fn header_value(line: Seq<char>, a: Seq<char>, b: Seq<char>) -> Option<Seq<char>> {
    if starts(line, a) {
        Some(line.skip(a.len() as int))
    } else if starts(line, b) {
        Some(line.skip(b.len() as int))
    } else {
        None
    }
}

/// What a line says of the length of the body: nothing, or a number that may be unreadable.
pub open spec fn length_said(line: Seq<char>) -> Option<Option<nat>> {
    match header_value(trimmed(line), "Content-Length:"@, "content-length:"@) {
        Some(v) => Some(number(trimmed(v), 10)),
        None => None,
    }
}

/// Whether a line says that the body comes in chunks.
pub open spec fn says_chunked(line: Seq<char>) -> bool {
    match header_value(trimmed(line), "Transfer-Encoding:"@, "transfer-encoding:"@) {
        Some(v) => names_chunked(pieces(v, seq![','])),
        None => false,
    }
}

/// Whether one of a list of codings is `chunked`.
pub open spec fn names_chunked(codings: Seq<Seq<char>>) -> bool {
    exists|j: int|
        0 <= j < codings.len() && lowered(trimmed(#[trigger] codings[j])) == lowered("chunked"@)
}

/// Whether a line asks for leave to send the body.
pub open spec fn says_continue(line: Seq<char>) -> bool {
    lowered(trimmed(line)) == lowered("Expect: 100-continue"@)
}

/// Whether a line asks to end the connection.
pub open spec fn says_close(line: Seq<char>) -> bool {
    lowered(trimmed(line)) == lowered("Connection: close"@)
}

/// The length that the last of the lines before line `n` gives.
pub open spec fn length_before(lines: Seq<Seq<char>>, n: int) -> Option<nat>
    decreases n,
{
    if n <= 1 {
        None
    } else {
        match length_said(lines[n - 1]) {
            Some(x) => x,
            None => length_before(lines, n - 1),
        }
    }
}

/// A natural number as the machine counts.
pub open spec fn counted(n: Option<nat>) -> Option<usize> {
    match n {
        Some(x) => Some(x as usize),
        None => None,
    }
}

/// What the head of a request says.
pub open spec fn request_head(head: Seq<char>) -> HeadView {
    let lines = pieces(head, line_break());
    let (method, rest) = word_and_rest(lines[0]);
    HeadView {
        method,
        path: word_and_rest(rest).0,
        content_len: counted(length_before(lines, lines.len() as int)),
        chunked: exists|k: int| 1 <= k < lines.len() && says_chunked(#[trigger] lines[k]),
        expect_100: exists|k: int| 1 <= k < lines.len() && says_continue(#[trigger] lines[k]),
        want_close: exists|k: int| 1 <= k < lines.len() && says_close(#[trigger] lines[k]),
    }
}

/// Finds out whether one of the codings of a list is `chunked`.
fn list_names_chunked(list: &[char]) -> (r: bool)
    ensures
        r == names_chunked(pieces(list@, seq![','])),
{
    let word: Vec<char> = chars_of("chunked");
    let ghost all = pieces(list@, seq![',']);
    let mut rest: &[char] = list;
    let ghost mut k: int = 0;
    assert(all.skip(0) =~= all);
    let mut r: bool = false;
    let mut over: bool = false;
    while !over
        invariant
            word@ == "chunked"@,
            all == pieces(list@, seq![',']),
            0 <= k <= all.len(),
            !over ==> pieces(rest@, seq![',']) == all.skip(k),
            over ==> k == all.len(),
            r == (exists|j: int|
                0 <= j < k && lowered(trimmed(#[trigger] all[j])) == lowered("chunked"@)),
        decreases if over {
            0
        } else {
            1 + rest@.len()
        },
    {
        let ghost here = rest@;
        let n: usize = rest.len();
        let comma: Option<usize> = first_comma(rest);
        let item: &[char] = match comma {
            Some(i) => slice_subrange(rest, 0, i),
            None => rest,
        };
        proof {
            assert(pieces(here, seq![',']).len() >= 1);
            assert(all.skip(k)[0] == all[k]);
            if comma is Some {
                assert(item@ =~= here.take(comma->0 as int));
                let first = seq![here.take(comma->0 as int)];
                let others = pieces(here.skip(comma->0 + 1), seq![',']);
                assert(all.skip(k) == first + others);
                assert(all.skip(k + 1) =~= others) by {
                    assert(all.skip(k + 1) =~= (first + others).skip(1));
                }
            } else {
                assert(all.skip(k) == seq![here]);
                assert(all.skip(k).len() == 1);
            }
            assert(item@ == all[k]);
        }
        let hit: bool = same_ignoring_case(trim(item), word.as_slice());
        r = r || hit;
        match comma {
            Some(i) => {
                rest = slice_subrange(rest, i + 1, n);
                assert(rest@ =~= here.skip(i + 1));
            },
            None => {
                over = true;
            },
        }
        proof {
            k = k + 1;
        }
    }
    r
}

/// Reads the head of a request.
pub fn parse_request_head(head: &str) -> (r: ReqMeta)
    ensures
        r@ == request_head(head@),
{
    let cs: Vec<char> = chars_of(head);
    let ghost lines = pieces(head@, line_break());
    let length_a: Vec<char> = chars_of("Content-Length:");
    let length_b: Vec<char> = chars_of("content-length:");
    let coding_a: Vec<char> = chars_of("Transfer-Encoding:");
    let coding_b: Vec<char> = chars_of("transfer-encoding:");
    let expect: Vec<char> = chars_of("Expect: 100-continue");
    let close: Vec<char> = chars_of("Connection: close");
    let first_end: Option<usize> = first_line(cs.as_slice());
    let end: usize = match first_end {
        Some(i) => i,
        None => cs.len(),
    };
    let line0: &[char] = slice_subrange(cs.as_slice(), 0, end);
    proof {
        if first_end is None {
            assert(line0@ =~= head@);
        } else {
            assert(line0@ =~= head@.take(end as int));
        }
        assert(line0@ == lines[0]);
    }
    let w1: (usize, usize) = next_word(line0, 0);
    let w2: (usize, usize) = next_word(line0, w1.1);
    assert(line0@.skip(0) =~= line0@);
    let method: String = head.substring_char(w1.0, w1.1).to_owned();
    let path: String = head.substring_char(w2.0, w2.1).to_owned();
    assert(method@ =~= line0@.subrange(w1.0 as int, w1.1 as int));
    assert(path@ =~= line0@.subrange(w2.0 as int, w2.1 as int));
    let mut content_len: Option<usize> = None;
    let mut chunked: bool = false;
    let mut expect_100: bool = false;
    let mut want_close: bool = false;
    let mut over: bool = first_end.is_none();
    let mut at: usize = match first_end {
        Some(i) => i + 2,
        None => 0,
    };
    let ghost mut k: int = 1;
    proof {
        if first_end is Some {
            let others = pieces(head@.skip(end + 2), line_break());
            assert(lines == seq![head@.take(end as int)] + others);
            assert(lines.skip(1) =~= others);
        } else {
            assert(lines == seq![head@]);
        }
    }
    while !over
        invariant
            cs@ == head@,
            lines == pieces(head@, line_break()),
            length_a@ == "Content-Length:"@,
            length_b@ == "content-length:"@,
            coding_a@ == "Transfer-Encoding:"@,
            coding_b@ == "transfer-encoding:"@,
            expect@ == "Expect: 100-continue"@,
            close@ == "Connection: close"@,
            1 <= k <= lines.len(),
            at <= cs@.len(),
            !over ==> pieces(cs@.skip(at as int), line_break()) == lines.skip(k),
            over ==> k == lines.len(),
            content_len == counted(length_before(lines, k)),
            chunked == (exists|j: int| 1 <= j < k && says_chunked(#[trigger] lines[j])),
            expect_100 == (exists|j: int| 1 <= j < k && says_continue(#[trigger] lines[j])),
            want_close == (exists|j: int| 1 <= j < k && says_close(#[trigger] lines[j])),
        decreases if over {
            0
        } else {
            1 + cs@.len() - at
        },
    {
        let rest: &[char] = slice_subrange(cs.as_slice(), at, cs.len());
        assert(rest@ =~= cs@.skip(at as int));
        let stop: Option<usize> = first_line(rest);
        let raw: &[char] = match stop {
            Some(i) => slice_subrange(rest, 0, i),
            None => rest,
        };
        proof {
            assert(pieces(rest@, line_break()).len() >= 1);
            assert(lines.skip(k)[0] == lines[k]);
            if stop is Some {
                assert(raw@ =~= rest@.take(stop->0 as int));
                let first = seq![rest@.take(stop->0 as int)];
                let others = pieces(rest@.skip(stop->0 + 2), line_break());
                assert(lines.skip(k) == first + others);
                assert(lines.skip(k + 1) =~= (first + others).skip(1));
                assert((first + others).skip(1) =~= others);
            } else {
                assert(lines.skip(k) == seq![rest@]);
                assert(lines.skip(k).len() == 1);
            }
            assert(raw@ == lines[k]);
        }
        let line: &[char] = trim(raw);
        let length: Option<&[char]> = match strip_start(line, length_a.as_slice()) {
            Some(v) => Some(v),
            None => strip_start(line, length_b.as_slice()),
        };
        if let Some(v) = length {
            content_len = read_number(trim(v), 10);
        }
        let coding: Option<&[char]> = match strip_start(line, coding_a.as_slice()) {
            Some(v) => Some(v),
            None => strip_start(line, coding_b.as_slice()),
        };
        let in_chunks: bool = match coding {
            Some(v) => list_names_chunked(v),
            None => false,
        };
        let asks: bool = same_ignoring_case(line, expect.as_slice());
        let ends: bool = same_ignoring_case(line, close.as_slice());
        chunked = chunked || in_chunks;
        expect_100 = expect_100 || asks;
        want_close = want_close || ends;
        match stop {
            Some(i) => {
                assert(rest@.skip(i + 2) =~= cs@.skip(at + i + 2));
                at = at + i + 2;
            },
            None => {
                over = true;
            },
        }
        proof {
            assert(in_chunks == says_chunked(lines[k]));
            assert(asks == says_continue(lines[k]));
            assert(ends == says_close(lines[k]));
            k = k + 1;
        }
    }
    ReqMeta { method, path, content_len, chunked, expect_100, want_close }
}

/// A line break as bytes.
pub open spec fn break_bytes() -> Seq<u8> {
    seq![13u8, 10u8]
}

/// Two line breaks as bytes.
pub open spec fn blank_line_bytes() -> Seq<u8> {
    seq![13u8, 10u8, 13u8, 10u8]
}

/// Whether a line break stands at `i`.
fn break_at(b: &[u8], i: usize) -> (r: bool)
    requires
        i < b@.len(),
    ensures
        r == stands_at(b@, i as int, break_bytes()),
{
    let r: bool = i < b.len() - 1 && b[i] == 13 && b[i + 1] == 10;
    proof {
        if i + 2 <= b@.len() {
            let t = b@.subrange(i as int, i + 2);
            if r {
                assert(t =~= break_bytes());
            } else if t == break_bytes() {
                assert(t[0] == 13);
                assert(t[1] == 10);
            }
        }
    }
    r
}

/// Finds the first line break.
pub fn find_crlf(b: &[u8]) -> (r: Option<usize>)
    ensures
        match r {
            Some(i) => first_at(b@, break_bytes(), 0) == Some(i as int) && i + 2 <= b@.len(),
            None => first_at(b@, break_bytes(), 0) is None,
        },
{
    let mut i: usize = 0;
    while i < b.len()
        invariant
            i <= b@.len(),
            first_at(b@, break_bytes(), 0) == first_at(b@, break_bytes(), i as int),
        decreases b@.len() - i,
    {
        if break_at(b, i) {
            return Some(i);
        }
        i += 1;
    }
    None
}

/// Finds the first empty line: two line breaks in a row.
pub fn find_double_crlf(b: &[u8]) -> (r: Option<usize>)
    ensures
        match r {
            Some(i) => first_at(b@, blank_line_bytes(), 0) == Some(i as int) && i + 4 <= b@.len(),
            None => first_at(b@, blank_line_bytes(), 0) is None,
        },
{
    let n: usize = b.len();
    let mut i: usize = 0;
    while i < n && n - i >= 4
        invariant
            i <= n,
            n == b@.len(),
            first_at(b@, blank_line_bytes(), 0) == first_at(b@, blank_line_bytes(), i as int),
        decreases n - i,
    {
        let hit: bool = b[i] == 13 && b[i + 1] == 10 && b[i + 2] == 13 && b[i + 3] == 10;
        proof {
            let t = b@.subrange(i as int, i + 4);
            if hit {
                assert(t =~= blank_line_bytes());
            } else if t == blank_line_bytes() {
                assert(t[0] == 13);
                assert(t[1] == 10);
                assert(t[2] == 13);
                assert(t[3] == 10);
            }
        }
        if hit {
            return Some(i);
        }
        i += 1;
    }
    None
}

/// The size that the line of a chunk gives.
pub open spec fn chunk_size(line: Seq<u8>) -> Option<nat> {
    if valid_utf8(line) {
        number(trimmed(decode_utf8(line)), 16)
    } else {
        None
    }
}

/// The chunk that starts at `i`: where its data starts, and how long it is.
pub open spec fn chunk_at(stash: Seq<u8>, i: int) -> Option<(int, nat)> {
    if i < 0 || i > stash.len() {
        None
    } else {
        match first_at(stash.skip(i), break_bytes(), 0) {
            None => None,
            Some(rel) => match chunk_size(stash.subrange(i, i + rel)) {
                None => None,
                Some(size) => if stands_at(stash, i + rel + 2 + size, break_bytes()) {
                    Some((i + rel + 2, size))
                } else {
                    None
                },
            },
        }
    }
}

/// The body that comes in chunks from `i` on, once all of it is there: where it ends, and what it
/// is.
pub open spec fn chunked_body(stash: Seq<u8>, i: int) -> Option<(int, Seq<u8>)>
    decreases stash.len() - i,
{
    match chunk_at(stash, i) {
        None => None,
        Some((j, size)) => if size == 0 {
            Some((j + 2, Seq::empty()))
        } else if i < j {
            match chunked_body(stash, j + size + 2) {
                None => None,
                Some((end, rest)) => Some((end, stash.subrange(j, j + size) + rest)),
            }
        } else {
            None
        },
    }
}

/// Where a chunk can be.
pub proof fn lemma_chunk_fits(stash: Seq<u8>, i: int)
    ensures
        chunk_at(stash, i) matches Some((j, size)) ==> 0 <= i < j && j + size + 2 <= stash.len(),
{
    if 0 <= i <= stash.len() {
        law_first_at_is_first(stash.skip(i), break_bytes(), 0);
    }
}

/// Reads a body that comes in chunks, once all of it is there.
pub fn try_parse_chunked(stash: &[u8], start: usize) -> (r: Option<(usize, Vec<u8>)>)
    ensures
        match r {
            Some((end, body)) => chunked_body(stash@, start as int) == Some((end as int, body@))
                && start <= end <= stash@.len(),
            None => chunked_body(stash@, start as int) is None,
        },
{
    let ghost s = stash@;
    let mut out: Vec<u8> = Vec::new();
    let mut i: usize = start;
    proof {
        match chunked_body(s, start as int) {
            Some((end, rest)) => {
                assert(Seq::<u8>::empty() + rest =~= rest);
            },
            None => {},
        }
    }
    loop
        invariant
            s == stash@,
            start <= i,
            match chunked_body(s, i as int) {
                None => chunked_body(s, start as int) is None,
                Some((end, rest)) => chunked_body(s, start as int) == Some((end, out@ + rest)),
            },
        decreases if i <= s.len() {
            1 + s.len() - i
        } else {
            0
        },
    {
        proof {
            lemma_chunk_fits(s, i as int);
        }
        if i > stash.len() {
            return None;
        }
        let rest: &[u8] = slice_subrange(stash, i, stash.len());
        assert(rest@ =~= s.skip(i as int));
        let rel: usize = match find_crlf(rest) {
            None => {
                return None;
            },
            Some(x) => x,
        };
        let line: &[u8] = slice_subrange(stash, i, i + rel);
        assert(line@ =~= s.subrange(i as int, i + rel));
        let mut raw: Vec<u8> = Vec::new();
        put_bytes(&mut raw, line);
        assert(raw@ =~= line@);
        let text: String = match utf8_to_string(raw) {
            Err(_) => {
                return None;
            },
            Ok(t) => t,
        };
        proof {
            vstd::utf8::encode_utf8_decode_utf8(text@);
        }
        let cs: Vec<char> = chars_of(text.as_str());
        let size: usize = match read_number(trim(cs.as_slice()), 16) {
            None => {
                return None;
            },
            Some(n) => n,
        };
        assert(chunk_size(s.subrange(i as int, i + rel)) == Some(size as nat));
        let j: usize = i + rel + 2;
        if stash.len() - j < size || stash.len() - j - size < 2 {
            return None;
        }
        if !break_at(stash, j + size) {
            return None;
        }
        if size == 0 {
            assert(out@ + Seq::<u8>::empty() =~= out@);
            return Some((j + 2, out));
        }
        let ghost before = out@;
        let data: &[u8] = slice_subrange(stash, j, j + size);
        put_bytes(&mut out, data);
        proof {
            let d = s.subrange(j as int, j + size);
            assert(data@ =~= d);
            match chunked_body(s, j + size + 2) {
                Some((end, tail)) => {
                    assert(before + (d + tail) =~= out@ + tail);
                },
                None => {},
            }
        }
        i = j + size + 2;
    }
}

/// What stands somewhere still stands there when more bytes come.
proof fn lemma_first_at_grows<T>(s: Seq<T>, more: Seq<T>, part: Seq<T>, i: int)
    requires
        0 <= i,
        first_at(s, part, i) is Some,
    ensures
        first_at(s + more, part, i) == first_at(s, part, i),
    decreases s.len() - i + 1,
{
    let t = s + more;
    assert(t.subrange(i, i + part.len()) =~= s.subrange(i, i + part.len()));
    if !stands_at(s, i, part) {
        lemma_first_at_grows(s, more, part, i + 1);
    }
}

/// Bytes that come after a body in chunks do not change what it is: a body that was read early,
/// with part of the next request behind it or not, is the same.
pub proof fn law_chunked_body_is_settled(stash: Seq<u8>, more: Seq<u8>, i: int)
    requires
        chunked_body(stash, i) is Some,
    ensures
        chunked_body(stash + more, i) == chunked_body(stash, i),
    decreases stash.len() - i,
{
    let t = stash + more;
    lemma_chunk_fits(stash, i);
    law_first_at_is_first(stash.skip(i), break_bytes(), 0);
    assert(t.skip(i) =~= stash.skip(i) + more);
    lemma_first_at_grows(stash.skip(i), more, break_bytes(), 0);
    let rel = first_at(stash.skip(i), break_bytes(), 0)->0;
    assert(t.subrange(i, i + rel) =~= stash.subrange(i, i + rel));
    let (j, size) = chunk_at(stash, i)->0;
    assert(t.subrange(j + size, j + size + 2) =~= stash.subrange(j + size, j + size + 2));
    assert(chunk_at(t, i) == Some((j, size)));
    if size > 0 {
        assert(t.subrange(j, j + size) =~= stash.subrange(j, j + size));
        law_chunked_body_is_settled(stash, more, j + size + 2);
    }
}

/// Bytes that come later do not move the end of a head that is there.
pub proof fn law_head_end_is_settled(stash: Seq<u8>, more: Seq<u8>)
    requires
        first_at(stash, blank_line_bytes(), 0) is Some,
    ensures
        first_at(stash + more, blank_line_bytes(), 0) == first_at(stash, blank_line_bytes(), 0),
{
    lemma_first_at_grows(stash, more, blank_line_bytes(), 0);
}

/// A number in hexadecimal, without leading zeros.
pub open spec fn hexadecimal(n: nat) -> Seq<char>
    decreases n,
{
    if n < 16 {
        seq![hex_digit(n)]
    } else {
        hexadecimal(n / 16).push(hex_digit(n % 16))
    }
}

/// A chunk as it is sent.
pub open spec fn one_chunk(c: Seq<u8>) -> Seq<u8> {
    encode_utf8(hexadecimal(c.len())) + break_bytes() + c + break_bytes()
}

/// A body as it is sent in chunks: each in turn, and an empty one at the end.
pub open spec fn in_chunks(chunks: Seq<Seq<u8>>) -> Seq<u8>
    decreases chunks.len(),
{
    if chunks.len() == 0 {
        one_chunk(Seq::empty())
    } else {
        one_chunk(chunks[0]) + in_chunks(chunks.skip(1))
    }
}

/// A number in hexadecimal can be read back, and is plain text.
proof fn lemma_hexadecimal(n: nat)
    ensures
        hexadecimal(n).len() > 0,
        digits_value(hexadecimal(n), 16) == n,
        forall|i: int|
            0 <= i < hexadecimal(n).len() ==> digit_of(#[trigger] hexadecimal(n)[i], 16)
                && !blank(hexadecimal(n)[i]) && hexadecimal(n)[i] != '+' && 48 <= (
            hexadecimal(n)[i] as u32) < 128,
    decreases n,
{
    let h = hexadecimal(n);
    if n < 16 {
        assert(h.drop_last() =~= Seq::empty());
        assert(digits_value(Seq::<char>::empty(), 16) == 0);
        assert(h.last() == hex_digit(n));
        assert(digits_value(h, 16) == n);
    } else {
        lemma_hexadecimal(n / 16);
        assert(h.drop_last() =~= hexadecimal(n / 16));
        assert(h.last() == hex_digit(n % 16));
        assert(digits_value(h, 16) == (n / 16) * 16 + n % 16);
    }
}

/// The line that says how long a chunk is says so.
proof fn lemma_size_line(n: nat)
    requires
        n <= usize::MAX,
    ensures
        chunk_size(encode_utf8(hexadecimal(n))) == Some(n),
        encode_utf8(hexadecimal(n)).len() == hexadecimal(n).len(),
        forall|i: int|
            0 <= i < hexadecimal(n).len() ==> #[trigger] encode_utf8(hexadecimal(n))[i] != 13,
{
    let d = hexadecimal(n);
    lemma_hexadecimal(n);
    assert(is_ascii_chars(d));
    is_ascii_chars_encode_utf8(d);
    encode_utf8_valid_utf8(d);
    encode_utf8_decode_utf8(d);
    assert(trim_start(d) == d);
    assert(trim_end(d) == d);
    assert(number(d, 16) == Some(n));
    assert forall|i: int| 0 <= i < d.len() implies #[trigger] encode_utf8(d)[i] != 13 by {
        let c = d[i];
        assert(48 <= (c as u32) < 128);
        assert(c as u8 == encode_utf8(d)[i]);
    }
}

/// The end of a line is found where the line ends.
proof fn lemma_line_ends(s: Seq<u8>, n: int, i: int)
    requires
        0 <= i <= n,
        stands_at(s, n, break_bytes()),
        forall|j: int| i <= j < n ==> #[trigger] s[j] != 13,
    ensures
        first_at(s, break_bytes(), i) == Some(n),
    decreases n - i,
{
    if i < n {
        if stands_at(s, i, break_bytes()) {
            assert(s[i] == s.subrange(i, i + 2)[0]);
            assert(break_bytes()[0] == 13);
            assert(false);
        }
        lemma_line_ends(s, n, i + 1);
    }
}

/// A chunk is found where it was sent.
proof fn lemma_chunk_is_read(p: Seq<u8>, c: Seq<u8>, rest: Seq<u8>)
    requires
        c.len() <= usize::MAX,
    ensures
        ({
            let stash = p + one_chunk(c) + rest;
            let j = (p.len() + hexadecimal(c.len()).len() + 2) as int;
            &&& chunk_at(stash, p.len() as int) == Some((j, c.len()))
            &&& stash.subrange(j, j + c.len()) == c
            &&& j + c.len() + 2 == (p + one_chunk(c)).len()
        }),
{
    let line = encode_utf8(hexadecimal(c.len()));
    let stash = p + one_chunk(c) + rest;
    let i = p.len() as int;
    lemma_size_line(c.len());
    let s = stash.skip(i);
    let n = line.len() as int;
    assert(s.subrange(n, n + 2) =~= break_bytes());
    assert forall|j: int| 0 <= j < n implies #[trigger] s[j] != 13 by {
        assert(s[j] == line[j]);
    }
    lemma_line_ends(s, n, 0);
    assert(stash.subrange(i, i + n) =~= line);
    let j = i + n + 2;
    assert(stash.subrange(j, j + c.len()) =~= c);
    assert(stash.subrange(j + c.len(), j + c.len() + 2) =~= break_bytes());
}

/// A body that was sent in chunks is read back, whatever came before it and comes after it.
pub proof fn law_chunks_are_read_back(p: Seq<u8>, chunks: Seq<Seq<u8>>, t: Seq<u8>)
    requires
        forall|i: int| 0 <= i < chunks.len() ==> 0 < (#[trigger] chunks[i]).len() <= usize::MAX,
    ensures
        chunked_body(p + in_chunks(chunks) + t, p.len() as int) == Some(
            ((p + in_chunks(chunks)).len() as int, chunks.flatten()),
        ),
    decreases chunks.len(),
{
    broadcast use vstd::seq_lib::group_seq_properties;

    let stash = p + in_chunks(chunks) + t;
    if chunks.len() == 0 {
        lemma_chunk_is_read(p, Seq::empty(), t);
        assert(chunks.flatten() =~= Seq::<u8>::empty());
    } else {
        let c = chunks[0];
        let rest = chunks.skip(1);
        assert(chunks.drop_first() =~= rest);
        assert(chunks.flatten() == c + rest.flatten());
        assert forall|i: int| 0 <= i < rest.len() implies 0 < (#[trigger] rest[i]).len()
            <= usize::MAX by {
            assert(rest[i] == chunks[i + 1]);
        }
        lemma_chunk_is_read(p, c, in_chunks(rest) + t);
        law_chunks_are_read_back(p + one_chunk(c), rest, t);
        assert(stash =~= p + one_chunk(c) + (in_chunks(rest) + t));
        assert(stash =~= (p + one_chunk(c)) + in_chunks(rest) + t);
    }
}

/// The words that go with a status code.
pub open spec fn status_words(code: u16) -> Seq<char> {
    if code == 400 {
        "Bad Request"@
    } else if code == 404 {
        "Not Found"@
    } else if code == 429 {
        "Too Many Requests"@
    } else if code == 503 {
        "Service Unavailable"@
    } else if code == 500 {
        "Internal Server Error"@
    } else {
        "OK"@
    }
}

/// Computes [`status_words`].
pub fn status_text(code: u16) -> (r: &'static str)
    ensures
        r@ == status_words(code),
{
    if code == 400 {
        "Bad Request"
    } else if code == 404 {
        "Not Found"
    } else if code == 429 {
        "Too Many Requests"
    } else if code == 503 {
        "Service Unavailable"
    } else if code == 500 {
        "Internal Server Error"
    } else {
        "OK"
    }
}

/// One header line.
pub open spec fn header_line(name: Seq<char>, value: Seq<char>) -> Seq<char> {
    name + ": "@ + value + "\r\n"@
}

/// The names and values of headers, as sequences of characters.
pub open spec fn header_texts(extra: Seq<(&str, &str)>) -> Seq<(Seq<char>, Seq<char>)> {
    extra.map_values(|h: (&str, &str)| (h.0@, h.1@))
}

/// The lines of further headers.
pub open spec fn further_lines(extra: Seq<(Seq<char>, Seq<char>)>, n: int) -> Seq<char>
    decreases n,
{
    if n <= 0 {
        Seq::empty()
    } else {
        further_lines(extra, n - 1) + header_line(extra[n - 1].0, extra[n - 1].1)
    }
}

/// The head of a reply, up to and with the empty line.
pub open spec fn reply_head(
    code: u16,
    ctype: Seq<char>,
    len: nat,
    keep_alive: bool,
    extra: Seq<(Seq<char>, Seq<char>)>,
) -> Seq<char> {
    "HTTP/1.1 "@ + decimal(code as nat) + " "@ + status_words(code) + "\r\n"@ + header_line(
        "Content-Type"@,
        ctype,
    ) + header_line("Content-Length"@, decimal(len)) + header_line(
        "Connection"@,
        if keep_alive {
            "keep-alive"@
        } else {
            "close"@
        },
    ) + further_lines(extra, extra.len() as int) + "\r\n"@
}

/// Writes one header line.
fn put_header(out: &mut String, name: &str, value: &str)
    ensures
        final(out)@ == old(out)@ + header_line(name@, value@),
{
    let ghost before = out@;
    out.append(name);
    out.append(": ");
    out.append(value);
    out.append("\r\n");
    assert(out@ =~= before + header_line(name@, value@));
}

/// Writes a reply: its head, and the body behind it.
pub fn write_http_with_headers(
    code: u16,
    ctype: &str,
    body: &[u8],
    keep_alive: bool,
    extra_headers: &[(&str, &str)],
) -> (r: Vec<u8>)
    ensures
        r@ == encode_utf8(
            reply_head(code, ctype@, body@.len(), keep_alive, header_texts(extra_headers@)),
        ) + body@,
{
    let mut head: String = "HTTP/1.1 ".to_owned();
    head.append(write_decimal(code as u64).as_str());
    head.append(" ");
    head.append(status_text(code));
    head.append("\r\n");
    put_header(&mut head, "Content-Type", ctype);
    put_header(&mut head, "Content-Length", write_decimal(body.len() as u64).as_str());
    let conn: &str = if keep_alive {
        "keep-alive"
    } else {
        "close"
    };
    put_header(&mut head, "Connection", conn);
    let ghost fixed = head@;
    let mut i: usize = 0;
    assert(head@ =~= fixed + further_lines(header_texts(extra_headers@), 0));
    while i < extra_headers.len()
        invariant
            i <= extra_headers@.len(),
            head@ == fixed + further_lines(header_texts(extra_headers@), i as int),
        decreases extra_headers@.len() - i,
    {
        let pair: (&str, &str) = extra_headers[i];
        put_header(&mut head, pair.0, pair.1);
        i += 1;
        assert(head@ =~= fixed + further_lines(header_texts(extra_headers@), i as int));
    }
    head.append("\r\n");
    let mut out: Vec<u8> = Vec::new();
    put_bytes(&mut out, head.as_str().as_bytes());
    put_bytes(&mut out, body);
    assert(head@ =~= reply_head(code, ctype@, body@.len(), keep_alive, header_texts(extra_headers@)));
    assert(out@ =~= encode_utf8(head@) + body@);
    out
}

/// Writes a reply without further headers.
pub fn write_http(code: u16, ctype: &str, body: &[u8], keep_alive: bool) -> (r: Vec<u8>)
    ensures
        r@ == encode_utf8(reply_head(code, ctype@, body@.len(), keep_alive, Seq::empty())) + body@,
{
    let none: Vec<(&str, &str)> = Vec::new();
    assert(header_texts(none@) =~= Seq::empty());
    write_http_with_headers(code, ctype, body, keep_alive, none.as_slice())
}

} // verus!
