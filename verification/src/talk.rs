//! A whole conversation: from the bytes that arrive on a connection to the bytes that are sent.

use crate::bare::{
    bare_head, bare_request, law_request_line_is_read, lemma_bare_request_ends, plain_word,
    request_line,
};
use crate::http::{
    blank_line_bytes, law_head_end_is_settled, reply_head, request_head, HeadView,
};
use crate::scan::{first_at, law_first_at_is_first};
use crate::server::{
    arrived, dealt, in_order, law_requests_are_settled, lemma_chunked_end, lemma_next_in_order,
    next, over_after, routed, text_reply, ConnView, Dealt, End, NextView, StageView, Verdict,
    MAX_HEAD_BYTES,
};
use crate::text::{decimal, digit};
use vstd::prelude::*;
use vstd::utf8::{
    decode_utf8, encode_utf8, encode_utf8_decode_utf8, encode_utf8_valid_utf8, is_ascii_chars,
    is_ascii_chars_encode_utf8,
};

verus! {

/// Why a conversation is over.
pub enum Over {
    /// A request asked for the connection to be closed, and was answered.
    Finished,
    /// The head of a request is not text.
    NotText,
    /// No more is read.
    Ended(End),
}

/// How far a conversation has come: the connection, what was sent, how many requests were answered,
/// and whether it is over.
pub struct Talk {
    pub conn: ConnView,
    pub sent: Seq<u8>,
    pub answered: int,
    pub over: Option<Over>,
}

/// What is sent to let a body come.
pub open spec fn leave_to_send() -> Seq<u8> {
    encode_utf8("HTTP/1.1 100 Continue\r\n\r\n"@)
}

/// A conversation that sent something before it came so far.
pub open spec fn after(sent: Seq<u8>, t: Talk) -> Talk {
    Talk { sent: sent + t.sent, ..t }
}

/// How long a connection can go on without reading.
pub open spec fn left_to_do(c: ConnView) -> int {
    2 * c.stash.len() + if c.stage is Head {
        1int
    } else {
        0
    }
}

/// Deals with all that has arrived. The answer to the request of number `k` is `answer(k, ..)`.
pub open spec fn served(
    answer: spec_fn(int, HeadView, Seq<u8>) -> (Dealt, Seq<u8>),
    c: ConnView,
    k: int,
) -> Talk
    decreases left_to_do(c),
    when in_order(c)
    via served_ends
{
    let (conn, what) = next(c);
    match what {
        NextView::Read => Talk { conn, sent: Seq::empty(), answered: k, over: None },
        NextView::NotText => Talk {
            conn,
            sent: Seq::empty(),
            answered: k,
            over: Some(Over::NotText),
        },
        NextView::Continue => after(leave_to_send(), served(answer, conn, k)),
        NextView::Request { meta, body } => {
            let (dealt, bytes) = answer(k, meta, body);
            if over_after(dealt, meta.want_close) {
                Talk { conn, sent: bytes, answered: k + 1, over: Some(Over::Finished) }
            } else {
                after(bytes, served(answer, conn, k + 1))
            }
        },
    }
}

/// Every request takes bytes away, and leave is given but once for each.
proof fn lemma_less_to_do(c: ConnView)
    requires
        in_order(c),
    ensures
        in_order(next(c).0),
        next(c).1 is Continue || next(c).1 is Request ==> 0 <= left_to_do(next(c).0) < left_to_do(
            c,
        ),
{
    lemma_next_in_order(c);
    if c.stage is Head {
        law_first_at_is_first(c.stash, blank_line_bytes(), 0);
    }
    if next(c).1 is Request {
        let (meta, start) = match c.stage {
            StageView::Body { meta, start } => (meta, start),
            StageView::Head => {
                let end = first_at(c.stash, blank_line_bytes(), 0)->0;
                (request_head(decode_utf8(c.stash.take(end))), end + 4)
            },
        };
        if meta.chunked {
            lemma_chunked_end(c.stash, start);
        }
    }
}

#[via_fn]
proof fn served_ends(
    answer: spec_fn(int, HeadView, Seq<u8>) -> (Dealt, Seq<u8>),
    c: ConnView,
    k: int,
) {
    lemma_less_to_do(c);
}

/// A conversation over several reads. A read of nothing says that the other side has closed.
pub open spec fn talk(
    answer: spec_fn(int, HeadView, Seq<u8>) -> (Dealt, Seq<u8>),
    c: ConnView,
    k: int,
    reads: Seq<Seq<u8>>,
) -> Talk
    decreases reads.len(),
{
    let t = served(answer, c, k);
    if t.over is Some || reads.len() == 0 {
        t
    } else {
        let (conn, end) = arrived(t.conn, reads[0]);
        match end {
            Some(e) => Talk { conn, over: Some(Over::Ended(e)), ..t },
            None => after(t.sent, talk(answer, conn, t.answered, reads.skip(1))),
        }
    }
}

/// A connection to which more has come.
pub open spec fn grown(c: ConnView, more: Seq<u8>) -> ConnView {
    ConnView { stash: c.stash + more, stage: c.stage }
}

/// What a connection does before it has to read, it does also when more has come.
proof fn lemma_next_is_settled(c: ConnView, more: Seq<u8>)
    requires
        in_order(c),
    ensures
        next(c).1 is Read ==> next(grown(c, more)) == next(grown(next(c).0, more)),
        next(c).1 !is Read ==> next(grown(c, more)) == (grown(next(c).0, more), next(c).1),
{
    let g = grown(c, more);
    if next(c).1 is Request {
        law_requests_are_settled(c, more);
    } else if c.stage is Head && first_at(c.stash, blank_line_bytes(), 0) is Some {
        law_head_end_is_settled(c.stash, more);
        law_first_at_is_first(c.stash, blank_line_bytes(), 0);
        let end = first_at(c.stash, blank_line_bytes(), 0)->0;
        assert(g.stash.take(end) =~= c.stash.take(end));
    }
}

/// What is done with all that has arrived is the same whether or not it is first done with a part
/// of it.
proof fn lemma_served_in_parts(
    answer: spec_fn(int, HeadView, Seq<u8>) -> (Dealt, Seq<u8>),
    c: ConnView,
    k: int,
    more: Seq<u8>,
)
    requires
        in_order(c),
    ensures
        ({
            let t = served(answer, c, k);
            let all = served(answer, grown(c, more), k);
            &&& in_order(t.conn)
            &&& t.conn.stash.len() <= c.stash.len()
            &&& t.over is Some ==> all == Talk { conn: grown(t.conn, more), ..t }
            &&& t.over is None ==> all == after(
                t.sent,
                served(answer, grown(t.conn, more), t.answered),
            )
        }),
    decreases left_to_do(c),
{
    let g = grown(c, more);
    lemma_less_to_do(c);
    lemma_less_to_do(g);
    lemma_next_is_settled(c, more);
    let (conn, what) = next(c);
    let t = served(answer, c, k);
    let all = served(answer, g, k);
    match what {
        NextView::Read => {
            lemma_less_to_do(grown(conn, more));
            let again = served(answer, grown(conn, more), k);
            assert(all == again);
            assert(t.sent + again.sent =~= again.sent);
        },
        NextView::NotText => {},
        NextView::Continue => {
            lemma_served_in_parts(answer, conn, k, more);
            let u = served(answer, conn, k);
            if u.over is None {
                let rest = served(answer, grown(u.conn, more), u.answered);
                assert(leave_to_send() + (u.sent + rest.sent) =~= (leave_to_send() + u.sent)
                    + rest.sent);
            }
        },
        NextView::Request { meta, body } => {
            let (dealt, bytes) = answer(k, meta, body);
            if !over_after(dealt, meta.want_close) {
                lemma_served_in_parts(answer, conn, k + 1, more);
                let u = served(answer, conn, k + 1);
                if u.over is None {
                    let rest = served(answer, grown(u.conn, more), u.answered);
                    assert(bytes + (u.sent + rest.sent) =~= (bytes + u.sent) + rest.sent);
                }
            }
        },
    }
}

/// Why a conversation is over where the other side has closed: because of what was asked, or else
/// by what was being waited for.
pub open spec fn over_at_close(t: Talk) -> Option<Over> {
    match t.over {
        Some(o) => Some(o),
        None => match arrived(t.conn, Seq::empty()).1 {
            Some(e) => Some(Over::Ended(e)),
            None => None,
        },
    }
}

/// Whether a conversation broke off because too much arrived without completing a head.
pub open spec fn too_large(t: Talk) -> bool {
    t.over == Some(Over::Ended(End::HeadTooLarge))
}

/// Reads that bring something, and one at the end that brings nothing.
pub open spec fn closed_reads(reads: Seq<Seq<u8>>) -> bool {
    &&& reads.len() > 0
    &&& reads.last().len() == 0
    &&& forall|i: int| 0 <= i < reads.len() - 1 ==> (#[trigger] reads[i]).len() > 0
}

/// A conversation comes to what dealing with all its bytes at once comes to.
proof fn lemma_talk_is_served(
    answer: spec_fn(int, HeadView, Seq<u8>) -> (Dealt, Seq<u8>),
    c: ConnView,
    k: int,
    reads: Seq<Seq<u8>>,
)
    requires
        in_order(c),
        closed_reads(reads),
        !too_large(talk(answer, c, k, reads)),
    ensures
        ({
            let t = talk(answer, c, k, reads);
            let all = served(answer, grown(c, reads.flatten()), k);
            &&& t.sent == all.sent
            &&& t.answered == all.answered
            &&& t.over == over_at_close(all)
        }),
    decreases reads.len(),
{
    broadcast use vstd::seq_lib::group_seq_properties;

    let bytes = reads.flatten();
    lemma_served_in_parts(answer, c, k, bytes);
    let t = served(answer, c, k);
    assert(reads.drop_first() =~= reads.skip(1));
    assert(bytes == reads[0] + reads.skip(1).flatten());
    if t.over is None {
        if reads.len() == 1 {
            assert(reads.skip(1).flatten() =~= Seq::<u8>::empty());
            assert(bytes =~= Seq::<u8>::empty());
            assert(grown(c, bytes).stash =~= c.stash);
            assert(reads[0] =~= Seq::<u8>::empty());
        } else {
            let conn = arrived(t.conn, reads[0]).0;
            let rest = reads.skip(1);
            assert(reads[0].len() > 0);
            assert(rest.last() == reads.last());
            assert forall|i: int| 0 <= i < rest.len() - 1 implies (#[trigger] rest[i]).len()
                > 0 by {
                assert(rest[i] == reads[i + 1]);
            }
            assert(arrived(t.conn, reads[0]).1 is None);
            assert(conn == grown(t.conn, reads[0]));
            lemma_talk_is_served(answer, conn, t.answered, rest);
            assert(grown(conn, rest.flatten()).stash =~= grown(t.conn, bytes).stash);
        }
    }
}

/// What is sent does not depend on how the bytes of the other side are split over reads: two
/// conversations over the same bytes send the same, answer as many requests and are over for the
/// same reason. Left out are conversations that break off because too much arrived without
/// completing a head, which a larger read can bring about.
pub proof fn law_replies_do_not_depend_on_reads(
    answer: spec_fn(int, HeadView, Seq<u8>) -> (Dealt, Seq<u8>),
    c: ConnView,
    k: int,
    reads: Seq<Seq<u8>>,
    others: Seq<Seq<u8>>,
)
    requires
        in_order(c),
        closed_reads(reads),
        closed_reads(others),
        reads.flatten() == others.flatten(),
        !too_large(talk(answer, c, k, reads)),
        !too_large(talk(answer, c, k, others)),
    ensures
        talk(answer, c, k, reads).sent == talk(answer, c, k, others).sent,
        talk(answer, c, k, reads).answered == talk(answer, c, k, others).answered,
        talk(answer, c, k, reads).over == talk(answer, c, k, others).over,
{
    lemma_talk_is_served(answer, c, k, reads);
    lemma_talk_is_served(answer, c, k, others);
}

/// What is sent over all reads is what dealing with all the bytes at once sends.
pub proof fn law_replies_are_those_to_all_bytes(
    answer: spec_fn(int, HeadView, Seq<u8>) -> (Dealt, Seq<u8>),
    c: ConnView,
    k: int,
    reads: Seq<Seq<u8>>,
)
    requires
        in_order(c),
        closed_reads(reads),
        !too_large(talk(answer, c, k, reads)),
    ensures
        talk(answer, c, k, reads).sent == served(answer, grown(c, reads.flatten()), k).sent,
        talk(answer, c, k, reads).over == over_at_close(
            served(answer, grown(c, reads.flatten()), k),
        ),
{
    lemma_talk_is_served(answer, c, k, reads);
}

/// A conversation over no more bytes than a head may have does not break off for too many.
pub proof fn law_short_conversations_go_through(
    answer: spec_fn(int, HeadView, Seq<u8>) -> (Dealt, Seq<u8>),
    c: ConnView,
    k: int,
    reads: Seq<Seq<u8>>,
)
    requires
        in_order(c),
        c.stash.len() + reads.flatten().len() <= MAX_HEAD_BYTES,
    ensures
        !too_large(talk(answer, c, k, reads)),
    decreases reads.len(),
{
    broadcast use vstd::seq_lib::group_seq_properties;

    lemma_served_in_parts(answer, c, k, Seq::empty());
    let t = served(answer, c, k);
    lemma_served_over(answer, c, k);
    if t.over is None && reads.len() > 0 {
        assert(reads.drop_first() =~= reads.skip(1));
        assert(reads.flatten() == reads[0] + reads.skip(1).flatten());
        let (conn, end) = arrived(t.conn, reads[0]);
        if end is None {
            law_short_conversations_go_through(answer, conn, t.answered, reads.skip(1));
        }
    }
}

/// Dealing with what has arrived does not end for want of reads.
proof fn lemma_served_over(
    answer: spec_fn(int, HeadView, Seq<u8>) -> (Dealt, Seq<u8>),
    c: ConnView,
    k: int,
)
    requires
        in_order(c),
    ensures
        !(served(answer, c, k).over matches Some(Over::Ended(_))),
    decreases left_to_do(c),
{
    lemma_less_to_do(c);
    match next(c).1 {
        NextView::Continue => lemma_served_over(answer, next(c).0, k),
        NextView::Request { .. } => lemma_served_over(answer, next(c).0, k + 1),
        _ => {},
    }
}

/// The bytes of requests of one line each, one after the other.
pub open spec fn bare_requests(asked: Seq<(Seq<char>, Seq<char>)>) -> Seq<u8>
    decreases asked.len(),
{
    if asked.len() == 0 {
        Seq::empty()
    } else {
        bare_request(asked[0].0, asked[0].1) + bare_requests(asked.skip(1))
    }
}

/// The answers to requests of one line each, one after the other, the first of them of number `k`.
pub open spec fn answers_in_turn(
    answer: spec_fn(int, HeadView, Seq<u8>) -> (Dealt, Seq<u8>),
    asked: Seq<(Seq<char>, Seq<char>)>,
    k: int,
) -> Seq<u8>
    decreases asked.len(),
{
    if asked.len() == 0 {
        Seq::empty()
    } else {
        answer(k, bare_head(asked[0].0, asked[0].1), Seq::empty()).1 + answers_in_turn(
            answer,
            asked.skip(1),
            k + 1,
        )
    }
}

/// Whether every request names a method and a path.
pub open spec fn all_plain(asked: Seq<(Seq<char>, Seq<char>)>) -> bool {
    forall|i: int|
        0 <= i < asked.len() ==> plain_word((#[trigger] asked[i]).0) && plain_word(asked[i].1)
}

/// A connection on which nothing has arrived yet.
pub open spec fn fresh_conn() -> ConnView {
    ConnView { stash: Seq::empty(), stage: StageView::Head }
}

/// The first of some requests is complete, and the others are kept.
proof fn lemma_first_of_requests(asked: Seq<(Seq<char>, Seq<char>)>)
    requires
        all_plain(asked),
        asked.len() > 0,
    ensures
        next(ConnView { stash: bare_requests(asked), stage: StageView::Head }) == (
            ConnView { stash: bare_requests(asked.skip(1)), stage: StageView::Head },
            NextView::Request { meta: bare_head(asked[0].0, asked[0].1), body: Seq::empty() },
        ),
{
    let (method, path) = asked[0];
    let b = bare_requests(asked);
    let rest = bare_requests(asked.skip(1));
    let line = request_line(method, path);
    assert(plain_word(asked[0].0) && plain_word(asked[0].1));
    lemma_bare_request_ends(method, path, rest);
    law_request_line_is_read(method, path);
    encode_utf8_valid_utf8(line);
    encode_utf8_decode_utf8(line);
    let n = encode_utf8(line).len() as int;
    assert(b.subrange(n + 4, n + 4) =~= Seq::<u8>::empty());
}

proof fn lemma_requests_are_served(
    answer: spec_fn(int, HeadView, Seq<u8>) -> (Dealt, Seq<u8>),
    asked: Seq<(Seq<char>, Seq<char>)>,
    k: int,
)
    requires
        all_plain(asked),
    ensures
        served(answer, ConnView { stash: bare_requests(asked), stage: StageView::Head }, k) == (
        Talk {
            conn: fresh_conn(),
            sent: answers_in_turn(answer, asked, k),
            answered: k + asked.len(),
            over: None,
        }),
    decreases asked.len(),
{
    let c = ConnView { stash: bare_requests(asked), stage: StageView::Head };
    if asked.len() == 0 {
        law_first_at_is_first(c.stash, blank_line_bytes(), 0);
    } else {
        let rest = asked.skip(1);
        assert forall|i: int| 0 <= i < rest.len() implies plain_word((#[trigger] rest[i]).0)
            && plain_word(rest[i].1) by {
            assert(rest[i] == asked[i + 1]);
        }
        lemma_first_of_requests(asked);
        lemma_requests_are_served(answer, rest, k + 1);
    }
}

/// Requests of one line each are answered in turn, however their bytes are split over reads, and
/// the conversation is over when the other side closes.
pub proof fn law_requests_are_answered_in_turn(
    answer: spec_fn(int, HeadView, Seq<u8>) -> (Dealt, Seq<u8>),
    asked: Seq<(Seq<char>, Seq<char>)>,
    reads: Seq<Seq<u8>>,
)
    requires
        all_plain(asked),
        closed_reads(reads),
        reads.flatten() == bare_requests(asked),
        !too_large(talk(answer, fresh_conn(), 0, reads)),
    ensures
        ({
            let t = talk(answer, fresh_conn(), 0, reads);
            &&& t.sent == answers_in_turn(answer, asked, 0)
            &&& t.answered == asked.len()
            &&& t.over == Some(Over::Ended(End::Closed))
        }),
{
    let c = fresh_conn();
    lemma_talk_is_served(answer, c, 0, reads);
    assert(grown(c, reads.flatten()).stash =~= bare_requests(asked));
    lemma_requests_are_served(answer, asked, 0);
}

/// The server's answer to a request, whatever its models and its records hold.
pub open spec fn server_answer(
    room: bool,
    dim: Option<usize>,
    scored: Result<Verdict, Seq<char>>,
    document: Seq<u8>,
    metrics: Seq<char>,
) -> spec_fn(int, HeadView, Seq<u8>) -> (Dealt, Seq<u8>) {
    |k: int, head: HeadView, body: Seq<u8>|
        dealt(head, body, room, dim, scored, document, metrics)
}

/// What is sent to say that the server is well.
pub open spec fn well_bytes() -> Seq<u8> {
    encode_utf8(
        "HTTP/1.1 200 OK\r\nContent-Type: text/plain\r\nContent-Length: 2\r\nConnection: keep-alive\r\n\r\nok"@,
    )
}

/// What is sent in answer to a request for something unknown.
pub open spec fn not_found_bytes() -> Seq<u8> {
    encode_utf8(
        "HTTP/1.1 404 Not Found\r\nContent-Type: text/plain\r\nContent-Length: 9\r\nConnection: keep-alive\r\n\r\nnot found"@,
    )
}

/// What is sent in answer to requests that each ask for the server's health or for something
/// unknown.
pub open spec fn simple_replies(asked: Seq<(Seq<char>, Seq<char>)>) -> Seq<u8>
    decreases asked.len(),
{
    if asked.len() == 0 {
        Seq::empty()
    } else {
        (if routed(asked[0].0, asked[0].1) is Health {
            well_bytes()
        } else {
            not_found_bytes()
        }) + simple_replies(asked.skip(1))
    }
}

/// Whether every request asks for the server's health or for something unknown.
pub open spec fn all_simple(asked: Seq<(Seq<char>, Seq<char>)>) -> bool {
    forall|i: int|
        0 <= i < asked.len() ==> routed((#[trigger] asked[i]).0, asked[i].1) is Health || routed(
            asked[i].0,
            asked[i].1,
        ) is Unknown
}

/// Letters, digits and signs are encoded one by one.
proof fn lemma_ascii_joins(a: Seq<char>, b: Seq<char>)
    requires
        is_ascii_chars(a),
        is_ascii_chars(b),
    ensures
        encode_utf8(a) + encode_utf8(b) == encode_utf8(a + b),
{
    is_ascii_chars_encode_utf8(a);
    is_ascii_chars_encode_utf8(b);
    assert forall|i: int| 0 <= i < (a + b).len() implies '\0' <= #[trigger] (a + b)[i]
        <= '\u{7f}' by {
        if i < a.len() {
            assert((a + b)[i] == a[i]);
        } else {
            assert((a + b)[i] == b[i - a.len()]);
        }
    }
    is_ascii_chars_encode_utf8(a + b);
    assert forall|i: int| 0 <= i < (a + b).len() implies (encode_utf8(a) + encode_utf8(b))[i]
        == #[trigger] encode_utf8(a + b)[i] by {
        assert((a + b)[i] as u8 == encode_utf8(a + b)[i]);
        if i < a.len() {
            assert(a[i] as u8 == encode_utf8(a)[i]);
        } else {
            assert(b[i - a.len()] as u8 == encode_utf8(b)[i - a.len()]);
        }
    }
    assert(encode_utf8(a) + encode_utf8(b) =~= encode_utf8(a + b));
}

/// The words of a reply that keeps the connection open.
proof fn lemma_well_words()
    ensures
        text_reply(200, "ok"@, true) == well_bytes(),
{
    reveal_strlit("ok");
    reveal_strlit("HTTP/1.1 ");
    reveal_strlit(" ");
    reveal_strlit("OK");
    reveal_strlit("\r\n");
    reveal_strlit(": ");
    reveal_strlit("Content-Type");
    reveal_strlit("text/plain");
    reveal_strlit("Content-Length");
    reveal_strlit("Connection");
    reveal_strlit("keep-alive");
    reveal_strlit(
        "HTTP/1.1 200 OK\r\nContent-Type: text/plain\r\nContent-Length: 2\r\nConnection: keep-alive\r\n\r\nok",
    );
    let all =
        "HTTP/1.1 200 OK\r\nContent-Type: text/plain\r\nContent-Length: 2\r\nConnection: keep-alive\r\n\r\nok"@;
    is_ascii_chars_encode_utf8("ok"@);
    let head = reply_head(200, "text/plain"@, 2, true, Seq::empty());
    assert(decimal(200) =~= seq!['2', '0', '0']) by {
        reveal_with_fuel(decimal, 4);
        assert(digit(2) == '2' && digit(0) == '0');
    }
    assert(decimal(2) =~= seq!['2']) by {
        assert(digit(2) == '2');
    }
    assert(head + "ok"@ =~= all);
    assert(is_ascii_chars(all));
    assert(is_ascii_chars(head)) by {
        assert forall|i: int| 0 <= i < head.len() implies '\0' <= #[trigger] head[i]
            <= '\u{7f}' by {
            assert(head[i] == all[i]);
        }
    }
    lemma_ascii_joins(head, "ok"@);
}

proof fn lemma_not_found_words()
    ensures
        text_reply(404, "not found"@, true) == not_found_bytes(),
{
    reveal_strlit("not found");
    reveal_strlit("HTTP/1.1 ");
    reveal_strlit(" ");
    reveal_strlit("Not Found");
    reveal_strlit("\r\n");
    reveal_strlit(": ");
    reveal_strlit("Content-Type");
    reveal_strlit("text/plain");
    reveal_strlit("Content-Length");
    reveal_strlit("Connection");
    reveal_strlit("keep-alive");
    reveal_strlit(
        "HTTP/1.1 404 Not Found\r\nContent-Type: text/plain\r\nContent-Length: 9\r\nConnection: keep-alive\r\n\r\nnot found",
    );
    let all =
        "HTTP/1.1 404 Not Found\r\nContent-Type: text/plain\r\nContent-Length: 9\r\nConnection: keep-alive\r\n\r\nnot found"@;
    is_ascii_chars_encode_utf8("not found"@);
    let head = reply_head(404, "text/plain"@, 9, true, Seq::empty());
    assert(decimal(404) =~= seq!['4', '0', '4']) by {
        reveal_with_fuel(decimal, 4);
        assert(digit(4) == '4' && digit(0) == '0');
    }
    assert(decimal(9) =~= seq!['9']) by {
        assert(digit(9) == '9');
    }
    assert(head + "not found"@ =~= all);
    assert(is_ascii_chars(all));
    assert(is_ascii_chars(head)) by {
        assert forall|i: int| 0 <= i < head.len() implies '\0' <= #[trigger] head[i]
            <= '\u{7f}' by {
            assert(head[i] == all[i]);
        }
    }
    lemma_ascii_joins(head, "not found"@);
}

proof fn lemma_simple_answers(
    asked: Seq<(Seq<char>, Seq<char>)>,
    room: bool,
    dim: Option<usize>,
    scored: Result<Verdict, Seq<char>>,
    document: Seq<u8>,
    metrics: Seq<char>,
    k: int,
)
    requires
        all_simple(asked),
    ensures
        answers_in_turn(server_answer(room, dim, scored, document, metrics), asked, k)
            == simple_replies(asked),
    decreases asked.len(),
{
    if asked.len() > 0 {
        let rest = asked.skip(1);
        assert forall|i: int| 0 <= i < rest.len() implies routed(
            (#[trigger] rest[i]).0,
            rest[i].1,
        ) is Health || routed(rest[i].0, rest[i].1) is Unknown by {
            assert(rest[i] == asked[i + 1]);
        }
        assert(routed(asked[0].0, asked[0].1) is Health || routed(asked[0].0, asked[0].1)
            is Unknown);
        lemma_simple_answers(rest, room, dim, scored, document, metrics, k + 1);
        lemma_well_words();
        lemma_not_found_words();
    }
}

/// Requests of one line each that ask for the server's health or for something unknown are answered
/// in turn, byte for byte, however they arrive: the one is told that all is well, the other that
/// nothing was found. They must fit into what may arrive before a head is complete.
pub proof fn law_simple_requests_are_answered(
    asked: Seq<(Seq<char>, Seq<char>)>,
    reads: Seq<Seq<u8>>,
    room: bool,
    dim: Option<usize>,
    scored: Result<Verdict, Seq<char>>,
    document: Seq<u8>,
    metrics: Seq<char>,
)
    requires
        all_plain(asked),
        all_simple(asked),
        closed_reads(reads),
        reads.flatten() == bare_requests(asked),
        bare_requests(asked).len() <= MAX_HEAD_BYTES,
    ensures
        ({
            let answer = server_answer(room, dim, scored, document, metrics);
            let t = talk(answer, fresh_conn(), 0, reads);
            &&& t.sent == simple_replies(asked)
            &&& t.answered == asked.len()
            &&& t.over == Some(Over::Ended(End::Closed))
        }),
{
    let answer = server_answer(room, dim, scored, document, metrics);
    law_short_conversations_go_through(answer, fresh_conn(), 0, reads);
    law_requests_are_answered_in_turn(answer, asked, reads);
    lemma_simple_answers(asked, room, dim, scored, document, metrics, 0);
}

} // verus!
