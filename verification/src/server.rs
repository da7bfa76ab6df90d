//! A connection: what has arrived, what is asked, and what is answered.
//!
//! The caller reads and writes; this module decides what to do next.

use crate::http::{
    blank_line_bytes, chunked_body, find_double_crlf, header_texts, law_chunked_body_is_settled,
    law_head_end_is_settled, parse_request_head, reply_head, request_head, try_parse_chunked,
    write_http, write_http_with_headers, HeadView, ReqMeta,
};
use crate::le::{put_bytes, utf8_to_string};
use crate::scan::{first_at, law_first_at_is_first};
use crate::stash::{body_from, body_held, stash_bytes, stash_held};
use crate::text::same_text;
use crate::wire::{
    decision_code, decision_u8, dense_error_text, dense_error_words, dense_payload, encode_qsb2,
    encode_rsk1, encode_timings_header, parse_dense_payload_le, qsb2, rsk1, timings_words,
    Decision, DenseError, DenseRequest, QuickRouteMeta, Timings,
};
use vstd::prelude::*;
use vstd::slice::slice_subrange;
use vstd::utf8::{decode_utf8, encode_utf8, valid_utf8};

verus! {

/// How much may arrive before the head of a request is complete.
pub const MAX_HEAD_BYTES: usize = 1048576;

/// How much room a fresh buffer has for what arrives.
pub const CONN_STASH_BYTES: usize = 8192;

/// How much room such a buffer may keep between two requests.
pub const CONN_STASH_RETAIN_LIMIT_BYTES: usize = 32768;

/// What a connection is waiting for.
#[derive(Debug)]
pub enum Stage {
    Head,
    Body { meta: ReqMeta, start: usize },
}

/// A connection.
#[derive(Debug)]
pub struct Conn {
    pub stash: bytes::BytesMut,
    pub stage: Stage,
}

/// What a connection is waiting for, with text as sequences of characters.
pub enum StageView {
    Head,
    Body { meta: HeadView, start: int },
}

/// A connection, with what has arrived as a sequence.
pub struct ConnView {
    pub stash: Seq<u8>,
    pub stage: StageView,
}

impl View for Conn {
    type V = ConnView;

    open spec fn view(&self) -> ConnView {
        ConnView {
            stash: stash_held(self.stash),
            stage: match self.stage {
                Stage::Head => StageView::Head,
                Stage::Body { meta, start } => StageView::Body {
                    meta: meta@,
                    start: start as int,
                },
            },
        }
    }
}

/// What to do next on a connection.
#[derive(Debug)]
pub enum Next {
    /// More must be read.
    Read,
    /// Leave to send the body must be given.
    Continue,
    /// A request is complete.
    Request { meta: ReqMeta, body: bytes::Bytes },
    /// The head of a request is not text.
    NotText,
}

/// What to do next on a connection, with text and bytes as sequences.
pub enum NextView {
    Read,
    Continue,
    Request { meta: HeadView, body: Seq<u8> },
    NotText,
}

impl View for Next {
    type V = NextView;

    open spec fn view(&self) -> NextView {
        match *self {
            Next::Read => NextView::Read,
            Next::Continue => NextView::Continue,
            Next::Request { meta, body } => NextView::Request {
                meta: meta@,
                body: body_held(body),
            },
            Next::NotText => NextView::NotText,
        }
    }
}

/// How long a body that does not come in chunks is.
pub open spec fn body_len(meta: HeadView) -> int {
    match meta.content_len {
        Some(n) => n as int,
        None => 0,
    }
}

/// What happens to the body of a request.
pub open spec fn after_head(stash: Seq<u8>, meta: HeadView, start: int) -> (ConnView, NextView) {
    let waiting = ConnView { stash, stage: StageView::Body { meta, start } };
    if meta.chunked {
        match chunked_body(stash, start) {
            None => (waiting, NextView::Read),
            Some((end, body)) => (
                ConnView { stash: stash.skip(end), stage: StageView::Head },
                NextView::Request { meta, body },
            ),
        }
    } else if stash.len() < start + body_len(meta) {
        (waiting, NextView::Read)
    } else {
        let end = start + body_len(meta);
        (
            ConnView { stash: stash.skip(end), stage: StageView::Head },
            NextView::Request { meta, body: stash.subrange(start, end) },
        )
    }
}

/// What happens next on a connection.
pub open spec fn next(c: ConnView) -> (ConnView, NextView) {
    match c.stage {
        StageView::Body { meta, start } => after_head(c.stash, meta, start),
        StageView::Head => match first_at(c.stash, blank_line_bytes(), 0) {
            None => (c, NextView::Read),
            Some(end) => {
                let head = c.stash.take(end);
                let meta = request_head(decode_utf8(head));
                let start = end + 4;
                if !valid_utf8(head) {
                    (c, NextView::NotText)
                } else if meta.expect_100 {
                    (
                        ConnView { stash: c.stash, stage: StageView::Body { meta, start } },
                        NextView::Continue,
                    )
                } else {
                    after_head(c.stash, meta, start)
                }
            },
        },
    }
}

/// A body can only start within what has arrived, and after a head.
pub open spec fn in_order(c: ConnView) -> bool {
    match c.stage {
        StageView::Head => true,
        StageView::Body { meta, start } => 4 <= start <= c.stash.len(),
    }
}

impl Conn {
    /// A fresh connection.
    pub fn new() -> (r: Self)
        ensures
            r@ == (ConnView { stash: Seq::empty(), stage: StageView::Head }),
            in_order(r@),
    {
        let stash: bytes::BytesMut = bytes::BytesMut::with_capacity(CONN_STASH_BYTES);
        Conn { stash, stage: Stage::Head }
    }

    /// Works on the body of a request.
    fn take_body(&mut self, meta: ReqMeta, start: usize) -> (r: Next)
        requires
            4 <= start <= old(self)@.stash.len(),
        ensures
            (final(self)@, r@) == after_head(old(self)@.stash, meta@, start as int),
            in_order(final(self)@),
    {
        let ghost s = stash_held(self.stash);
        if meta.chunked {
            match try_parse_chunked(stash_bytes(&self.stash), start) {
                None => {
                    self.stage = Stage::Body { meta, start };
                    Next::Read
                },
                Some((end, body)) => {
                    let _used: bytes::BytesMut = self.stash.split_to(end);
                    self.stage = Stage::Head;
                    Next::Request { meta, body: body_from(body) }
                },
            }
        } else {
            let need: usize = match meta.content_len {
                Some(n) => n,
                None => 0,
            };
            if stash_bytes(&self.stash).len() - start < need {
                self.stage = Stage::Body { meta, start };
                return Next::Read;
            }
            let end: usize = start + need;
            self.stage = Stage::Head;
            let mut used: bytes::BytesMut = self.stash.split_to(end);
            let body: bytes::Bytes = if need == 0 {
                bytes::Bytes::new()
            } else {
                used.split_off(start).freeze()
            };
            assert(body_held(body) =~= s.subrange(start as int, end as int));
            Next::Request { meta, body }
        }
    }

    /// Decides what to do next.
    pub fn next(&mut self) -> (r: Next)
        requires
            in_order(old(self)@),
        ensures
            (final(self)@, r@) == next(old(self)@),
            in_order(final(self)@),
    {
        let mut stage: Stage = Stage::Head;
        std::mem::swap(&mut stage, &mut self.stage);
        match stage {
            Stage::Body { meta, start } => self.take_body(meta, start),
            Stage::Head => {
                let end: usize = match find_double_crlf(stash_bytes(&self.stash)) {
                    None => {
                        return Next::Read;
                    },
                    Some(i) => i,
                };
                let mut raw: Vec<u8> = Vec::new();
                put_bytes(&mut raw, slice_subrange(stash_bytes(&self.stash), 0, end));
                assert(raw@ =~= self@.stash.take(end as int));
                let head: String = match utf8_to_string(raw) {
                    Err(_) => {
                        return Next::NotText;
                    },
                    Ok(t) => t,
                };
                proof {
                    vstd::utf8::encode_utf8_decode_utf8(head@);
                }
                let meta: ReqMeta = parse_request_head(head.as_str());
                let room: usize = stash_bytes(&self.stash).len();
                assert(end + 4 <= room);
                let start: usize = end + 4;
                if meta.expect_100 {
                    self.stage = Stage::Body { meta, start };
                    return Next::Continue;
                }
                self.take_body(meta, start)
            },
        }
    }
}

/// Why a connection ends.
#[derive(Clone, Copy, Debug, PartialEq, Eq, Structural)]
pub enum End {
    /// The other side closed it between two requests.
    Closed,
    /// Too much arrived without completing a head.
    HeadTooLarge,
    /// The other side closed it within a body that comes in chunks.
    EofInChunks,
    /// The other side closed it within a body.
    EofInBody,
}

/// What arriving bytes do to a connection. None at all mean that the other side has closed it.
pub open spec fn arrived(c: ConnView, data: Seq<u8>) -> (ConnView, Option<End>) {
    let more = ConnView { stash: c.stash + data, stage: c.stage };
    match c.stage {
        StageView::Head => if data.len() == 0 {
            (c, Some(End::Closed))
        } else if more.stash.len() > MAX_HEAD_BYTES {
            (more, Some(End::HeadTooLarge))
        } else {
            (more, None)
        },
        StageView::Body { meta, start } => if data.len() == 0 {
            (
                c,
                Some(
                    if meta.chunked {
                        End::EofInChunks
                    } else {
                        End::EofInBody
                    },
                ),
            )
        } else {
            (more, None)
        },
    }
}

impl Conn {
    /// Takes in arriving bytes.
    pub fn received(&mut self, data: &[u8]) -> (r: Option<End>)
        requires
            in_order(old(self)@),
            old(self)@.stash.len() + data@.len() <= isize::MAX,
        ensures
            (final(self)@, r) == arrived(old(self)@, data@),
            in_order(final(self)@),
    {
        if data.len() == 0 {
            return Some(
                match &self.stage {
                    Stage::Head => End::Closed,
                    Stage::Body { meta, start: _ } => if meta.chunked {
                        End::EofInChunks
                    } else {
                        End::EofInBody
                    },
                },
            );
        }
        self.stash.extend_from_slice(data);
        match &self.stage {
            Stage::Head => if stash_bytes(&self.stash).len() > MAX_HEAD_BYTES {
                Some(End::HeadTooLarge)
            } else {
                None
            },
            Stage::Body { .. } => None,
        }
    }

    /// Lets go of a buffer that has grown large, and keeps what it holds.
    pub fn shrink(&mut self)
        ensures
            final(self)@ == old(self)@,
    {
        if self.stash.capacity() > CONN_STASH_RETAIN_LIMIT_BYTES {
            let mut trimmed: bytes::BytesMut = bytes::BytesMut::with_capacity(CONN_STASH_BYTES);
            let kept: &[u8] = stash_bytes(&self.stash);
            if kept.len() > 0 {
                trimmed.extend_from_slice(kept);
            }
            assert(stash_held(trimmed) =~= stash_held(self.stash));
            self.stash = trimmed;
        }
    }
}

/// How requests are cut out of what arrives does not depend on how it arrives: a request that is
/// complete stays what it is when more bytes follow it, and those are kept for the next one.
pub proof fn law_requests_are_settled(c: ConnView, more: Seq<u8>)
    requires
        in_order(c),
        next(c).1 is Request,
    ensures
        ({
            let (after, what) = next(c);
            next(ConnView { stash: c.stash + more, stage: c.stage }) == (
                ConnView { stash: after.stash + more, stage: after.stage },
                what,
            )
        }),
{
    match c.stage {
        StageView::Body { meta, start } => lemma_body_is_settled(c.stash, more, meta, start),
        StageView::Head => {
            law_head_end_is_settled(c.stash, more);
            law_first_at_is_first(c.stash, blank_line_bytes(), 0);
            let end = first_at(c.stash, blank_line_bytes(), 0)->0;
            assert((c.stash + more).take(end) =~= c.stash.take(end));
            let meta = request_head(decode_utf8(c.stash.take(end)));
            lemma_body_is_settled(c.stash, more, meta, end + 4);
        },
    }
}

proof fn lemma_body_is_settled(stash: Seq<u8>, more: Seq<u8>, meta: HeadView, start: int)
    requires
        0 <= start,
        after_head(stash, meta, start).1 is Request,
    ensures
        ({
            let (after, what) = after_head(stash, meta, start);
            after_head(stash + more, meta, start) == (
                ConnView { stash: after.stash + more, stage: after.stage },
                what,
            )
        }),
{
    let t = stash + more;
    if meta.chunked {
        law_chunked_body_is_settled(stash, more, start);
        let (end, body) = chunked_body(stash, start)->0;
        lemma_chunked_end(stash, start);
        assert(t.skip(end) =~= stash.skip(end) + more);
    } else {
        let end = start + body_len(meta);
        assert(t.skip(end) =~= stash.skip(end) + more);
        assert(t.subrange(start, end) =~= stash.subrange(start, end));
    }
}

/// A connection stays in order.
pub proof fn lemma_next_in_order(c: ConnView)
    requires
        in_order(c),
    ensures
        in_order(next(c).0),
{
    if c.stage is Head {
        law_first_at_is_first(c.stash, blank_line_bytes(), 0);
    }
}

/// A body in chunks ends within what has arrived.
pub proof fn lemma_chunked_end(stash: Seq<u8>, i: int)
    requires
        chunked_body(stash, i) is Some,
    ensures
        chunked_body(stash, i) matches Some((end, _)) && 0 <= i < end <= stash.len(),
    decreases stash.len() - i,
{
    crate::http::lemma_chunk_fits(stash, i);
    let (j, size) = crate::http::chunk_at(stash, i)->0;
    if size > 0 {
        lemma_chunked_end(stash, j + size + 2);
    }
}

/// What a request asks for.
#[derive(Clone, Copy, Debug, PartialEq, Eq, Structural)]
pub enum Route {
    Health,
    DebugBackend,
    Score,
    ScoreV2,
    Metrics,
    Unknown,
}

/// What a method and a path ask for.
pub open spec fn routed(method: Seq<char>, path: Seq<char>) -> Route {
    if method == "GET"@ && path == "/health"@ {
        Route::Health
    } else if method == "GET"@ && path == "/debug/backend"@ {
        Route::DebugBackend
    } else if method == "POST"@ && path == "/score_dense_f32_bin"@ {
        Route::Score
    } else if method == "POST"@ && path == "/score_dense_f32_bin_v2"@ {
        Route::ScoreV2
    } else if method == "GET"@ && path == "/metrics"@ {
        Route::Metrics
    } else {
        Route::Unknown
    }
}

/// Computes [`routed`].
pub fn route(method: &str, path: &str) -> (r: Route)
    ensures
        r == routed(method@, path@),
{
    let get: bool = same_text(method, "GET");
    let post: bool = same_text(method, "POST");
    if get && same_text(path, "/health") {
        Route::Health
    } else if get && same_text(path, "/debug/backend") {
        Route::DebugBackend
    } else if post && same_text(path, "/score_dense_f32_bin") {
        Route::Score
    } else if post && same_text(path, "/score_dense_f32_bin_v2") {
        Route::ScoreV2
    } else if get && same_text(path, "/metrics") {
        Route::Metrics
    } else {
        Route::Unknown
    }
}

/// A reply without further headers.
pub open spec fn reply(code: u16, ctype: Seq<char>, body: Seq<u8>, keep_alive: bool) -> Seq<u8> {
    encode_utf8(reply_head(code, ctype, body.len(), keep_alive, Seq::empty())) + body
}

/// A reply that is a line of text.
pub open spec fn text_reply(code: u16, words: Seq<char>, keep_alive: bool) -> Seq<u8> {
    reply(code, "text/plain"@, encode_utf8(words), keep_alive)
}

/// Writes [`text_reply`].
pub fn write_text(code: u16, words: &str, keep_alive: bool) -> (r: Vec<u8>)
    ensures
        r@ == text_reply(code, words@, keep_alive),
{
    write_http(code, "text/plain", words.as_bytes(), keep_alive)
}

/// The reply that says the server is well.
pub fn health_reply(keep_alive: bool) -> (r: Vec<u8>)
    ensures
        r@ == text_reply(200, "ok"@, keep_alive),
{
    write_text(200, "ok", keep_alive)
}

/// The reply to a request for something unknown.
pub fn unknown_reply(keep_alive: bool) -> (r: Vec<u8>)
    ensures
        r@ == text_reply(404, "not found"@, keep_alive),
{
    write_text(404, "not found", keep_alive)
}

/// The reply that carries the metrics.
pub fn metrics_reply(text: &str, keep_alive: bool) -> (r: Vec<u8>)
    ensures
        r@ == reply(200, "text/plain; version=0.0.4"@, encode_utf8(text@), keep_alive),
{
    write_http(200, "text/plain; version=0.0.4", text.as_bytes(), keep_alive)
}

/// The reply that carries a JSON document.
pub fn json_reply(doc: &[u8], keep_alive: bool) -> (r: Vec<u8>)
    ensures
        r@ == reply(200, "application/json"@, doc@, keep_alive),
{
    write_http(200, "application/json", doc, keep_alive)
}

/// Why a row is not scored.
#[derive(Clone, Copy, Debug, PartialEq, Eq, Structural)]
pub enum Refusal {
    Overloaded,
    NoModel,
    Malformed(DenseError),
}

/// Whether a row is scored: there must be room for it and a model, and it must be a row of that
/// model.
pub open spec fn accepted(room: bool, dim: Option<usize>, body: Seq<u8>) -> Result<
    (int, Option<QuickRouteMeta>),
    Refusal,
> {
    if !room {
        Err(Refusal::Overloaded)
    } else {
        match dim {
            None => Err(Refusal::NoModel),
            Some(d) => match dense_payload(body, d as int) {
                Ok(x) => Ok(x),
                Err(e) => Err(Refusal::Malformed(e)),
            },
        }
    }
}

/// Decides whether a row is scored.
pub fn accept_row<'a>(room: bool, dim: Option<usize>, body: &'a [u8]) -> (r: Result<
    DenseRequest<'a>,
    Refusal,
>)
    ensures
        match accepted(room, dim, body@) {
            Err(e) => r == Err::<DenseRequest<'a>, Refusal>(e),
            Ok((at, meta)) => r matches Ok(x) && x.payload@ == body@.skip(at) && x.route_meta
                == meta,
        },
{
    if !room {
        return Err(Refusal::Overloaded);
    }
    match dim {
        None => Err(Refusal::NoModel),
        Some(d) => match parse_dense_payload_le(body, d) {
            Ok(x) => Ok(x),
            Err(e) => Err(Refusal::Malformed(e)),
        },
    }
}

/// The status code of a refusal.
pub open spec fn refusal_code(r: Refusal) -> u16 {
    match r {
        Refusal::Overloaded => 429,
        Refusal::NoModel => 500,
        Refusal::Malformed(_) => 400,
    }
}

/// The words of a refusal.
pub open spec fn refusal_words(r: Refusal) -> Seq<char> {
    match r {
        Refusal::Overloaded => "overloaded"@,
        Refusal::NoModel => "quickscorer not enabled"@,
        Refusal::Malformed(e) => dense_error_words(e),
    }
}

/// The reply to a row that is not scored.
pub fn refusal_reply(refusal: Refusal, keep_alive: bool) -> (r: Vec<u8>)
    ensures
        r@ == text_reply(refusal_code(refusal), refusal_words(refusal), keep_alive),
{
    match refusal {
        Refusal::Overloaded => write_text(429, "overloaded", keep_alive),
        Refusal::NoModel => write_text(500, "quickscorer not enabled", keep_alive),
        Refusal::Malformed(e) => {
            let words: String = dense_error_text(e);
            write_text(400, words.as_str(), keep_alive)
        },
    }
}

/// The reply to a row whose scoring failed.
pub fn failure_reply(reason: &str, keep_alive: bool) -> (r: Vec<u8>)
    ensures
        r@ == text_reply(500, "quickscorer inference failed: "@ + reason@, keep_alive),
{
    let words: String = "quickscorer inference failed: ".to_owned().concat(reason);
    write_text(500, words.as_str(), keep_alive)
}

/// Which row of a recorded file goes with a request: the one it names, or that of its number.
pub fn sidecar_row_idx(meta: Option<QuickRouteMeta>, trace_id: u64) -> (r: usize)
    ensures
        r == match meta {
            Some(m) => m.row_idx as usize,
            None => trace_id as usize,
        },
{
    match meta {
        Some(m) => m.row_idx as usize,
        None => trace_id as usize,
    }
}

/// The reply that carries a full verdict.
pub fn verdict_reply(rsk1: &[u8], keep_alive: bool) -> (r: Vec<u8>)
    ensures
        r@ == reply(200, "application/octet-stream"@, rsk1@, keep_alive),
{
    write_http(200, "application/octet-stream", rsk1, keep_alive)
}

/// A short verdict, with the times in a header.
pub open spec fn short_reply(
    trace_id: u64,
    score: u32,
    decision: Decision,
    t: Timings,
    keep_alive: bool,
) -> Seq<u8> {
    encode_utf8(
        reply_head(
            200,
            "application/octet-stream"@,
            24,
            keep_alive,
            seq![("X-Risk-Timings-Us"@, timings_words(t))],
        ),
    ) + qsb2(trace_id, score, decision_code(decision), t.l2 > 0)
}

/// The reply that carries a short verdict, with the times in a header.
pub fn short_verdict_reply(
    trace_id: u64,
    score: u32,
    decision: Decision,
    t: Timings,
    keep_alive: bool,
) -> (r: Vec<u8>)
    ensures
        r@ == short_reply(trace_id, score, decision, t, keep_alive),
{
    let body: Vec<u8> = encode_qsb2(trace_id, score, decision_u8(decision), t.l2 > 0);
    let header: String = encode_timings_header(t);
    let times: &str = header.as_str();
    let extra: Vec<(&str, &str)> = vec![("X-Risk-Timings-Us", times)];
    assert(header_texts(extra@) =~= seq![("X-Risk-Timings-Us"@, times@)]);
    write_http_with_headers(
        200,
        "application/octet-stream",
        body.as_slice(),
        keep_alive,
        extra.as_slice(),
    )
}

/// How a request was dealt with.
#[derive(Clone, Copy, Debug, PartialEq, Eq, Structural)]
pub enum Dealt {
    /// What was asked for was sent.
    Answered,
    /// A row was refused, or its scoring failed.
    TurnedDown,
}

/// What scoring a row came to. `serialize_us` is how long it takes to write a full verdict.
#[derive(Clone, Copy, Debug, PartialEq, Eq, Structural)]
pub struct Verdict {
    pub trace_id: u64,
    pub score: u32,
    pub decision: Decision,
    pub timings: Timings,
    pub serialize_us: u64,
}

/// What scoring came to, with text as a sequence of characters.
pub open spec fn outcome_of(scored: Result<Verdict, String>) -> Result<Verdict, Seq<char>> {
    match scored {
        Ok(v) => Ok(v),
        Err(reason) => Err(reason@),
    }
}

/// How a row that was to be scored is dealt with.
pub open spec fn row_dealt(
    short: bool,
    accepted: Result<(int, Option<QuickRouteMeta>), Refusal>,
    scored: Result<Verdict, Seq<char>>,
    keep_alive: bool,
) -> (Dealt, Seq<u8>) {
    match accepted {
        Err(e) => (
            Dealt::TurnedDown,
            text_reply(refusal_code(e), refusal_words(e), keep_alive),
        ),
        Ok(_) => match scored {
            Err(reason) => (
                Dealt::TurnedDown,
                text_reply(500, "quickscorer inference failed: "@ + reason, keep_alive),
            ),
            Ok(v) => (
                Dealt::Answered,
                if short {
                    short_reply(v.trace_id, v.score, v.decision, v.timings, keep_alive)
                } else {
                    reply(
                        200,
                        "application/octet-stream"@,
                        rsk1(
                            v.trace_id,
                            v.score,
                            decision_code(v.decision),
                            Timings { serialize: v.serialize_us, ..v.timings },
                        ),
                        keep_alive,
                    )
                },
            ),
        },
    }
}

/// How a request is dealt with: where it asks for a score, by whether there is room, how many
/// features a row has and what scoring came to; else by what there is to tell.
pub open spec fn dealt(
    meta: HeadView,
    body: Seq<u8>,
    room: bool,
    dim: Option<usize>,
    scored: Result<Verdict, Seq<char>>,
    document: Seq<u8>,
    metrics: Seq<char>,
) -> (Dealt, Seq<u8>) {
    let keep = !meta.want_close;
    match routed(meta.method, meta.path) {
        Route::Health => (Dealt::Answered, text_reply(200, "ok"@, keep)),
        Route::DebugBackend => (Dealt::Answered, reply(200, "application/json"@, document, keep)),
        Route::Score => row_dealt(false, accepted(room, dim, body), scored, keep),
        Route::ScoreV2 => row_dealt(true, accepted(room, dim, body), scored, keep),
        Route::Metrics => (
            Dealt::Answered,
            reply(200, "text/plain; version=0.0.4"@, encode_utf8(metrics), keep),
        ),
        Route::Unknown => (Dealt::Answered, text_reply(404, "not found"@, keep)),
    }
}

/// Deals with a row that was to be scored.
fn deal_row(
    short: bool,
    body: &[u8],
    room: bool,
    dim: Option<usize>,
    scored: &Result<Verdict, String>,
    keep_alive: bool,
) -> (r: (Dealt, Vec<u8>))
    ensures
        (r.0, r.1@) == row_dealt(
            short,
            accepted(room, dim, body@),
            outcome_of(*scored),
            keep_alive,
        ),
{
    if let Err(e) = accept_row(room, dim, body) {
        return (Dealt::TurnedDown, refusal_reply(e, keep_alive));
    }
    match scored {
        Err(reason) => (Dealt::TurnedDown, failure_reply(reason.as_str(), keep_alive)),
        Ok(v) => if short {
            (
                Dealt::Answered,
                short_verdict_reply(v.trace_id, v.score, v.decision, v.timings, keep_alive),
            )
        } else {
            let timings: Timings = Timings { serialize: v.serialize_us, ..v.timings };
            let code: u8 = decision_u8(v.decision);
            let rsk1: Vec<u8> = encode_rsk1(v.trace_id, v.score, code, timings);
            (Dealt::Answered, verdict_reply(rsk1.as_slice(), keep_alive))
        },
    }
}

/// Deals with a request. What scoring came to matters only where a row is accepted.
pub fn deal(
    meta: &ReqMeta,
    body: &[u8],
    room: bool,
    dim: Option<usize>,
    scored: &Result<Verdict, String>,
    document: &[u8],
    metrics: &str,
) -> (r: (Dealt, Vec<u8>))
    ensures
        (r.0, r.1@) == dealt(
            meta@,
            body@,
            room,
            dim,
            outcome_of(*scored),
            document@,
            metrics@,
        ),
{
    let keep_alive: bool = !meta.want_close;
    match route(meta.method.as_str(), meta.path.as_str()) {
        Route::Health => (Dealt::Answered, health_reply(keep_alive)),
        Route::DebugBackend => (Dealt::Answered, json_reply(document, keep_alive)),
        Route::Score => deal_row(false, body, room, dim, scored, keep_alive),
        Route::ScoreV2 => deal_row(true, body, room, dim, scored, keep_alive),
        Route::Metrics => (Dealt::Answered, metrics_reply(metrics, keep_alive)),
        Route::Unknown => (Dealt::Answered, unknown_reply(keep_alive)),
    }
}

/// Whether the connection is over after a request. One that turned a row down stays open.
pub open spec fn over_after(dealt: Dealt, want_close: bool) -> bool {
    want_close && dealt == Dealt::Answered
}

/// Computes [`over_after`].
pub fn ends_connection(dealt: Dealt, want_close: bool) -> (r: bool)
    ensures
        r == over_after(dealt, want_close),
{
    match dealt {
        Dealt::Answered => want_close,
        Dealt::TurnedDown => false,
    }
}

/// Where the threshold of a benchmark comes from.
#[derive(Clone, Copy, Debug, PartialEq, Eq, Structural)]
pub enum StandaloneL2TauMode {
    Request,
    Fixed(u32),
}

/// The threshold of a benchmark: a fixed one must be given. The outer `None` says that it is not.
pub fn bench_tau_mode(benchmark: bool, mode: &str, fixed: Option<u32>) -> (r: Option<
    Option<StandaloneL2TauMode>,
>)
    ensures
        r == if !benchmark {
            Some(None)
        } else if mode@ == "fixed"@ {
            match fixed {
                Some(t) => Some(Some(StandaloneL2TauMode::Fixed(t))),
                None => None,
            }
        } else {
            Some(Some(StandaloneL2TauMode::Request))
        },
{
    if !benchmark {
        Some(None)
    } else if same_text(mode, "fixed") {
        match fixed {
            Some(t) => Some(Some(StandaloneL2TauMode::Fixed(t))),
            None => None,
        }
    } else {
        Some(Some(StandaloneL2TauMode::Request))
    }
}

} // verus!
