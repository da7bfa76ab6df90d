//! Requests, replies, connections and who may serve them.

use riskanvil::cpus::{
    parse_cpu_csv, parse_cpu_env, per_core_in_flight, select_glommio_io_cpus_from_env,
    try_acquire_inflight,
};
use riskanvil::http::{
    find_crlf, find_double_crlf, parse_request_head, status_text, try_parse_chunked, write_http,
    write_http_with_headers,
};
use riskanvil::server::{
    accept_row, bench_tau_mode, deal, ends_connection, failure_reply, health_reply, json_reply,
    metrics_reply, refusal_reply, route, short_verdict_reply, sidecar_row_idx, unknown_reply,
    verdict_reply, write_text, Conn, Dealt, End, Next, Refusal, Route,
    StandaloneL2TauMode, Verdict,
};
use riskanvil::wire::{
    clamp_u32, decision_u8, dense_error_text, encode_qsb2, encode_rsk1, encode_timings_header,
    parse_dense_payload_le, patch_rsk1_serialize_us, Decision, DenseError, QuickRouteMeta,
    Timings,
};

fn text(b: Vec<u8>) -> String {
    String::from_utf8(b).unwrap()
}

#[test]
fn heads_of_requests() {
    let m = parse_request_head(
        "POST /score_dense_f32_bin HTTP/1.1\r\nHost: x\r\nContent-Length: 12\r\nConnection: Close",
    );
    assert_eq!((m.method.as_str(), m.path.as_str()), ("POST", "/score_dense_f32_bin"));
    assert_eq!((m.content_len, m.chunked, m.expect_100, m.want_close), (Some(12), false, false, true));
    let m = parse_request_head(
        "POST /x HTTP/1.1\r\ntransfer-encoding: gzip, Chunked\r\nexpect: 100-CONTINUE",
    );
    assert_eq!((m.content_len, m.chunked, m.expect_100, m.want_close), (None, true, true, false));
    // The last length counts, even where it is unreadable.
    let m = parse_request_head("GET /\r\nContent-Length: 5\r\ncontent-length: many");
    assert_eq!((m.path.as_str(), m.content_len), ("/", None));
    let m = parse_request_head("");
    assert_eq!((m.method.as_str(), m.path.as_str()), ("", ""));
    // Only two spellings of the name are known.
    let m = parse_request_head("GET /\r\nCONTENT-LENGTH: 5");
    assert_eq!(m.content_len, None);
}

#[test]
fn line_breaks() {
    assert_eq!(find_crlf(b"ab\r\ncd\r\n"), Some(2));
    assert_eq!(find_crlf(b"ab\rcd"), None);
    assert_eq!(find_double_crlf(b"ab\r\n\r\ncd"), Some(2));
    assert_eq!(find_double_crlf(b"ab\r\ncd\r\n"), None);
}

#[test]
fn bodies_in_chunks() {
    let b = b"xx3\r\nabc\r\nA \r\n0123456789\r\n0\r\n\r\nrest";
    let (end, body) = try_parse_chunked(b, 2).unwrap();
    assert_eq!(body, b"abc0123456789");
    assert_eq!(&b[end..], b"rest");
    // What follows a complete body does not change it.
    let (same, again) = try_parse_chunked(&b[..end], 2).unwrap();
    assert_eq!((same, again), (end, body));
    for cut in 2..end {
        assert!(try_parse_chunked(&b[..cut], 2).is_none());
    }
    assert!(try_parse_chunked(b"3\r\nabcd\r\n0\r\n\r\n", 0).is_none());
    assert!(try_parse_chunked(b"zz\r\nabc\r\n", 0).is_none());
}

#[test]
fn replies() {
    assert_eq!(
        text(write_http(200, "text/plain", b"ok", true)),
        "HTTP/1.1 200 OK\r\nContent-Type: text/plain\r\nContent-Length: 2\r\n\
         Connection: keep-alive\r\n\r\nok"
    );
    assert_eq!(
        text(write_http_with_headers(429, "a", b"", false, &[("X-A", "1"), ("X-B", "2")])),
        "HTTP/1.1 429 Too Many Requests\r\nContent-Type: a\r\nContent-Length: 0\r\n\
         Connection: close\r\nX-A: 1\r\nX-B: 2\r\n\r\n"
    );
    assert_eq!(status_text(400), "Bad Request");
    assert_eq!(status_text(404), "Not Found");
    assert_eq!(status_text(500), "Internal Server Error");
    assert_eq!(status_text(503), "Service Unavailable");
    assert_eq!(status_text(418), "OK");
    assert!(text(health_reply(true)).ends_with("\r\n\r\nok"));
    assert!(text(unknown_reply(true)).ends_with("\r\n\r\nnot found"));
    assert!(text(metrics_reply("m 1\n", true)).contains("text/plain; version=0.0.4"));
    assert!(text(json_reply(b"{}", true)).contains("application/json"));
    assert!(text(failure_reply("why", true)).ends_with("quickscorer inference failed: why"));
    assert_eq!(text(write_text(200, "ok", true)), text(health_reply(true)));
}

#[test]
fn refused_rows_are_answered() {
    assert!(text(refusal_reply(Refusal::Overloaded, true)).starts_with("HTTP/1.1 429 "));
    assert!(text(refusal_reply(Refusal::NoModel, true)).ends_with("quickscorer not enabled"));
    let bad = Refusal::Malformed(DenseError::TooShort { len: 3 });
    let reply = text(refusal_reply(bad, false));
    assert!(reply.starts_with("HTTP/1.1 400 "));
    assert!(reply.ends_with("body too short: 3 < 16"));
    assert_eq!(accept_row(false, None, b"").map(|_| ()), Err(Refusal::Overloaded));
    assert_eq!(accept_row(true, None, b"").map(|_| ()), Err(Refusal::NoModel));
    assert_eq!(
        accept_row(true, Some(1), b"abc").map(|_| ()),
        Err(Refusal::Malformed(DenseError::TooShort { len: 3 }))
    );
    assert_eq!(accept_row(true, Some(1), b"abcd").unwrap().payload, b"abcd");
}

fn header(version: u16, flags: u16, dim: u32) -> Vec<u8> {
    let mut b = b"RVEC".to_vec();
    b.extend_from_slice(&version.to_le_bytes());
    b.extend_from_slice(&flags.to_le_bytes());
    b.extend_from_slice(&dim.to_le_bytes());
    b
}

#[test]
fn rows_with_headers() {
    let mut v1 = header(1, 0, 1);
    v1.extend_from_slice(&[0, 0, 0, 0]);
    v1.extend_from_slice(b"abcd");
    let r = parse_dense_payload_le(&v1, 1).unwrap();
    assert_eq!((r.payload, r.route_meta), (&b"abcd"[..], None));
    let mut v2 = header(2, 0, 1);
    v2.extend_from_slice(&(-3i32).to_le_bytes());
    v2.extend_from_slice(&9u32.to_le_bytes());
    v2.extend_from_slice(&77u64.to_le_bytes());
    v2.extend_from_slice(&5u32.to_le_bytes());
    let mut v3 = v2.clone();
    v3[4] = 3;
    v2.extend_from_slice(b"abcd");
    let meta = QuickRouteMeta {
        row_idx: 5,
        transaction_id: 77,
        fold_id: -3,
        seg_prod_amtbin: 9,
        l2_tau_used: None,
    };
    let r = parse_dense_payload_le(&v2, 1).unwrap();
    assert_eq!((r.payload, r.route_meta), (&b"abcd"[..], Some(meta)));
    v3.extend_from_slice(&0.5f32.to_le_bytes());
    v3.extend_from_slice(&[0, 0, 0, 0]);
    v3.extend_from_slice(b"abcd");
    let r = parse_dense_payload_le(&v3, 1).unwrap();
    assert_eq!(r.payload, b"abcd");
    assert_eq!(
        r.route_meta,
        Some(QuickRouteMeta { l2_tau_used: Some(0.5f32.to_bits()), ..meta })
    );
    assert_eq!((sidecar_row_idx(Some(meta), 8), sidecar_row_idx(None, 8)), (5, 8));
}

#[test]
fn rows_that_are_malformed() {
    let fault = |b: &[u8], dim: usize| parse_dense_payload_le(b, dim).map(|_| ()).unwrap_err();
    assert_eq!(fault(b"", usize::MAX), DenseError::DimTooLarge);
    // A row whose length can be counted, but not with a header before it.
    assert_eq!(fault(b"", usize::MAX / 4), DenseError::TooShort { len: 0 });
    assert_eq!(fault(b"abc", 1), DenseError::TooShort { len: 3 });
    assert_eq!(fault(&[0; 20], 1), DenseError::NoMagic);
    let long = |mut b: Vec<u8>| {
        b.resize(20, 0);
        b
    };
    assert_eq!(fault(&long(header(1, 4, 1)), 1), DenseError::Flags { flags: 4 });
    assert_eq!(fault(&long(header(1, 0, 9)), 1), DenseError::Dim { got: 9, expected: 1 });
    assert_eq!(fault(&long(header(7, 0, 1)), 1), DenseError::Version { version: 7 });
    assert_eq!(fault(&long(header(1, 0, 2)), 2), DenseError::Size { got: 20, expected: 24 });
    assert_eq!(dense_error_text(DenseError::DimTooLarge), "expected_dim too large");
    assert_eq!(
        dense_error_text(DenseError::NoMagic),
        "invalid dense payload (missing magic RVEC)"
    );
    assert_eq!(dense_error_text(DenseError::Flags { flags: 4 }), "unsupported RVEC flags: 4");
    assert_eq!(
        dense_error_text(DenseError::Dim { got: 9, expected: 1 }),
        "RVEC dim mismatch: got 9, expected 1"
    );
    assert_eq!(
        dense_error_text(DenseError::Size { got: 20, expected: 24 }),
        "invalid dense payload size: got 20, expected 24"
    );
    assert_eq!(
        dense_error_text(DenseError::Version { version: 7 }),
        "unsupported RVEC version: 7"
    );
}

fn times() -> Timings {
    Timings { parse: 1, feature: 2, router: 3, l1: 4, l2: 5, serialize: u64::MAX }
}

#[test]
fn full_verdict() {
    let mut b = encode_rsk1(7, 0x3f80_0000, 3, times());
    assert_eq!(b.len(), 48);
    assert_eq!(&b[..8], &[b'R', b'S', b'K', b'1', 1, 0, 3, 0]);
    assert_eq!(&b[8..16], &7u64.to_le_bytes());
    assert_eq!(&b[16..20], &1f32.to_le_bytes());
    assert_eq!(b[20], 3);
    assert_eq!(&b[24..28], &1u32.to_le_bytes());
    assert_eq!(&b[44..48], &[0xff; 4]);
    // The time of writing is put in afterwards, and nothing else changes.
    let before = b.clone();
    patch_rsk1_serialize_us(&mut b, 9);
    assert_eq!(&b[..44], &before[..44]);
    assert_eq!(&b[44..], &9u32.to_le_bytes());
    let mut short = vec![1u8; 47];
    patch_rsk1_serialize_us(&mut short, 9);
    assert_eq!(short, vec![1u8; 47]);
    assert_eq!(encode_rsk1(0, 0, 0, Timings { l2: 0, ..times() })[6], 0);
    assert_eq!(encode_rsk1(0, 0, 3, Timings { l2: 0, ..times() })[6], 2);
    assert!(text(verdict_reply(b"R", true)).contains("application/octet-stream"));
}

#[test]
fn short_verdict() {
    let b = encode_qsb2(7, 0x3f80_0000, 1, true);
    assert_eq!(b.len(), 24);
    assert_eq!(&b[0..4], b"QSB2");
    assert_eq!(
        encode_timings_header(times()),
        "1,2,3,4,5,18446744073709551615"
    );
    let r = short_verdict_reply(7, 0x3f80_0000, Decision::Deny, times(), true);
    let head = r.len() - 24;
    assert_eq!(&r[head..], &b[..]);
    let head = text(r[..head].to_vec());
    assert!(head.contains("Content-Length: 24\r\n"));
    assert!(head.contains(&format!("X-Risk-Timings-Us: {}\r\n", encode_timings_header(times()))));
    assert_eq!(decision_u8(Decision::Allow), 0);
    assert_eq!(decision_u8(Decision::Deny), 1);
    assert_eq!(decision_u8(Decision::ManualReview), 2);
    assert_eq!(decision_u8(Decision::DegradeAllow), 3);
    assert_eq!((clamp_u32(5), clamp_u32(1 << 40)), (5, u32::MAX));
}

#[test]
fn requests_come_one_after_another() {
    let mut c = Conn::new();
    assert!(matches!(c.next(), Next::Read));
    assert_eq!(c.received(b"GET /health HTTP/1.1\r\n"), None);
    assert!(matches!(c.next(), Next::Read));
    assert_eq!(c.received(b"\r\nPOST /x HTTP/1.1\r\nContent-Length: 3\r\n\r\nab"), None);
    match c.next() {
        Next::Request { meta, body } => {
            assert_eq!((meta.path.as_str(), body.len()), ("/health", 0));
        }
        other => panic!("{:?}", other),
    }
    assert!(matches!(c.next(), Next::Read));
    assert_eq!(c.received(b"cGET"), None);
    match c.next() {
        Next::Request { meta, body } => {
            assert_eq!((meta.path.as_str(), &body[..]), ("/x", &b"abc"[..]));
        }
        other => panic!("{:?}", other),
    }
    assert_eq!(&c.stash[..], b"GET");
    assert_eq!(c.received(b""), Some(End::Closed));
}

#[test]
fn a_large_buffer_is_let_go() {
    let mut c = Conn::new();
    let mut bytes = b"POST /x HTTP/1.1\r\nContent-Length: 60000\r\n\r\n".to_vec();
    bytes.resize(bytes.len() + 60000, 7);
    bytes.extend_from_slice(b"GET /health");
    assert_eq!(c.received(&bytes), None);
    match c.next() {
        Next::Request { meta: _, body } => assert_eq!(body, vec![7u8; 60000]),
        other => panic!("{:?}", other),
    }
    assert_eq!(c.received(&vec![b'a'; 50000]), None);
    assert!(c.stash.capacity() > 32768);
    let held = c.stash.to_vec();
    assert_eq!(held.len(), 50011);
    c.shrink();
    assert_eq!(c.stash, held);
    let mut c = Conn::new();
    let mut bytes = b"POST /x HTTP/1.1\r\nContent-Length: 60000\r\n\r\n".to_vec();
    bytes.resize(bytes.len() + 60000, 7);
    assert_eq!(c.received(&bytes), None);
    assert!(c.stash.capacity() > 32768);
    assert!(matches!(c.next(), Next::Request { .. }));
    assert_eq!(c.received(&vec![b'a'; 100]), None);
    c.shrink();
    assert_eq!(c.stash, vec![b'a'; 100]);
    assert!(c.stash.capacity() <= 32768);
}

#[test]
fn leave_is_given_once() {
    let mut c = Conn::new();
    let head = b"POST /x HTTP/1.1\r\nTransfer-Encoding: chunked\r\nExpect: 100-continue\r\n\r\n";
    assert_eq!(c.received(head), None);
    assert!(matches!(c.next(), Next::Continue));
    assert!(matches!(c.next(), Next::Read));
    assert_eq!(c.received(b"2\r\nhi\r\n0\r\n\r\n"), None);
    match c.next() {
        Next::Request { meta, body } => {
            assert!(meta.chunked);
            assert_eq!(&body[..], b"hi");
        }
        other => panic!("{:?}", other),
    }
}

#[test]
fn connections_that_end() {
    let mut c = Conn::new();
    assert_eq!(c.received(&vec![b'a'; 1_048_577]), Some(End::HeadTooLarge));
    let mut c = Conn::new();
    assert_eq!(c.received(b"POST /x\r\nContent-Length: 3\r\n\r\na"), None);
    assert!(matches!(c.next(), Next::Read));
    assert_eq!(c.received(b""), Some(End::EofInBody));
    let mut c = Conn::new();
    assert_eq!(c.received(b"POST /x\r\nTransfer-Encoding: chunked\r\n\r\n1"), None);
    assert!(matches!(c.next(), Next::Read));
    assert_eq!(c.received(b""), Some(End::EofInChunks));
    let mut c = Conn::new();
    assert_eq!(c.received(b"GET /\xff\r\n\r\n"), None);
    assert!(matches!(c.next(), Next::NotText));
    assert!(ends_connection(Dealt::Answered, true));
    assert!(!ends_connection(Dealt::Answered, false));
    assert!(!ends_connection(Dealt::TurnedDown, true));
}

#[test]
fn routes() {
    assert_eq!(route("GET", "/health"), Route::Health);
    assert_eq!(route("GET", "/debug/backend"), Route::DebugBackend);
    assert_eq!(route("POST", "/score_dense_f32_bin"), Route::Score);
    assert_eq!(route("POST", "/score_dense_f32_bin_v2"), Route::ScoreV2);
    assert_eq!(route("GET", "/metrics"), Route::Metrics);
    assert_eq!(route("POST", "/health"), Route::Unknown);
    assert_eq!(route("get", "/health"), Route::Unknown);
    assert_eq!(bench_tau_mode(false, "fixed", None), Some(None));
    assert_eq!(bench_tau_mode(true, "fixed", None), None);
    assert_eq!(
        bench_tau_mode(true, "fixed", Some(3)),
        Some(Some(StandaloneL2TauMode::Fixed(3)))
    );
    assert_eq!(
        bench_tau_mode(true, "request", None),
        Some(Some(StandaloneL2TauMode::Request))
    );
}

#[test]
fn processors() {
    let mut named: Vec<usize> = parse_cpu_csv(" 3,x, 1 ,,3,+2").into_iter().collect();
    named.sort();
    assert_eq!(named, vec![1, 2, 3]);
    assert!(parse_cpu_env(&None).is_empty());
    let some = |s: &str| Some(s.to_string());
    assert_eq!(
        select_glommio_io_cpus_from_env(vec![0, 1, 2, 3], &some("1"), &some("3"), &None),
        vec![0, 2]
    );
    // Where every processor is taken, all of them serve.
    assert_eq!(
        select_glommio_io_cpus_from_env(vec![0, 1], &some("1"), &None, &some("0")),
        vec![0, 1]
    );
    for (max, shards, want) in [(10, 4, 3), (8, 4, 2), (0, 4, 1), (5, 0, 5)] {
        assert_eq!(per_core_in_flight(max, shards), want);
        // The shares cover the limit.
        assert!(want * shards.max(1) >= max);
    }
    assert!(try_acquire_inflight(4, 5, true));
    assert!(!try_acquire_inflight(5, 5, true));
    assert!(!try_acquire_inflight(0, 5, false));
    assert!(try_acquire_inflight(99, 0, true));
}

fn request(head: &str) -> riskanvil::http::ReqMeta {
    parse_request_head(head)
}

#[test]
fn requests_are_dealt_with() {
    let none = Err(String::new());
    let health = request("GET /health HTTP/1.1");
    assert_eq!(
        deal(&health, b"", false, None, &none, b"", ""),
        (Dealt::Answered, health_reply(true))
    );
    let other = request("GET /x HTTP/1.1\r\nConnection: close");
    assert_eq!(
        deal(&other, b"", false, None, &none, b"", ""),
        (Dealt::Answered, unknown_reply(false))
    );
    let debug = request("GET /debug/backend HTTP/1.1");
    assert_eq!(
        deal(&debug, b"", false, None, &none, b"{}", ""),
        (Dealt::Answered, json_reply(b"{}", true))
    );
    let metrics = request("GET /metrics HTTP/1.1");
    assert_eq!(
        deal(&metrics, b"", false, None, &none, b"", "a 1"),
        (Dealt::Answered, metrics_reply("a 1", true))
    );
    let long = request("POST /score_dense_f32_bin HTTP/1.1");
    let short = request("POST /score_dense_f32_bin_v2 HTTP/1.1");
    let timings = Timings { parse: 1, feature: 2, router: 3, l1: 4, l2: 5, serialize: 6 };
    let verdict = Verdict {
        trace_id: 9,
        score: 7,
        decision: Decision::Deny,
        timings,
        serialize_us: 11,
    };
    let scored = Ok(verdict);
    let mut rsk1 = encode_rsk1(9, 7, 1, timings);
    patch_rsk1_serialize_us(&mut rsk1, 11);
    assert_eq!(
        deal(&long, &[0; 8], true, Some(2), &scored, b"", ""),
        (Dealt::Answered, verdict_reply(&rsk1, true))
    );
    assert_eq!(
        deal(&short, &[0; 8], true, Some(2), &scored, b"", ""),
        (Dealt::Answered, short_verdict_reply(9, 7, Decision::Deny, timings, true))
    );
    for meta in [&long, &short] {
        let refused = |r: Refusal| (Dealt::TurnedDown, refusal_reply(r, true));
        // Room is asked for first, whatever the length of a row.
        assert_eq!(
            deal(meta, b"", false, Some(usize::MAX), &scored, b"", ""),
            refused(Refusal::Overloaded)
        );
        assert_eq!(deal(meta, b"", true, None, &scored, b"", ""), refused(Refusal::NoModel));
        assert_eq!(
            deal(meta, b"", true, Some(2), &scored, b"", ""),
            refused(Refusal::Malformed(DenseError::TooShort { len: 0 }))
        );
        assert_eq!(
            deal(meta, &[0; 8], true, Some(2), &Err("why".to_string()), b"", ""),
            (Dealt::TurnedDown, failure_reply("why", true))
        );
    }
}

fn converse(reads: &[&[u8]]) -> (Vec<u8>, End) {
    let mut c = Conn::new();
    let mut sent = Vec::new();
    let mut at = 0;
    loop {
        match c.next() {
            Next::Read => {
                if let Some(end) = c.received(reads[at]) {
                    return (sent, end);
                }
                at += 1;
            }
            Next::Request { meta, body } => {
                let none = Err(String::new());
                let (_, bytes) = deal(&meta, &body, false, None, &none, b"", "");
                sent.extend_from_slice(&bytes);
            }
            other => panic!("{:?}", other),
        }
    }
}

#[test]
fn replies_do_not_depend_on_reads() {
    let all = b"GET /health HTTP/1.1\r\n\r\nGET /x HTTP/1.1\r\n\r\n";
    let want = "HTTP/1.1 200 OK\r\nContent-Type: text/plain\r\nContent-Length: 2\r\n\
                Connection: keep-alive\r\n\r\nok\
                HTTP/1.1 404 Not Found\r\nContent-Type: text/plain\r\nContent-Length: 9\r\n\
                Connection: keep-alive\r\n\r\nnot found";
    for i in 1..all.len() {
        for j in i + 1..all.len() {
            let (sent, end) = converse(&[&all[..i], &all[i..j], &all[j..], b""]);
            assert_eq!(text(sent), want);
            assert_eq!(end, End::Closed);
        }
    }
    let bytes: Vec<&[u8]> = all.chunks(1).chain([&b""[..]]).collect();
    assert_eq!(text(converse(&bytes).0), want);
}

#[test]
fn chunks_are_read_back() {
    let chunks: [&[u8]; 3] = [b"a", &[b'b'; 31], &[13, 10, 13, 10]];
    let mut stash = b"head".to_vec();
    let mut body = Vec::new();
    for c in chunks {
        stash.extend_from_slice(format!("{:x}\r\n", c.len()).as_bytes());
        stash.extend_from_slice(c);
        stash.extend_from_slice(b"\r\n");
        body.extend_from_slice(c);
    }
    stash.extend_from_slice(b"0\r\n\r\n");
    let end = stash.len();
    stash.extend_from_slice(b"more");
    assert_eq!(try_parse_chunked(&stash, 4), Some((end, body)));
}
