//! HTTP front end: the same binary protocol as [`tcp`](crate::tcp), one
//! request per HTTP exchange instead of one per frame. The op is the path,
//! the request body is the frame body, the response body is the frame body,
//! and the frame status maps onto the HTTP status. Nothing is JSON.
//!
//! ```text
//! POST /get    body: key                  -> 200, body: value | 404, empty
//! POST /set    body: u32 klen, key, value -> 200, empty
//! POST /del    body: key                  -> 200, empty (deleted) | 404, empty
//! POST /batch  body: items                -> 200, body: replies
//! POST /ping                              -> 200, empty
//! GET  /health                            -> 200, no body; never needs a token
//! GET  /metrics                           -> 200, body: Prometheus text metrics
//! ```
//!
//! Every request except `/health` must carry `Authorization: Bearer <token>`.
//! Every response sent before the token has been verified closes the
//! connection.

use crate::buf;
use crate::cache::key::same_bytes;
use crate::cache::s3fifo;
use crate::cache::{Cache, CacheState};
use crate::io::FrameWriter;
use crate::metrics::Metrics;
use crate::tcp;
use crate::tcp::{ct_eq, dispatch, Served, MAX_FRAME};
use crate::text;
use crate::wire;
use crate::wire::{Op, Status, HEADER_LEN};
use bytes::Bytes;
use vstd::prelude::*;
use vstd::slice::slice_subrange;
use vstd::utf8;

verus! {

/// A response: its status code, its body, and whether the connection is closed
/// after it.
pub struct Response {
    pub code: u16,
    pub body: Bytes,
    pub close: bool,
}

/// What a request asks for.
pub enum Routed {
    /// An op, with the body of the request.
    Serve(Op),
    /// The metrics.
    Metrics,
    /// Nothing that takes a body: this is the response.
    Done(Response),
}

/// What a request asks for, with responses as code, message and whether the
/// connection is closed.
pub enum Route {
    Serve(Op),
    Metrics,
    Done(u16, Seq<char>, bool),
}

/// Whether a `Bearer` header presents the token.
pub open spec fn presents(authorization: Option<Seq<u8>>, token: Seq<u8>) -> bool {
    authorization matches Some(h) && h == utf8::encode_utf8("Bearer "@) + token
}

/// The op behind a path.
pub open spec fn op_of(path: Seq<char>) -> Option<Op> {
    if path == "/get"@ {
        Some(Op::Get)
    } else if path == "/set"@ {
        Some(Op::Put)
    } else if path == "/del"@ {
        Some(Op::Del)
    } else if path == "/batch"@ {
        Some(Op::Batch)
    } else if path == "/ping"@ {
        Some(Op::Ping)
    } else {
        None
    }
}

/// What a request asks for. The path is looked at first, then the method, then
/// the token.
pub open spec fn route_of(
    method: Seq<char>,
    path: Seq<char>,
    authorization: Option<Seq<u8>>,
    token: Seq<u8>,
) -> Route {
    if path == "/health"@ {
        if method == "GET"@ {
            Route::Done(200, ""@, true)
        } else {
            Route::Done(405, "use GET"@, true)
        }
    } else if path == "/metrics"@ {
        if method != "GET"@ {
            Route::Done(405, "use GET"@, true)
        } else if !presents(authorization, token) {
            Route::Done(401, "auth required"@, true)
        } else {
            Route::Metrics
        }
    } else {
        match op_of(path) {
            None => Route::Done(404, "unknown path "@ + path, true),
            Some(op) => if method != "POST"@ {
                Route::Done(405, "use POST"@, true)
            } else if !presents(authorization, token) {
                Route::Done(401, "auth required"@, true)
            } else {
                Route::Serve(op)
            },
        }
    }
}

/// A response sent before the token has been verified closes the connection,
/// and without the token nothing but `/health` is served.
pub proof fn nothing_is_served_without_the_token(
    method: Seq<char>,
    path: Seq<char>,
    authorization: Option<Seq<u8>>,
    token: Seq<u8>,
)
    requires
        !presents(authorization, token),
    ensures
        route_of(method, path, authorization, token) matches Route::Done(code, _, close) && close
            && (code == 200 ==> path == "/health"@),
{
}

/// Whether the routed value says what the route says.
pub open spec fn says(r: Routed, route: Route) -> bool {
    match (r, route) {
        (Routed::Serve(a), Route::Serve(b)) => a == b,
        (Routed::Metrics, Route::Metrics) => true,
        (Routed::Done(res), Route::Done(code, message, close)) => res.code == code
            && buf::bytes_seq(res.body) == utf8::encode_utf8(message) && res.close == close,
        _ => false,
    }
}

/// A response with a message.
fn done(code: u16, message: &String, close: bool) -> (r: Response)
    ensures
        r.code == code,
        buf::bytes_seq(r.body) == utf8::encode_utf8(message@),
        r.close == close,
{
    Response { code, body: text::to_bytes(message), close }
}

/// A response with a fixed message that closes the connection.
fn closing(code: u16, message: &str) -> (r: Routed)
    ensures
        says(r, Route::Done(code, message@, true)),
{
    let mut s = String::new();
    s.append(message);
    assert(s@ =~= message@);
    Routed::Done(done(code, &s, true))
}

/// Whether an `Authorization` header presents the token.
pub fn authorized(authorization: Option<&[u8]>, token: &[u8]) -> (r: bool)
    ensures
        r == presents(
            match authorization {
                Some(h) => Some(h@),
                None => None,
            },
            token@,
        ),
{
    let h = match authorization {
        Some(h) => h,
        None => return false,
    };
    let scheme = "Bearer ".as_bytes();
    if h.len() < scheme.len() {
        return false;
    }
    let n: usize = scheme.len();
    let head = slice_subrange(h, 0, n);
    let rest = slice_subrange(h, n, h.len());
    proof {
        assert(h@ =~= head@ + rest@);
        let want = scheme@ + token@;
        assert(want.subrange(0, n as int) =~= scheme@);
        assert(want.subrange(n as int, want.len() as int) =~= token@);
    }
    same_bytes(head, scheme) && ct_eq(token, rest)
}

/// The op behind a path.
fn op_for(path: &str) -> (op: Option<Op>)
    ensures
        op == op_of(path@),
{
    if text::same(path, "/get") {
        Some(Op::Get)
    } else if text::same(path, "/set") {
        Some(Op::Put)
    } else if text::same(path, "/del") {
        Some(Op::Del)
    } else if text::same(path, "/batch") {
        Some(Op::Batch)
    } else if text::same(path, "/ping") {
        Some(Op::Ping)
    } else {
        None
    }
}

/// What a request asks for. A wrong or missing token is counted.
pub fn route(
    method: &str,
    path: &str,
    authorization: Option<&[u8]>,
    token: &[u8],
    metrics: &mut Metrics,
) -> (r: Routed)
    ensures
        ({
            let header = match authorization {
                Some(h) => Some(h@),
                None => None,
            };
            let route = route_of(method@, path@, header, token@);
            &&& says(r, route)
            &&& *final(metrics) == (Metrics {
                auth_failures: if route matches Route::Done(code, _, _) && code == 401 {
                    old(metrics).auth_failures.wrapping_add(1)
                } else {
                    old(metrics).auth_failures
                },
                ..*old(metrics)
            })
        }),
{
    if text::same(path, "/health") {
        // Status code only, no body: a probe target.
        return if text::same(method, "GET") {
            closing(200, "")
        } else {
            closing(405, "use GET")
        };
    }
    if text::same(path, "/metrics") {
        if !text::same(method, "GET") {
            return closing(405, "use GET");
        }
        if !authorized(authorization, token) {
            metrics.auth_failures = metrics.auth_failures.wrapping_add(1);
            return closing(401, "auth required");
        }
        return Routed::Metrics;
    }
    let op = match op_for(path) {
        Some(op) => op,
        None => {
            let mut s = String::new();
            s.append("unknown path ");
            s.append(path);
            assert(s@ =~= "unknown path "@ + path@);
            return Routed::Done(done(404, &s, true));
        },
    };
    if !text::same(method, "POST") {
        return closing(405, "use POST");
    }
    if !authorized(authorization, token) {
        metrics.auth_failures = metrics.auth_failures.wrapping_add(1);
        return closing(401, "auth required");
    }
    Routed::Serve(op)
}

/// The message for an announced length over the limit.
pub open spec fn claimed_too_large(claimed: u64) -> Seq<char> {
    "frame body of "@ + text::decimal(claimed as nat) + " bytes exceeds the limit"@
}

/// The message for a body that turned out longer than the limit.
pub open spec fn body_too_large() -> Seq<char> {
    "frame body exceeds the limit of "@ + text::decimal(MAX_FRAME as nat) + " bytes"@
}

/// Refuses a request by the announced length of its body, before anything is
/// read.
pub fn check_length(claimed: u64) -> (r: Option<Response>)
    ensures
        match r {
            Some(res) => claimed > MAX_FRAME && res.code == 413 && !res.close && buf::bytes_seq(
                res.body,
            ) == utf8::encode_utf8(claimed_too_large(claimed)),
            None => claimed <= MAX_FRAME,
        },
{
    if claimed <= MAX_FRAME as u64 {
        return None;
    }
    let mut s = String::new();
    s.append("frame body of ");
    text::push_decimal(&mut s, claimed);
    s.append(" bytes exceeds the limit");
    assert(s@ =~= claimed_too_large(claimed));
    Some(done(413, &s, false))
}

/// The response to a body that turned out longer than the limit while it was
/// read, so an unannounced (chunked) body is bounded too.
pub fn too_long() -> (r: Response)
    ensures
        r.code == 413,
        !r.close,
        buf::bytes_seq(r.body) == utf8::encode_utf8(body_too_large()),
{
    let mut s = String::new();
    s.append("frame body exceeds the limit of ");
    text::push_decimal(&mut s, MAX_FRAME as u64);
    s.append(" bytes");
    assert(s@ =~= body_too_large());
    done(413, &s, false)
}

/// The status code for a frame status. The path already selected a known op, so
/// `UnknownOp` cannot come.
pub open spec fn code_of(status: u8) -> u16 {
    if status == Status::Success.byte() {
        200
    } else if status == Status::BadRequest.byte() {
        400
    } else if status == Status::Unauthorized.byte() {
        401
    } else if status == Status::NotFound.byte() {
        404
    } else if status == Status::TooLarge.byte() {
        413
    } else {
        500
    }
}

/// Serves an op with the body of its request: answered as the frame would be,
/// the frame's status as the status code.
pub fn serve(op: Op, body: &[u8], cache: &mut Cache, metrics: &mut Metrics) -> (r: Response)
    requires
        old(cache).wf(),
        body@.len() <= MAX_FRAME,
    ensures
        final(cache).wf(),
        final(cache).budget() == old(cache).budget(),
        *final(metrics) == (Metrics {
            set_too_large: final(metrics).set_too_large,
            ..*old(metrics)
        }),
        ({
            let (s, a) = tcp::answer(tcp::served(*old(cache), *old(metrics)), op.byte(), body@);
            &&& tcp::served(*final(cache), *final(metrics)) == s
            &&& r.code == code_of(a.0)
            &&& buf::bytes_seq(r.body) == a.1
            &&& !r.close
        }),
{
    let ghost a = tcp::answer(tcp::served(*cache, *metrics), op.byte(), body@).1;
    let mut out = FrameWriter::new();
    dispatch(op.as_u8(), body, cache, metrics, &mut out);
    let raw = out.take();
    proof {
        assert(raw@ =~= wire::frame_bytes(a));
        wire::header_reads_back(a.0, a.1.len());
        assert(raw@[0] == wire::header_bytes(a.0, a.1.len())[0]);
        assert(raw@.subrange(HEADER_LEN as int, raw@.len() as int) =~= a.1);
    }
    let status: u8 = raw[0];
    let body = Bytes::copy_from_slice(slice_subrange(raw.as_slice(), HEADER_LEN, raw.len()));
    let code: u16 = match Status::from_u8(status) {
        Some(Status::Success) => 200,
        Some(Status::BadRequest) => 400,
        Some(Status::TooLarge) => 413,
        Some(Status::Unauthorized) => 401,
        Some(Status::NotFound) => 404,
        Some(Status::UnknownOp) | None => 500,
    };
    Response { code, body, close: false }
}

// Laws

/// A header presents one token only, and a token is presented by one header
/// only: its own bytes, all of them, behind the scheme.
pub proof fn a_header_presents_one_token(
    g: Seq<u8>,
    h: Seq<u8>,
    token: Seq<u8>,
    other: Seq<u8>,
)
    ensures
        presents(Some(h), token) && presents(Some(h), other) ==> token == other,
        presents(Some(g), token) && presents(Some(h), token) ==> g == h,
        presents(Some(h), token) ==> h.len() == 7 + token.len() && h.skip(7) == token,
        presents(Some(utf8::encode_utf8("Bearer "@) + token), token),
        !presents(None, token),
{
    let scheme = utf8::encode_utf8("Bearer "@);
    reveal_strlit("Bearer ");
    utf8::is_ascii_chars_encode_utf8("Bearer "@);
    assert((scheme + token).skip(scheme.len() as int) =~= token);
    assert((scheme + other).skip(scheme.len() as int) =~= other);
}

/// An op is served by POST alone, with the token, and under one path; the
/// metrics by GET alone, with the token.
pub proof fn an_op_has_one_way_in(
    method: Seq<char>,
    path: Seq<char>,
    other: Seq<char>,
    authorization: Option<Seq<u8>>,
    token: Seq<u8>,
    op: Op,
)
    ensures
        ({
            let r = route_of(method, path, authorization, token);
            let q = route_of(method, other, authorization, token);
            &&& r is Serve ==> method == "POST"@ && presents(authorization, token)
            &&& r is Metrics ==> method == "GET"@ && presents(authorization, token) && path
                == "/metrics"@
            &&& r == Route::Serve(op) && q == Route::Serve(op) ==> path == other
            &&& method == "POST"@ && presents(authorization, token) && path != "/health"@ && path
                != "/metrics"@ ==> (r matches Route::Serve(_) || (r matches Route::Done(code, _, _)
                && code == 404))
        }),
{
}

/// The status code tells the status: success is 200 and nothing else is, and no
/// two statuses that a request can be answered with share a code.
pub proof fn codes_tell_statuses_apart(s: Status, t: Status)
    ensures
        code_of(s.byte()) == 200 <==> s is Success,
        code_of(s.byte()) == 404 <==> s is NotFound,
        code_of(s.byte()) == 413 <==> s is TooLarge,
        code_of(s.byte()) == 400 <==> s is BadRequest,
        code_of(s.byte()) == 401 <==> s is Unauthorized,
        code_of(s.byte()) == code_of(t.byte()) ==> s == t,
{
}

/// A request is judged by its path first, then by its method, then by its
/// token: an unknown path is not found whatever else is wrong, and a wrong
/// method is named before a wrong token. What is refused closes the connection.
pub proof fn a_request_is_judged_in_order(
    method: Seq<char>,
    path: Seq<char>,
    authorization: Option<Seq<u8>>,
    token: Seq<u8>,
)
    ensures
        ({
            let r = route_of(method, path, authorization, token);
            let op = path == "/get"@ || path == "/set"@ || path == "/del"@ || path == "/batch"@
                || path == "/ping"@;
            &&& path == "/health"@ && method == "GET"@ ==> r == Route::Done(200, ""@, true)
            &&& path == "/health"@ && method != "GET"@ ==> r == Route::Done(405, "use GET"@, true)
            &&& path == "/metrics"@ && method != "GET"@ ==> r == Route::Done(
                405,
                "use GET"@,
                true,
            )
            &&& op && method != "POST"@ ==> r == Route::Done(405, "use POST"@, true)
            &&& path == "/metrics"@ && method == "GET"@ || op && method == "POST"@ ==> (
            !presents(authorization, token) <==> r == Route::Done(401, "auth required"@, true))
            &&& !op && path != "/health"@ && path != "/metrics"@ ==> r == Route::Done(
                404,
                "unknown path "@ + path,
                true,
            )
        }),
{
    paths_differ();
}

/// Each op is behind the path of its name.
pub proof fn ops_are_behind_their_names(authorization: Option<Seq<u8>>, token: Seq<u8>)
    requires
        presents(authorization, token),
    ensures
        route_of("POST"@, "/get"@, authorization, token) == Route::Serve(Op::Get),
        route_of("POST"@, "/set"@, authorization, token) == Route::Serve(Op::Put),
        route_of("POST"@, "/del"@, authorization, token) == Route::Serve(Op::Del),
        route_of("POST"@, "/batch"@, authorization, token) == Route::Serve(Op::Batch),
        route_of("POST"@, "/ping"@, authorization, token) == Route::Serve(Op::Ping),
        route_of("GET"@, "/metrics"@, authorization, token) == Route::Metrics,
{
    paths_differ();
}

proof fn paths_differ()
    ensures
        "/health"@ != "/metrics"@,
        "/health"@ != "/get"@,
        "/health"@ != "/set"@,
        "/health"@ != "/del"@,
        "/health"@ != "/batch"@,
        "/health"@ != "/ping"@,
        "/metrics"@ != "/get"@,
        "/metrics"@ != "/set"@,
        "/metrics"@ != "/del"@,
        "/metrics"@ != "/batch"@,
        "/metrics"@ != "/ping"@,
        "/get"@ != "/set"@,
        "/get"@ != "/del"@,
        "/get"@ != "/batch"@,
        "/get"@ != "/ping"@,
        "/set"@ != "/del"@,
        "/set"@ != "/batch"@,
        "/set"@ != "/ping"@,
        "/del"@ != "/batch"@,
        "/del"@ != "/ping"@,
        "/batch"@ != "/ping"@,
{
    reveal_strlit("/health");
    reveal_strlit("/metrics");
    reveal_strlit("/get");
    reveal_strlit("/set");
    reveal_strlit("/del");
    reveal_strlit("/batch");
    reveal_strlit("/ping");
    assert("/get"@[1] == 'g' && "/set"@[1] == 's' && "/del"@[1] == 'd');
    assert("/batch"@[1] == 'b' && "/ping"@[1] == 'p' && "/health"@[1] == 'h');
    assert("/metrics"@[1] == 'm');
}

} // verus!
