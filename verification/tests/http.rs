use oxicache::cache::Cache;
use oxicache::http::{authorized, check_length, route, serve, too_long, Routed};
use oxicache::metrics::Metrics;
use oxicache::tcp::{ConnLimit, MAX_FRAME};
use oxicache::wire::{encode_set, Op};

const AUTH: Option<&[u8]> = Some(b"Bearer s3cret");

/// The status code, body and whether the connection closes.
fn call(
    cache: &mut Cache,
    m: &mut Metrics,
    method: &str,
    path: &str,
    auth: Option<&[u8]>,
    body: &[u8],
) -> (u16, Vec<u8>, bool) {
    let r = match route(method, path, auth, b"s3cret", m) {
        Routed::Serve(op) => serve(op, body, cache, m),
        Routed::Done(r) => r,
        Routed::Metrics => return (200, m.render(cache, None).into_bytes(), false),
    };
    (r.code, r.body.to_vec(), r.close)
}

#[test]
fn requests_are_served_as_frames_are() {
    let (mut c, mut m) = (Cache::new(1 << 20, 1), Metrics::new());
    let (c, m) = (&mut c, &mut m);
    assert_eq!(
        call(c, m, "GET", "/health", None, b""),
        (200, vec![], true)
    );
    let set = encode_set(b"k", b"v");
    assert_eq!(call(c, m, "POST", "/set", AUTH, &set), (200, vec![], false));
    assert_eq!(
        call(c, m, "POST", "/get", AUTH, b"k"),
        (200, b"v".to_vec(), false)
    );
    assert_eq!(call(c, m, "POST", "/get", AUTH, b"x"), (404, vec![], false));
    assert_eq!(call(c, m, "POST", "/del", AUTH, b"k"), (200, vec![], false));
    assert_eq!(call(c, m, "POST", "/del", AUTH, b"k"), (404, vec![], false));
    assert_eq!(call(c, m, "POST", "/ping", AUTH, b""), (200, vec![], false));
    assert_eq!(
        call(c, m, "POST", "/batch", AUTH, &[0, 0, 0, 0]),
        (200, vec![0, 0, 0, 0], false)
    );
}

#[test]
fn refusals_map_to_status_codes() {
    let (mut c, mut m) = (Cache::new(1 << 20, 1), Metrics::new());
    let (c, m) = (&mut c, &mut m);
    assert_eq!(
        call(c, m, "POST", "/nope", None, b""),
        (404, b"unknown path /nope".to_vec(), true)
    );
    assert_eq!(
        call(c, m, "GET", "/get", None, b""),
        (405, b"use POST".to_vec(), true)
    );
    assert_eq!(
        call(c, m, "POST", "/health", None, b""),
        (405, b"use GET".to_vec(), true)
    );
    let (code, body, close) = call(c, m, "POST", "/set", AUTH, &[9, 0]);
    assert_eq!((code, close), (400, false));
    assert!(std::str::from_utf8(&body)
        .unwrap()
        .contains("unexpected end"));
    let big = encode_set(b"big", &vec![0u8; 2 << 20]);
    assert_eq!(call(c, m, "POST", "/set", AUTH, &big).0, 413);
    assert!(check_length(MAX_FRAME as u64).is_none());
    let r = check_length(MAX_FRAME as u64 + 1).unwrap();
    assert_eq!((r.code, r.close), (413, false));
    assert_eq!(
        &r.body[..],
        b"frame body of 67108865 bytes exceeds the limit"
    );
    assert_eq!(
        &too_long().body[..],
        b"frame body exceeds the limit of 67108864 bytes"
    );
}

#[test]
fn the_token_is_needed_except_for_health() {
    let (mut c, mut m) = (Cache::new(1 << 20, 1), Metrics::new());
    let (c, m) = (&mut c, &mut m);
    assert_eq!(
        call(c, m, "POST", "/get", None, b"k"),
        (401, b"auth required".to_vec(), true)
    );
    for auth in ["Bearer s3cre", "Basic s3cret", "bearer s3cret", "Bearer"] {
        assert_eq!(
            call(c, m, "POST", "/get", Some(auth.as_bytes()), b"k").0,
            401,
            "{auth}"
        );
        assert!(!authorized(Some(auth.as_bytes()), b"s3cret"));
    }
    assert!(authorized(AUTH, b"s3cret"));
    assert_eq!(call(c, m, "GET", "/metrics", None, b"").0, 401);
    assert_eq!(m.auth_failures, 6);
}

#[test]
fn a_path_names_an_op() {
    let m = &mut Metrics::new();
    for (path, op) in [
        ("/get", Op::Get),
        ("/set", Op::Put),
        ("/del", Op::Del),
        ("/batch", Op::Batch),
        ("/ping", Op::Ping),
    ] {
        assert!(matches!(route("POST", path, AUTH, b"s3cret", m), Routed::Serve(o) if o == op));
    }
    assert!(matches!(
        route("GET", "/metrics", AUTH, b"s3cret", m),
        Routed::Metrics
    ));
    assert_eq!(m.auth_failures, 0);
}

#[test]
fn metrics_are_written_in_the_text_format() {
    let mut c = Cache::new(1 << 20, 1);
    c.set(b"k", b"v").unwrap();
    c.get(b"k");
    c.get(b"x");
    let mut limit = ConnLimit::new(7);
    limit.opened();
    let mut m = Metrics::new();
    m.auth_failures = 3;
    let text = m.render_at(&c.stats(), Some(&limit), 42);
    let start = "# HELP oxicache_get_hits_total GET requests answered with a value\n\
                 # TYPE oxicache_get_hits_total counter\n\
                 oxicache_get_hits_total 1\n";
    assert!(text.starts_with(start), "{text}");
    for line in [
        "oxicache_get_misses_total 1",
        "oxicache_del_hits_total 0",
        "oxicache_del_misses_total 0",
        "oxicache_evictions_total 0",
        "oxicache_set_too_large_total 0",
        "oxicache_auth_failures_total 3",
        "oxicache_used_bytes 130",
        "oxicache_capacity_bytes 1048576",
        "oxicache_items 1",
        "oxicache_open_connections 1",
        "oxicache_max_connections 7",
        "oxicache_accept_waits_total 0",
        "oxicache_uptime_seconds 42",
        "oxicache_build_info{version=\"0.1.0\"} 1",
    ] {
        assert!(text.lines().any(|l| l == line), "{line}\n{text}");
    }
    let without = m.render(&c, None);
    assert!(!without.contains("oxicache_max_connections"), "{without}");
    assert!(without.contains("\noxicache_uptime_seconds 0\n"), "{without}");
}
