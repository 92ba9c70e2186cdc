use oxicache::cli::{
    are_pairs, del_line, get_line, host_of, set_line, try_next, warn_if_overridden, Picks,
};
use oxicache::client::error::Error;
use oxicache::config::{
    parse_size, refusal, settings, unusable, Env, NumberError, Settings, SizeError, Variable,
};
use oxicache::tls::{identity, put_together, server_identity, trusted, KeyKind, PrivateKey};

fn is_addr(s: &str) -> bool {
    s.rsplit_once(':')
        .is_some_and(|(_, port)| port.parse::<u16>().is_ok())
}

fn env(vars: &[(&str, &str)]) -> Env {
    let get = |name: &str| {
        vars.iter()
            .find(|(k, _)| *k == name)
            .map(|(_, v)| v.to_string())
    };
    Env {
        tcp_addr: get("OXICACHE_TCP_ADDR"),
        http_addr: get("OXICACHE_HTTP_ADDR"),
        capacity: get("OXICACHE_CAPACITY"),
        token: get("OXICACHE_TOKEN"),
        idle_timeout: get("OXICACHE_IDLE_TIMEOUT"),
        max_conns: get("OXICACHE_MAX_CONNS"),
        tls_cert: get("OXICACHE_TLS_CERT"),
    }
}

fn start(vars: &[(&str, &str)]) -> Settings {
    settings(env(vars), is_addr).unwrap()
}

/// The message; it must be a failure.
fn fails(vars: &[(&str, &str)]) -> String {
    let (variable, reason) = settings(env(vars), is_addr).unwrap_err();
    let given = vars.iter().find(|(k, _)| *k == variable.name());
    refusal(variable, reason, given.map_or("", |(_, v)| v))
}

#[test]
fn capacity_suffixes_and_defaults() {
    for (cap, bytes) in [("2048", 2048), ("2k", 2048), ("2M", 2 << 20), ("1g", 1 << 30)] {
        let s = start(&[("OXICACHE_TOKEN", "t"), ("OXICACHE_CAPACITY", cap)]);
        assert_eq!(s.capacity, bytes);
    }
    let s = start(&[("OXICACHE_TOKEN", "t")]);
    assert_eq!(s.capacity, 1 << 30);
    assert_eq!(s.tcp_addr, "0.0.0.0:4433");
    assert_eq!(s.http_addr, None);
    assert_eq!(s.token, "t");
    assert_eq!((s.idle_timeout, s.max_conns), (300, 10_000));
    assert_eq!(s.tls_cert, None);
}

#[test]
fn what_is_set_is_used() {
    let s = start(&[
        ("OXICACHE_TOKEN", "s3cret"),
        ("OXICACHE_TCP_ADDR", "127.0.0.1:0"),
        ("OXICACHE_HTTP_ADDR", "127.0.0.1:80"),
        ("OXICACHE_IDLE_TIMEOUT", "+60"),
        ("OXICACHE_MAX_CONNS", "1"),
        ("OXICACHE_TLS_CERT", "server.pem"),
    ]);
    assert_eq!(s.tcp_addr, "127.0.0.1:0");
    assert_eq!(s.http_addr.as_deref(), Some("127.0.0.1:80"));
    assert_eq!((s.idle_timeout, s.max_conns), (60, 1));
    assert_eq!(s.tls_cert.as_deref(), Some("server.pem"));
}

#[test]
fn token_is_required_and_non_empty() {
    let err = fails(&[("OXICACHE_CAPACITY", "1M")]);
    assert!(err.contains("OXICACHE_TOKEN is required"), "{err}");
    let err = fails(&[("OXICACHE_CAPACITY", "1M"), ("OXICACHE_TOKEN", "")]);
    assert!(err.contains("OXICACHE_TOKEN"), "{err}");
    assert!(err.contains("empty"), "{err}");
}

#[test]
fn rejects_bad_values_naming_the_variable() {
    let token = ("OXICACHE_TOKEN", "t");
    for cap in ["1X", "abc", "0", "99999999999999999999", "999999999999G"] {
        let err = fails(&[token, ("OXICACHE_CAPACITY", cap)]);
        assert!(err.contains("OXICACHE_CAPACITY"), "{cap}: {err}");
    }
    for (var, bad) in [
        ("OXICACHE_TCP_ADDR", "nowhere"),
        ("OXICACHE_HTTP_ADDR", "nowhere"),
        ("OXICACHE_IDLE_TIMEOUT", "0"),
        ("OXICACHE_IDLE_TIMEOUT", "1.5"),
        ("OXICACHE_MAX_CONNS", "0"),
        ("OXICACHE_MAX_CONNS", "-1"),
    ] {
        let err = fails(&[token, (var, bad)]);
        assert!(err.contains(var), "{var}={bad}: {err}");
    }
}

#[test]
fn sizes_are_read_as_numbers_with_a_suffix() {
    for (text, bytes) in [
        ("1", 1),
        (" 7 ", 7),
        ("+8k", 8 << 10),
        ("512M", 512 << 20),
        ("4 G", 4 << 30),
        ("\u{2003}3K\u{a0}", 3 << 10),
    ] {
        assert_eq!(parse_size(text), Ok(bytes), "{text:?}");
    }
    for (text, e) in [
        ("", SizeError::UnknownSuffix),
        ("  ", SizeError::UnknownSuffix),
        ("1X", SizeError::UnknownSuffix),
        ("K", SizeError::Number(NumberError::Empty)),
        ("x1", SizeError::Number(NumberError::InvalidDigit)),
        ("+K", SizeError::Number(NumberError::InvalidDigit)),
        ("-1", SizeError::Number(NumberError::InvalidDigit)),
        (
            "99999999999999999999",
            SizeError::Number(NumberError::TooLarge),
        ),
        ("999999999999G", SizeError::TooLarge),
        ("0", SizeError::Zero),
        ("0G", SizeError::Zero),
    ] {
        assert_eq!(parse_size(text), Err(e), "{text:?}");
    }
    assert_eq!(
        SizeError::UnknownSuffix.message(" 1\"X "),
        "unknown size suffix in \"1\\\"X\""
    );
    assert_eq!(
        SizeError::TooLarge.message("9G"),
        "size \"9G\" is too large"
    );
    assert_eq!(
        SizeError::Zero.message("0"),
        "the capacity must not be zero"
    );
    assert_eq!(Variable::TlsCert.name(), "OXICACHE_TLS_CERT");
}

fn parse(s: &str) -> Option<u32> {
    s.parse().ok()
}

fn warned(flag: &str, var: &str, value: Option<u32>, env: Option<&str>, show: bool) -> String {
    let shown = value.map_or(String::new(), |v| v.to_string());
    warn_if_overridden(flag, var, value.as_ref(), &shown, env, parse, show).unwrap_or_default()
}

#[test]
fn silent_without_variable_or_value() {
    assert_eq!(warned("a", "OXICACHE_TEST_A", Some(1), None, true), "");
    assert_eq!(warned("b", "OXICACHE_TEST_B", None, Some("1"), true), "");
}

#[test]
fn silent_when_flag_agrees_with_variable() {
    assert_eq!(warned("c", "OXICACHE_TEST_C", Some(1), Some("1"), true), "");
}

#[test]
fn warns_when_flag_differs() {
    assert_eq!(
        warned("d", "OXICACHE_TEST_D", Some(2), Some("1"), true),
        "warning: --d=2 overrides OXICACHE_TEST_D=1"
    );
    assert_eq!(
        warned("d", "OXICACHE_TEST_D", Some(2), Some("1"), false),
        "warning: --d overrides a different OXICACHE_TEST_D"
    );
    assert_eq!(
        warned("d", "OXICACHE_TEST_D", Some(2), Some("two"), true),
        "warning: --d=2 overrides OXICACHE_TEST_D=two"
    );
}

#[test]
fn values_are_compared_after_parsing() {
    let sizes = |env: &str| {
        let flag = parse_size("1G").unwrap();
        warn_if_overridden(
            "capacity",
            "OXICACHE_CAPACITY",
            Some(&flag),
            &flag.to_string(),
            Some(env),
            |s: &str| parse_size(s).ok(),
            true,
        )
    };
    assert_eq!(sizes("1G"), None);
    assert_eq!(sizes("1024M"), None);
    assert_eq!(
        sizes("1M").as_deref(),
        Some("warning: --capacity=1073741824 overrides OXICACHE_CAPACITY=1M")
    );
}

#[test]
fn the_command_line_prints_a_line_per_key() {
    assert_eq!(get_line("a", Some("1")), "a: 1");
    assert_eq!(get_line("zz", None), "zz: (nil)");
    assert_eq!(del_line("a", true), "a: deleted");
    assert_eq!(del_line("zz", false), "zz: (nil)");
    assert_eq!(set_line(2), "OK (2 entries)");
    assert!(are_pairs(4) && !are_pairs(3));
    assert!(try_next(&Error::Closed));
    assert!(!try_next(&Error::InvalidStatus(9)));
}

#[test]
fn the_host_is_before_the_last_colon() {
    for (addr, host) in [
        ("localhost:4433", Some("localhost")),
        ("[::1]:4433", Some("::1")),
        ("::1:4433", Some("::1")),
        (":1", Some("")),
        ("nowhere", None),
        ("", None),
    ] {
        assert_eq!(host_of(addr.as_bytes()), host.map(str::as_bytes), "{addr}");
    }
}

#[test]
fn picks_are_an_xorshift() {
    let mut p = Picks::new(2, 3);
    let mut x: u64 = 2 * 1_000_003 + 3 * 7919 + 1;
    for _ in 0..100 {
        x ^= x << 13;
        x ^= x >> 7;
        x ^= x << 17;
        assert_eq!(p.next(), x);
        assert_ne!(x, 0);
    }
}

const CA_PEM: &str = "testdata/tls/ca.pem";

/// A certificate and nothing else; what is in it does not matter here.
const CA: &str = "-----BEGIN CERTIFICATE-----\nAQID\n-----END CERTIFICATE-----\n";

/// What reading a file gives, with the one certificate file there is.
fn read(path: &str) -> Result<Vec<u8>, String> {
    if path == CA_PEM {
        Ok(CA.as_bytes().to_vec())
    } else {
        Err("I/O error: entity not found".to_string())
    }
}

#[test]
fn tls_cert_must_be_a_readable_pem() {
    for bad in ["", "/nonexistent/server.pem", CA_PEM] {
        let s = start(&[
            ("OXICACHE_TOKEN", "t"),
            ("OXICACHE_CAPACITY", "1M"),
            ("OXICACHE_TLS_CERT", bad),
        ]);
        let path = s.tls_cert.unwrap();
        assert_eq!(path, bad);
        let e = server_identity(&path, read(&path)).err().unwrap();
        let err = unusable(Variable::TlsCert, &e.to_string());
        assert!(err.contains("OXICACHE_TLS_CERT"), "{bad:?}: {err}");
    }
}

#[test]
fn bad_pem_is_reported_with_its_path() {
    let err = server_identity(CA_PEM, read(CA_PEM)).err().unwrap();
    assert!(err.to_string().contains("ca.pem"), "{err:?}");
    assert_eq!(
        err.to_string(),
        "reading testdata/tls/ca.pem: no items found",
        "there is no key in it"
    );
    let err = server_identity("/nonexistent.pem", read("/nonexistent.pem"))
        .err()
        .unwrap();
    assert!(err.to_string().contains("/nonexistent.pem"), "{err:?}");
}

#[test]
fn a_pem_file_holds_the_chain_and_the_key() {
    let chain = "-----BEGIN CERTIFICATE-----\nAQID\n-----END CERTIFICATE-----\n\
                 -----BEGIN CERTIFICATE-----\nBAUG\n-----END CERTIFICATE-----\n";
    for (label, kind) in [
        ("PRIVATE KEY", KeyKind::Pkcs8),
        ("RSA PRIVATE KEY", KeyKind::Pkcs1),
        ("EC PRIVATE KEY", KeyKind::Sec1),
    ] {
        let key = format!("-----BEGIN {label}-----\nBwgJ\n-----END {label}-----\n");
        for pem in [format!("{chain}{key}"), format!("{key}{chain}")] {
            let i = identity(pem.as_bytes()).ok().unwrap();
            assert_eq!(i.chain, vec![vec![1, 2, 3], vec![4, 5, 6]], "leaf first");
            assert_eq!((i.key.kind, i.key.der), (kind, vec![7, 8, 9]));
        }
    }
    let cut = "-----BEGIN CERTIFICATE-----\nAQID\n";
    let err = identity(cut.as_bytes()).err().unwrap();
    assert!(err.contains("missing section end marker"), "{err}");
}

#[test]
fn the_chain_is_complained_of_first() {
    let key = || -> Result<PrivateKey, String> {
        Ok(PrivateKey {
            kind: KeyKind::Pkcs8,
            der: vec![1],
        })
    };
    let no = |s: &str| s.to_string();
    assert_eq!(
        put_together(Err(no("chain")), Err(no("key"))).err(),
        Some(no("chain"))
    );
    assert_eq!(put_together(Err(no("chain")), key()).err(), Some(no("chain")));
    assert_eq!(put_together(Ok(vec![]), Err(no("key"))).err(), Some(no("key")));
    assert!(put_together(Ok(vec![]), key()).is_ok());
}

#[test]
fn a_client_trusts_the_certificates_of_a_file() {
    assert_eq!(
        trusted(CA_PEM, read(CA_PEM)).ok(),
        Some(vec![vec![1, 2, 3]]),
        "no key is needed"
    );
    let two = format!("{CA}a remark\n-----BEGIN CERTIFICATE-----\nBAUG\n-----END CERTIFICATE-----");
    assert_eq!(
        trusted("two.pem", Ok(two.into_bytes())).ok(),
        Some(vec![vec![1, 2, 3], vec![4, 5, 6]])
    );
    assert_eq!(trusted("none.pem", Ok(Vec::new())).ok(), Some(Vec::new()));
    let cut = format!("{CA}-----BEGIN CERTIFICATE-----\nBAUG\n");
    let err = trusted("cut.pem", Ok(cut.into_bytes())).err().unwrap();
    assert!(
        err.to_string()
            .starts_with("reading cut.pem: missing section end marker"),
        "{err:?}"
    );
    let err = trusted("/nonexistent.pem", read("/nonexistent.pem"))
        .err()
        .unwrap();
    assert_eq!(
        err.to_string(),
        "reading /nonexistent.pem: I/O error: entity not found"
    );
}
