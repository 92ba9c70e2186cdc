//! Operational counters and their Prometheus text rendering. One
//! [`Metrics`] is shared by every listener, and the HTTP front end serves it
//! at `GET /metrics`.

use crate::cache::{Cache, Stats};
use crate::tcp::ConnLimit;
use crate::text;
use vstd::prelude::*;

verus! {

/// A point in time, `std::time::Instant`.
#[verifier::external_type_specification]
#[verifier::external_body]
pub struct ExInstant(std::time::Instant);

/// `Instant::now`: the time it is, of which nothing can be said.
pub assume_specification[ std::time::Instant::now ]() -> (i: std::time::Instant)
;

/// `Instant::elapsed`: how long ago that was, which depends on the time it is.
pub assume_specification[ std::time::Instant::elapsed ](i: &std::time::Instant) -> (d:
    std::time::Duration)
;

/// `Duration::as_secs`: whole seconds of a span that came from the clock.
pub assume_specification[ std::time::Duration::as_secs ](d: &std::time::Duration) -> (s: u64)
;

/// The version reported in `oxicache_build_info`.
pub const VERSION: &'static str = "0.1.0";

/// Counters owned by the front ends: what was refused, not what the cache
/// holds. Cache-level numbers (hits, misses, evictions, bytes, items) live
/// with the cache's shards and are summed when rendered.
pub struct Metrics {
    /// Requests refused for a wrong or missing token: one per TCP
    /// connection, one per HTTP request. Modulo 2^64.
    pub auth_failures: u64,
    /// SET requests refused because the entry exceeds the per-shard capacity.
    /// Modulo 2^64.
    pub set_too_large: u64,
    /// When the server started.
    pub start: std::time::Instant,
}

impl Default for Metrics {
    fn default() -> (m: Self)
        ensures
            m.auth_failures == 0,
            m.set_too_large == 0,
    {
        Self::new()
    }
}

impl Metrics {
    pub fn new() -> (m: Self)
        ensures
            m.auth_failures == 0,
            m.set_too_large == 0,
    {
        Metrics { auth_failures: 0, set_too_large: 0, start: std::time::Instant::now() }
    }

    /// Every metric, in the Prometheus text exposition format.
    pub fn render(&self, cache: &Cache, limit: Option<&ConnLimit>) -> (text: String)
        requires
            cache.wf(),
        ensures
            exists|s: Stats, uptime: u64|
                cache@.described_by(s) && s.capacity == cache.budget() && text@
                    == #[trigger] render_text(*self, s, limit, uptime),
    {
        let s = cache.stats();
        let uptime: u64 = self.start.elapsed().as_secs();
        self.render_at(&s, limit, uptime)
    }

    /// Every metric, for given numbers of the cache and a given uptime in
    /// seconds.
    pub fn render_at(&self, s: &Stats, limit: Option<&ConnLimit>, uptime: u64) -> (text: String)
        ensures
            text@ == render_text(*self, *s, limit, uptime),
    {
        let mut out = self.cache_part(s);
        let limit = limit_part(limit);
        out.append(limit.as_str());
        let server = server_part(uptime);
        out.append(server.as_str());
        out
    }

    /// The numbers of the cache and the front ends.
    fn cache_part(&self, s: &Stats) -> (text: String)
        ensures
            text@ == cache_text(*self, *s),
    {
        let mut out = String::new();
        metric(
            &mut out,
            "oxicache_get_hits_total",
            "counter",
            "GET requests answered with a value",
            s.get_hits,
        );
        assert(out@ =~= metric_text("oxicache_get_hits_total"@, "counter"@, "GET requests answered with a value"@, s.get_hits as nat));
        metric(
            &mut out,
            "oxicache_get_misses_total",
            "counter",
            "GET requests answered not found",
            s.get_misses,
        );
        metric(
            &mut out,
            "oxicache_del_hits_total",
            "counter",
            "DEL requests that removed an entry",
            s.del_hits,
        );
        metric(
            &mut out,
            "oxicache_del_misses_total",
            "counter",
            "DEL requests answered not found",
            s.del_misses,
        );
        metric(
            &mut out,
            "oxicache_evictions_total",
            "counter",
            "Live entries evicted to make room for new ones",
            s.evictions,
        );
        metric(
            &mut out,
            "oxicache_set_too_large_total",
            "counter",
            "SET requests refused because the entry exceeds the per-shard capacity",
            self.set_too_large,
        );
        metric(
            &mut out,
            "oxicache_auth_failures_total",
            "counter",
            "Requests refused for a wrong or missing token",
            self.auth_failures,
        );
        metric(
            &mut out,
            "oxicache_used_bytes",
            "gauge",
            "Bytes held by cached entries, bookkeeping included",
            s.used_bytes as u64,
        );
        metric(
            &mut out,
            "oxicache_capacity_bytes",
            "gauge",
            "Configured memory budget for cached entries",
            s.capacity as u64,
        );
        metric(
            &mut out,
            "oxicache_items",
            "gauge",
            "Entries currently cached",
            s.items as u64,
        );
        out
    }
}

/// The numbers of the connection limit.
fn limit_part(limit: Option<&ConnLimit>) -> (text: String)
    ensures
        text@ == limit_text(limit),
{
    let mut out = String::new();
    match limit {
        Some(l) => {
            metric(
                &mut out,
                "oxicache_open_connections",
                "gauge",
                "Connections currently open, TCP and HTTP together",
                l.open() as u64,
            );
            assert(out@ =~= metric_text("oxicache_open_connections"@, "gauge"@, "Connections currently open, TCP and HTTP together"@, l.in_use()));
            metric(
                &mut out,
                "oxicache_max_connections",
                "gauge",
                "Configured cap on open connections",
                l.max() as u64,
            );
            metric(
                &mut out,
                "oxicache_accept_waits_total",
                "counter",
                "Accepts that had to wait for a free connection slot",
                l.waits(),
            );
        },
        None => {},
    }
    out
}

/// The uptime and the version.
fn server_part(uptime: u64) -> (text: String)
    ensures
        text@ == server_text(uptime),
{
    let mut out = String::new();
    metric(
        &mut out,
        "oxicache_uptime_seconds",
        "gauge",
        "Seconds since the server started",
        uptime,
    );
    assert(out@ =~= metric_text("oxicache_uptime_seconds"@, "gauge"@, "Seconds since the server started"@, uptime as nat));
    out.append("# HELP oxicache_build_info Server version, as a label\n# TYPE oxicache_build_info gauge\noxicache_build_info{version=\"");
    out.append(VERSION);
    out.append("\"} 1\n");
    out
}

/// One metric: what it says, its type, and its value.
#[verifier::opaque]
pub open spec fn metric_text(
    name: Seq<char>,
    kind: Seq<char>,
    help: Seq<char>,
    value: nat,
) -> Seq<char> {
    "# HELP "@ + name + " "@ + help + "\n# TYPE "@ + name + " "@ + kind + "\n"@ + name + " "@
        + text::decimal(value) + "\n"@
}

/// The numbers of the cache and the front ends.
pub open spec fn cache_text(m: Metrics, s: Stats) -> Seq<char> {
    metric_text(
            "oxicache_get_hits_total"@,
            "counter"@,
            "GET requests answered with a value"@,
            s.get_hits as nat,
        ) + metric_text(
            "oxicache_get_misses_total"@,
            "counter"@,
            "GET requests answered not found"@,
            s.get_misses as nat,
        ) + metric_text(
            "oxicache_del_hits_total"@,
            "counter"@,
            "DEL requests that removed an entry"@,
            s.del_hits as nat,
        ) + metric_text(
            "oxicache_del_misses_total"@,
            "counter"@,
            "DEL requests answered not found"@,
            s.del_misses as nat,
        ) + metric_text(
            "oxicache_evictions_total"@,
            "counter"@,
            "Live entries evicted to make room for new ones"@,
            s.evictions as nat,
        ) + metric_text(
            "oxicache_set_too_large_total"@,
            "counter"@,
            "SET requests refused because the entry exceeds the per-shard capacity"@,
            m.set_too_large as nat,
        ) + metric_text(
            "oxicache_auth_failures_total"@,
            "counter"@,
            "Requests refused for a wrong or missing token"@,
            m.auth_failures as nat,
        ) + metric_text(
            "oxicache_used_bytes"@,
            "gauge"@,
            "Bytes held by cached entries, bookkeeping included"@,
            s.used_bytes as nat,
        ) + metric_text(
            "oxicache_capacity_bytes"@,
            "gauge"@,
            "Configured memory budget for cached entries"@,
            s.capacity as nat,
        ) + metric_text(
            "oxicache_items"@,
            "gauge"@,
            "Entries currently cached"@,
            s.items as nat,
        )
}

/// The numbers of the connection limit; none where the cap is lifted.
pub open spec fn limit_text(limit: Option<&ConnLimit>) -> Seq<char> {
    match limit {
        Some(l) => metric_text(
                "oxicache_open_connections"@,
                "gauge"@,
                "Connections currently open, TCP and HTTP together"@,
                l.in_use(),
            ) + metric_text(
                "oxicache_max_connections"@,
                "gauge"@,
                "Configured cap on open connections"@,
                l.cap(),
            ) + metric_text(
                "oxicache_accept_waits_total"@,
                "counter"@,
                "Accepts that had to wait for a free connection slot"@,
                l.waited() as nat,
            ),
        None => Seq::empty(),
    }
}

/// The uptime and the version.
pub open spec fn server_text(uptime: u64) -> Seq<char> {
    metric_text(
        "oxicache_uptime_seconds"@,
        "gauge"@,
        "Seconds since the server started"@,
        uptime as nat,
    ) + "# HELP oxicache_build_info Server version, as a label\n# TYPE oxicache_build_info gauge\noxicache_build_info{version=\""@
        + VERSION@ + "\"} 1\n"@
}

/// Every metric.
pub open spec fn render_text(
    m: Metrics,
    s: Stats,
    limit: Option<&ConnLimit>,
    uptime: u64,
) -> Seq<char> {
    cache_text(m, s) + limit_text(limit) + server_text(uptime)
}

/// Appends one metric.
fn metric(out: &mut String, name: &str, kind: &str, help: &str, value: u64)
    ensures
        final(out)@ == old(out)@ + metric_text(name@, kind@, help@, value as nat),
{
    reveal(metric_text);
    out.append("# HELP ");
    out.append(name);
    out.append(" ");
    out.append(help);
    out.append("\n# TYPE ");
    out.append(name);
    out.append(" ");
    out.append(kind);
    out.append("\n");
    out.append(name);
    out.append(" ");
    text::push_decimal(out, value);
    out.append("\n");
    assert(out@ =~= old(out)@ + metric_text(name@, kind@, help@, value as nat));
}

// Laws

/// Whether `line` stands at `i` in `text`, as a line of its own.
pub open spec fn line_at(text: Seq<char>, line: Seq<char>, i: int) -> bool {
    &&& 0 <= i
    &&& i + line.len() < text.len()
    &&& text.subrange(i, i + line.len()) == line
    &&& text[i + line.len()] == '\n'
    &&& i == 0 || text[i - 1] == '\n'
}

/// Whether `line` is one of the lines of `text`.
pub open spec fn has_line(text: Seq<char>, line: Seq<char>) -> bool {
    exists|i: int| #[trigger] line_at(text, line, i)
}

/// Whether `text` gives `value` under `name`, and says what it is and what kind
/// of number that is.
#[verifier::opaque]
pub open spec fn gives(
    text: Seq<char>,
    name: Seq<char>,
    kind: Seq<char>,
    help: Seq<char>,
    value: nat,
) -> bool {
    &&& has_line(text, "# HELP "@ + name + " "@ + help)
    &&& has_line(text, "# TYPE "@ + name + " "@ + kind)
    &&& has_line(text, name + " "@ + text::decimal(value))
}

/// Text without a last line that is not ended.
spec fn whole(text: Seq<char>) -> bool {
    text.len() == 0 || text.last() == '\n'
}

proof fn metric_is_given(name: Seq<char>, kind: Seq<char>, help: Seq<char>, value: nat)
    ensures
        gives(metric_text(name, kind, help, value), name, kind, help, value),
        whole(metric_text(name, kind, help, value)),
{
    reveal(gives);
    reveal(metric_text);
    reveal_strlit("\n");
    reveal_strlit("# TYPE ");
    reveal_strlit("\n# TYPE ");
    let all = metric_text(name, kind, help, value);
    let helped = "# HELP "@ + name + " "@ + help;
    let typed = "# TYPE "@ + name + " "@ + kind;
    let sample = name + " "@ + text::decimal(value);
    assert("\n# TYPE "@ =~= "\n"@ + "# TYPE "@);
    assert(all =~= helped + "\n"@ + typed + "\n"@ + sample + "\n"@);
    assert(all.subrange(0, helped.len() as int) =~= helped);
    assert(line_at(all, helped, 0));
    let i = helped.len() as int + 1;
    assert(all.subrange(i, i + typed.len()) =~= typed);
    assert(line_at(all, typed, i));
    let j = i + typed.len() + 1;
    assert(all.subrange(j, j + sample.len()) =~= sample);
    assert(line_at(all, sample, j));
}

/// A line stays one behind whole lines, whatever follows it.
proof fn line_stays(a: Seq<char>, b: Seq<char>, c: Seq<char>, line: Seq<char>)
    requires
        has_line(b, line),
        whole(a),
    ensures
        has_line(a + b + c, line),
{
    let i = choose|i: int| #[trigger] line_at(b, line, i);
    let all = a + b + c;
    let j = a.len() + i;
    assert(all.subrange(j, j + line.len()) =~= b.subrange(i, i + line.len()));
    assert(all[j + line.len()] == b[i + line.len()]);
    if i > 0 {
        assert(all[j - 1] == b[i - 1]);
    } else if j > 0 {
        assert(all[j - 1] == a.last());
    }
    assert(line_at(all, line, j));
}

/// What is given in one part of a text is given in the whole.
proof fn given_in_a_part(a: Seq<char>, b: Seq<char>, c: Seq<char>)
    requires
        whole(a),
    ensures
        forall|n: Seq<char>, k: Seq<char>, h: Seq<char>, v: nat|
            gives(b, n, k, h, v) ==> #[trigger] gives(a + b + c, n, k, h, v),
{
    reveal(gives);
    assert forall|n: Seq<char>, k: Seq<char>, h: Seq<char>, v: nat|
        gives(b, n, k, h, v) implies #[trigger] gives(a + b + c, n, k, h, v) by {
        line_stays(a, b, c, "# HELP "@ + n + " "@ + h);
        line_stays(a, b, c, "# TYPE "@ + n + " "@ + k);
        line_stays(a, b, c, n + " "@ + text::decimal(v));
    }
}

/// One more metric behind others is given, and they still are.
proof fn one_more(before: Seq<char>, name: Seq<char>, kind: Seq<char>, help: Seq<char>, value: nat)
    requires
        whole(before),
    ensures
        gives(before + metric_text(name, kind, help, value), name, kind, help, value),
        whole(before + metric_text(name, kind, help, value)),
        forall|n: Seq<char>, k: Seq<char>, h: Seq<char>, v: nat|
            gives(before, n, k, h, v) ==> #[trigger] gives(
                before + metric_text(name, kind, help, value),
                n,
                k,
                h,
                v,
            ),
{
    let m = metric_text(name, kind, help, value);
    let none = Seq::<char>::empty();
    metric_is_given(name, kind, help, value);
    assert(before + m + none =~= before + m);
    given_in_a_part(before, m, none);
    assert(none + before + m =~= before + m);
    given_in_a_part(none, before, m);
}

proof fn cache_numbers(m: Metrics, s: Stats)
    ensures
        whole(cache_text(m, s)),
        gives(cache_text(m, s), "oxicache_get_hits_total"@, "counter"@, "GET requests answered with a value"@, s.get_hits as nat),
        gives(cache_text(m, s), "oxicache_get_misses_total"@, "counter"@, "GET requests answered not found"@, s.get_misses as nat),
        gives(cache_text(m, s), "oxicache_del_hits_total"@, "counter"@, "DEL requests that removed an entry"@, s.del_hits as nat),
        gives(cache_text(m, s), "oxicache_del_misses_total"@, "counter"@, "DEL requests answered not found"@, s.del_misses as nat),
        gives(cache_text(m, s), "oxicache_evictions_total"@, "counter"@, "Live entries evicted to make room for new ones"@, s.evictions as nat),
        gives(cache_text(m, s), "oxicache_set_too_large_total"@, "counter"@, "SET requests refused because the entry exceeds the per-shard capacity"@, m.set_too_large as nat),
        gives(cache_text(m, s), "oxicache_auth_failures_total"@, "counter"@, "Requests refused for a wrong or missing token"@, m.auth_failures as nat),
        gives(cache_text(m, s), "oxicache_used_bytes"@, "gauge"@, "Bytes held by cached entries, bookkeeping included"@, s.used_bytes as nat),
        gives(cache_text(m, s), "oxicache_capacity_bytes"@, "gauge"@, "Configured memory budget for cached entries"@, s.capacity as nat),
        gives(cache_text(m, s), "oxicache_items"@, "gauge"@, "Entries currently cached"@, s.items as nat),
{
    let t = Seq::<char>::empty();
    one_more(t, "oxicache_get_hits_total"@, "counter"@, "GET requests answered with a value"@, s.get_hits as nat);
    let t = t + metric_text("oxicache_get_hits_total"@, "counter"@, "GET requests answered with a value"@, s.get_hits as nat);
    one_more(t, "oxicache_get_misses_total"@, "counter"@, "GET requests answered not found"@, s.get_misses as nat);
    let t = t + metric_text("oxicache_get_misses_total"@, "counter"@, "GET requests answered not found"@, s.get_misses as nat);
    one_more(t, "oxicache_del_hits_total"@, "counter"@, "DEL requests that removed an entry"@, s.del_hits as nat);
    let t = t + metric_text("oxicache_del_hits_total"@, "counter"@, "DEL requests that removed an entry"@, s.del_hits as nat);
    one_more(t, "oxicache_del_misses_total"@, "counter"@, "DEL requests answered not found"@, s.del_misses as nat);
    let t = t + metric_text("oxicache_del_misses_total"@, "counter"@, "DEL requests answered not found"@, s.del_misses as nat);
    one_more(t, "oxicache_evictions_total"@, "counter"@, "Live entries evicted to make room for new ones"@, s.evictions as nat);
    let t = t + metric_text("oxicache_evictions_total"@, "counter"@, "Live entries evicted to make room for new ones"@, s.evictions as nat);
    one_more(t, "oxicache_set_too_large_total"@, "counter"@, "SET requests refused because the entry exceeds the per-shard capacity"@, m.set_too_large as nat);
    let t = t + metric_text("oxicache_set_too_large_total"@, "counter"@, "SET requests refused because the entry exceeds the per-shard capacity"@, m.set_too_large as nat);
    one_more(t, "oxicache_auth_failures_total"@, "counter"@, "Requests refused for a wrong or missing token"@, m.auth_failures as nat);
    let t = t + metric_text("oxicache_auth_failures_total"@, "counter"@, "Requests refused for a wrong or missing token"@, m.auth_failures as nat);
    one_more(t, "oxicache_used_bytes"@, "gauge"@, "Bytes held by cached entries, bookkeeping included"@, s.used_bytes as nat);
    let t = t + metric_text("oxicache_used_bytes"@, "gauge"@, "Bytes held by cached entries, bookkeeping included"@, s.used_bytes as nat);
    one_more(t, "oxicache_capacity_bytes"@, "gauge"@, "Configured memory budget for cached entries"@, s.capacity as nat);
    let t = t + metric_text("oxicache_capacity_bytes"@, "gauge"@, "Configured memory budget for cached entries"@, s.capacity as nat);
    one_more(t, "oxicache_items"@, "gauge"@, "Entries currently cached"@, s.items as nat);
    let t = t + metric_text("oxicache_items"@, "gauge"@, "Entries currently cached"@, s.items as nat);
    assert(t =~= cache_text(m, s));
}

proof fn limit_numbers(l: &ConnLimit)
    ensures
        whole(limit_text(Some(l))),
        gives(limit_text(Some(l)), "oxicache_open_connections"@, "gauge"@, "Connections currently open, TCP and HTTP together"@, l.in_use()),
        gives(limit_text(Some(l)), "oxicache_max_connections"@, "gauge"@, "Configured cap on open connections"@, l.cap()),
        gives(limit_text(Some(l)), "oxicache_accept_waits_total"@, "counter"@, "Accepts that had to wait for a free connection slot"@, l.waited() as nat),
{
    let t = Seq::<char>::empty();
    one_more(t, "oxicache_open_connections"@, "gauge"@, "Connections currently open, TCP and HTTP together"@, l.in_use());
    let t = t + metric_text("oxicache_open_connections"@, "gauge"@, "Connections currently open, TCP and HTTP together"@, l.in_use());
    one_more(t, "oxicache_max_connections"@, "gauge"@, "Configured cap on open connections"@, l.cap());
    let t = t + metric_text("oxicache_max_connections"@, "gauge"@, "Configured cap on open connections"@, l.cap());
    one_more(t, "oxicache_accept_waits_total"@, "counter"@, "Accepts that had to wait for a free connection slot"@, l.waited() as nat);
    let t = t + metric_text("oxicache_accept_waits_total"@, "counter"@, "Accepts that had to wait for a free connection slot"@, l.waited() as nat);
    assert(t =~= limit_text(Some(l)));
}

proof fn parts_are_whole(m: Metrics, s: Stats, limit: Option<&ConnLimit>)
    ensures
        whole(cache_text(m, s)),
        whole(cache_text(m, s) + limit_text(limit)),
{
    let c = cache_text(m, s);
    let l = limit_text(limit);
    cache_numbers(m, s);
    match limit {
        Some(limit) => limit_numbers(limit),
        None => {},
    }
    if l.len() == 0 {
        assert(c + l =~= c);
    } else {
        assert((c + l).last() == l.last());
    }
}

proof fn cache_numbers_are_given(m: Metrics, s: Stats, rest: Seq<char>)
    ensures
        gives(cache_text(m, s) + rest, "oxicache_get_hits_total"@, "counter"@, "GET requests answered with a value"@, s.get_hits as nat),
        gives(cache_text(m, s) + rest, "oxicache_get_misses_total"@, "counter"@, "GET requests answered not found"@, s.get_misses as nat),
        gives(cache_text(m, s) + rest, "oxicache_del_hits_total"@, "counter"@, "DEL requests that removed an entry"@, s.del_hits as nat),
        gives(cache_text(m, s) + rest, "oxicache_del_misses_total"@, "counter"@, "DEL requests answered not found"@, s.del_misses as nat),
        gives(cache_text(m, s) + rest, "oxicache_evictions_total"@, "counter"@, "Live entries evicted to make room for new ones"@, s.evictions as nat),
        gives(cache_text(m, s) + rest, "oxicache_set_too_large_total"@, "counter"@, "SET requests refused because the entry exceeds the per-shard capacity"@, m.set_too_large as nat),
        gives(cache_text(m, s) + rest, "oxicache_auth_failures_total"@, "counter"@, "Requests refused for a wrong or missing token"@, m.auth_failures as nat),
        gives(cache_text(m, s) + rest, "oxicache_used_bytes"@, "gauge"@, "Bytes held by cached entries, bookkeeping included"@, s.used_bytes as nat),
        gives(cache_text(m, s) + rest, "oxicache_capacity_bytes"@, "gauge"@, "Configured memory budget for cached entries"@, s.capacity as nat),
        gives(cache_text(m, s) + rest, "oxicache_items"@, "gauge"@, "Entries currently cached"@, s.items as nat),
{
    let none = Seq::<char>::empty();
    cache_numbers(m, s);
    let c = cache_text(m, s);
    given_in_a_part(none, c, rest);
    assert(none + c + rest =~= c + rest);
}

proof fn limit_numbers_are_given(before: Seq<char>, l: &ConnLimit, rest: Seq<char>)
    requires
        whole(before),
    ensures
        gives(before + limit_text(Some(l)) + rest, "oxicache_open_connections"@, "gauge"@, "Connections currently open, TCP and HTTP together"@, l.in_use()),
        gives(before + limit_text(Some(l)) + rest, "oxicache_max_connections"@, "gauge"@, "Configured cap on open connections"@, l.cap()),
        gives(before + limit_text(Some(l)) + rest, "oxicache_accept_waits_total"@, "counter"@, "Accepts that had to wait for a free connection slot"@, l.waited() as nat),
{
    limit_numbers(l);
    given_in_a_part(before, limit_text(Some(l)), rest);
}

proof fn uptime_is_given(before: Seq<char>, uptime: u64)
    requires
        whole(before),
    ensures
        gives(before + server_text(uptime), "oxicache_uptime_seconds"@, "gauge"@, "Seconds since the server started"@, uptime as nat),
{
    let up = metric_text("oxicache_uptime_seconds"@, "gauge"@, "Seconds since the server started"@, uptime as nat);
    metric_is_given("oxicache_uptime_seconds"@, "gauge"@, "Seconds since the server started"@, uptime as nat);
    let rest = server_text(uptime).skip(up.len() as int);
    given_in_a_part(before, up, rest);
    assert(before + up + rest =~= before + server_text(uptime));
}

proof fn version_is_given(before: Seq<char>, uptime: u64)
    requires
        whole(before),
    ensures
        has_line(
            before + server_text(uptime),
            "oxicache_build_info{version=\""@ + VERSION@ + "\"} 1"@,
        ),
{
    let up = metric_text("oxicache_uptime_seconds"@, "gauge"@, "Seconds since the server started"@, uptime as nat);
    metric_is_given("oxicache_uptime_seconds"@, "gauge"@, "Seconds since the server started"@, uptime as nat);
    let line = "oxicache_build_info{version=\""@ + VERSION@ + "\"} 1"@;
    let head = "# HELP oxicache_build_info Server version, as a label\n# TYPE oxicache_build_info gauge\n"@;
    reveal_strlit("# HELP oxicache_build_info Server version, as a label\n# TYPE oxicache_build_info gauge\noxicache_build_info{version=\"");
    reveal_strlit("# HELP oxicache_build_info Server version, as a label\n# TYPE oxicache_build_info gauge\n");
    reveal_strlit("oxicache_build_info{version=\"");
    reveal_strlit("\"} 1");
    reveal_strlit("\"} 1\n");
    reveal_strlit("\n");
    assert("\"} 1\n"@ =~= "\"} 1"@ + "\n"@);
    assert("# HELP oxicache_build_info Server version, as a label\n# TYPE oxicache_build_info gauge\noxicache_build_info{version=\""@
        =~= head + "oxicache_build_info{version=\""@);
    let all = before + server_text(uptime);
    let i = (before + up + head).len() as int;
    assert(all =~= before + up + head + line + "\n"@);
    assert(all.subrange(i, i + line.len()) =~= line);
    assert(all[i - 1] == head.last());
    assert(line_at(all, line, i));
}

/// Every number is given under its own name and with what it says: what the
/// caches count, what the front ends refused, what is held of what budget, and
/// for how long the server has run; with a limit, also how many connections
/// there are of how many.
pub proof fn every_number_is_given_under_its_name(
    m: Metrics,
    s: Stats,
    limit: Option<&ConnLimit>,
    uptime: u64,
)
    ensures
        ({
            let t = render_text(m, s, limit, uptime);
            &&& gives(t, "oxicache_get_hits_total"@, "counter"@, "GET requests answered with a value"@, s.get_hits as nat)
            &&& gives(t, "oxicache_get_misses_total"@, "counter"@, "GET requests answered not found"@, s.get_misses as nat)
            &&& gives(t, "oxicache_del_hits_total"@, "counter"@, "DEL requests that removed an entry"@, s.del_hits as nat)
            &&& gives(t, "oxicache_del_misses_total"@, "counter"@, "DEL requests answered not found"@, s.del_misses as nat)
            &&& gives(t, "oxicache_evictions_total"@, "counter"@, "Live entries evicted to make room for new ones"@, s.evictions as nat)
            &&& gives(t, "oxicache_set_too_large_total"@, "counter"@, "SET requests refused because the entry exceeds the per-shard capacity"@, m.set_too_large as nat)
            &&& gives(t, "oxicache_auth_failures_total"@, "counter"@, "Requests refused for a wrong or missing token"@, m.auth_failures as nat)
            &&& gives(t, "oxicache_used_bytes"@, "gauge"@, "Bytes held by cached entries, bookkeeping included"@, s.used_bytes as nat)
            &&& gives(t, "oxicache_capacity_bytes"@, "gauge"@, "Configured memory budget for cached entries"@, s.capacity as nat)
            &&& gives(t, "oxicache_items"@, "gauge"@, "Entries currently cached"@, s.items as nat)
            &&& gives(t, "oxicache_uptime_seconds"@, "gauge"@, "Seconds since the server started"@, uptime as nat)
            &&& limit matches Some(l) ==> {
                &&& gives(t, "oxicache_open_connections"@, "gauge"@, "Connections currently open, TCP and HTTP together"@, l.in_use())
                &&& gives(t, "oxicache_max_connections"@, "gauge"@, "Configured cap on open connections"@, l.cap())
                &&& gives(t, "oxicache_accept_waits_total"@, "counter"@, "Accepts that had to wait for a free connection slot"@, l.waited() as nat)
            }
        }),
{
    let c = cache_text(m, s);
    let l = limit_text(limit);
    let u = server_text(uptime);
    parts_are_whole(m, s, limit);
    cache_numbers_are_given(m, s, l + u);
    assert(c + (l + u) =~= c + l + u);
    match limit {
        Some(limit) => limit_numbers_are_given(c, limit, u),
        None => {},
    }
    uptime_is_given(c + l, uptime);
}

/// The version is given.
pub proof fn the_version_is_given(m: Metrics, s: Stats, limit: Option<&ConnLimit>, uptime: u64)
    ensures
        has_line(
            render_text(m, s, limit, uptime),
            "oxicache_build_info{version=\""@ + VERSION@ + "\"} 1"@,
        ),
{
    parts_are_whole(m, s, limit);
    version_is_given(cache_text(m, s) + limit_text(limit), uptime);
}

} // verus!
