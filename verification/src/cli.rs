//! The decisions of the command line client: what it warns of, what it refuses,
//! and what it prints.

use crate::client::error::Error;
use crate::text;
use vstd::prelude::*;
use vstd::std_specs::cmp::PartialEqSpec;
use vstd::slice::slice_subrange;

verus! {

/// What is said of a flag, given as `shown`, that overrides a variable set to
/// `env`; nothing where the two agree.
pub open spec fn warning(
    flag: Seq<char>,
    var: Seq<char>,
    shown: Seq<char>,
    env: Seq<char>,
    agree: bool,
    show: bool,
) -> Option<Seq<char>> {
    if agree {
        None
    } else if show {
        Some("warning: --"@ + flag + "="@ + shown + " overrides "@ + var + "="@ + env)
    } else {
        Some("warning: --"@ + flag + " overrides a different "@ + var)
    }
}

/// Whether `r` is what is said.
pub open spec fn says(r: Option<String>, said: Option<Seq<char>>) -> bool {
    match (r, said) {
        (Some(s), Some(t)) => s@ == t,
        (None, None) => true,
        _ => false,
    }
}

/// Whether a variable that parses to `parsed`, or does not parse, agrees with
/// `value`.
pub open spec fn agrees<T: PartialEq>(parsed: Option<T>, value: T) -> bool {
    parsed matches Some(p) && p.eq_spec(&value)
}

/// What to warn of when a flag overrides a differing value of its environment
/// variable, which is set to `env`: the flag is preferred silently, and a parsed
/// value that differs from a set variable can only have come from the flag.
/// Values are compared after parsing, so `1G` and `1024M` agree; `shown` is how
/// the value is printed. `show` controls whether the values are printed (not for
/// secrets).
pub fn warn_if_overridden<T: PartialEq>(
    flag: &str,
    var: &str,
    value: Option<&T>,
    shown: &str,
    env: Option<&str>,
    parse: impl Fn(&str) -> Option<T>,
    show: bool,
) -> (r: Option<String>)
    requires
        env matches Some(e) ==> parse.requires((e,)),
    ensures
        match (value, env) {
            (Some(v), Some(e)) => exists|parsed: Option<T>| #[trigger]
                parse.ensures((e,), parsed) && (T::obeys_eq_spec() ==> says(
                    r,
                    warning(flag@, var@, shown@, e@, agrees(parsed, *v), show),
                )),
            _ => r is None,
        },
{
    let (value, env) = match (value, env) {
        (Some(value), Some(env)) => (value, env),
        _ => return None,
    };
    let agree = match parse(env) {
        Some(p) => p == *value,
        None => false,
    };
    if agree {
        return None;
    }
    let mut s = String::new();
    s.append("warning: --");
    s.append(flag);
    if show {
        s.append("=");
        s.append(shown);
        s.append(" overrides ");
        s.append(var);
        s.append("=");
        s.append(env);
        assert(s@ =~= "warning: --"@ + flag@ + "="@ + shown@ + " overrides "@ + var@ + "="@ + env@);
    } else {
        s.append(" overrides a different ");
        s.append(var);
        assert(s@ =~= "warning: --"@ + flag@ + " overrides a different "@ + var@);
    }
    Some(s)
}

/// Whether only an address nobody answered on was found: worth trying the next
/// one. A server that answered (a refused token, say) is the server.
pub fn try_next(e: &Error) -> (r: bool)
    ensures
        r == (*e is Io || *e is Closed),
{
    match e {
        Error::Io { .. } => true,
        Error::Closed => true,
        _ => false,
    }
}

/// Whether the arguments of `set` are key value pairs.
pub fn are_pairs(n: usize) -> (r: bool)
    ensures
        r == (n % 2 == 0),
{
    n % 2 == 0
}

/// The line for a key and what is stored under it.
pub fn get_line(key: &str, value: Option<&str>) -> (s: String)
    ensures
        s@ == key@ + ": "@ + match value {
            Some(v) => v@,
            None => "(nil)"@,
        },
{
    let mut s = String::new();
    s.append(key);
    s.append(": ");
    match value {
        Some(v) => s.append(v),
        None => s.append("(nil)"),
    }
    assert(s@ =~= key@ + ": "@ + match value {
        Some(v) => v@,
        None => "(nil)"@,
    });
    s
}

/// The line for a key that was to be removed.
pub fn del_line(key: &str, removed: bool) -> (s: String)
    ensures
        s@ == key@ + ": "@ + if removed {
            "deleted"@
        } else {
            "(nil)"@
        },
{
    let mut s = String::new();
    s.append(key);
    s.append(": ");
    if removed {
        s.append("deleted");
    } else {
        s.append("(nil)");
    }
    assert(s@ =~= key@ + ": "@ + if removed {
        "deleted"@
    } else {
        "(nil)"@
    });
    s
}

/// The line for `n` entries that were stored.
pub fn set_line(n: usize) -> (s: String)
    ensures
        s@ == "OK ("@ + text::decimal(n as nat) + " entries)"@,
{
    let mut s = String::new();
    s.append("OK (");
    text::push_decimal(&mut s, n as u64);
    s.append(" entries)");
    assert(s@ =~= "OK ("@ + text::decimal(n as nat) + " entries)"@);
    s
}

/// The numbers a load test picks its keys by.
#[derive(Clone, Copy, Debug)]
pub struct Picks {
    pub state: u64,
}

/// One step of the generator.
pub open spec fn stepped(x: u64) -> u64 {
    let a = x ^ (x << 13);
    let b = a ^ (a >> 7);
    b ^ (b << 17)
}

impl Picks {
    /// The numbers for one of the requests in flight on one connection.
    pub fn new(conn: usize, slot: usize) -> (p: Self)
        requires
            conn * 1_000_003 + slot * 7919 + 1 <= usize::MAX,
        ensures
            p.state == conn * 1_000_003 + slot * 7919 + 1,
    {
        Picks { state: (conn * 1_000_003 + slot * 7919 + 1) as u64 }
    }

    pub fn next(&mut self) -> (n: u64)
        ensures
            n == stepped(old(self).state),
            final(self).state == n,
    {
        let mut x: u64 = self.state;
        x = x ^ (x << 13);
        x = x ^ (x >> 7);
        x = x ^ (x << 17);
        self.state = x;
        x
    }
}

/// The numbers never get stuck at zero.
pub proof fn picks_stay_off_zero(x: u64)
    requires
        x != 0,
    ensures
        stepped(x) != 0,
{
    assert(x != 0 ==> x ^ (x << 13) != 0) by (bit_vector);
    let a = x ^ (x << 13);
    assert(a != 0 ==> a ^ (a >> 7) != 0) by (bit_vector);
    let b = a ^ (a >> 7);
    assert(b != 0 ==> b ^ (b << 17) != 0) by (bit_vector);
}

/// The host of a `host:port` address: what is before the last colon, without
/// brackets round it.
pub open spec fn host(addr: Seq<u8>) -> Option<Seq<u8>> {
    let c = last_colon(addr, addr.len() as int);
    if c < 0 {
        None
    } else {
        Some(unbracketed(addr.take(c)))
    }
}

/// Where the last colon among the first `n` bytes is, or -1.
pub open spec fn last_colon(addr: Seq<u8>, n: int) -> int
    decreases n,
{
    if n <= 0 {
        -1
    } else if addr[n - 1] == 58 {
        n - 1
    } else {
        last_colon(addr, n - 1)
    }
}

/// Without the square brackets at both ends.
pub open spec fn unbracketed(s: Seq<u8>) -> Seq<u8>
    decreases s.len(),
{
    if s.len() > 0 && (s[0] == 91 || s[0] == 93) {
        unbracketed(s.drop_first())
    } else if s.len() > 0 && (s.last() == 91 || s.last() == 93) {
        unbracketed(s.drop_last())
    } else {
        s
    }
}

/// The host of a `host:port` address, or `None` where there is no port.
pub fn host_of(addr: &[u8]) -> (r: Option<&[u8]>)
    ensures
        match (r, host(addr@)) {
            (Some(h), Some(t)) => h@ == t,
            (None, None) => true,
            _ => false,
        },
{
    let mut n: usize = addr.len();
    while n > 0 && addr[n - 1] != 58
        invariant
            n <= addr@.len(),
            last_colon(addr@, addr@.len() as int) == last_colon(addr@, n as int),
        decreases n,
    {
        n -= 1;
    }
    if n == 0 {
        return None;
    }
    let mut to: usize = n - 1;
    let mut from: usize = 0;
    assert(addr@.subrange(0, to as int) =~= addr@.take(to as int));
    while from < to && (addr[from] == 91 || addr[from] == 93)
        invariant
            from <= to < addr@.len(),
            unbracketed(addr@.take(to as int)) == unbracketed(
                addr@.subrange(from as int, to as int),
            ),
        decreases to - from,
    {
        assert(addr@.subrange(from as int, to as int).drop_first() =~= addr@.subrange(
            from + 1,
            to as int,
        ));
        from += 1;
    }
    let ghost whole = to;
    while from < to && (addr[to - 1] == 91 || addr[to - 1] == 93)
        invariant
            from <= to <= whole < addr@.len(),
            from == to || (addr@[from as int] != 91 && addr@[from as int] != 93),
            unbracketed(addr@.take(whole as int)) == unbracketed(
                addr@.subrange(from as int, to as int),
            ),
        decreases to - from,
    {
        assert(addr@.subrange(from as int, to as int).drop_last() =~= addr@.subrange(
            from as int,
            to - 1,
        ));
        to -= 1;
    }
    Some(slice_subrange(addr, from, to))
}

/// The host is all before the last colon, whatever the port; an address in
/// brackets is taken out of them; without a colon there is none.
pub proof fn the_host_is_before_the_port(host_part: Seq<u8>, port: Seq<u8>)
    requires
        forall|i: int| 0 <= i < port.len() ==> #[trigger] port[i] != 58,
        host_part.len() > 0 ==> host_part[0] != 91 && host_part[0] != 93 && host_part.last() != 91
            && host_part.last() != 93,
    ensures
        host(host_part + seq![58u8] + port) == Some(host_part),
        host(seq![91u8] + host_part + seq![93u8, 58u8] + port) == Some(host_part),
        host(port) is None,
{
    reveal_with_fuel(unbracketed, 4);
    let a = host_part + seq![58u8] + port;
    no_colon_behind(a, host_part.len() as int, a.len() as int);
    assert(a.take(host_part.len() as int) =~= host_part);
    let inner = seq![91u8] + host_part + seq![93u8];
    let b = seq![91u8] + host_part + seq![93u8, 58u8] + port;
    no_colon_behind(b, inner.len() as int, b.len() as int);
    assert(b.take(inner.len() as int) =~= inner);
    assert(inner.drop_first() =~= host_part.push(93));
    assert(host_part.push(93).drop_last() =~= host_part);
    if host_part.len() == 0 {
        assert(host_part.push(93).drop_first() =~= host_part);
    }
    no_colon_at_all(port, port.len() as int);
}

proof fn no_colon_behind(s: Seq<u8>, c: int, n: int)
    requires
        0 <= c < n <= s.len(),
        s[c] == 58,
        forall|i: int| c < i < n ==> #[trigger] s[i] != 58,
    ensures
        last_colon(s, n) == c,
    decreases n,
{
    if n - 1 > c {
        no_colon_behind(s, c, n - 1);
    }
}

proof fn no_colon_at_all(s: Seq<u8>, n: int)
    requires
        0 <= n <= s.len(),
        forall|i: int| 0 <= i < n ==> #[trigger] s[i] != 58,
    ensures
        last_colon(s, n) < 0,
    decreases n,
{
    if n > 0 {
        no_colon_at_all(s, n - 1);
    }
}

/// A warning is given exactly where the two differ, and shows neither value
/// unless it may.
pub proof fn a_warning_is_of_a_difference(
    flag: Seq<char>,
    var: Seq<char>,
    shown: Seq<char>,
    other: Seq<char>,
    env: Seq<char>,
    set: Seq<char>,
    agree: bool,
)
    ensures
        warning(flag, var, shown, env, agree, true) is None <==> agree,
        warning(flag, var, shown, env, agree, false) is None <==> agree,
        warning(flag, var, shown, env, agree, false) == warning(flag, var, other, set, agree, false),
{
}

} // verus!
