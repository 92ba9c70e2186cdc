//! What the server is told by its environment.
//!
//! Every setting is an environment variable; a value that is refused is
//! reported with the variable that holds it.

use crate::tcp::{DEFAULT_IDLE_TIMEOUT, DEFAULT_MAX_CONNECTIONS};
use crate::text;
use vstd::prelude::*;
use vstd::slice::slice_subrange;

verus! {

/// The memory budget where none is set: 1 GiB.
pub const DEFAULT_CAPACITY: usize = 0x4000_0000;

/// The variables.
#[derive(Clone, Copy, Debug, PartialEq, Eq, Structural)]
pub enum Variable {
    TcpAddr,
    HttpAddr,
    Capacity,
    Token,
    IdleTimeout,
    MaxConns,
    TlsCert,
}

impl Variable {
    pub open spec fn spelled(self) -> Seq<char> {
        match self {
            Variable::TcpAddr => "OXICACHE_TCP_ADDR"@,
            Variable::HttpAddr => "OXICACHE_HTTP_ADDR"@,
            Variable::Capacity => "OXICACHE_CAPACITY"@,
            Variable::Token => "OXICACHE_TOKEN"@,
            Variable::IdleTimeout => "OXICACHE_IDLE_TIMEOUT"@,
            Variable::MaxConns => "OXICACHE_MAX_CONNS"@,
            Variable::TlsCert => "OXICACHE_TLS_CERT"@,
        }
    }

    /// The variable as it is spelled in the environment.
    pub fn name(self) -> (s: &'static str)
        ensures
            s@ == self.spelled(),
    {
        match self {
            Variable::TcpAddr => "OXICACHE_TCP_ADDR",
            Variable::HttpAddr => "OXICACHE_HTTP_ADDR",
            Variable::Capacity => "OXICACHE_CAPACITY",
            Variable::Token => "OXICACHE_TOKEN",
            Variable::IdleTimeout => "OXICACHE_IDLE_TIMEOUT",
            Variable::MaxConns => "OXICACHE_MAX_CONNS",
            Variable::TlsCert => "OXICACHE_TLS_CERT",
        }
    }
}

// Numbers

/// Why a number was refused.
#[derive(Clone, Copy, Debug, PartialEq, Eq, Structural)]
pub enum NumberError {
    Empty,
    InvalidDigit,
    TooLarge,
    Zero,
}

impl NumberError {
    pub open spec fn text(self) -> Seq<char> {
        match self {
            NumberError::Empty => "cannot parse integer from empty string"@,
            NumberError::InvalidDigit => "invalid digit found in string"@,
            NumberError::TooLarge => "number too large to fit in target type"@,
            NumberError::Zero => "number would be zero for non-zero type"@,
        }
    }

    fn message(self) -> (s: &'static str)
        ensures
            s@ == self.text(),
    {
        match self {
            NumberError::Empty => "cannot parse integer from empty string",
            NumberError::InvalidDigit => "invalid digit found in string",
            NumberError::TooLarge => "number too large to fit in target type",
            NumberError::Zero => "number would be zero for non-zero type",
        }
    }
}

/// Whether `c` is a decimal digit.
pub open spec fn is_digit(c: char) -> bool {
    '0' <= c <= '9'
}

/// The number that `digits` continue `acc` to, up to `max`.
pub open spec fn digits_value(acc: nat, digits: Seq<char>, max: nat) -> Result<nat, NumberError>
    decreases digits.len(),
{
    if digits.len() == 0 {
        Ok(acc)
    } else if !is_digit(digits[0]) {
        Err(NumberError::InvalidDigit)
    } else {
        let next = acc * 10 + (digits[0] as nat - 48) as nat;
        if next > max {
            Err(NumberError::TooLarge)
        } else {
            digits_value(next, digits.drop_first(), max)
        }
    }
}

/// The number a text says: decimal digits, with a plus sign before them or not.
pub open spec fn number(text: Seq<char>, max: nat) -> Result<nat, NumberError> {
    if text.len() == 0 {
        Err(NumberError::Empty)
    } else if text[0] == '+' && text.len() > 1 {
        digits_value(0, text.drop_first(), max)
    } else {
        digits_value(0, text, max)
    }
}

fn parse_digits(digits: &[char], max: u64) -> (r: Result<u64, NumberError>)
    ensures
        match (r, digits_value(0, digits@, max as nat)) {
            (Ok(n), Ok(m)) => n == m && n <= max,
            (Err(e), Err(f)) => e == f,
            _ => false,
        },
{
    let mut acc: u64 = 0;
    let mut i: usize = 0;
    assert(digits@.skip(0) =~= digits@);
    while i < digits.len()
        invariant
            i <= digits@.len(),
            acc <= max,
            digits_value(0, digits@, max as nat) == digits_value(
                acc as nat,
                digits@.skip(i as int),
                max as nat,
            ),
        decreases digits@.len() - i,
    {
        let c = digits[i];
        assert(digits@.skip(i as int).drop_first() =~= digits@.skip(i + 1));
        if c < '0' || c > '9' {
            return Err(NumberError::InvalidDigit);
        }
        let d: u64 = c as u64 - 48;
        if acc > max / 10 || d > max - acc * 10 {
            return Err(NumberError::TooLarge);
        }
        acc = acc * 10 + d;
        i += 1;
    }
    Ok(acc)
}

fn parse_chars(text: &[char], max: u64) -> (r: Result<u64, NumberError>)
    ensures
        match (r, number(text@, max as nat)) {
            (Ok(n), Ok(m)) => n == m && n <= max,
            (Err(e), Err(f)) => e == f,
            _ => false,
        },
{
    if text.len() == 0 {
        return Err(NumberError::Empty);
    }
    if text[0] == '+' && text.len() > 1 {
        let rest = slice_subrange(text, 1, text.len());
        assert(rest@ =~= text@.drop_first());
        return parse_digits(rest, max);
    }
    parse_digits(text, max)
}

/// The characters of a text.
fn chars_of(s: &str) -> (v: Vec<char>)
    ensures
        v@ == s@,
{
    let mut v: Vec<char> = Vec::new();
    let n: usize = s.unicode_len();
    let mut i: usize = 0;
    while i < n
        invariant
            i <= n == s@.len(),
            v@ == s@.take(i as int),
        decreases n - i,
    {
        v.push(s.get_char(i));
        assert(v@ =~= s@.take(i + 1));
        i += 1;
    }
    assert(s@.take(n as int) =~= s@);
    v
}

// Sizes

/// Whether Unicode counts `c` as white space.
pub open spec fn is_space(c: char) -> bool {
    let u = c as u32;
    ||| 0x9 <= u <= 0xd
    ||| u == 0x20
    ||| u == 0x85
    ||| u == 0xa0
    ||| u == 0x1680
    ||| 0x2000 <= u <= 0x200a
    ||| u == 0x2028
    ||| u == 0x2029
    ||| u == 0x202f
    ||| u == 0x205f
    ||| u == 0x3000
}

fn space(c: char) -> (r: bool)
    ensures
        r == is_space(c),
{
    let u: u32 = c as u32;
    (0x9 <= u && u <= 0xd) || u == 0x20 || u == 0x85 || u == 0xa0 || u == 0x1680 || (0x2000 <= u
        && u <= 0x200a) || u == 0x2028 || u == 0x2029 || u == 0x202f || u == 0x205f || u == 0x3000
}

/// `s` without the white space at its end.
pub open spec fn trimmed_end(s: Seq<char>) -> Seq<char>
    decreases s.len(),
{
    if s.len() > 0 && is_space(s.last()) {
        trimmed_end(s.drop_last())
    } else {
        s
    }
}

/// `s` without the white space at both ends.
pub open spec fn trimmed(s: Seq<char>) -> Seq<char>
    decreases s.len(),
{
    if s.len() > 0 && is_space(s[0]) {
        trimmed(s.drop_first())
    } else {
        trimmed_end(s)
    }
}

fn trim(s: &[char]) -> (r: &[char])
    ensures
        r@ == trimmed(s@),
{
    let mut from: usize = 0;
    let n: usize = s.len();
    assert(s@.skip(0) =~= s@);
    while from < n && space(s[from])
        invariant
            from <= n == s@.len(),
            trimmed(s@) == trimmed(s@.skip(from as int)),
        decreases n - from,
    {
        assert(s@.skip(from as int).drop_first() =~= s@.skip(from + 1));
        from += 1;
    }
    let mut to: usize = n;
    assert(s@.subrange(from as int, n as int) =~= s@.skip(from as int));
    while from < to && space(s[to - 1])
        invariant
            from <= to <= n == s@.len(),
            trimmed(s@) == trimmed_end(s@.subrange(from as int, to as int)),
        decreases to - from,
    {
        assert(s@.subrange(from as int, to as int).drop_last() =~= s@.subrange(
            from as int,
            to - 1,
        ));
        to -= 1;
    }
    slice_subrange(s, from, to)
}

/// Why a size was refused.
#[derive(Clone, Copy, Debug, PartialEq, Eq, Structural)]
pub enum SizeError {
    UnknownSuffix,
    Number(NumberError),
    TooLarge,
    Zero,
}

impl SizeError {
    /// The message for the error, where `given` was refused.
    pub open spec fn text(self, given: Seq<char>) -> Seq<char> {
        match self {
            SizeError::UnknownSuffix => "unknown size suffix in "@ + quoted(trimmed(given)),
            SizeError::Number(e) => e.text(),
            SizeError::TooLarge => "size "@ + quoted(trimmed(given)) + " is too large"@,
            SizeError::Zero => "the capacity must not be zero"@,
        }
    }

    /// The message for the error, where `given` was refused.
    pub fn message(self, given: &str) -> (s: String)
        ensures
            s@ == self.text(given@),
    {
        let mut s = String::new();
        match self {
            SizeError::UnknownSuffix => {
                s.append("unknown size suffix in ");
                s.append(quote(trim_str(given).as_str()).as_str());
            },
            SizeError::Number(e) => s.append(e.message()),
            SizeError::TooLarge => {
                s.append("size ");
                s.append(quote(trim_str(given).as_str()).as_str());
                s.append(" is too large");
            },
            SizeError::Zero => s.append("the capacity must not be zero"),
        }
        assert(s@ =~= self.text(given@));
        s
    }
}

/// What formatting `text` with `{:?}` gives.
pub uninterp spec fn quoted(text: Seq<char>) -> Seq<char>;

/// `format!("{:?}")` of a string: the text in quotes, with what would not show
/// escaped. Which characters are escaped, and how, is not stated.
#[verifier::external_body]
fn quote(text: &str) -> (s: String)
    ensures
        s@ == quoted(text@),
{
    format!("{text:?}")
}

fn trim_str(s: &str) -> (r: String)
    ensures
        r@ == trimmed(s@),
{
    let all = chars_of(s);
    let t = trim(all.as_slice());
    let mut r = String::new();
    let mut i: usize = 0;
    while i < t.len()
        invariant
            i <= t@.len(),
            r@ == t@.take(i as int),
        decreases t@.len() - i,
    {
        r.push(t[i]);
        assert(r@ =~= t@.take(i + 1));
        i += 1;
    }
    assert(t@.take(i as int) =~= t@);
    r
}

/// What the last character of a size multiplies by, and how many characters it
/// takes from the number.
pub open spec fn suffix(c: char) -> Option<(nat, nat)> {
    if is_digit(c) {
        Some((1, 0))
    } else if c == 'K' || c == 'k' {
        Some((1024, 1))
    } else if c == 'M' || c == 'm' {
        Some((1048576, 1))
    } else if c == 'G' || c == 'g' {
        Some((1073741824, 1))
    } else {
        None
    }
}

/// The size a text says, in bytes: a number, with `K`, `M` or `G` behind it or
/// not.
pub open spec fn size(text: Seq<char>) -> Result<usize, SizeError> {
    let t = trimmed(text);
    if t.len() == 0 {
        Err(SizeError::UnknownSuffix)
    } else {
        match suffix(t.last()) {
            None => Err(SizeError::UnknownSuffix),
            Some((factor, cut)) => match number(
                trimmed(t.take(t.len() - cut)),
                usize::MAX as nat,
            ) {
                Err(e) => Err(SizeError::Number(e)),
                Ok(n) => if n * factor > usize::MAX {
                    Err(SizeError::TooLarge)
                } else if n == 0 {
                    Err(SizeError::Zero)
                } else {
                    Ok((n * factor) as usize)
                },
            },
        }
    }
}

/// A size such as `512M` or `4G`, in bytes.
pub fn parse_size(s: &str) -> (r: Result<usize, SizeError>)
    ensures
        r == size(s@),
{
    let all = chars_of(s);
    let t = trim(all.as_slice());
    if t.len() == 0 {
        return Err(SizeError::UnknownSuffix);
    }
    let c = t[t.len() - 1];
    let factor: usize = if '0' <= c && c <= '9' {
        1
    } else if c == 'K' || c == 'k' {
        1024
    } else if c == 'M' || c == 'm' {
        1048576
    } else if c == 'G' || c == 'g' {
        1073741824
    } else {
        return Err(SizeError::UnknownSuffix);
    };
    let cut: usize = if factor == 1 {
        0
    } else {
        1
    };
    let num = trim(slice_subrange(t, 0, t.len() - cut));
    assert(t@.subrange(0, t@.len() - cut) =~= t@.take(t@.len() - cut));
    let n: usize = match parse_chars(num, usize::MAX as u64) {
        Ok(n) => n as usize,
        Err(e) => return Err(SizeError::Number(e)),
    };
    match n.checked_mul(factor) {
        None => Err(SizeError::TooLarge),
        Some(bytes) => {
            assert((n * factor == 0) == (n == 0)) by (nonlinear_arith)
                requires
                    factor > 0,
                    n >= 0,
            ;
            if bytes == 0 {
                Err(SizeError::Zero)
            } else {
                Ok(bytes)
            }
        },
    }
}

// Settings

/// The variables that are set, and what to.
#[derive(Clone, Debug, Default)]
pub struct Env {
    pub tcp_addr: Option<String>,
    pub http_addr: Option<String>,
    pub capacity: Option<String>,
    pub token: Option<String>,
    pub idle_timeout: Option<String>,
    pub max_conns: Option<String>,
    pub tls_cert: Option<String>,
}

/// How to serve.
#[derive(Debug)]
pub struct Settings {
    pub tcp_addr: String,
    /// No HTTP front end where there is none.
    pub http_addr: Option<String>,
    pub capacity: usize,
    pub token: String,
    /// In seconds.
    pub idle_timeout: u64,
    pub max_conns: usize,
    /// The PEM file to speak TLS with; without one, TLS is not spoken.
    pub tls_cert: Option<String>,
}

/// Why a setting was refused.
#[derive(Clone, Copy, Debug, PartialEq, Eq, Structural)]
pub enum Reason {
    Required,
    Empty,
    NotAnAddress,
    Size(SizeError),
    Number(NumberError),
}

/// The address to listen on where none is set.
pub open spec fn default_addr() -> Seq<char> {
    "0.0.0.0:4433"@
}

/// Whether an address that is set is refused.
pub open spec fn bad_addr(set: Option<String>, valid: spec_fn(Seq<char>) -> bool) -> bool {
    set matches Some(s) && !valid(s@)
}

/// The capacity that is set, or the default.
pub open spec fn capacity_of(set: Option<String>) -> Result<usize, SizeError> {
    match set {
        Some(s) => size(s@),
        None => Ok(DEFAULT_CAPACITY),
    }
}

/// A number other than zero that is set, or the default.
pub open spec fn nonzero_of(set: Option<String>, max: nat, default: nat) -> Result<
    nat,
    NumberError,
> {
    match set {
        Some(s) => match number(s@, max) {
            Ok(n) => if n == 0 {
                Err(NumberError::Zero)
            } else {
                Ok(n)
            },
            Err(e) => Err(e),
        },
        None => Ok(default),
    }
}

/// The first variable that is refused, and why.
pub open spec fn refused(env: Env, valid: spec_fn(Seq<char>) -> bool) -> Option<
    (Variable, Reason),
> {
    if bad_addr(env.tcp_addr, valid) {
        Some((Variable::TcpAddr, Reason::NotAnAddress))
    } else if bad_addr(env.http_addr, valid) {
        Some((Variable::HttpAddr, Reason::NotAnAddress))
    } else if capacity_of(env.capacity) is Err {
        Some((Variable::Capacity, Reason::Size(capacity_of(env.capacity)->Err_0)))
    } else if env.token is None {
        Some((Variable::Token, Reason::Required))
    } else if env.token->Some_0@.len() == 0 {
        Some((Variable::Token, Reason::Empty))
    } else if nonzero_of(env.idle_timeout, u64::MAX as nat, 1) is Err {
        Some(
            (
                Variable::IdleTimeout,
                Reason::Number(nonzero_of(env.idle_timeout, u64::MAX as nat, 1)->Err_0),
            ),
        )
    } else if nonzero_of(env.max_conns, usize::MAX as nat, 1) is Err {
        Some(
            (
                Variable::MaxConns,
                Reason::Number(nonzero_of(env.max_conns, usize::MAX as nat, 1)->Err_0),
            ),
        )
    } else {
        None
    }
}

/// Whether the settings are those of the environment.
pub open spec fn settings_of(env: Env, s: Settings) -> bool {
    &&& match env.tcp_addr {
        Some(a) => s.tcp_addr@ == a@,
        None => s.tcp_addr@ == default_addr(),
    }
    &&& s.http_addr == env.http_addr
    &&& capacity_of(env.capacity) == Ok::<usize, SizeError>(s.capacity)
    &&& env.token == Some(s.token)
    &&& nonzero_of(env.idle_timeout, u64::MAX as nat, DEFAULT_IDLE_TIMEOUT as nat) == Ok::<
        nat,
        NumberError,
    >(s.idle_timeout as nat)
    &&& nonzero_of(env.max_conns, usize::MAX as nat, DEFAULT_MAX_CONNECTIONS as nat) == Ok::<
        nat,
        NumberError,
    >(s.max_conns as nat)
    &&& s.tls_cert == env.tls_cert
}

fn nonzero(set: &Option<String>, max: u64, default: u64) -> (r: Result<u64, NumberError>)
    requires
        default <= max,
    ensures
        match (r, nonzero_of(*set, max as nat, default as nat)) {
            (Ok(n), Ok(m)) => n == m && n <= max,
            (Err(e), Err(f)) => e == f,
            _ => false,
        },
{
    match set {
        Some(s) => {
            let text = chars_of(s.as_str());
            match parse_chars(text.as_slice(), max) {
                Ok(n) => if n == 0 {
                    Err(NumberError::Zero)
                } else {
                    Ok(n)
                },
                Err(e) => Err(e),
            }
        },
        None => Ok(default),
    }
}

/// How to serve, or the first variable that is refused. `valid` says whether a
/// text is the address of a socket.
pub fn settings(env: Env, valid: impl Fn(&str) -> bool) -> (r: Result<Settings, (Variable, Reason)>)
    requires
        forall|s: &str| #[trigger] valid.requires((s,)),
    ensures
        forall|ok: spec_fn(Seq<char>) -> bool| #[trigger]
            judges(valid, ok) ==> match r {
                Ok(s) => refused(env, ok) is None && settings_of(env, s),
                Err(e) => refused(env, ok) == Some(e),
            },
{
    let mut tcp_addr = String::new();
    match &env.tcp_addr {
        Some(a) => {
            if !valid(a.as_str()) {
                return Err((Variable::TcpAddr, Reason::NotAnAddress));
            }
            tcp_addr.append(a.as_str());
            assert(tcp_addr@ =~= a@);
        },
        None => {
            tcp_addr.append("0.0.0.0:4433");
            assert(tcp_addr@ =~= default_addr());
        },
    }
    if let Some(a) = &env.http_addr {
        if !valid(a.as_str()) {
            return Err((Variable::HttpAddr, Reason::NotAnAddress));
        }
    }
    let capacity: usize = match &env.capacity {
        Some(s) => match parse_size(s.as_str()) {
            Ok(n) => n,
            Err(e) => return Err((Variable::Capacity, Reason::Size(e))),
        },
        None => DEFAULT_CAPACITY,
    };
    let token = match env.token {
        Some(token) => token,
        None => return Err((Variable::Token, Reason::Required)),
    };
    if token.as_str().unicode_len() == 0 {
        return Err((Variable::Token, Reason::Empty));
    }
    let idle_timeout: u64 = match nonzero(&env.idle_timeout, u64::MAX, DEFAULT_IDLE_TIMEOUT) {
        Ok(n) => n,
        Err(e) => return Err((Variable::IdleTimeout, Reason::Number(e))),
    };
    let max_conns: u64 = match nonzero(
        &env.max_conns,
        usize::MAX as u64,
        DEFAULT_MAX_CONNECTIONS as u64,
    ) {
        Ok(n) => n,
        Err(e) => return Err((Variable::MaxConns, Reason::Number(e))),
    };
    Ok(
        Settings {
            tcp_addr,
            http_addr: env.http_addr,
            capacity,
            token,
            idle_timeout,
            max_conns: max_conns as usize,
            tls_cert: env.tls_cert,
        },
    )
}

/// Whether `valid` answers what `ok` says.
pub open spec fn judges(valid: impl Fn(&str) -> bool, ok: spec_fn(Seq<char>) -> bool) -> bool {
    forall|s: &str, b: bool| #[trigger] valid.ensures((s,), b) ==> b == ok(s@)
}

/// The message for a variable that was refused, where `given` is what it was
/// set to.
pub open spec fn refusal_text(variable: Variable, reason: Reason, given: Seq<char>) -> Seq<char> {
    match reason {
        Reason::Required => variable.spelled() + " is required"@,
        Reason::Empty => variable.spelled() + ": the token must not be empty"@,
        Reason::NotAnAddress => variable.spelled() + ": invalid socket address syntax"@,
        Reason::Size(e) => variable.spelled() + ": "@ + e.text(given),
        Reason::Number(e) => variable.spelled() + ": "@ + e.text(),
    }
}

/// The message for a variable that was refused.
pub fn refusal(variable: Variable, reason: Reason, given: &str) -> (s: String)
    ensures
        s@ == refusal_text(variable, reason, given@),
{
    let mut s = String::new();
    s.append(variable.name());
    match reason {
        Reason::Required => s.append(" is required"),
        Reason::Empty => s.append(": the token must not be empty"),
        Reason::NotAnAddress => s.append(": invalid socket address syntax"),
        Reason::Size(e) => {
            s.append(": ");
            s.append(e.message(given).as_str());
        },
        Reason::Number(e) => {
            s.append(": ");
            s.append(e.message());
        },
    }
    assert(s@ =~= refusal_text(variable, reason, given@));
    s
}

/// The message for a variable that names what turned out to be of no use.
pub fn unusable(variable: Variable, why: &str) -> (s: String)
    ensures
        s@ == variable.spelled() + ": "@ + why@,
{
    let mut s = String::new();
    s.append(variable.name());
    s.append(": ");
    s.append(why);
    assert(s@ =~= variable.spelled() + ": "@ + why@);
    s
}

/// A setting that is refused is reported with the variable that holds it.
pub proof fn a_refusal_names_the_variable(variable: Variable, reason: Reason, given: Seq<char>)
    ensures
        variable.spelled().is_prefix_of(refusal_text(variable, reason, given)),
{
    let name = variable.spelled();
    assert(refusal_text(variable, reason, given).take(name.len() as int) =~= name);
}

// Laws of numbers and sizes

/// Digits are read one after another, up to the first thing that is wrong.
proof fn digits_in_two_parts(acc: nat, a: Seq<char>, b: Seq<char>, max: nat)
    ensures
        digits_value(acc, a + b, max) == match digits_value(acc, a, max) {
            Ok(n) => digits_value(n, b, max),
            Err(e) => Err(e),
        },
    decreases a.len(),
{
    if a.len() == 0 {
        assert(a + b =~= b);
    } else {
        assert((a + b).drop_first() =~= a.drop_first() + b);
        if is_digit(a[0]) {
            digits_in_two_parts(
                acc * 10 + (a[0] as nat - 48) as nat,
                a.drop_first(),
                b,
                max,
            );
        }
    }
}

proof fn decimal_is_digits(n: nat)
    ensures
        text::decimal(n).len() > 0,
        forall|i: int| 0 <= i < text::decimal(n).len() ==> is_digit(#[trigger] text::decimal(n)[i]),
    decreases n,
{
    if n >= 10 {
        decimal_is_digits(n / 10);
        let head = text::decimal(n / 10);
        assert forall|i: int| 0 <= i < text::decimal(n).len() implies is_digit(
            #[trigger] text::decimal(n)[i],
        ) by {
            if i < head.len() {
                assert(text::decimal(n)[i] == head[i]);
            }
        }
    }
}

proof fn decimal_digits_value(n: nat, max: nat)
    ensures
        digits_value(0, text::decimal(n), max) == if n <= max {
            Ok::<nat, NumberError>(n)
        } else {
            Err(NumberError::TooLarge)
        },
    decreases n,
{
    reveal_with_fuel(digits_value, 3);
    let last = seq![text::digit(n % 10)];
    if n >= 10 {
        decimal_digits_value(n / 10, max);
        assert(text::decimal(n) =~= text::decimal(n / 10) + last);
        digits_in_two_parts(0, text::decimal(n / 10), last, max);
        assert(last.drop_first() =~= Seq::empty());
        assert(last[0] as nat - 48 == n % 10);
    } else {
        assert(text::decimal(n) =~= last);
        assert(last.drop_first() =~= Seq::empty());
        assert(last[0] as nat - 48 == n);
    }
}

/// A number reads back as it is written, with a plus sign before it or not, and
/// is refused exactly where it is above the limit.
pub proof fn a_number_reads_back(n: nat, max: nat)
    ensures
        number(text::decimal(n), max) == if n <= max {
            Ok::<nat, NumberError>(n)
        } else {
            Err(NumberError::TooLarge)
        },
        number(seq!['+'] + text::decimal(n), max) == number(text::decimal(n), max),
{
    decimal_is_digits(n);
    decimal_digits_value(n, max);
    assert(is_digit(text::decimal(n)[0]));
    assert((seq!['+'] + text::decimal(n)).drop_first() =~= text::decimal(n));
}

/// What is not all digits is no number.
pub proof fn only_digits_are_a_number(s: Seq<char>, i: int, max: nat)
    requires
        0 < i < s.len(),
        !is_digit(s[i]),
    ensures
        number(s, max) is Err,
        !('0' <= s[0] <= '9') && s[0] != '+' ==> number(s, max) == Err::<nat, NumberError>(
            NumberError::InvalidDigit,
        ),
{
    stops_at(0, s, i, max);
    stops_at(0, s.drop_first(), i - 1, max);
}

proof fn stops_at(acc: nat, s: Seq<char>, i: int, max: nat)
    requires
        0 <= i < s.len(),
        !is_digit(s[i]),
    ensures
        digits_value(acc, s, max) is Err,
    decreases i,
{
    if i > 0 && is_digit(s[0]) {
        assert(s.drop_first()[i - 1] == s[i]);
        stops_at(acc * 10 + (s[0] as nat - 48) as nat, s.drop_first(), i - 1, max);
    }
}

/// What a suffix multiplies by: 1024 for each of K, M and G more, in either
/// case.
pub open spec fn multiplier(c: char) -> nat {
    if c == 'K' || c == 'k' {
        1024
    } else if c == 'M' || c == 'm' {
        1024 * 1024
    } else {
        1024 * 1024 * 1024
    }
}

proof fn nothing_to_trim(s: Seq<char>)
    requires
        s.len() > 0,
        !is_space(s[0]),
        !is_space(s.last()),
    ensures
        trimmed(s) == s,
{
}

/// What a size must come to: `n` times `factor` bytes, where that is something
/// and can be addressed.
pub open spec fn size_of(n: nat, factor: nat) -> Result<usize, SizeError> {
    if n > usize::MAX {
        Err(SizeError::Number(NumberError::TooLarge))
    } else if n * factor > usize::MAX {
        Err(SizeError::TooLarge)
    } else if n == 0 {
        Err(SizeError::Zero)
    } else {
        Ok((n * factor) as usize)
    }
}

/// A number alone is a size in bytes; with K, M or G behind it, in either case,
/// it is so many times 1024 to the power of one, two or three.
pub proof fn a_suffix_multiplies(n: nat, c: char)
    requires
        c == 'K' || c == 'k' || c == 'M' || c == 'm' || c == 'G' || c == 'g',
    ensures
        size(text::decimal(n)) == size_of(n, 1),
        size(text::decimal(n).push(c)) == size_of(n, multiplier(c)),
{
    let d = text::decimal(n);
    decimal_is_digits(n);
    assert(is_digit(d[0]) && is_digit(d[d.len() - 1]));
    nothing_to_trim(d);
    a_number_reads_back(n, usize::MAX as nat);
    assert(d.take(d.len() as int) =~= d);
    let s = d.push(c);
    nothing_to_trim(s);
    assert(s.take(s.len() - 1) =~= d);
    assert(n * 1 == n);
}

/// A size that ends in no digit and none of these letters is refused for that.
pub proof fn another_suffix_is_refused(s: Seq<char>, c: char)
    requires
        !('0' <= c <= '9'),
        !is_space(c),
        c != 'K' && c != 'k' && c != 'M' && c != 'm' && c != 'G' && c != 'g',
    ensures
        size(s.push(c)) == Err::<usize, SizeError>(SizeError::UnknownSuffix),
    decreases s.len(),
{
    if s.len() > 0 && is_space(s[0]) {
        assert(s.push(c).drop_first() =~= s.drop_first().push(c));
        another_suffix_is_refused(s.drop_first(), c);
    }
}

/// Space round a size does not matter.
pub proof fn space_round_a_size_does_not_matter(s: Seq<char>, c: char)
    requires
        is_space(c),
    ensures
        size(seq![c] + s) == size(s),
        size(s.push(c)) == size(s),
{
    assert((seq![c] + s).drop_first() =~= s);
    trimmed_of_more(s, c);
}

proof fn trimmed_of_more(s: Seq<char>, c: char)
    requires
        is_space(c),
    ensures
        trimmed(s.push(c)) == trimmed(s),
    decreases s.len(),
{
    if s.len() == 0 {
        assert(s.push(c).drop_first() =~= s);
    } else if is_space(s[0]) {
        assert(s.push(c).drop_first() =~= s.drop_first().push(c));
        trimmed_of_more(s.drop_first(), c);
    } else {
        assert(s.push(c).drop_last() =~= s);
    }
}

/// Blanks, tabs and line ends are space; what can be seen in ASCII is not.
pub proof fn what_is_space(c: char)
    ensures
        c == ' ' || c == '\t' || c == '\n' || c == '\r' ==> is_space(c),
        '!' <= c <= '~' ==> !is_space(c),
{
}

/// What is set is used: a number of seconds, a number of connections, and a size
/// are those that are written.
pub proof fn what_is_set_is_used(env: Env, s: Settings, n: nat)
    requires
        settings_of(env, s),
    ensures
        env.idle_timeout matches Some(t) && t@ == text::decimal(n) ==> s.idle_timeout == n,
        env.max_conns matches Some(t) && t@ == text::decimal(n) ==> s.max_conns == n,
        env.capacity matches Some(t) && t@ == text::decimal(n) ==> s.capacity == n,
        env.capacity matches Some(t) && t@ == text::decimal(n).push('G') ==> s.capacity == n
            * 1073741824,
        env.token matches Some(t) && t@ == s.token@,
        env.tls_cert == s.tls_cert,
        env.http_addr == s.http_addr,
        env.tcp_addr matches Some(t) ==> s.tcp_addr@ == t@,
{
    a_number_reads_back(n, u64::MAX as nat);
    a_number_reads_back(n, usize::MAX as nat);
    a_suffix_multiplies(n, 'G');
}

/// What is not set has its default: any address on port 4433, no HTTP, 1 GiB,
/// five minutes, ten thousand connections, no TLS.
pub proof fn what_is_not_set_has_its_default(env: Env, s: Settings)
    requires
        settings_of(env, s),
    ensures
        env.tcp_addr is None ==> s.tcp_addr@ == "0.0.0.0:4433"@,
        env.http_addr is None ==> s.http_addr is None,
        env.capacity is None ==> s.capacity == 1073741824,
        env.idle_timeout is None ==> s.idle_timeout == 300,
        env.max_conns is None ==> s.max_conns == 10000,
        env.tls_cert is None ==> s.tls_cert is None,
{
}

/// A server is not started without a token, with an empty one, or with nothing
/// to hold, to wait for or to accept.
pub proof fn nothing_and_zero_are_refused(env: Env, valid: spec_fn(Seq<char>) -> bool)
    ensures
        env.token is None ==> refused(env, valid) is Some,
        env.token matches Some(t) && t@.len() == 0 ==> refused(env, valid) is Some,
        env.capacity matches Some(t) && t@ == text::decimal(0) ==> refused(env, valid) is Some,
        env.idle_timeout matches Some(t) && t@ == text::decimal(0) ==> refused(env, valid) is Some,
        env.max_conns matches Some(t) && t@ == text::decimal(0) ==> refused(env, valid) is Some,
        env.tcp_addr matches Some(t) && !valid(t@) ==> refused(env, valid) is Some,
        env.http_addr matches Some(t) && !valid(t@) ==> refused(env, valid) is Some,
{
    a_number_reads_back(0, u64::MAX as nat);
    a_number_reads_back(0, usize::MAX as nat);
    a_suffix_multiplies(0, 'K');
}

/// A number that is refused is refused for the reason that holds of it.
pub proof fn a_refused_number_says_why(e: NumberError, given: Seq<char>)
    ensures
        NumberError::Empty.text() == "cannot parse integer from empty string"@,
        NumberError::InvalidDigit.text() == "invalid digit found in string"@,
        NumberError::TooLarge.text() == "number too large to fit in target type"@,
        NumberError::Zero.text() == "number would be zero for non-zero type"@,
        SizeError::Number(e).text(given) == e.text(),
{
}

/// Settings are refused for the first variable that is wrong, in the order of
/// the addresses, the capacity, the token and the limits; where none is, they
/// are taken.
pub proof fn the_first_wrong_variable_is_named(env: Env, valid: spec_fn(Seq<char>) -> bool)
    ensures
        ({
            let r = refused(env, valid);
            let tcp = env.tcp_addr matches Some(s) ==> valid(s@);
            let http = env.http_addr matches Some(s) ==> valid(s@);
            let capacity = env.capacity matches Some(s) ==> size(s@) is Ok;
            let token = env.token matches Some(s) && s@.len() > 0;
            let idle = env.idle_timeout matches Some(s) ==> (number(s@, u64::MAX as nat) matches Ok(
                n,
            ) && n > 0);
            let conns = env.max_conns matches Some(s) ==> (number(
                s@,
                usize::MAX as nat,
            ) matches Ok(n) && n > 0);
            &&& r is None <==> tcp && http && capacity && token && idle && conns
            &&& !tcp ==> r == Some((Variable::TcpAddr, Reason::NotAnAddress))
            &&& tcp && !http ==> r == Some((Variable::HttpAddr, Reason::NotAnAddress))
            &&& tcp && http && !capacity ==> r == Some(
                (Variable::Capacity, Reason::Size(size(env.capacity->Some_0@)->Err_0)),
            )
            &&& tcp && http && capacity && !token ==> r == Some(
                (
                    Variable::Token,
                    if env.token is None {
                        Reason::Required
                    } else {
                        Reason::Empty
                    },
                ),
            )
            &&& tcp && http && capacity && token && !idle ==> r is Some && r->Some_0.0
                == Variable::IdleTimeout
            &&& tcp && http && capacity && token && idle && !conns ==> r is Some && r->Some_0.0
                == Variable::MaxConns
        }),
{
}

/// A refusal says what is wrong with the variable.
pub proof fn a_refusal_says_what_is_wrong(variable: Variable, e: NumberError, given: Seq<char>)
    ensures
        refusal_text(variable, Reason::Required, given) == variable.spelled() + " is required"@,
        refusal_text(variable, Reason::Empty, given) == variable.spelled()
            + ": the token must not be empty"@,
        refusal_text(variable, Reason::NotAnAddress, given) == variable.spelled()
            + ": invalid socket address syntax"@,
        refusal_text(variable, Reason::Number(e), given) == variable.spelled() + ": "@ + e.text(),
        refusal_text(variable, Reason::Size(SizeError::Zero), given) == variable.spelled() + ": "@
            + "the capacity must not be zero"@,
{
}

} // verus!
