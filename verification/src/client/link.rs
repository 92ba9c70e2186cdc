//! A connection kept alive across losses: what a call does when it finds the
//! link down, and which failures end the client.
//!
//! One caller at a time opens a connection, and the others wait for it
//! ([`Supervisor::settle`]); a caller that was waiting while an attempt failed
//! shares that failure instead of making an attempt of its own. Times are
//! milliseconds on a clock of the caller's.

use super::error::Error;
use crate::wire::Status;
use bytes::Bytes;
use std::io::ErrorKind;
use vstd::prelude::*;

verus! {

/// Wait before the second reconnect attempt in a row; the first is immediate.
pub const BACKOFF_MIN: u64 = 100;

/// Every failed attempt doubles the wait, up to this.
pub const BACKOFF_MAX: u64 = 5000;

/// An error no reconnect can fix: once seen, the client is dead and every call
/// fails with it.
#[derive(Debug)]
pub enum Fatal {
    /// The token was refused on connecting: rotated or wrong, and no amount of
    /// reconnecting will change the server's mind.
    Unauthorized(String),
    /// The server sent a status byte the protocol does not have.
    InvalidStatus(u8),
    /// The server sent a frame nobody asked for: matching can't be trusted.
    Desync,
}

impl Clone for Fatal {
    fn clone(&self) -> (r: Self)
        ensures
            r == *self,
    {
        match self {
            Fatal::Unauthorized(message) => Fatal::Unauthorized(message.clone()),
            Fatal::InvalidStatus(b) => Fatal::InvalidStatus(*b),
            Fatal::Desync => Fatal::Desync,
        }
    }
}

impl Fatal {
    /// The error every call fails with.
    pub open spec fn as_error(self) -> Error {
        match self {
            Fatal::Unauthorized(message) => Error::Status { status: Status::Unauthorized, message },
            Fatal::InvalidStatus(b) => Error::InvalidStatus(b),
            Fatal::Desync => Error::Closed,
        }
    }

    /// What an error ends the client with, if it does.
    pub open spec fn found_in(e: Error) -> Option<Fatal> {
        match e {
            Error::Status { status: Status::Unauthorized, message } => Some(
                Fatal::Unauthorized(message),
            ),
            Error::InvalidStatus(b) => Some(Fatal::InvalidStatus(b)),
            _ => None,
        }
    }

    /// The error every call fails with.
    pub fn error(&self) -> (e: Error)
        ensures
            e == self.as_error(),
    {
        match self {
            Fatal::Unauthorized(message) => Error::Status {
                status: Status::Unauthorized,
                message: message.clone(),
            },
            Fatal::InvalidStatus(b) => Error::InvalidStatus(*b),
            Fatal::Desync => Error::Closed,
        }
    }

    /// Whether a failed connect and AUTH is not worth trying again, and why.
    pub fn of(e: &Error) -> (r: Option<Self>)
        ensures
            r == Fatal::found_in(*e),
    {
        match e {
            Error::Status { status: Status::Unauthorized, message } => Some(
                Fatal::Unauthorized(message.clone()),
            ),
            Error::InvalidStatus(b) => Some(Fatal::InvalidStatus(*b)),
            _ => None,
        }
    }
}

/// Why a connection ended, recorded before the callers waiting on it are woken,
/// so they know whether to reconnect.
#[derive(Debug)]
pub enum Lost {
    /// EOF, reset, I/O error, oversized response: the next call reconnects.
    Transient,
    Fatal(Fatal),
}

impl Clone for Lost {
    fn clone(&self) -> (r: Self)
        ensures
            r == *self,
    {
        match self {
            Lost::Transient => Lost::Transient,
            Lost::Fatal(f) => Lost::Fatal(f.clone()),
        }
    }
}

/// A transient reason a connect and AUTH failed, kept in a form every caller
/// waiting on that attempt can be handed.
#[derive(Debug)]
pub enum Setback {
    Io(ErrorKind, String),
    /// The server hung up before answering AUTH.
    Closed,
    /// A status other than `Unauthorized` to AUTH; not our server's doing, but
    /// not proof of a different protocol either.
    Status(Status, String),
    ResponseTooLarge(usize),
}

impl Setback {
    /// The error a caller is handed.
    pub open spec fn as_error(self) -> Error {
        match self {
            Setback::Io(kind, message) => Error::Io { kind, message },
            Setback::Closed => Error::Closed,
            Setback::Status(status, message) => Error::Status { status, message },
            Setback::ResponseTooLarge(n) => Error::ResponseTooLarge(n),
        }
    }

    /// The error a caller is handed.
    pub fn error(&self) -> (e: Error)
        ensures
            e == self.as_error(),
    {
        match self {
            Setback::Io(kind, message) => Error::Io { kind: *kind, message: message.clone() },
            Setback::Closed => Error::Closed,
            Setback::Status(status, message) => Error::Status {
                status: *status,
                message: message.clone(),
            },
            Setback::ResponseTooLarge(n) => Error::ResponseTooLarge(*n),
        }
    }
}

/// Why a connect and AUTH failed: for good, or for now.
#[derive(Debug)]
pub enum Failed {
    Fatal(Fatal),
    Setback(Setback),
}

impl Failed {
    /// What an error that AUTH can produce means.
    pub open spec fn found_in(e: Error) -> Failed {
        match Fatal::found_in(e) {
            Some(f) => Failed::Fatal(f),
            None => Failed::Setback(
                match e {
                    Error::Io { kind, message } => Setback::Io(kind, message),
                    Error::Status { status, message } => Setback::Status(status, message),
                    Error::ResponseTooLarge(n) => Setback::ResponseTooLarge(n),
                    _ => Setback::Closed,
                },
            ),
        }
    }

    /// The error the caller that made the attempt gets.
    pub open spec fn as_error(self) -> Error {
        match self {
            Failed::Fatal(f) => f.as_error(),
            Failed::Setback(s) => s.as_error(),
        }
    }

    /// Every error AUTH can produce; decoding and counting never happen on an
    /// empty reply, so those variants read as a hang-up.
    pub fn of(e: Error) -> (r: Self)
        ensures
            r == Failed::found_in(e),
    {
        match Fatal::of(&e) {
            Some(f) => Failed::Fatal(f),
            None => Failed::Setback(
                match e {
                    Error::Io { kind, message } => Setback::Io(kind, message),
                    Error::Status { status, message } => Setback::Status(status, message),
                    Error::ResponseTooLarge(n) => Setback::ResponseTooLarge(n),
                    _ => Setback::Closed,
                },
            ),
        }
    }

    pub fn error(&self) -> (e: Error)
        ensures
            e == self.as_error(),
    {
        match self {
            Failed::Fatal(f) => f.error(),
            Failed::Setback(s) => s.error(),
        }
    }
}

/// What the answer to AUTH makes of a connection that has just been opened.
pub open spec fn opening(r: Result<(Status, Bytes), Error>, lost: Option<Lost>) -> Result<
    (),
    Failed,
> {
    match r {
        Ok(_) => Ok(()),
        Err(Error::Closed) => Err(
            match lost {
                Some(Lost::Fatal(f)) => Failed::Fatal(f),
                _ => Failed::Setback(Setback::Closed),
            },
        ),
        Err(e) => Err(Failed::found_in(e)),
    }
}

/// Whether a connection is open once AUTH was answered with `r`. `lost` says
/// why it ended, if it has and that is known: a connection whose caller saw
/// `Closed` is gone either way, and whoever read from it knows whether the
/// server was speaking another protocol, which is as final as a refused token.
pub fn authenticated(r: Result<(Status, Bytes), Error>, lost: Option<Lost>) -> (o: Result<
    (),
    Failed,
>)
    ensures
        o == opening(r, lost),
{
    match r {
        Ok(_) => Ok(()),
        Err(Error::Closed) => Err(
            match lost {
                Some(Lost::Fatal(f)) => Failed::Fatal(f),
                _ => Failed::Setback(Setback::Closed),
            },
        ),
        Err(e) => Err(Failed::of(e)),
    }
}

/// When the next reconnect may start, and how long the one after it waits if
/// this one fails too.
#[derive(Debug)]
pub struct Backoff {
    pub delay: u64,
    pub not_before: u64,
    /// What the last attempt failed with, for callers that were waiting on it;
    /// `None` after a success.
    pub last: Option<Setback>,
}

/// The wait after one of `delay`.
pub open spec fn next_delay(delay: u64) -> u64 {
    if 2 * delay < BACKOFF_MAX {
        (2 * delay) as u64
    } else {
        BACKOFF_MAX
    }
}

impl Backoff {
    pub open spec fn wf(self) -> bool {
        BACKOFF_MIN <= self.delay <= BACKOFF_MAX
    }

    /// Ready at `now`.
    pub open spec fn ready(now: u64) -> Backoff {
        Backoff { delay: BACKOFF_MIN, not_before: now, last: None }
    }

    /// After one more failure.
    pub open spec fn after_failure(self, setback: Setback, now: u64) -> Backoff {
        Backoff {
            delay: next_delay(self.delay),
            not_before: (now + self.delay) as u64,
            last: Some(setback),
        }
    }

    /// Ready now: the attempt after a loss is immediate, only repeated failures
    /// wait.
    pub fn fresh(now: u64) -> (b: Self)
        ensures
            b == Backoff::ready(now),
            b.wf(),
    {
        Backoff { delay: BACKOFF_MIN, not_before: now, last: None }
    }

    pub fn failed(&mut self, setback: Setback, now: u64)
        requires
            old(self).wf(),
            now + BACKOFF_MAX <= u64::MAX,
        ensures
            *final(self) == old(self).after_failure(setback, now),
            final(self).wf(),
    {
        self.not_before = now + self.delay;
        self.delay = if 2 * self.delay < BACKOFF_MAX {
            2 * self.delay
        } else {
            BACKOFF_MAX
        };
        self.last = Some(setback);
    }
}

/// What a call finds when it starts. A connection is known by a number that no
/// other has.
#[derive(Debug)]
pub enum Link {
    Up(u64),
    /// Lost; the next call reconnects.
    Down,
    Dead(Fatal),
}

/// What a caller that found the link down does next.
#[derive(Debug)]
pub enum Settled {
    /// Go on over this connection, which another caller has opened.
    Use(u64),
    /// Fail with this.
    Fail(Error),
    /// Open a connection, not before this time.
    Connect(u64),
}

/// The state all callers of one client share.
#[derive(Debug)]
pub struct Supervisor {
    pub link: Link,
    pub backoff: Backoff,
    /// Changes when an attempt ends, so a caller that was queued while one was
    /// running can tell it happened and share its outcome instead of making its
    /// own.
    pub attempts: u64,
    pub reconnects: u64,
}

/// Whether what the caller waited for is settled already: with a connection to
/// use, or with the error that ended the client.
pub open spec fn settled(link: Link, lost: Option<Lost>, failed: Option<u64>) -> Option<
    Result<u64, Fatal>,
> {
    match link {
        Link::Up(c) => match lost {
            Some(Lost::Fatal(f)) => Some(Err(f)),
            Some(Lost::Transient) => None,
            None => if failed == Some(c) {
                None
            } else {
                Some(Ok(c))
            },
        },
        Link::Down => None,
        Link::Dead(f) => Some(Err(f)),
    }
}

impl Supervisor {
    pub open spec fn wf(self) -> bool {
        self.backoff.wf()
    }

    /// The connection to use, if there is one.
    pub open spec fn usable(self, ended: bool) -> Result<Option<u64>, Error> {
        match self.link {
            Link::Up(c) => Ok(
                if ended {
                    None
                } else {
                    Some(c)
                },
            ),
            Link::Down => Ok(None),
            Link::Dead(f) => Err(f.as_error()),
        }
    }

    /// What [`settle`](Self::settle) makes of the state, and answers.
    pub open spec fn settling(
        self,
        lost: Option<Lost>,
        failed: Option<u64>,
        seen: u64,
    ) -> (Supervisor, Settled) {
        match settled(self.link, lost, failed) {
            Some(Ok(c)) => (self, Settled::Use(c)),
            Some(Err(f)) => (
                Supervisor { link: Link::Dead(f), ..self },
                Settled::Fail(f.as_error()),
            ),
            None => (
                Supervisor { link: Link::Down, ..self },
                match self.backoff.last {
                    Some(last) if self.attempts != seen => Settled::Fail(last.as_error()),
                    _ => Settled::Connect(self.backoff.not_before),
                },
            ),
        }
    }

    /// What the end of an attempt makes of the state.
    pub open spec fn after_attempt(self, outcome: Result<u64, Failed>, now: u64) -> Supervisor {
        let attempts = self.attempts.wrapping_add(1);
        match outcome {
            Ok(c) => Supervisor {
                link: Link::Up(c),
                backoff: Backoff::ready(now),
                attempts,
                reconnects: self.reconnects.wrapping_add(1),
            },
            Err(Failed::Fatal(f)) => Supervisor { link: Link::Dead(f), attempts, ..self },
            Err(Failed::Setback(s)) => Supervisor {
                backoff: self.backoff.after_failure(s, now),
                attempts,
                ..self
            },
        }
    }

    /// A client whose connection `conn` is open.
    pub fn connected(conn: u64, now: u64) -> (s: Self)
        ensures
            s.wf(),
            s == (Supervisor {
                link: Link::Up(conn),
                backoff: Backoff::ready(now),
                attempts: 0,
                reconnects: 0,
            }),
    {
        Supervisor {
            link: Link::Up(conn),
            backoff: Backoff::fresh(now),
            attempts: 0,
            reconnects: 0,
        }
    }

    /// A client that has not connected yet: the first call opens the connection
    /// and authenticates, exactly as a reconnect does.
    pub fn lazy(now: u64) -> (s: Self)
        ensures
            s.wf(),
            s == (Supervisor {
                link: Link::Down,
                backoff: Backoff::ready(now),
                attempts: 0,
                reconnects: 0,
            }),
    {
        Supervisor { link: Link::Down, backoff: Backoff::fresh(now), attempts: 0, reconnects: 0 }
    }

    /// The connection to use, `None` if a reconnect is needed first. `ended`
    /// says whether the end of the one that is up is known already: it is not
    /// worth a call that would only come back `Closed`.
    pub fn current(&self, ended: bool) -> (r: Result<Option<u64>, Error>)
        ensures
            r == self.usable(ended),
    {
        match &self.link {
            Link::Up(c) => if ended {
                Ok(None)
            } else {
                Ok(Some(*c))
            },
            Link::Down => Ok(None),
            Link::Dead(f) => Err(f.error()),
        }
    }

    /// What a caller does after `failed` (the connection it was on, or `None`
    /// if it found the link down) stopped answering. Only one caller at a time
    /// comes here: the one that got here first has replaced or condemned the
    /// link, or failed trying. `lost` is why the connection that is up ended,
    /// if it has, and `seen` the attempts there had been when the caller began
    /// to wait.
    pub fn settle(&mut self, lost: Option<Lost>, failed: Option<u64>, seen: u64) -> (r: Settled)
        ensures
            (*final(self), r) == old(self).settling(lost, failed, seen),
            final(self).wf() == old(self).wf(),
    {
        let up: Option<u64> = match &self.link {
            Link::Up(c) => Some(*c),
            Link::Down => None,
            Link::Dead(f) => return Settled::Fail(f.error()),
        };
        if let Some(c) = up {
            match lost {
                Some(Lost::Fatal(f)) => {
                    let e = f.error();
                    self.link = Link::Dead(f);
                    return Settled::Fail(e);
                },
                Some(Lost::Transient) => {},
                // Whoever wrote to it saw the loss and nobody has recorded why.
                None => {
                    let gone = match failed {
                        Some(f) => f == c,
                        None => false,
                    };
                    if !gone {
                        return Settled::Use(c);
                    }
                },
            }
        }
        self.link = Link::Down;
        // An attempt ended while this caller was queued: its failure is this
        // caller's too, rather than the start of a second one.
        if self.attempts != seen {
            if let Some(last) = &self.backoff.last {
                return Settled::Fail(last.error());
            }
        }
        Settled::Connect(self.backoff.not_before)
    }

    /// The end of an attempt: the connection to go on over, or the error.
    pub fn opened(&mut self, outcome: Result<u64, Failed>, now: u64) -> (r: Result<u64, Error>)
        requires
            old(self).wf(),
            now + BACKOFF_MAX <= u64::MAX,
        ensures
            final(self).wf(),
            *final(self) == old(self).after_attempt(outcome, now),
            match outcome {
                Ok(c) => r == Ok::<u64, Error>(c),
                Err(f) => r == Err::<u64, Error>(f.as_error()),
            },
    {
        self.attempts = self.attempts.wrapping_add(1);
        match outcome {
            Ok(c) => {
                self.link = Link::Up(c);
                self.backoff = Backoff::fresh(now);
                self.reconnects = self.reconnects.wrapping_add(1);
                Ok(c)
            },
            Err(failed) => {
                let e = failed.error();
                match failed {
                    Failed::Fatal(f) => {
                        self.link = Link::Dead(f);
                    },
                    Failed::Setback(s) => {
                        self.backoff.failed(s, now);
                    },
                }
                Err(e)
            },
        }
    }
}

/// One request on its way: it is issued once more if the connection it was on
/// is lost.
#[derive(Clone, Copy, Debug)]
pub struct Call {
    pub retried: bool,
}

/// Whether a request that came back with `r` is issued again.
pub open spec fn reissued(retried: bool, r: Result<(Status, Bytes), Error>) -> bool {
    !retried && r == Err::<(Status, Bytes), Error>(Error::Closed)
}

impl Call {
    pub fn new() -> (c: Self)
        ensures
            !c.retried,
    {
        Call { retried: false }
    }

    /// Whether to recover the connection and issue the request again, now that
    /// it came back with `r`.
    pub fn again(&mut self, r: &Result<(Status, Bytes), Error>) -> (b: bool)
        ensures
            b == reissued(old(self).retried, *r),
            final(self).retried == (old(self).retried || b),
    {
        if self.retried {
            return false;
        }
        match r {
            Err(Error::Closed) => {
                self.retried = true;
                true
            },
            _ => false,
        }
    }
}

// Laws

/// A client that is dead stays dead: every call fails with the error that
/// ended it, whatever has become of the connection meanwhile.
pub proof fn a_dead_client_stays_dead(
    s: Supervisor,
    f: Fatal,
    ended: bool,
    lost: Option<Lost>,
    failed: Option<u64>,
    seen: u64,
)
    requires
        s.link == Link::Dead(f),
    ensures
        s.usable(ended) == Err::<Option<u64>, Error>(f.as_error()),
        s.settling(lost, failed, seen) == (s, Settled::Fail(f.as_error())),
{
}

/// A refused token, and a server that does not speak the protocol, end the
/// client with the very error they were answered with.
pub proof fn a_refused_token_ends_the_client(
    s: Supervisor,
    r: Result<(Status, Bytes), Error>,
    lost: Option<Lost>,
    conn: u64,
    now: u64,
)
    requires
        r is Err,
        Fatal::found_in(r->Err_0) is Some,
    ensures
        ({
            let outcome = match opening(r, lost) {
                Ok(_) => Ok::<u64, Failed>(conn),
                Err(f) => Err(f),
            };
            &&& outcome matches Err(f) && f.as_error() == r->Err_0
            &&& s.after_attempt(outcome, now).link matches Link::Dead(f) && f.as_error() == r->Err_0
        }),
{
}

/// An attempt that fails otherwise does not end the client: the next call tries
/// again, once the wait is over.
pub proof fn other_failures_are_tried_again(
    s: Supervisor,
    r: Result<(Status, Bytes), Error>,
    conn: u64,
    now: u64,
)
    requires
        s.link is Down,
        r is Err,
        Fatal::found_in(r->Err_0) is None,
    ensures
        ({
            let outcome = match opening(r, Some(Lost::Transient)) {
                Ok(_) => Ok::<u64, Failed>(conn),
                Err(f) => Err(f),
            };
            let t = s.after_attempt(outcome, now);
            &&& t.link is Down
            &&& t.settling(None, None, t.attempts) == (
                t,
                Settled::Connect((now + s.backoff.delay) as u64),
            )
        }),
{
}

/// A caller that was queued while an attempt failed shares its failure.
pub proof fn queued_callers_share_one_failed_attempt(
    s: Supervisor,
    setback: Setback,
    now: u64,
    failed: Option<u64>,
)
    requires
        s.link is Down,
    ensures
        ({
            let t = s.after_attempt(Err(Failed::Setback(setback)), now);
            t.settling(None, failed, s.attempts) == (t, Settled::Fail(setback.as_error()))
        }),
{
}

/// A caller that was queued while an attempt succeeded uses the connection.
pub proof fn queued_callers_use_the_new_connection(
    s: Supervisor,
    conn: u64,
    now: u64,
    failed: Option<u64>,
    seen: u64,
)
    requires
        failed != Some(conn),
    ensures
        ({
            let t = s.after_attempt(Ok(conn), now);
            t.settling(None, failed, seen) == (t, Settled::Use(conn))
        }),
{
}

/// The wait after `n` failures in a row.
pub open spec fn delay_after(n: nat) -> u64
    decreases n,
{
    if n == 0 {
        BACKOFF_MIN
    } else {
        next_delay(delay_after((n - 1) as nat))
    }
}

/// Two to the power of `n`.
pub open spec fn pow2(n: nat) -> nat
    decreases n,
{
    if n == 0 {
        1
    } else {
        2 * pow2((n - 1) as nat)
    }
}

/// Failed attempts back off from the least wait, doubling up to the longest.
pub proof fn waits_double_up_to_the_longest(n: nat)
    ensures
        delay_after(n) == if BACKOFF_MIN * pow2(n) < BACKOFF_MAX {
            BACKOFF_MIN * pow2(n)
        } else {
            BACKOFF_MAX as int
        },
    decreases n,
{
    if n > 0 {
        waits_double_up_to_the_longest((n - 1) as nat);
    }
}

/// The attempt after a loss is immediate; one after `n` failures in a row waits
/// as long as [`delay_after`] says since the last of them.
pub proof fn only_repeated_failures_wait(
    s: Supervisor,
    setback: Setback,
    conn: u64,
    now: u64,
    n: nat,
)
    requires
        s.link is Down,
        s.backoff.delay == delay_after(n),
        now + BACKOFF_MAX <= u64::MAX,
    ensures
        ({
            let t = s.after_attempt(Err(Failed::Setback(setback)), now);
            &&& t.backoff.not_before == now + delay_after(n)
            &&& t.backoff.delay == delay_after(n + 1)
        }),
        ({
            let t = s.after_attempt(Ok(conn), now);
            &&& t.backoff.delay == delay_after(0)
            &&& t.settling(Some(Lost::Transient), Some(conn), t.attempts).1 == Settled::Connect(now)
        }),
{
    waits_double_up_to_the_longest(n);
}

/// A request is issued at most twice.
pub proof fn a_call_is_reissued_once(
    first: Result<(Status, Bytes), Error>,
    second: Result<(Status, Bytes), Error>,
)
    ensures
        reissued(false, first) ==> !reissued(true, second),
        reissued(false, first) <==> first == Err::<(Status, Bytes), Error>(Error::Closed),
{
}

/// What ends a client is a refused token or a status byte that the protocol does
/// not have, and nothing else; whatever an attempt failed with is what its
/// callers are told.
pub proof fn which_failures_end_the_client(e: Error)
    ensures
        Fatal::found_in(e) is Some <==> e is InvalidStatus || (e matches Error::Status {
            status,
            ..
        } && status is Unauthorized),
        Fatal::found_in(e) matches Some(f) ==> f.as_error() == e,
        e is Io || e is Status || e is InvalidStatus || e is ResponseTooLarge || e is Closed
            ==> Failed::found_in(e).as_error() == e,
        Failed::found_in(e) is Fatal <==> Fatal::found_in(e) is Some,
{
}

/// A connection is opened exactly where AUTH was answered; one that ended before
/// is dead where whoever read from it says so.
pub proof fn what_opens_a_connection(r: Result<(Status, Bytes), Error>, lost: Option<Lost>, f: Fatal)
    ensures
        opening(r, lost) is Ok <==> r is Ok,
        r == Err::<(Status, Bytes), Error>(Error::Closed) ==> opening(
            r,
            Some(Lost::Fatal(f)),
        ) == Err::<(), Failed>(Failed::Fatal(f)),
        r == Err::<(Status, Bytes), Error>(Error::Closed) ==> opening(r, None) == Err::<(), Failed>(
            Failed::Setback(Setback::Closed),
        ),
{
}

/// A call goes over the connection that is up, as long as it has not ended, and
/// over none otherwise. One that ended for good ends the client; one that just
/// ended is opened again.
pub proof fn a_call_goes_over_what_is_up(
    s: Supervisor,
    c: u64,
    f: Fatal,
    failed: Option<u64>,
    seen: u64,
)
    requires
        s.link == Link::Up(c),
    ensures
        s.usable(false) == Ok::<Option<u64>, Error>(Some(c)),
        s.usable(true) == Ok::<Option<u64>, Error>(None),
        failed != Some(c) ==> s.settling(None, failed, seen) == (s, Settled::Use(c)),
        s.settling(Some(Lost::Fatal(f)), failed, seen).0.link == Link::Dead(f),
        s.settling(Some(Lost::Fatal(f)), failed, seen).1 == Settled::Fail(f.as_error()),
        s.settling(Some(Lost::Transient), failed, s.attempts).0.link is Down,
        s.settling(Some(Lost::Transient), failed, s.attempts).1 == Settled::Connect(
            s.backoff.not_before,
        ),
        s.settling(None, Some(c), s.attempts).1 == Settled::Connect(s.backoff.not_before),
{
}

/// The first wait is a tenth of a second; each is at least that, none is more
/// than five seconds, and each is twice the one before until then.
pub proof fn waits_in_numbers(n: nat)
    ensures
        delay_after(0) == 100,
        100 <= delay_after(n) <= delay_after(n + 1) <= 5000,
        delay_after(n + 1) == 2 * delay_after(n) || delay_after(n + 1) == 5000,
        n >= 6 ==> delay_after(n) == 5000,
    decreases n,
{
    reveal_with_fuel(delay_after, 8);
    if n > 0 {
        waits_in_numbers((n - 1) as nat);
    }
}

/// Every attempt is counted, and every connection that was opened again: those
/// who wait can tell that an attempt has ended, whichever way it did. A failed
/// one opens nothing and leaves what is up alone, unless it ends the client.
pub proof fn every_attempt_is_counted(s: Supervisor, c: u64, f: Fatal, setback: Setback, now: u64)
    ensures
        ({
            let opened = s.after_attempt(Ok(c), now);
            let ended = s.after_attempt(Err(Failed::Fatal(f)), now);
            let failed = s.after_attempt(Err(Failed::Setback(setback)), now);
            &&& opened.attempts != s.attempts && ended.attempts == opened.attempts
                && failed.attempts == opened.attempts
            &&& s.attempts < u64::MAX ==> opened.attempts == s.attempts + 1
            &&& s.reconnects < u64::MAX ==> opened.reconnects == s.reconnects + 1
            &&& ended.reconnects == s.reconnects && failed.reconnects == s.reconnects
            &&& opened.link == Link::Up(c) && ended.link == Link::Dead(f) && failed.link == s.link
            &&& opened.backoff.last is None && failed.backoff.last == Some(setback)
            &&& opened.backoff.not_before == now
        }),
{
}

} // verus!
