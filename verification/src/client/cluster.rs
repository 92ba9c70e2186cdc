//! A cluster of independent servers, the way a memcached client uses one: every
//! key belongs to exactly one server, picked by consistent hashing
//! ([`ring`](super::ring)), and the servers know nothing of each other. There
//! is no replication and no data failover: a key that moves to another server
//! is simply cold there.
//!
//! Times are milliseconds on a clock of the caller's.

use super::batch;
use super::batch::Outcome;
use super::error::Error;
use super::ring;
use super::ring::{Ring, POINTS};
use crate::buf;
use crate::text;
use crate::wire;
use crate::wire::{frames, set_body, BatchEncoder, DecodeError, Op, Status, HEADER_LEN, MAX_ITEMS};
use bytes::{Bytes, BytesMut};
use vstd::prelude::*;

verus! {

/// What a cluster does with a server that stops answering, the way memcached
/// clients that eject hosts do it: after `failures` connection failures in a
/// row the server is dropped from the ring, so its keys go to the next server
/// round, and `retry` later it is let back in. One answer of any kind (a value,
/// a miss, even a refusal) puts it back at once and clears the count.
///
/// Dropping a server moves its keys, and moves them back when it returns, so a
/// value written while it was out is not the one a later read finds: a cache
/// entry can go stale across an outage. A cluster without a policy is for those
/// who would rather see the error than the stale value.
#[derive(Clone, Copy, Debug, PartialEq, Eq, Structural)]
pub struct Failover {
    /// Connection failures in a row before the server is dropped; not zero.
    pub failures: u32,
    /// How long a dropped server stays out of the ring.
    pub retry: u64,
}

impl Default for Failover {
    /// Two failures in a row, back in after 30 s.
    fn default() -> (f: Self)
        ensures
            f.failures == 2,
            f.retry == 30000,
    {
        Failover { failures: 2, retry: 30000 }
    }
}

/// What is kept of a server: failures since the last answer and, when the
/// server has been dropped from the ring, the millisecond it may be tried again
/// at, in one word, so that an answer and a failure cannot interleave into
/// "dropped, with a clear count", which no later answer would clear. A deadline
/// is below this, which is 8900 years; both saturate rather than wrap.
pub const DEADLINE_END: u64 = 0x1_0000_0000_0000;

/// The highest count of failures the word holds.
pub const FAILURES_MAX: u32 = 0xffff;

/// A server that has never failed: in the ring, with nothing to forgive.
pub const HEALTHY: u64 = 0;

/// `n`, or `most` if that is less.
pub open spec fn at_most(n: int, most: int) -> int {
    if n < most {
        n
    } else {
        most
    }
}

/// The failures since the last answer.
pub open spec fn failures_of(health: u64) -> nat {
    (health / DEADLINE_END) as nat
}

/// When the server is in the ring again.
pub open spec fn deadline_of(health: u64) -> nat {
    (health % DEADLINE_END) as nat
}

/// Whether the server is in the ring.
pub open spec fn in_ring(health: u64, now: u64) -> bool {
    deadline_of(health) <= now
}

/// The word for a count and a deadline.
pub open spec fn word(failures: nat, deadline: nat) -> u64 {
    (at_most(failures as int, FAILURES_MAX as int) * DEADLINE_END + at_most(
        deadline as int,
        DEADLINE_END - 1,
    )) as u64
}

/// What one failure makes of the word: the server is dropped once they add up.
/// Below the limit it stays where it is, in the ring or in a drop-out window it
/// is already serving.
pub open spec fn after_failure(health: u64, failover: Option<Failover>, now: u64) -> u64 {
    let failures = failures_of(health) + 1;
    match failover {
        Some(policy) if failures >= policy.failures => word(failures, (now + policy.retry) as nat),
        _ => word(failures, deadline_of(health)),
    }
}

/// A word holds the count and the deadline it was made from, as far as they
/// fit, and is that of a healthy server only where both are zero.
pub proof fn a_word_reads_back(failures: nat, deadline: nat)
    ensures
        failures_of(word(failures, deadline)) == at_most(failures as int, FAILURES_MAX as int),
        deadline_of(word(failures, deadline)) == at_most(deadline as int, DEADLINE_END - 1),
        word(failures, deadline) == HEALTHY <==> failures == 0 && deadline == 0,
{
}

fn health(failures: u32, deadline: u64) -> (h: u64)
    ensures
        h == word(failures as nat, deadline as nat),
{
    let f: u64 = if failures < FAILURES_MAX {
        failures as u64
    } else {
        FAILURES_MAX as u64
    };
    let d: u64 = if deadline < DEADLINE_END - 1 {
        deadline
    } else {
        DEADLINE_END - 1
    };
    f * DEADLINE_END + d
}

/// Whether a server is in the ring.
pub fn is_up(health: u64, now: u64) -> (r: bool)
    ensures
        r == in_ring(health, now),
{
    health % DEADLINE_END <= now
}

/// What one connection failure makes of a server's health.
pub fn failed(seen: u64, failover: Option<Failover>, now: u64) -> (h: u64)
    ensures
        h == after_failure(seen, failover, now),
{
    let failures: u32 = (seen / DEADLINE_END) as u32 + 1;
    let deadline: u64 = match failover {
        Some(policy) => if failures >= policy.failures {
            now.saturating_add(policy.retry)
        } else {
            seen % DEADLINE_END
        },
        None => seen % DEADLINE_END,
    };
    health(failures, deadline)
}

/// Out of the ring for a whole retry window, with the count at the limit so
/// that one failure after it drops the server again.
pub fn drop_out(policy: Failover, now: u64) -> (h: u64)
    ensures
        h == word(policy.failures as nat, (now + policy.retry) as nat),
{
    health(policy.failures, now.saturating_add(policy.retry))
}

/// Whether an error says the server is not answering, as opposed to answering
/// something the call did not want. A refused token counts: the client behind
/// it is dead, so this server is out until it is replaced.
pub open spec fn no_answer(e: Error) -> bool {
    match e {
        Error::Io { .. } | Error::Closed | Error::InvalidStatus(_) => true,
        Error::Status { status, .. } => status is Unauthorized,
        _ => false,
    }
}

/// Whether an error says the server is not answering.
pub fn unreachable(e: &Error) -> (r: bool)
    ensures
        r == no_answer(*e),
{
    match e {
        Error::Io { .. } => true,
        Error::Closed => true,
        Error::InvalidStatus(_) => true,
        Error::Status { status, .. } => match status {
            Status::Unauthorized => true,
            _ => false,
        },
        _ => false,
    }
}

/// Whether an error was met before anything was asked of a server: it says
/// nothing of the server.
pub open spec fn nothing_asked(e: Error) -> bool {
    e is Serialize || e is TooManyItems || e is Pem || e is Tls
}

fn asked_nothing(e: &Error) -> (r: bool)
    ensures
        r == nothing_asked(*e),
{
    match e {
        Error::Serialize(_) => true,
        Error::TooManyItems(_) => true,
        Error::Pem { .. } => true,
        Error::Tls(_) => true,
        _ => false,
    }
}

/// Whether the outcome of a call is an answer of the server: a value, a miss,
/// even a refusal.
pub open spec fn is_answer<T>(result: Result<T, Error>) -> bool {
    match result {
        Ok(_) => true,
        Err(e) => !no_answer(e) && !nothing_asked(e),
    }
}

// Laws of the failure policy

/// The word after failures at each of `times`, with no answer between them.
pub open spec fn after_failures(health: u64, failover: Option<Failover>, times: Seq<u64>) -> u64
    decreases times.len(),
{
    if times.len() == 0 {
        health
    } else {
        after_failure(after_failures(health, failover, times.drop_last()), failover, times.last())
    }
}

/// Without a policy a server never leaves the ring, however often it fails.
pub proof fn without_a_policy_no_server_is_dropped(times: Seq<u64>, now: u64)
    ensures
        in_ring(after_failures(HEALTHY, None, times), now),
        deadline_of(after_failures(HEALTHY, None, times)) == 0,
    decreases times.len(),
{
    if times.len() > 0 {
        without_a_policy_no_server_is_dropped(times.drop_last(), now);
        let before = after_failures(HEALTHY, None, times.drop_last());
        a_word_reads_back(failures_of(before) + 1, deadline_of(before));
    }
}

/// A server that answered last is dropped by as many failures in a row as the
/// policy says, and not by fewer; it then stays out for the retry time, as far
/// as the word holds it, and is in the ring again after it.
pub proof fn a_server_is_dropped_for_the_retry_time(
    policy: Failover,
    times: Seq<u64>,
    now: u64,
)
    requires
        0 < policy.failures <= FAILURES_MAX + 1,
        times.len() <= policy.failures,
    ensures
        times.len() < policy.failures ==> in_ring(
            after_failures(HEALTHY, Some(policy), times),
            now,
        ),
        times.len() == policy.failures ==> in_ring(
            after_failures(HEALTHY, Some(policy), times),
            now,
        ) == (now >= at_most(times.last() + policy.retry, DEADLINE_END - 1)),
    decreases times.len(),
{
    if times.len() > 0 {
        below_the_limit_nothing_is_dropped(policy, times.drop_last());
        let before = after_failures(HEALTHY, Some(policy), times.drop_last());
        a_word_reads_back(failures_of(before) + 1, deadline_of(before));
        a_word_reads_back(failures_of(before) + 1, (times.last() + policy.retry) as nat);
    }
}

proof fn below_the_limit_nothing_is_dropped(policy: Failover, times: Seq<u64>)
    requires
        times.len() < policy.failures <= FAILURES_MAX + 1,
    ensures
        failures_of(after_failures(HEALTHY, Some(policy), times)) == times.len(),
        deadline_of(after_failures(HEALTHY, Some(policy), times)) == 0,
    decreases times.len(),
{
    if times.len() > 0 {
        below_the_limit_nothing_is_dropped(policy, times.drop_last());
        let before = after_failures(HEALTHY, Some(policy), times.drop_last());
        a_word_reads_back(failures_of(before) + 1, deadline_of(before));
    }
}

/// A server that was dropped and fails once more is out for another retry time,
/// counted from that failure.
pub proof fn a_dropped_server_is_dropped_again_at_once(
    policy: Failover,
    health: u64,
    at: u64,
    now: u64,
)
    requires
        failures_of(health) + 1 >= policy.failures,
    ensures
        in_ring(after_failure(health, Some(policy), at), now) == (now >= at_most(
            at + policy.retry,
            DEADLINE_END - 1,
        )),
{
    a_word_reads_back(failures_of(health) + 1, (at + policy.retry) as nat);
}

/// One answer of any kind puts a server back at once and clears the count.
pub proof fn one_answer_clears_everything<T>(
    result: Result<T, Error>,
    health: u64,
    failover: Option<Failover>,
    now: u64,
    later: u64,
)
    requires
        is_answer(result),
    ensures
        in_ring(noted(result, health, failover, now), later),
        failures_of(noted(result, health, failover, now)) == 0,
        deadline_of(noted(result, health, failover, now)) == 0,
{
}

/// Nothing but an answer clears what was counted: a failure adds to it, and a
/// call that asked nothing of the server leaves it as it is.
pub proof fn only_an_answer_clears<T>(
    result: Result<T, Error>,
    health: u64,
    failover: Option<Failover>,
    now: u64,
)
    requires
        !is_answer(result),
    ensures
        failures_of(noted(result, health, failover, now)) >= failures_of(health),
        result matches Err(e) && nothing_asked(e) ==> noted(result, health, failover, now)
            == health,
        result matches Err(e) && no_answer(e) ==> noted(result, health, failover, now)
            == after_failure(health, failover, now),
{
    match failover {
        Some(policy) => {
            a_word_reads_back(failures_of(health) + 1, (now + policy.retry) as nat);
        },
        None => {},
    }
    a_word_reads_back(failures_of(health) + 1, deadline_of(health));
}

// The servers

/// Whether no two names are the same.
pub fn distinct(names: &[String]) -> (r: bool)
    ensures
        r == ring::names_of(names@).no_duplicates(),
{
    let ghost all = ring::names_of(names@);
    let mut i: usize = 0;
    while i < names.len()
        invariant
            i <= names@.len(),
            all == ring::names_of(names@),
            forall|a: int, b: int| 0 <= a < b < i ==> all[a] != all[b],
        decreases names@.len() - i,
    {
        let mut j: usize = 0;
        while j < i
            invariant
                j <= i < names@.len(),
                all == ring::names_of(names@),
                forall|a: int| 0 <= a < j ==> all[a] != all[i as int],
            decreases i - j,
        {
            if text::same(names[j].as_str(), names[i].as_str()) {
                assert(all[j as int] == all[i as int]);
                return false;
            }
            j += 1;
        }
        i += 1;
    }
    true
}

/// A set of servers with the keyspace spread over them, each key going to the
/// server the ring gives it.
///
/// Every client of one cluster must be given the same servers under the same
/// names, the addresses as written, or they will not agree on where a key
/// lives.
pub struct Cluster {
    names: Vec<String>,
    health: Vec<u64>,
    ring: Ring,
    failover: Option<Failover>,
}

impl Cluster {
    pub closed spec fn wf(&self) -> bool {
        &&& self.ring.of(ring::names_of(self.names@))
        &&& self.health@.len() == self.names@.len()
        &&& self.names@.len() <= u32::MAX
    }

    /// The servers, in the order they were given.
    pub closed spec fn servers(&self) -> Seq<Seq<char>> {
        ring::names_of(self.names@)
    }

    /// What is kept of each server.
    pub closed spec fn healths(&self) -> Seq<u64> {
        self.health@
    }

    /// The points the servers put on the ring.
    pub closed spec fn points(&self) -> Seq<(u32, u32)> {
        self.ring.points@
    }

    pub closed spec fn policy(&self) -> Option<Failover> {
        self.failover
    }

    /// The servers that are in the ring.
    pub open spec fn up(&self, now: u64) -> spec_fn(usize) -> bool {
        let healths = self.healths();
        |s: usize| in_ring(healths[s as int], now)
    }

    /// Whether `key` belongs to server `s`.
    pub open spec fn holds(&self, key: Seq<u8>, now: u64, s: usize) -> bool {
        if self.servers().len() == 1 {
            s == 0
        } else {
            ring::located(self.points(), ring::murmur3(key), self.up(now), s)
        }
    }

    /// Whether the rest is as it was in `before`.
    pub open spec fn keeps(&self, before: &Self) -> bool {
        &&& self.servers() == before.servers()
        &&& self.points() == before.points()
        &&& self.policy() == before.policy()
    }

    /// Something is kept of each server, there is one at least, and they are
    /// the servers of the ring.
    pub proof fn every_server_is_kept_track_of(&self)
        requires
            self.wf(),
        ensures
            self.healths().len() == self.servers().len(),
            self.servers().len() > 0,
            ring::is_ring_of(self.points(), self.servers()),
    {
    }

    /// A cluster of `names`, all in the ring. There has to be one, and no two
    /// may be the same: the ring is built from the names as written, and two
    /// servers with one name would sit on top of each other.
    pub fn new(names: Vec<String>, failover: Option<Failover>) -> (c: Self)
        requires
            names@.len() > 0,
            names@.len() <= u32::MAX,
            names@.len() * POINTS * 8 <= isize::MAX,
            ring::names_of(names@).no_duplicates(),
        ensures
            c.wf(),
            c.servers() == ring::names_of(names@),
            c.policy() == failover,
            ring::is_ring_of(c.points(), c.servers()),
            c.healths() == Seq::new(names@.len(), |i: int| HEALTHY),
    {
        let ring = Ring::new(names.as_slice());
        let mut health: Vec<u64> = Vec::new();
        let n: usize = names.len();
        let mut i: usize = 0;
        while i < n
            invariant
                i <= n,
                health@ == Seq::new(i as nat, |i: int| HEALTHY),
            decreases n - i,
        {
            health.push(HEALTHY);
            assert(health@ =~= Seq::new((i + 1) as nat, |i: int| HEALTHY));
            i += 1;
        }
        Cluster { names, health, ring, failover }
    }

    pub fn len(&self) -> (n: usize)
        requires
            self.wf(),
        ensures
            n == self.servers().len(),
            n > 0,
    {
        self.names.len()
    }

    /// The name of a server.
    pub fn name(&self, node: usize) -> (s: &str)
        requires
            self.wf(),
            node < self.servers().len(),
        ensures
            s@ == self.servers()[node as int],
    {
        self.names[node].as_str()
    }

    /// Which server holds `key` right now: its own, or the one that took it
    /// over while that server is out of the ring.
    pub fn node_for(&self, key: &[u8], now: u64) -> (node: usize)
        requires
            self.wf(),
        ensures
            node < self.servers().len(),
            self.holds(key@, now, node),
    {
        if self.names.len() == 1 {
            return 0;
        }
        let health = &self.health;
        let live = |i: usize| -> (b: bool)
            requires
                i < health@.len(),
            ensures
                b == in_ring(health@[i as int], now),
            { is_up(health[i], now) };
        proof {
            let names = self.servers();
            assert forall|k: int| 0 <= k < self.ring.points@.len() implies live.requires(
                ((#[trigger] self.ring.points@[k]).1 as usize,),
            ) by {
                assert(ring::owns(names, self.ring.points@[k].1, self.ring.points@[k].0));
            }
            assert(self.ring.of(names));
        }
        let node: usize = self.ring.locate(key, live);
        proof {
            let up = self.up(now);
            assert(ring::decides(live, up));
            let k = choose|k: int| #[trigger]
                ring::nearest(
                    self.ring.points@,
                    ring::murmur3(key@),
                    ring::tried(self.ring.points@, up),
                    k,
                ) && self.ring.points@[k].1 == node;
            assert(ring::owns(self.servers(), self.ring.points@[k].1, self.ring.points@[k].0));
        }
        node
    }

    /// The servers in the ring right now, in the order they were given; the
    /// ones dropped after failing are missing until they are retried.
    pub fn live(&self, now: u64) -> (r: Vec<usize>)
        requires
            self.wf(),
        ensures
            forall|i: int, j: int| 0 <= i < j < r@.len() ==> r@[i] < r@[j],
            forall|s: usize|
                #[trigger] r@.contains(s) <==> s < self.servers().len() && in_ring(
                    self.healths()[s as int],
                    now,
                ),
    {
        let mut r: Vec<usize> = Vec::new();
        let mut i: usize = 0;
        while i < self.health.len()
            invariant
                i <= self.health@.len(),
                forall|a: int, b: int| 0 <= a < b < r@.len() ==> r@[a] < r@[b],
                forall|a: int| 0 <= a < r@.len() ==> r@[a] < i,
                forall|s: usize|
                    #[trigger] r@.contains(s) <==> s < i && in_ring(self.health@[s as int], now),
            decreases self.health@.len() - i,
        {
            let ghost before = r@;
            if is_up(self.health[i], now) {
                r.push(i);
                proof {
                    assert forall|s: usize| #[trigger]
                        r@.contains(s) <==> s < i + 1 && in_ring(self.health@[s as int], now) by {
                        if before.contains(s) {
                            let k = choose|k: int| 0 <= k < before.len() && before[k] == s;
                            assert(r@[k] == s);
                        }
                        if s == i {
                            assert(r@[before.len() as int] == s);
                        }
                        if r@.contains(s) && s != i {
                            let k = choose|k: int| 0 <= k < r@.len() && r@[k] == s;
                            assert(before[k] == s);
                        }
                    }
                }
            }
            i += 1;
        }
        r
    }

    /// Feed one call's outcome to the failure policy.
    pub fn note<T>(&mut self, node: usize, result: &Result<T, Error>, now: u64)
        requires
            old(self).wf(),
            node < old(self).servers().len(),
        ensures
            final(self).wf(),
            final(self).keeps(old(self)),
            final(self).healths() == old(self).healths().update(
                node as int,
                noted(*result, old(self).healths()[node as int], old(self).policy(), now),
            ),
    {
        let seen: u64 = self.health[node];
        let next: u64 = match result {
            Err(e) => if unreachable(e) {
                failed(seen, self.failover, now)
            } else if asked_nothing(e) {
                seen
            } else {
                HEALTHY
            },
            Ok(_) => HEALTHY,
        };
        self.health.set(node, next);
    }
}

/// What the outcome of a call makes of a server's health: a connection failure
/// counts, any answer clears what was counted, and a call that asked nothing
/// changes nothing.
pub open spec fn noted<T>(
    result: Result<T, Error>,
    health: u64,
    failover: Option<Failover>,
    now: u64,
) -> u64 {
    match result {
        Err(e) if no_answer(e) => after_failure(health, failover, now),
        Err(e) if nothing_asked(e) => health,
        _ => HEALTHY,
    }
}

/// What connecting every server of a cluster has come to.
pub struct Opening {
    pub up: bool,
    pub first: Option<Error>,
}

/// Whether an error of the first call says that the cluster is misconfigured,
/// rather than that a server is down: every server of a cluster shares one
/// token.
pub open spec fn misconfigured(e: Error) -> bool {
    e is Status || e is InvalidStatus
}

/// What the first call to one more server makes of what connecting the others
/// has come to.
pub open spec fn one_more_opened(
    before: (bool, Option<Error>),
    result: Result<(), Error>,
) -> (bool, Option<Error>) {
    match result {
        Ok(_) => (true, before.1),
        Err(e) => (
            before.0,
            if before.1 is Some {
                before.1
            } else {
                Some(e)
            },
        ),
    }
}

/// What connecting servers has come to once their first calls came back with
/// `results`, in that order.
pub open spec fn all_opened(results: Seq<Result<(), Error>>) -> (bool, Option<Error>)
    decreases results.len(),
{
    if results.len() == 0 {
        (false, None)
    } else {
        one_more_opened(all_opened(results.drop_last()), results.last())
    }
}

/// Whether there is a cluster, and what its caller hears if not.
pub open spec fn verdict(opened: (bool, Option<Error>)) -> Option<Error> {
    if opened.0 {
        None
    } else {
        opened.1
    }
}

/// The first failure once one more server was called.
pub open spec fn first_failure(before: Option<Error>, result: Result<(), Error>) -> Option<Error> {
    match (before, result) {
        (None, Err(e)) => Some(e),
        (first, _) => first,
    }
}

/// The first failure among `results`, in the order they came in.
pub open spec fn first_of(results: Seq<Result<(), Error>>) -> Option<Error>
    decreases results.len(),
{
    if results.len() == 0 {
        None
    } else {
        first_failure(first_of(results.drop_last()), results.last())
    }
}

impl Opening {
    pub fn new() -> (o: Self)
        ensures
            !o.up,
            o.first is None,
            (o.up, o.first) == all_opened(Seq::empty()),
    {
        Opening { up: false, first: None }
    }

    /// The first call to one server has come back. One that is down starts out
    /// of the ring rather than costing the first keys that hash to it a
    /// timeout; one that refuses the token, or does not speak the protocol,
    /// fails the cluster.
    pub fn joined(
        &mut self,
        cluster: &mut Cluster,
        node: usize,
        result: Result<(), Error>,
        now: u64,
    ) -> (r: Result<(), Error>)
        requires
            old(cluster).wf(),
            node < old(cluster).servers().len(),
        ensures
            final(cluster).wf(),
            final(cluster).keeps(old(cluster)),
            r is Ok ==> (final(self).up, final(self).first) == one_more_opened(
                (old(self).up, old(self).first),
                result,
            ),
            match result {
                Ok(_) => {
                    &&& r is Ok
                    &&& final(self).up
                    &&& final(self).first == old(self).first
                    &&& final(cluster).healths() == old(cluster).healths()
                },
                Err(e) => if misconfigured(e) {
                    &&& r == Err::<(), Error>(e)
                    &&& *final(self) == *old(self)
                    &&& final(cluster).healths() == old(cluster).healths()
                } else {
                    &&& r is Ok
                    &&& final(self).up == old(self).up
                    &&& final(self).first == if old(self).first is Some {
                        old(self).first
                    } else {
                        Some(e)
                    }
                    &&& final(cluster).healths() == match old(cluster).policy() {
                        Some(policy) => old(cluster).healths().update(
                            node as int,
                            word(policy.failures as nat, (now + policy.retry) as nat),
                        ),
                        None => old(cluster).healths(),
                    }
                },
            },
    {
        match result {
            Ok(()) => {
                self.up = true;
                Ok(())
            },
            Err(Error::Status { status, message }) => Err(Error::Status { status, message }),
            Err(Error::InvalidStatus(b)) => Err(Error::InvalidStatus(b)),
            Err(e) => {
                if let Some(policy) = cluster.failover {
                    cluster.health.set(node, drop_out(policy, now));
                }
                if self.first.is_none() {
                    self.first = Some(e);
                }
                Ok(())
            },
        }
    }

    /// Whether there is a cluster. Nothing to spread keys over is none; the
    /// caller hears why rather than getting one that fails every call.
    pub fn finish(self) -> (r: Result<(), Error>)
        ensures
            match r {
                Ok(_) => self.up || self.first is None,
                Err(e) => !self.up && self.first == Some(e),
            },
            match verdict((self.up, self.first)) {
                None => r is Ok,
                Some(e) => r == Err::<(), Error>(e),
            },
    {
        if self.up {
            return Ok(());
        }
        match self.first {
            Some(e) => Err(e),
            None => Ok(()),
        }
    }
}

/// The first failure of a call to every server.
pub struct Pings {
    pub first: Option<Error>,
}

impl Pings {
    pub fn new() -> (p: Self)
        ensures
            p.first is None,
            p.first == first_of(Seq::empty()),
    {
        Pings { first: None }
    }

    /// One server has answered, or failed to.
    pub fn joined(
        &mut self,
        cluster: &mut Cluster,
        node: usize,
        result: Result<(), Error>,
        now: u64,
    )
        requires
            old(cluster).wf(),
            node < old(cluster).servers().len(),
        ensures
            final(cluster).wf(),
            final(cluster).keeps(old(cluster)),
            final(cluster).healths() == old(cluster).healths().update(
                node as int,
                noted(result, old(cluster).healths()[node as int], old(cluster).policy(), now),
            ),
            final(self).first == match (old(self).first, result) {
                (None, Err(e)) => Some(e),
                (first, _) => first,
            },
            final(self).first == first_failure(old(self).first, result),
    {
        cluster.note(node, &result, now);
        if self.first.is_none() {
            if let Err(e) = result {
                self.first = Some(e);
            }
        }
    }

    /// Every server is waited for; if any of them fails, the first failure to
    /// come back is the error.
    pub fn finish(self) -> (r: Result<(), Error>)
        ensures
            match r {
                Ok(_) => self.first is None,
                Err(e) => self.first == Some(e),
            },
    {
        match self.first {
            Some(e) => Err(e),
            None => Ok(()),
        }
    }
}

// Batches

/// The key an item of a batch is routed by: GET and DEL carry the key alone,
/// and anything else but SET routes by its whole body so that the server it
/// lands on answers it.
pub open spec fn key_of(item: (u8, Seq<u8>)) -> Result<Seq<u8>, DecodeError> {
    if item.0 == Op::Put.byte() {
        match wire::parse_set(item.1) {
            Ok((key, _)) => Ok(key),
            Err(e) => Err(e),
        }
    } else {
        Ok(item.1)
    }
}

/// A SET is routed by its whole key, whatever it is and whatever is stored under
/// it: the key that a GET and a DEL of it are routed by.
pub proof fn a_set_is_routed_by_its_key(key: Seq<u8>, value: Seq<u8>)
    requires
        key.len() <= u32::MAX,
    ensures
        key_of((Op::Put.byte(), wire::set_bytes(key, value))) == Ok::<Seq<u8>, DecodeError>(key),
        key_of((Op::Get.byte(), key)) == Ok::<Seq<u8>, DecodeError>(key),
        key_of((Op::Del.byte(), key)) == Ok::<Seq<u8>, DecodeError>(key),
{
    wire::set_reads_back(key, value);
}

/// Whether item `i` is the first that has no key.
pub open spec fn first_without_key(items: Seq<(u8, Seq<u8>)>, i: int) -> bool {
    &&& 0 <= i < items.len()
    &&& key_of(items[i]) is Err
    &&& forall|j: int| 0 <= j < i ==> key_of(#[trigger] items[j]) is Ok
}

/// Whether `e` says why the first item that has no key has none.
pub open spec fn lacks_a_key(items: Seq<(u8, Seq<u8>)>, e: Error) -> bool {
    exists|i: int| #[trigger]
        first_without_key(items, i) && e == Error::Decode(key_of(items[i])->Err_0)
}

/// Whether `route` says of each item which server holds its key.
pub open spec fn routes(
    cluster: Cluster,
    items: Seq<(u8, Seq<u8>)>,
    now: u64,
    route: Seq<u32>,
) -> bool {
    &&& route.len() == items.len()
    &&& forall|i: int|
        0 <= i < items.len() ==> (#[trigger] route[i]) < cluster.servers().len() && (key_of(
            items[i],
        ) matches Ok(key) && cluster.holds(key, now, route[i] as usize))
}

/// The share of a batch that goes to one server: the request's body, and where
/// in the batch its items came from.
pub struct Share {
    pub node: usize,
    pub items: Vec<u32>,
    pub body: Bytes,
}

/// What is sent for a batch.
pub enum Plan {
    /// Nothing: an empty batch asks nobody anything.
    Nothing,
    /// All of it to one server, exactly as it was built.
    One(usize),
    /// A share to each of several.
    Split(Vec<Share>),
}

/// The items at the given places.
pub open spec fn picked(items: Seq<(u8, Seq<u8>)>, places: Seq<u32>) -> Seq<(u8, Seq<u8>)> {
    Seq::new(places.len(), |j: int| items[places[j] as int])
}

/// Whether `places` are some of the first `n`, in order, and just those that
/// `route` sends to `node`.
pub open spec fn sent_to(places: Seq<u32>, n: int, route: Seq<u32>, node: usize) -> bool {
    &&& forall|a: int, b: int| 0 <= a < b < places.len() ==> places[a] < places[b]
    &&& forall|a: int|
        0 <= a < places.len() ==> (#[trigger] places[a]) < n && route[places[a] as int] == node
    &&& forall|i: int| 0 <= i < n && #[trigger] route[i] == node ==> places.contains(i as u32)
}

/// Whether `shares` are the batch's items, each in the share of the server that
/// `route` sends it to, in the order they have in the batch.
pub open spec fn splits(
    items: Seq<(u8, Seq<u8>)>,
    route: Seq<u32>,
    shares: Seq<Share>,
) -> bool {
    &&& forall|a: int, b: int|
        0 <= a < b < shares.len() ==> (#[trigger] shares[a]).node < (#[trigger] shares[b]).node
    &&& forall|a: int| 0 <= a < shares.len() ==> is_share(items, route, #[trigger] shares[a])
    &&& forall|i: int| 0 <= i < items.len() ==> has_share(shares, #[trigger] route[i])
}

/// Whether one of the shares is the server's.
pub open spec fn has_share(shares: Seq<Share>, node: u32) -> bool {
    exists|a: int| 0 <= a < shares.len() && (#[trigger] shares[a]).node == node
}

/// Whether a share is what `route` sends to its server.
pub open spec fn is_share(items: Seq<(u8, Seq<u8>)>, route: Seq<u32>, share: Share) -> bool {
    &&& share.items@.len() > 0
    &&& sent_to(share.items@, items.len() as int, route, share.node)
    &&& wire::parse_batch(buf::bytes_seq(share.body)) == Ok::<Seq<(u8, Seq<u8>)>, DecodeError>(
        picked(items, share.items@),
    )
}

struct Group {
    enc: BatchEncoder,
    items: Vec<u32>,
}

spec fn group_is(
    items: Seq<(u8, Seq<u8>)>,
    route: Seq<u32>,
    n: int,
    node: usize,
    group: Option<Group>,
) -> bool {
    match group {
        None => forall|i: int| 0 <= i < n ==> #[trigger] route[i] != node,
        Some(g) => {
            &&& g.enc.wf()
            &&& g.items@.len() > 0
            &&& g.enc@ == picked(items, g.items@)
            &&& sent_to(g.items@, n, route, node)
            &&& wire::frames_bytes(g.enc@).len() <= wire::frames_bytes(items.take(n)).len()
            &&& g.items@.len() <= n
        },
    }
}

/// The key that an item of a batch is about.
fn item_key(op: u8, item: &[u8]) -> (r: Result<&[u8], DecodeError>)
    ensures
        match r {
            Ok(key) => key_of((op, item@)) == Ok::<Seq<u8>, DecodeError>(key@),
            Err(e) => key_of((op, item@)) == Err::<Seq<u8>, DecodeError>(e),
        },
{
    match Op::from_u8(op) {
        Some(Op::Put) => match set_body(item) {
            Ok((key, _)) => Ok(key),
            Err(e) => Err(e),
        },
        _ => Ok(item),
    }
}

impl Cluster {
    /// Where every item of a batch goes.
    fn route(&self, body: &[u8], now: u64) -> (r: Result<Vec<u32>, Error>)
        requires
            self.wf(),
        ensures
            match wire::parse_batch(body@) {
                Ok(items) => match r {
                    Ok(route) => routes(*self, items, now, route@),
                    Err(e) => lacks_a_key(items, e),
                },
                Err(d) => r == Err::<Vec<u32>, Error>(Error::Decode(d)),
            },
    {
        let mut fs = match frames(body) {
            Ok(fs) => fs,
            Err(e) => return Err(Error::Decode(e)),
        };
        let ghost items = fs@;
        let mut route: Vec<u32> = Vec::new();
        let n: usize = fs.len();
        let mut i: usize = 0;
        while i < n
            invariant
                self.wf(),
                i <= n == items.len(),
                wire::parse_batch(body@) == Ok::<Seq<(u8, Seq<u8>)>, DecodeError>(items),
                fs.wf(),
                fs@ == items.skip(i as int),
                route@.len() == i,
                forall|j: int|
                    0 <= j < i ==> (#[trigger] route@[j]) < self.servers().len() && (key_of(
                        items[j],
                    ) matches Ok(key) && self.holds(key, now, route@[j] as usize)),
            decreases n - i,
        {
            assert(items.skip(i as int).drop_first() =~= items.skip(i + 1));
            match fs.next() {
                Some((op, item)) => {
                    assert((op, item@) == items[i as int]);
                    let key = match item_key(op, item) {
                        Ok(key) => key,
                        Err(e) => {
                            proof {
                                assert forall|j: int| 0 <= j < i implies key_of(
                                    #[trigger] items[j],
                                ) is Ok by {
                                    assert(route@[j] < self.servers().len());
                                }
                                assert(first_without_key(items, i as int));
                            }
                            return Err(Error::Decode(e));
                        },
                    };
                    route.push(self.node_for(key, now) as u32);
                },
                None => {},
            }
            i += 1;
        }
        Ok(route)
    }

    /// What to send for the batch `body`, where each item goes to the server
    /// that holds its key. A batch whose keys all land on one server is sent
    /// exactly as it was built.
    pub fn plan(&self, body: &Bytes, now: u64) -> (r: Result<Plan, Error>)
        requires
            self.wf(),
            buf::bytes_seq(*body).len() <= buf::MAX_LEN,
        ensures
            match wire::parse_batch(buf::bytes_seq(*body)) {
                Ok(items) => match r {
                    Ok(plan) => exists|route: Seq<u32>| #[trigger]
                        routes(*self, items, now, route) && is_plan(items, route, plan),
                    Err(e) => lacks_a_key(items, e),
                },
                Err(d) => r == Err::<Plan, Error>(Error::Decode(d)),
            },
    {
        let whole = buf::bytes_slice(body);
        let route = match self.route(whole, now) {
            Ok(route) => route,
            Err(e) => return Err(e),
        };
        let plan = plan_for(whole, &route, self.names.len());
        assert(routes(*self, wire::parse_batch(whole@)->Ok_0, now, route@));
        Ok(plan)
    }
}

/// What to send for a batch whose items go where `route` says.
fn plan_for(body: &[u8], route: &Vec<u32>, nodes: usize) -> (plan: Plan)
    requires
        wire::parse_batch(body@) matches Ok(items) && items.len() == route@.len(),
        body@.len() <= buf::MAX_LEN,
        forall|i: int| 0 <= i < route@.len() ==> (#[trigger] route@[i]) < nodes,
    ensures
        is_plan(wire::parse_batch(body@)->Ok_0, route@, plan),
{
    if route.len() == 0 {
        return Plan::Nothing;
    }
    let ghost items = wire::parse_batch(body@)->Ok_0;
    let only: u32 = route[0];
    let mut i: usize = 1;
    while i < route.len() && route[i] == only
        invariant
            1 <= i <= route@.len(),
            forall|j: int| 0 <= j < i ==> #[trigger] route@[j] == only,
        decreases route@.len() - i,
    {
        i += 1;
    }
    if i == route.len() {
        return Plan::One(only as usize);
    }
    proof {
        wire::batch_writes_back(body@);
        assert(route@[i as int] != route@[0]);
    }
    let groups = group(body, route, nodes);
    let shares = share_out(groups, Ghost(items), Ghost(route@));
    Plan::Split(shares)
}

/// Whether a plan sends every item where `route` says, and in one request
/// where that is one server.
pub open spec fn is_plan(items: Seq<(u8, Seq<u8>)>, route: Seq<u32>, plan: Plan) -> bool {
    match plan {
        Plan::Nothing => items.len() == 0,
        Plan::One(node) => items.len() > 0 && forall|i: int|
            0 <= i < items.len() ==> #[trigger] route[i] == node,
        Plan::Split(shares) => splits(items, route, shares@) && exists|i: int|
            0 <= i < items.len() && #[trigger] route[i] != route[0],
    }
}

/// Which items each of `nodes` servers gets.
fn group(body: &[u8], route: &Vec<u32>, nodes: usize) -> (groups: Vec<Option<Group>>)
    requires
        wire::parse_batch(body@) matches Ok(items) && items.len() == route@.len(),
        body@.len() <= buf::MAX_LEN,
        forall|i: int| 0 <= i < route@.len() ==> (#[trigger] route@[i]) < nodes,
    ensures
        groups@.len() == nodes,
        forall|s: int|
            0 <= s < nodes ==> group_is(
                wire::parse_batch(body@)->Ok_0,
                route@,
                route@.len() as int,
                s as usize,
                #[trigger] groups@[s],
            ),
{
    let ghost items = wire::parse_batch(body@)->Ok_0;
    let mut groups: Vec<Option<Group>> = Vec::new();
    let mut s: usize = 0;
    while s < nodes
        invariant
            s <= nodes,
            groups@.len() == s,
            forall|t: int|
                0 <= t < s ==> group_is(items, route@, 0, t as usize, #[trigger] groups@[t]),
        decreases nodes - s,
    {
        groups.push(None);
        s += 1;
    }
    if let Ok(mut fs) = frames(body) {
        proof {
            wire::batch_writes_back(body@);
        }
        let n: usize = fs.len();
        let mut i: usize = 0;
        while i < n
            invariant
                i <= n == items.len(),
                n == route@.len() <= MAX_ITEMS,
                forall|i: int| 0 <= i < route@.len() ==> (#[trigger] route@[i]) < nodes,
                fs.wf(),
                fs@ == items.skip(i as int),
                wire::bodies_fit(items),
                4 + wire::frames_bytes(items).len() <= buf::MAX_LEN,
                groups@.len() == nodes,
                forall|t: int|
                    0 <= t < nodes ==> group_is(
                        items,
                        route@,
                        i as int,
                        t as usize,
                        #[trigger] groups@[t],
                    ),
            decreases n - i,
        {
            proof {
                assert(items.skip(i as int).drop_first() =~= items.skip(i + 1));
                assert(items.take(i + 1).drop_last() =~= items.take(i as int));
                wire::frame_position(items, i as int);
            }
            match fs.next() {
                Some((op, item)) => {
                    let at: usize = route[i] as usize;
                    let ghost before = groups@;
                    let added = match groups[at].take() {
                        Some(g) => g,
                        None => Group { enc: BatchEncoder::new(), items: Vec::new() },
                    };
                    assert((op, item@) == items[i as int]);
                    let g = put_item(
                        added,
                        op,
                        item,
                        i as u32,
                        Ghost(items),
                        Ghost(route@),
                        Ghost(before[at as int]),
                    );
                    groups.set(at, Some(g));
                    proof {
                        assert forall|t: int| 0 <= t < nodes implies group_is(
                            items,
                            route@,
                            i + 1,
                            t as usize,
                            #[trigger] groups@[t],
                        ) by {
                            if t != at {
                                group_skips(items, route@, i as int, t as usize, before[t]);
                            }
                        }
                    }
                },
                None => {},
            }
            i += 1;
        }
    }
    groups
}

proof fn group_skips(
    items: Seq<(u8, Seq<u8>)>,
    route: Seq<u32>,
    i: int,
    node: usize,
    group: Option<Group>,
)
    requires
        0 <= i < items.len() == route.len(),
        group_is(items, route, i, node, group),
        route[i] != node,
    ensures
        group_is(items, route, i + 1, node, group),
{
    wire::frame_position(items, i);
}

/// Adds item `i` to the group it belongs to.
fn put_item(
    group: Group,
    op: u8,
    item: &[u8],
    i: u32,
    items: Ghost<Seq<(u8, Seq<u8>)>>,
    route: Ghost<Seq<u32>>,
    before: Ghost<Option<Group>>,
) -> (g: Group)
    requires
        i < items@.len() == route@.len(),
        items@.len() <= MAX_ITEMS,
        items@[i as int] == (op, item@),
        wire::bodies_fit(items@),
        4 + wire::frames_bytes(items@).len() <= buf::MAX_LEN,
        group_is(items@, route@, i as int, route@[i as int] as usize, before@),
        match before@ {
            Some(b) => group == b,
            None => group.enc.wf() && group.enc@.len() == 0 && group.items@.len() == 0,
        },
    ensures
        group_is(items@, route@, i + 1, route@[i as int] as usize, Some(g)),
{
    let mut g = group;
    proof {
        wire::frame_position(items@, i as int);
        assert(wire::frames_bytes(g.enc@).len() <= wire::frames_bytes(
            items@.take(i as int),
        ).len());
    }
    g.enc.push(op, item);
    g.items.push(i);
    proof {
        assert(g.enc@.drop_last() =~= group.enc@);
        assert(g.enc@ =~= picked(items@, g.items@));
        let node = route@[i as int] as usize;
        assert forall|j: int| 0 <= j < i + 1 && #[trigger] route@[j] == node implies g.items@.contains(
            j as u32,
        ) by {
            if j < i {
                assert(group.items@.contains(j as u32));
                let k = choose|k: int|
                    0 <= k < group.items@.len() && group.items@[k] == j as u32;
                assert(g.items@[k] == j as u32);
            } else {
                assert(g.items@[g.items@.len() - 1] == j as u32);
            }
        }
    }
    g
}

/// The shares of the servers that have one.
fn share_out(
    groups: Vec<Option<Group>>,
    items: Ghost<Seq<(u8, Seq<u8>)>>,
    route: Ghost<Seq<u32>>,
) -> (shares: Vec<Share>)
    requires
        items@.len() == route@.len() <= MAX_ITEMS,
        forall|i: int| 0 <= i < route@.len() ==> (#[trigger] route@[i]) < groups@.len(),
        forall|s: int|
            0 <= s < groups@.len() ==> group_is(
                items@,
                route@,
                route@.len() as int,
                s as usize,
                #[trigger] groups@[s],
            ),
    ensures
        splits(items@, route@, shares@),
{
    let mut groups = groups;
    let ghost all = groups@;
    let nodes: usize = groups.len();
    let mut shares: Vec<Share> = Vec::new();
    let mut s: usize = 0;
    while s < nodes
        invariant
            s <= nodes == groups@.len() == all.len(),
            items@.len() == route@.len() <= MAX_ITEMS,
            forall|t: int| s <= t < nodes ==> groups@[t] == all[t],
            forall|t: int|
                0 <= t < nodes ==> group_is(
                    items@,
                    route@,
                    route@.len() as int,
                    t as usize,
                    #[trigger] all[t],
                ),
            forall|a: int| 0 <= a < shares@.len() ==> (#[trigger] shares@[a]).node < s,
            forall|a: int, b: int|
                0 <= a < b < shares@.len() ==> (#[trigger] shares@[a]).node < (
                #[trigger] shares@[b]).node,
            forall|a: int|
                0 <= a < shares@.len() ==> is_share(items@, route@, #[trigger] shares@[a]),
            forall|i: int|
                0 <= i < items@.len() && (#[trigger] route@[i]) < s ==> has_share(
                    shares@,
                    route@[i],
                ),
        decreases nodes - s,
    {
        let ghost before = shares@;
        match groups[s].take() {
            Some(g) => {
                assert(group_is(items@, route@, route@.len() as int, s, all[s as int]));
                let body = g.enc.finish();
                shares.push(Share { node: s, items: g.items, body });
                assert(is_share(items@, route@, shares@[before.len() as int]));
            },
            None => {},
        }
        proof {
            assert forall|i: int|
                0 <= i < items@.len() && (#[trigger] route@[i]) < s + 1 implies has_share(
                shares@,
                route@[i],
            ) by {
                if route@[i] < s {
                    assert(has_share(before, route@[i]));
                    let a = choose|a: int|
                        0 <= a < before.len() && (#[trigger] before[a]).node == route@[i];
                    assert(shares@[a].node == route@[i]);
                } else {
                    assert(group_is(items@, route@, route@.len() as int, s, all[s as int]));
                    assert(shares@[before.len() as int].node == route@[i]);
                }
            }
        }
        s += 1;
    }
    shares
}

/// What is known of the answers once the items at `places` are answered with
/// `replies`.
pub open spec fn placed(
    answers: Map<int, (u8, Seq<u8>)>,
    places: Seq<u32>,
    replies: Seq<(u8, Seq<u8>)>,
) -> Map<int, (u8, Seq<u8>)>
    decreases places.len(),
{
    if places.len() == 0 {
        answers
    } else {
        placed(answers, places.drop_last(), replies.drop_last()).insert(
            places.last() as int,
            replies.last(),
        )
    }
}

/// Bytes of the bodies of replies.
pub open spec fn bodies_len(replies: Seq<(u8, Seq<u8>)>) -> nat
    decreases replies.len(),
{
    if replies.len() == 0 {
        0
    } else {
        bodies_len(replies.drop_last()) + replies.last().1.len()
    }
}

/// Why the reply to a share of `n` items is no use, if it is not: the answers
/// of several servers together could pass what an offset holds.
pub open spec fn useless(result: Result<(Status, Bytes), Error>, size: nat, n: nat) -> Option<
    Error,
> {
    match result {
        Err(e) => Some(e),
        Ok((_, body)) => {
            let total = size + buf::bytes_seq(body).len();
            if total > u32::MAX {
                Some(Error::ResponseTooLarge(total as usize))
            } else {
                match wire::parse_batch(buf::bytes_seq(body)) {
                    Err(d) => Some(Error::Decode(d)),
                    Ok(fs) => if fs.len() != n {
                        Some(Error::Count { expected: n as usize, got: fs.len() as usize })
                    } else {
                        None
                    },
                }
            }
        },
    }
}

/// The replies to the shares of a batch, put together. They land out of order
/// and are copied into one buffer that the outcome indexes, so slots read as if
/// one server had answered.
pub struct Merge {
    merged: BytesMut,
    index: Vec<(u8, u32, u32)>,
    failure: Option<Error>,
    answers: Ghost<Map<int, (u8, Seq<u8>)>>,
}

impl Merge {
    pub closed spec fn wf(&self) -> bool {
        &&& self.size() <= u32::MAX
        &&& forall|i: int|
            0 <= i < self.index@.len() ==> batch::entry_fits(
                buf::mut_seq(self.merged),
                #[trigger] self.index@[i],
            )
        &&& forall|i: int|
            0 <= i < self.index@.len() ==> batch::entry(
                buf::mut_seq(self.merged),
                #[trigger] self.index@[i],
            ) == self.answer_at(i)
        &&& forall|i: int| #[trigger]
            self.answers@.dom().contains(i) ==> 0 <= i < self.index@.len()
    }

    spec fn answer_at(&self, i: int) -> (u8, Seq<u8>) {
        if self.answers@.dom().contains(i) {
            self.answers@[i]
        } else {
            (Status::Success.byte(), Seq::empty())
        }
    }

    /// Items of the batch.
    pub closed spec fn items(&self) -> nat {
        self.index@.len()
    }

    /// Bytes of replies so far.
    pub closed spec fn size(&self) -> nat {
        buf::mut_seq(self.merged).len()
    }

    /// The answers so far, by their place in the batch.
    pub closed spec fn answered(&self) -> Map<int, (u8, Seq<u8>)> {
        self.answers@
    }

    /// The first thing that went wrong.
    pub closed spec fn failed(&self) -> Option<Error> {
        self.failure
    }

    /// Nothing answered yet of a batch of `n` items.
    pub fn new(n: usize) -> (m: Self)
        ensures
            m.wf(),
            m.items() == n,
            m.size() == 0,
            m.answered() == Map::<int, (u8, Seq<u8>)>::empty(),
            m.failed() is None,
    {
        let mut index: Vec<(u8, u32, u32)> = Vec::new();
        let mut i: usize = 0;
        while i < n
            invariant
                i <= n,
                index@ == Seq::new(i as nat, |j: int| (0u8, 0u32, 0u32)),
            decreases n - i,
        {
            index.push((0, 0, 0));
            assert(index@ =~= Seq::new((i + 1) as nat, |j: int| (0u8, 0u32, 0u32)));
            i += 1;
        }
        let m = Merge {
            merged: BytesMut::with_capacity(0),
            index,
            failure: None,
            answers: Ghost(Map::empty()),
        };
        proof {
            let all = buf::mut_seq(m.merged);
            assert(all.subrange(0, 0) =~= Seq::empty());
        }
        m
    }

    /// The reply to one share has come. Every server is waited for even once
    /// one has failed: they are all applying their share.
    pub fn joined(&mut self, items: &Vec<u32>, result: Result<(Status, Bytes), Error>)
        requires
            old(self).wf(),
            items@.len() <= MAX_ITEMS,
            forall|a: int| 0 <= a < items@.len() ==> (#[trigger] items@[a]) < old(self).items(),
            result matches Ok((_, body)) ==> old(self).size() + buf::bytes_seq(body).len()
                <= buf::MAX_LEN,
        ensures
            final(self).wf(),
            final(self).items() == old(self).items(),
            ({
                let wrong = useless(result, old(self).size(), items@.len());
                &&& final(self).failed() == if old(self).failed() is Some {
                    old(self).failed()
                } else {
                    wrong
                }
                &&& wrong is Some ==> final(self).answered() == old(self).answered() && final(
                    self).size() == old(self).size()
                &&& wrong is None ==> final(self).answered() == placed(
                    old(self).answered(),
                    items@,
                    wire::parse_batch(buf::bytes_seq(result->Ok_0.1))->Ok_0,
                ) && final(self).size() == old(self).size() + bodies_len(
                    wire::parse_batch(buf::bytes_seq(result->Ok_0.1))->Ok_0,
                )
            }),
    {
        let r = match result {
            Ok((_, body)) => self.merge(items, body),
            Err(e) => Err(e),
        };
        if let Err(e) = r {
            if self.failure.is_none() {
                self.failure = Some(e);
            }
        }
    }

    /// Copy one server's replies behind those merged before and record where
    /// each of them landed, under the batch positions in `items`.
    fn merge(&mut self, items: &Vec<u32>, replies: Bytes) -> (r: Result<(), Error>)
        requires
            old(self).wf(),
            items@.len() <= MAX_ITEMS,
            forall|a: int| 0 <= a < items@.len() ==> (#[trigger] items@[a]) < old(self).items(),
            old(self).size() + buf::bytes_seq(replies).len() <= buf::MAX_LEN,
        ensures
            final(self).wf(),
            final(self).items() == old(self).items(),
            final(self).failed() == old(self).failed(),
            ({
                let result = Ok::<(Status, Bytes), Error>((Status::Success, replies));
                match useless(result, old(self).size(), items@.len()) {
                    Some(e) => r == Err::<(), Error>(e) && final(self).answered() == old(
                        self).answered() && final(self).size() == old(self).size(),
                    None => r is Ok && final(self).answered() == placed(
                        old(self).answered(),
                        items@,
                        wire::parse_batch(buf::bytes_seq(replies))->Ok_0,
                    ) && final(self).size() == old(self).size() + bodies_len(
                        wire::parse_batch(buf::bytes_seq(replies))->Ok_0,
                    ),
                }
            }),
    {
        let total: usize = self.merged.len() + replies.len();
        if total as u64 > u32::MAX as u64 {
            return Err(Error::ResponseTooLarge(total));
        }
        let whole = buf::bytes_slice(&replies);
        let mut fs = match frames(whole) {
            Ok(fs) => fs,
            Err(e) => return Err(Error::Decode(e)),
        };
        let n: usize = fs.len();
        if n != items.len() {
            return Err(Error::Count { expected: items.len(), got: n });
        }
        self.merged.reserve(replies.len());
        let ghost all = fs@;
        proof {
            wire::batch_writes_back(whole@);
            assert(all.take(0) =~= Seq::empty());
            assert(items@.take(0) =~= Seq::empty());
        }
        let mut j: usize = 0;
        while j < n
            invariant
                j <= n == items@.len() == all.len(),
                self.wf(),
                self.items() == old(self).items(),
                self.failed() == old(self).failed(),
                forall|a: int| 0 <= a < items@.len() ==> (#[trigger] items@[a]) < self.items(),
                fs.wf(),
                fs@ == all.skip(j as int),
                self.answered() == placed(
                    old(self).answered(),
                    items@.take(j as int),
                    all.take(j as int),
                ),
                self.size() == old(self).size() + bodies_len(all.take(j as int)),
                self.size() <= old(self).size() + wire::frames_bytes(all.take(j as int)).len(),
                old(self).size() + 4 + wire::frames_bytes(all).len() <= u32::MAX,
                old(self).size() + 4 + wire::frames_bytes(all).len() <= buf::MAX_LEN,
            decreases n - j,
        {
            proof {
                wire::frame_position(all, j as int);
                assert(all.skip(j as int).drop_first() =~= all.skip(j + 1));
                assert(all.take(j + 1).drop_last() =~= all.take(j as int));
                assert(items@.take(j + 1).drop_last() =~= items@.take(j as int));
            }
            match fs.next() {
                Some((status, body)) => {
                    self.place(items[j] as usize, status, body);
                },
                None => {},
            }
            j += 1;
        }
        proof {
            assert(all.take(n as int) =~= all);
            assert(items@.take(n as int) =~= items@);
        }
        Ok(())
    }

    /// Records the answer to item `i`.
    fn place(&mut self, i: usize, status: u8, body: &[u8])
        requires
            old(self).wf(),
            i < old(self).items(),
            old(self).size() + body@.len() <= u32::MAX,
            old(self).size() + body@.len() <= buf::MAX_LEN,
        ensures
            final(self).wf(),
            final(self).items() == old(self).items(),
            final(self).failed() == old(self).failed(),
            final(self).size() == old(self).size() + body@.len(),
            final(self).answered() == old(self).answered().insert(i as int, (status, body@)),
    {
        let ghost before = buf::mut_seq(self.merged);
        let ghost index = self.index@;
        self.index.set(i, (status, self.merged.len() as u32, body.len() as u32));
        buf::put_slice(&mut self.merged, body);
        proof {
            self.answers@ = self.answers@.insert(i as int, (status, body@));
            let all = buf::mut_seq(self.merged);
            assert forall|k: int| 0 <= k < self.index@.len() implies batch::entry_fits(
                all,
                #[trigger] self.index@[k],
            ) && batch::entry(all, self.index@[k]) == self.answer_at(k) by {
                if k != i {
                    let at = index[k];
                    assert(batch::entry_fits(before, at));
                    assert(batch::entry(before, at) == old(self).answer_at(k));
                    assert(all.subrange(at.1 as int, at.1 + at.2) =~= before.subrange(
                        at.1 as int,
                        at.1 + at.2,
                    ));
                } else {
                    assert(all.subrange(before.len() as int, all.len() as int) =~= body@);
                }
            }
        }
    }

    /// The answers, or the first thing that went wrong: the whole call fails
    /// if any of its requests does.
    pub fn finish(self) -> (r: Result<Outcome, Error>)
        requires
            self.wf(),
        ensures
            match r {
                Ok(o) => self.failed() is None && o.wf() && o@.len() == self.items() && forall|
                    i: int,
                |
                    0 <= i < self.items() ==> #[trigger] o@[i] == if self.answered().dom().contains(
                        i,
                    ) {
                        self.answered()[i]
                    } else {
                        (Status::Success.byte(), Seq::empty())
                    },
                Err(e) => self.failed() == Some(e),
            },
    {
        match self.failure {
            Some(e) => Err(e),
            None => Ok(Outcome { body: self.merged.freeze(), index: self.index }),
        }
    }
}

// Laws of batches

/// What is known once the shares in `order` have been answered, item for item,
/// with what `answers` says.
pub open spec fn gathered(
    shares: Seq<Share>,
    answers: Seq<(u8, Seq<u8>)>,
    order: Seq<int>,
) -> Map<int, (u8, Seq<u8>)>
    decreases order.len(),
{
    if order.len() == 0 {
        Map::empty()
    } else {
        let share = shares[order.last()];
        placed(
            gathered(shares, answers, order.drop_last()),
            share.items@,
            picked(answers, share.items@),
        )
    }
}

/// A batch that is split over the servers is answered as if one had got it
/// whole: whichever order the replies come in, every item has its own answer
/// under its own place.
pub proof fn a_split_batch_is_answered_in_order(
    items: Seq<(u8, Seq<u8>)>,
    route: Seq<u32>,
    shares: Seq<Share>,
    answers: Seq<(u8, Seq<u8>)>,
    order: Seq<int>,
)
    requires
        splits(items, route, shares),
        items.len() <= MAX_ITEMS,
        items.len() == answers.len() == route.len(),
        forall|k: int| 0 <= k < order.len() ==> 0 <= #[trigger] order[k] < shares.len(),
        forall|a: int| 0 <= a < shares.len() ==> order.contains(a),
    ensures
        gathered(shares, answers, order) == Map::new(
            |i: int| 0 <= i < items.len(),
            |i: int| answers[i],
        ),
{
    let all = gathered(shares, answers, order);
    gathered_is(items, route, shares, answers, order);
    assert forall|i: int| 0 <= i < items.len() implies all.dom().contains(i) by {
        assert(has_share(shares, route[i]));
        let a = choose|a: int| 0 <= a < shares.len() && (#[trigger] shares[a]).node == route[i];
        assert(is_share(items, route, shares[a]));
        assert(shares[a].items@.contains(i as u32));
        assert(order.contains(a));
        let k = choose|k: int| 0 <= k < order.len() && order[k] == a;
        assert(shares[order[k]].items@.contains(i as u32));
    }
    assert(all =~= Map::new(|i: int| 0 <= i < items.len(), |i: int| answers[i]));
}

proof fn gathered_is(
    items: Seq<(u8, Seq<u8>)>,
    route: Seq<u32>,
    shares: Seq<Share>,
    answers: Seq<(u8, Seq<u8>)>,
    order: Seq<int>,
)
    requires
        splits(items, route, shares),
        items.len() <= MAX_ITEMS,
        forall|k: int| 0 <= k < order.len() ==> 0 <= #[trigger] order[k] < shares.len(),
    ensures
        forall|i: int| #[trigger]
            gathered(shares, answers, order).dom().contains(i) ==> 0 <= i < items.len() && gathered(
                shares,
                answers,
                order,
            )[i] == answers[i],
        forall|i: int, k: int|
            0 <= i < items.len() && 0 <= k < order.len()
                && #[trigger] shares[order[k]].items@.contains(i as u32)
                ==> #[trigger] gathered(shares, answers, order).dom().contains(i),
    decreases order.len(),
{
    if order.len() > 0 {
        let head = order.drop_last();
        gathered_is(items, route, shares, answers, head);
        let share = shares[order.last()];
        assert(is_share(items, route, share));
        let before = gathered(shares, answers, head);
        let after = gathered(shares, answers, order);
        assert forall|i: int| #[trigger] after.dom().contains(i) implies 0 <= i < items.len()
            && after[i] == answers[i] by {
            placed_is(before, share.items@, answers, i);
            if !share.items@.contains(i as u32) || i > u32::MAX || i < 0 {
                assert(before.dom().contains(i));
            } else {
                let k = choose|k: int| 0 <= k < share.items@.len() && share.items@[k] == i as u32;
                assert(share.items@[k] < items.len());
            }
        }
        assert forall|i: int, k: int|
            0 <= i < items.len() && 0 <= k < order.len()
                && #[trigger] shares[order[k]].items@.contains(
                i as u32,
            ) implies #[trigger] after.dom().contains(i) by {
            placed_is(before, share.items@, answers, i);
            if k < head.len() {
                assert(shares[head[k]].items@.contains(i as u32));
                assert(before.dom().contains(i));
            }
        }
    }
}

proof fn placed_is(
    known: Map<int, (u8, Seq<u8>)>,
    places: Seq<u32>,
    answers: Seq<(u8, Seq<u8>)>,
    i: int,
)
    ensures
        ({
            let after = placed(known, places, picked(answers, places));
            let here = 0 <= i <= u32::MAX && places.contains(i as u32);
            &&& after.dom().contains(i) == (known.dom().contains(i) || here)
            &&& here ==> after[i] == answers[i]
            &&& !here ==> after[i] == known[i]
        }),
    decreases places.len(),
{
    if places.len() > 0 {
        let head = places.drop_last();
        placed_is(known, head, answers, i);
        assert(picked(answers, places).drop_last() =~= picked(answers, head));
        if i == places.last() {
            assert(places[places.len() - 1] == i as u32);
        } else if 0 <= i <= u32::MAX {
            if head.contains(i as u32) {
                let k = choose|k: int| 0 <= k < head.len() && head[k] == i as u32;
                assert(places[k] == i as u32);
            }
            if places.contains(i as u32) {
                let k = choose|k: int| 0 <= k < places.len() && places[k] == i as u32;
                assert(head[k] == i as u32);
            }
        }
    }
}

/// In a batch, a GET or DEL goes to the very server that a SET of the same key
/// goes to, which is the one that holds the key for any single call.
pub proof fn a_get_goes_where_a_set_went(
    c: Cluster,
    now: u64,
    items: Seq<(u8, Seq<u8>)>,
    route: Seq<u32>,
    i: int,
    j: int,
    key: Seq<u8>,
    value: Seq<u8>,
)
    requires
        c.wf(),
        routes(c, items, now, route),
        key.len() <= u32::MAX,
        0 <= i < items.len(),
        0 <= j < items.len(),
        items[i] == (Op::Put.byte(), wire::set_bytes(key, value)),
        items[j] == (Op::Get.byte(), key) || items[j] == (Op::Del.byte(), key),
    ensures
        c.holds(key, now, route[i] as usize),
        forall|s: usize| #[trigger] c.holds(key, now, s) ==> s == route[i],
        route[i] == route[j],
{
    a_set_is_routed_by_its_key(key, value);
    c.every_server_is_kept_track_of();
    assert(route[i] < c.servers().len() && route[j] < c.servers().len());
    if c.servers().len() > 1 {
        ring::a_key_has_one_server(c.points(), c.servers(), ring::murmur3(key), c.up(now));
    }
    assert(c.holds(key, now, route[j] as usize));
}

/// With several servers, a key is held by the one that has the first point at or
/// after the hash of the whole key, among those in the ring.
pub proof fn a_key_is_held_by_the_next_server(c: Cluster, key: Seq<u8>, now: u64, s: usize)
    requires
        c.wf(),
        c.servers().len() > 1,
        c.holds(key, now, s),
        exists|k: int|
            0 <= k < c.points().len() && in_ring(
                c.healths()[(#[trigger] c.points()[k]).1 as int],
                now,
            ),
    ensures
        in_ring(c.healths()[s as int], now),
        ({
            let h = ring::murmur3(key);
            exists|k: int|
                0 <= k < c.points().len() && (#[trigger] c.points()[k]).1 == s && forall|j: int|
                    0 <= j < c.points().len() && in_ring(
                        c.healths()[(#[trigger] c.points()[j]).1 as int],
                        now,
                    ) ==> if c.points()[k].0 >= h {
                        c.points()[j].0 < h || c.points()[j].0 >= c.points()[k].0
                    } else {
                        c.points()[j].0 < h && c.points()[j].0 >= c.points()[k].0
                    }
        }),
{
    let up = c.up(now);
    let k = choose|k: int|
        0 <= k < c.points().len() && in_ring(
            c.healths()[(#[trigger] c.points()[k]).1 as int],
            now,
        );
    assert(up(c.points()[k].1 as usize));
    let h = ring::murmur3(key);
    ring::a_key_belongs_to_the_next_point(c.points(), h, up, s);
    let k = choose|k: int|
        0 <= k < c.points().len() && (#[trigger] c.points()[k]).1 == s && forall|j: int|
            0 <= j < c.points().len() && up((#[trigger] c.points()[j]).1 as usize) ==> if c.points()[k].0
                >= h {
                c.points()[j].0 < h || c.points()[j].0 >= c.points()[k].0
            } else {
                c.points()[j].0 < h && c.points()[j].0 >= c.points()[k].0
            };
    assert(c.points()[k].1 == s);
    assert forall|j: int|
        0 <= j < c.points().len() && in_ring(
            c.healths()[(#[trigger] c.points()[j]).1 as int],
            now,
        ) implies if c.points()[k].0 >= h {
        c.points()[j].0 < h || c.points()[j].0 >= c.points()[k].0
    } else {
        c.points()[j].0 < h && c.points()[j].0 >= c.points()[k].0
    } by {
        assert(up(c.points()[j].1 as usize));
    }
}

/// Which outcomes count against a server: no connection, a connection that
/// ended, a status the protocol does not have, and a refused token. Any other
/// error leaves the server in the ring.
pub proof fn only_a_server_that_does_not_answer_fails(e: Error, health: u64, policy: Failover, now: u64)
    requires
        health == HEALTHY,
        policy.failures == 1,
        0 < policy.retry,
        now + policy.retry < DEADLINE_END,
    ensures
        in_ring(noted(Err::<(), Error>(e), health, Some(policy), now), now) <==> !(e is Io
            || e is Closed || e is InvalidStatus || (e matches Error::Status { status, .. }
            && status is Unauthorized)),
{
    a_word_reads_back(1, (now + policy.retry) as nat);
}

/// A batch that is split asks for each item once: of the server that holds its
/// key, under the place the item has, and as it was built.
pub proof fn every_item_is_sent_once(
    items: Seq<(u8, Seq<u8>)>,
    route: Seq<u32>,
    shares: Seq<Share>,
    i: int,
)
    requires
        splits(items, route, shares),
        items.len() == route.len() <= MAX_ITEMS,
        0 <= i < items.len(),
    ensures
        exists|a: int, j: int|
            0 <= a < shares.len() && 0 <= j < shares[a].items@.len() && shares[a].node == route[i]
                && #[trigger] shares[a].items@[j] == i && (wire::parse_batch(
                buf::bytes_seq(shares[a].body),
            ) matches Ok(sent) && sent.len() == shares[a].items@.len() && sent[j] == items[i]),
        forall|a: int, j: int, b: int, k: int|
            0 <= a < shares.len() && 0 <= j < shares[a].items@.len() && 0 <= b < shares.len() && 0
                <= k < shares[b].items@.len() && #[trigger] shares[a].items@[j] == i
                && #[trigger] shares[b].items@[k] == i ==> a == b && j == k,
{
    assert(has_share(shares, route[i]));
    let a = choose|a: int| 0 <= a < shares.len() && (#[trigger] shares[a]).node == route[i];
    assert(is_share(items, route, shares[a]));
    assert(shares[a].items@.contains(i as u32));
    let j = choose|j: int| 0 <= j < shares[a].items@.len() && shares[a].items@[j] == i as u32;
    assert(shares[a].items@[j] == i);
    assert(picked(items, shares[a].items@)[j] == items[i]);
    assert forall|a: int, j: int, b: int, k: int|
        0 <= a < shares.len() && 0 <= j < shares[a].items@.len() && 0 <= b < shares.len() && 0 <= k
            < shares[b].items@.len() && #[trigger] shares[a].items@[j] == i
            && #[trigger] shares[b].items@[k] == i implies a == b && j == k by {
        assert(is_share(items, route, shares[a]) && is_share(items, route, shares[b]));
        assert(shares[a].node == route[i] && shares[b].node == route[i]);
        if a < b {
            assert(shares[a].node < shares[b].node);
        } else if b < a {
            assert(shares[b].node < shares[a].node);
        }
    }
}

/// A batch is split just where its keys are on several servers: it goes whole to
/// the one that has them all, and an empty one to nobody.
pub proof fn a_batch_is_split_where_it_must_be(
    items: Seq<(u8, Seq<u8>)>,
    route: Seq<u32>,
    plan: Plan,
)
    requires
        items.len() == route.len(),
        is_plan(items, route, plan),
    ensures
        plan is Nothing <==> items.len() == 0,
        plan matches Plan::One(n) ==> forall|i: int| 0 <= i < route.len() ==> #[trigger] route[i]
            == n,
        plan matches Plan::Split(shares) ==> splits(items, route, shares@) && exists|i: int, j: int|
            0 <= i < route.len() && 0 <= j < route.len() && #[trigger] route[i]
                != #[trigger] route[j],
{
}

/// There is a cluster as soon as one server could be connected, whichever it is
/// and whatever became of the others. Where none could, the caller hears of the
/// first that could not. A server that refuses the token, or answers with a
/// status that the protocol does not have, fails the cluster.
pub proof fn one_server_is_enough(results: Seq<Result<(), Error>>, i: int, e: Error)
    requires
        0 <= i < results.len(),
    ensures
        results[i] is Ok ==> verdict(all_opened(results)) is None,
        results[0] == Err::<(), Error>(e) && (forall|j: int|
            0 <= j < results.len() ==> (#[trigger] results[j]) is Err) ==> verdict(
            all_opened(results),
        ) == Some(e),
        misconfigured(e) <==> e is Status || e is InvalidStatus,
{
    opened_is(results);
}

proof fn opened_is(results: Seq<Result<(), Error>>)
    ensures
        all_opened(results).0 <==> exists|i: int|
            0 <= i < results.len() && (#[trigger] results[i]) is Ok,
        all_opened(results).1 == first_of(results),
        first_of(results) is None <==> forall|i: int|
            0 <= i < results.len() ==> (#[trigger] results[i]) is Ok,
        forall|i: int|
            0 <= i < results.len() && (#[trigger] results[i]) is Err && (forall|j: int|
                0 <= j < i ==> (#[trigger] results[j]) is Ok) ==> first_of(results) == Some(
                results[i]->Err_0,
            ),
    decreases results.len(),
{
    if results.len() > 0 {
        let head = results.drop_last();
        let n = head.len() as int;
        opened_is(head);
        assert forall|i: int| 0 <= i < n implies #[trigger] head[i] == results[i] by {}
        if all_opened(head).0 {
            let i = choose|i: int| 0 <= i < head.len() && (#[trigger] head[i]) is Ok;
            assert(results[i] is Ok);
        }
        if results[n] is Ok {
            assert(all_opened(results).0);
        }
        assert(all_opened(results).0 <==> exists|i: int|
            0 <= i < results.len() && (#[trigger] results[i]) is Ok) by {
            if exists|i: int| 0 <= i < results.len() && (#[trigger] results[i]) is Ok {
                let i = choose|i: int| 0 <= i < results.len() && (#[trigger] results[i]) is Ok;
                if i < n {
                    assert(head[i] is Ok);
                }
            }
        }
        assert(first_of(results) is None <==> forall|i: int|
            0 <= i < results.len() ==> (#[trigger] results[i]) is Ok) by {
            if forall|i: int| 0 <= i < results.len() ==> (#[trigger] results[i]) is Ok {
                assert forall|i: int| 0 <= i < head.len() implies (#[trigger] head[i]) is Ok by {
                    assert(results[i] is Ok);
                }
            }
            if first_of(results) is None {
                assert forall|i: int| 0 <= i < results.len() implies (#[trigger] results[i]) is Ok by {
                    if i < n {
                        assert(head[i] is Ok);
                    }
                }
            }
        }
        assert forall|i: int|
            0 <= i < results.len() && (#[trigger] results[i]) is Err && (forall|j: int|
                0 <= j < i ==> (#[trigger] results[j]) is Ok) implies first_of(results) == Some(
            results[i]->Err_0,
        ) by {
            if i < n {
                assert(head[i] is Err);
                assert forall|j: int| 0 <= j < i implies (#[trigger] head[j]) is Ok by {
                    assert(results[j] is Ok);
                }
            } else {
                assert forall|j: int| 0 <= j < head.len() implies (#[trigger] head[j]) is Ok by {
                    assert(results[j] is Ok);
                }
            }
        }
    }
}

/// A call to every server succeeds where all of them do, and else fails with the
/// first failure that came back.
pub proof fn every_server_must_answer(results: Seq<Result<(), Error>>, i: int)
    ensures
        first_of(results) is None <==> forall|j: int|
            0 <= j < results.len() ==> (#[trigger] results[j]) is Ok,
        0 <= i < results.len() && results[i] is Err && (forall|j: int|
            0 <= j < i ==> (#[trigger] results[j]) is Ok) ==> first_of(results) == Some(
            results[i]->Err_0,
        ),
{
    opened_is(results);
}

/// A server that could not be connected is out of the ring for the retry time
/// and back in after it, and one failure more drops it again.
pub proof fn a_server_that_is_down_starts_out(policy: Failover, at: u64, now: u64)
    requires
        at + policy.retry < DEADLINE_END,
        policy.failures <= FAILURES_MAX,
    ensures
        ({
            let health = word(policy.failures as nat, (at + policy.retry) as nat);
            &&& in_ring(health, now) <==> now >= at + policy.retry
            &&& now + policy.retry < DEADLINE_END ==> (in_ring(
                after_failure(health, Some(policy), now),
                now,
            ) <==> policy.retry == 0)
        }),
{
    a_word_reads_back(policy.failures as nat, (at + policy.retry) as nat);
    a_word_reads_back((policy.failures + 1) as nat, (now + policy.retry) as nat);
}

/// Which errors are answers, which clear what was counted against a server: any
/// refusal but that of the token, and whatever came back that was not what the
/// call wanted. What fails before anything is sent says nothing of the server.
pub proof fn which_errors_are_answers(e: Error, health: u64, failover: Option<Failover>, now: u64)
    ensures
        ({
            let after = noted(Err::<(), Error>(e), health, failover, now);
            &&& e is Decode || e is ResponseTooLarge || e is Deserialize || e is Count ==> after == 0
            &&& (e matches Error::Status { status, .. } && !(status is Unauthorized)) ==> after == 0
            &&& e is Serialize || e is TooManyItems || e is Pem || e is Tls ==> after == health
            &&& noted(Ok::<(), Error>(()), health, failover, now) == 0
        }),
{
}

/// The replies to a share are taken where they are one for each of its items,
/// and there is room for them: beside those of other servers, up to 4 GiB in
/// all.
pub proof fn replies_are_taken_item_for_item(status: Status, body: Bytes, size: nat, n: nat)
    ensures
        ({
            let r = useless(Ok((status, body)), size, n);
            let got = wire::parse_batch(buf::bytes_seq(body));
            &&& r is None <==> size + buf::bytes_seq(body).len() < 0x1_0000_0000 && (got matches Ok(
                fs,
            ) && fs.len() == n)
            &&& size + buf::bytes_seq(body).len() < 0x1_0000_0000 && got is Err ==> r == Some(
                Error::Decode(got->Err_0),
            )
            &&& size + buf::bytes_seq(body).len() >= 0x1_0000_0000 ==> r is Some && r->Some_0
                is ResponseTooLarge
        }),
        forall|e: Error| #[trigger] useless(Err(e), size, n) == Some(e),
{
}

/// Whatever is not a SET is routed by its whole body. A SET whose body holds no
/// key is not routed at all: the batch is refused, for the first such item.
pub proof fn only_a_set_can_lack_a_key(items: Seq<(u8, Seq<u8>)>, e: Error, i: int)
    requires
        0 <= i < items.len(),
    ensures
        items[i].0 != 2 ==> key_of(items[i]) == Ok::<Seq<u8>, DecodeError>(items[i].1),
        items[i].0 == 2 ==> (key_of(items[i]) is Err <==> wire::parse_set(items[i].1) is Err),
        lacks_a_key(items, e) ==> e is Decode,
        (forall|j: int|
            0 <= j < items.len() && (#[trigger] items[j]).0 == 2 ==> wire::parse_set(
                items[j].1,
            ) is Ok) ==> !lacks_a_key(items, e),
        items[i].0 == 2 && wire::parse_set(items[i].1) is Err && (forall|j: int|
            0 <= j < i && (#[trigger] items[j]).0 == 2 ==> wire::parse_set(items[j].1) is Ok) ==> (
        lacks_a_key(items, e) <==> e == Error::Decode(wire::parse_set(items[i].1)->Err_0)),
{
    if items[i].0 == 2 && wire::parse_set(items[i].1) is Err && (forall|j: int|
        0 <= j < i && (#[trigger] items[j]).0 == 2 ==> wire::parse_set(items[j].1) is Ok) {
        assert(first_without_key(items, i));
        if lacks_a_key(items, e) {
            let j = choose|j: int| #[trigger]
                first_without_key(items, j) && e == Error::Decode(key_of(items[j])->Err_0);
            if j < i {
                assert(key_of(items[j]) is Ok);
            } else if i < j {
                assert(key_of(items[i]) is Ok);
            }
        }
    }
}

} // verus!
