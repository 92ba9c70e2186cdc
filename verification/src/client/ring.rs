//! The consistent-hash ring a cluster picks a server with: every key belongs
//! to one server, and adding or losing a server moves only the keys that
//! server owns instead of reshuffling all of them.
//!
//! Every client of one cluster has to agree on the mapping, so the recipe
//! is fixed and spelled out rather than tuned:
//!
//! * a hash is MurmurHash3's 32-bit x86 variant with seed 0, which spreads
//!   near-identical names over the whole word;
//! * each server puts [`POINTS`] points on the ring, at
//!   `hash("<name>#<i>")` for `i` in `0..POINTS`;
//! * points are sorted by hash, and of two points with the same hash only
//!   the one whose server name sorts first survives, so the ring does not
//!   depend on the order the servers were listed in;
//! * a key belongs to the first point at or after its own hash, wrapping
//!   round the end.

use crate::text;
use vstd::prelude::*;
use vstd::slice::{slice_subrange, slice_to_vec};
use vstd::utf8;

verus! {

/// Points one server puts on the ring.
pub const POINTS: u32 = 512;

// The hash

/// `x` turned left by `n` bits.
pub open spec fn rotl(x: u32, n: u32) -> u32 {
    (x << n) | (x >> ((32 - n) as u32))
}

pub open spec fn scramble_of(k: u32) -> u32 {
    rotl(k.wrapping_mul(0xcc9e_2d51), 15).wrapping_mul(0x1b87_3593)
}

/// Murmur3's finaliser.
pub open spec fn fmix32_of(h: u32) -> u32 {
    let a = (h ^ (h >> 16)).wrapping_mul(0x85eb_ca6b);
    let b = (a ^ (a >> 13)).wrapping_mul(0xc2b2_ae35);
    b ^ (b >> 16)
}

/// Up to four bytes as a number, least significant first.
pub open spec fn word_of(b: Seq<u8>) -> u32
    decreases b.len(),
{
    if b.len() == 0 {
        0
    } else {
        (b[0] + 256 * word_of(b.drop_first())) as u32
    }
}

/// One block mixed in.
pub open spec fn mixed(h: u32, k: u32) -> u32 {
    rotl(h ^ scramble_of(k), 13).wrapping_mul(5).wrapping_add(0xe654_6b64)
}

/// All whole blocks mixed in, then what is left over.
pub open spec fn blocks_of(h: u32, b: Seq<u8>) -> u32
    decreases b.len(),
{
    if b.len() >= 4 {
        blocks_of(mixed(h, word_of(b.take(4))), b.skip(4))
    } else if b.len() > 0 {
        h ^ scramble_of(word_of(b))
    } else {
        h
    }
}

/// MurmurHash3's 32-bit x86 variant with seed 0.
pub open spec fn murmur3(b: Seq<u8>) -> u32 {
    fmix32_of(blocks_of(0, b) ^ ((b.len() % 0x1_0000_0000) as u32))
}

fn scramble(k: u32) -> (r: u32)
    ensures
        r == scramble_of(k),
{
    let x: u32 = k.wrapping_mul(0xcc9e_2d51);
    ((x << 15) | (x >> 17)).wrapping_mul(0x1b87_3593)
}

/// Murmur3's finaliser: a bijection that spreads every input bit over the
/// whole word.
pub fn fmix32(h: u32) -> (r: u32)
    ensures
        r == fmix32_of(h),
{
    let a: u32 = (h ^ (h >> 16)).wrapping_mul(0x85eb_ca6b);
    let b: u32 = (a ^ (a >> 13)).wrapping_mul(0xc2b2_ae35);
    b ^ (b >> 16)
}

/// Where `bytes` land on the ring: MurmurHash3's 32-bit x86 variant with
/// seed 0.
pub fn hash(bytes: &[u8]) -> (r: u32)
    ensures
        r == murmur3(bytes@),
{
    let mut h: u32 = 0;
    let mut rest = bytes;
    while rest.len() >= 4
        invariant
            blocks_of(h, rest@) == blocks_of(0, bytes@),
        decreases rest@.len(),
    {
        let ghost b = rest@;
        let k: u32 = rest[0] as u32 + 256 * rest[1] as u32 + 65536 * rest[2] as u32 + 16777216
            * rest[3] as u32;
        proof {
            reveal_with_fuel(word_of, 5);
            let t = b.take(4);
            assert(t.drop_first().drop_first().drop_first().drop_first().len() == 0);
            assert(k == word_of(t));
        }
        let x: u32 = h ^ scramble(k);
        h = ((x << 13) | (x >> 19)).wrapping_mul(5).wrapping_add(0xe654_6b64);
        rest = slice_subrange(rest, 4, rest.len());
        assert(rest@ =~= b.skip(4));
    }
    if rest.len() > 0 {
        let mut k: u32 = rest[0] as u32;
        if rest.len() > 1 {
            k = k + 256 * rest[1] as u32;
        }
        if rest.len() > 2 {
            k = k + 65536 * rest[2] as u32;
        }
        proof {
            reveal_with_fuel(word_of, 4);
            assert(k == word_of(rest@));
        }
        h = h ^ scramble(k);
    }
    fmix32(h ^ ((bytes.len() as u64 % 0x1_0000_0000) as u32))
}

// The order of names

/// Byte strings in the order of a dictionary.
pub open spec fn sorts_before(a: Seq<u8>, b: Seq<u8>) -> bool
    decreases a.len(),
{
    if a.len() == 0 {
        true
    } else if b.len() == 0 {
        false
    } else {
        a[0] < b[0] || (a[0] == b[0] && sorts_before(a.drop_first(), b.drop_first()))
    }
}

proof fn order_is_total(a: Seq<u8>, b: Seq<u8>)
    ensures
        sorts_before(a, b) || sorts_before(b, a),
    decreases a.len(),
{
    if a.len() > 0 && b.len() > 0 {
        order_is_total(a.drop_first(), b.drop_first());
    }
}

proof fn order_is_transitive(a: Seq<u8>, b: Seq<u8>, c: Seq<u8>)
    requires
        sorts_before(a, b),
        sorts_before(b, c),
    ensures
        sorts_before(a, c),
    decreases a.len(),
{
    if a.len() > 0 && a[0] == b[0] && b[0] == c[0] {
        order_is_transitive(a.drop_first(), b.drop_first(), c.drop_first());
    }
}

proof fn order_is_antisymmetric(a: Seq<u8>, b: Seq<u8>)
    requires
        sorts_before(a, b),
        sorts_before(b, a),
    ensures
        a == b,
    decreases a.len(),
{
    if a.len() > 0 {
        order_is_antisymmetric(a.drop_first(), b.drop_first());
        assert(a =~= seq![a[0]] + a.drop_first());
        assert(b =~= seq![b[0]] + b.drop_first());
    } else {
        assert(a =~= b);
    }
}

fn in_order(a: &[u8], b: &[u8]) -> (r: bool)
    ensures
        r == sorts_before(a@, b@),
{
    let mut i: usize = 0;
    assert(a@.skip(0) =~= a@);
    assert(b@.skip(0) =~= b@);
    while i < a.len() && i < b.len() && a[i] == b[i]
        invariant
            i <= a@.len(),
            i <= b@.len(),
            sorts_before(a@, b@) == sorts_before(a@.skip(i as int), b@.skip(i as int)),
        decreases a@.len() - i,
    {
        assert(a@.skip(i as int).drop_first() =~= a@.skip(i + 1));
        assert(b@.skip(i as int).drop_first() =~= b@.skip(i + 1));
        i += 1;
    }
    if i == a.len() {
        true
    } else if i == b.len() {
        false
    } else {
        a[i] < b[i]
    }
}

// Points

/// Where point `p` of a server lies.
pub open spec fn point_of(name: Seq<char>, p: nat) -> u32 {
    murmur3(utf8::encode_utf8(name + "#"@ + text::decimal(p)))
}

/// Whether one of a server's points lies at `h`.
pub open spec fn has_point(name: Seq<char>, h: u32) -> bool {
    exists|p: nat| p < POINTS && point_of(name, p) == h
}

/// Whether name `a` sorts before name `b`, or is the same.
pub open spec fn name_order(a: Seq<char>, b: Seq<char>) -> bool {
    sorts_before(utf8::encode_utf8(a), utf8::encode_utf8(b))
}

/// The names of `servers`.
pub open spec fn names_of(servers: Seq<String>) -> Seq<Seq<char>> {
    Seq::new(servers.len(), |i: int| servers[i]@)
}

/// The points by hash, those at one hash by name.
pub open spec fn point_order(names: Seq<Seq<char>>, a: (u32, u32), b: (u32, u32)) -> bool {
    a.0 < b.0 || (a.0 == b.0 && name_order(names[a.1 as int], names[b.1 as int]))
}

proof fn point_order_is_transitive(
    names: Seq<Seq<char>>,
    a: (u32, u32),
    b: (u32, u32),
    c: (u32, u32),
)
    requires
        point_order(names, a, b),
        point_order(names, b, c),
    ensures
        point_order(names, a, c),
{
    if a.0 == b.0 && b.0 == c.0 {
        order_is_transitive(
            utf8::encode_utf8(names[a.1 as int]),
            utf8::encode_utf8(names[b.1 as int]),
            utf8::encode_utf8(names[c.1 as int]),
        );
    }
}

spec fn indexes(points: Seq<(u32, u32)>, n: nat) -> bool {
    forall|k: int| 0 <= k < points.len() ==> (#[trigger] points[k]).1 < n
}

spec fn sorted(names: Seq<Seq<char>>, points: Seq<(u32, u32)>) -> bool {
    forall|i: int, j: int|
        0 <= i <= j < points.len() ==> point_order(names, #[trigger] points[i], #[trigger] points[j])
}

spec fn within(s: Seq<(u32, u32)>, n: int, x: (u32, u32)) -> bool {
    exists|k: int| 0 <= k < n && s[k] == x
}

spec fn same_points(a: Seq<(u32, u32)>, b: Seq<(u32, u32)>) -> bool {
    forall|x: (u32, u32)| #[trigger] within(a, a.len() as int, x) == within(b, b.len() as int, x)
}

fn in_point_order(servers: &[String], a: (u32, u32), b: (u32, u32)) -> (r: bool)
    requires
        a.1 < servers@.len(),
        b.1 < servers@.len(),
    ensures
        r == point_order(names_of(servers@), a, b),
{
    if a.0 != b.0 {
        a.0 < b.0
    } else {
        in_order(
            servers[a.1 as usize].as_str().as_bytes(),
            servers[b.1 as usize].as_str().as_bytes(),
        )
    }
}

/// Two sorted runs as one.
fn merge(servers: &[String], a: &Vec<(u32, u32)>, b: &Vec<(u32, u32)>) -> (r: Vec<(u32, u32)>)
    requires
        indexes(a@, servers@.len()),
        indexes(b@, servers@.len()),
        sorted(names_of(servers@), a@),
        sorted(names_of(servers@), b@),
        a@.len() + b@.len() <= usize::MAX,
    ensures
        indexes(r@, servers@.len()),
        sorted(names_of(servers@), r@),
        r@.len() == a@.len() + b@.len(),
        forall|x: (u32, u32)| #[trigger]
            within(r@, r@.len() as int, x) == (within(a@, a@.len() as int, x) || within(
                b@,
                b@.len() as int,
                x,
            )),
{
    let ghost names = names_of(servers@);
    let mut r: Vec<(u32, u32)> = Vec::with_capacity(a.len() + b.len());
    let mut i: usize = 0;
    let mut j: usize = 0;
    while i < a.len() || j < b.len()
        invariant
            indexes(a@, servers@.len()),
            indexes(b@, servers@.len()),
            sorted(names, a@),
            sorted(names, b@),
            names == names_of(servers@),
            i <= a@.len(),
            j <= b@.len(),
            r@.len() == i + j,
            indexes(r@, servers@.len()),
            sorted(names, r@),
            forall|k: int, m: int|
                0 <= k < r@.len() && i <= m < a@.len() ==> point_order(
                    names,
                    #[trigger] r@[k],
                    #[trigger] a@[m],
                ),
            forall|k: int, m: int|
                0 <= k < r@.len() && j <= m < b@.len() ==> point_order(
                    names,
                    #[trigger] r@[k],
                    #[trigger] b@[m],
                ),
            forall|x: (u32, u32)| #[trigger]
                within(r@, r@.len() as int, x) == (within(a@, i as int, x) || within(
                    b@,
                    j as int,
                    x,
                )),
        decreases a@.len() - i + b@.len() - j,
    {
        let ghost before = r@;
        let first = j == b.len() || (i < a.len() && in_point_order(servers, a[i], b[j]));
        if first {
            let x = a[i];
            r.push(x);
            proof {
                if j < b@.len() {
                    assert forall|m: int| j <= m < b@.len() implies point_order(
                        names,
                        x,
                        #[trigger] b@[m],
                    ) by {
                        point_order_is_transitive(names, x, b@[j as int], b@[m]);
                    }
                }
                within_grows(a@, i as int);
            }
            i += 1;
        } else {
            let x = b[j];
            r.push(x);
            proof {
                if i < a@.len() {
                    order_is_total(
                        utf8::encode_utf8(names[a@[i as int].1 as int]),
                        utf8::encode_utf8(names[x.1 as int]),
                    );
                    assert forall|m: int| i <= m < a@.len() implies point_order(
                        names,
                        x,
                        #[trigger] a@[m],
                    ) by {
                        point_order_is_transitive(names, x, a@[i as int], a@[m]);
                    }
                }
                within_grows(b@, j as int);
            }
            j += 1;
        }
        proof {
            assert(r@.take(before.len() as int) =~= before);
            within_is_kept(before, r@);
            within_grows(r@, before.len() as int);
        }
    }
    r
}

proof fn within_grows(s: Seq<(u32, u32)>, n: int)
    requires
        0 <= n < s.len(),
    ensures
        forall|x: (u32, u32)| #[trigger] within(s, n + 1, x) == (within(s, n, x) || x == s[n]),
{
    assert forall|x: (u32, u32)| #[trigger]
        within(s, n + 1, x) == (within(s, n, x) || x == s[n]) by {
        if within(s, n, x) {
            let k = choose|k: int| 0 <= k < n && s[k] == x;
            assert(0 <= k < n + 1 && s[k] == x);
        }
        if x == s[n] {
            assert(0 <= n < n + 1 && s[n] == x);
        }
    }
}

proof fn within_is_kept(s: Seq<(u32, u32)>, t: Seq<(u32, u32)>)
    requires
        s.len() <= t.len(),
        t.take(s.len() as int) == s,
    ensures
        forall|x: (u32, u32)| #[trigger]
            within(t, s.len() as int, x) == within(s, s.len() as int, x),
{
    assert(forall|k: int| 0 <= k < s.len() ==> #[trigger] t[k] == s[k]) by {
        assert(forall|k: int| 0 <= k < s.len() ==> t.take(s.len() as int)[k] == t[k]);
    }
    assert(forall|k: int| 0 <= k < s.len() ==> t[k] == #[trigger] s[k]);
}

/// The points in order.
fn sort(servers: &[String], points: &[(u32, u32)]) -> (r: Vec<(u32, u32)>)
    requires
        indexes(points@, servers@.len()),
    ensures
        indexes(r@, servers@.len()),
        sorted(names_of(servers@), r@),
        r@.len() == points@.len(),
        same_points(r@, points@),
    decreases points@.len(),
{
    let n: usize = points.len();
    if n < 2 {
        let r = slice_to_vec(points);
        proof {
            if n == 1 {
                let b = utf8::encode_utf8(names_of(servers@)[r@[0].1 as int]);
                order_is_total(b, b);
            }
        }
        return r;
    }
    let low = slice_subrange(points, 0, n / 2);
    let high = slice_subrange(points, n / 2, n);
    let a = sort(servers, low);
    let b = sort(servers, high);
    let r = merge(servers, &a, &b);
    proof {
        assert forall|x: (u32, u32)| #[trigger] within(r@, n as int, x) == within(
            points@,
            n as int,
            x,
        ) by {
            assert(within(r@, n as int, x) == (within(low@, low@.len() as int, x) || within(
                high@,
                high@.len() as int,
                x,
            )));
            if within(points@, n as int, x) {
                let k = choose|k: int| 0 <= k < n && points@[k] == x;
                if k < n / 2 {
                    assert(low@[k] == x);
                } else {
                    assert(high@[k - n / 2] == x);
                }
            }
            if within(low@, low@.len() as int, x) {
                let k = choose|k: int| 0 <= k < low@.len() && low@[k] == x;
                assert(points@[k] == x);
            }
            if within(high@, high@.len() as int, x) {
                let k = choose|k: int| 0 <= k < high@.len() && high@[k] == x;
                assert(points@[k + n / 2] == x);
            }
        }
    }
    r
}

/// Whether `points` are the ring of the servers `names`: sorted by hash, every
/// point of every server there, and each with the server that has a point
/// there and whose name sorts first.
pub open spec fn is_ring_of(points: Seq<(u32, u32)>, names: Seq<Seq<char>>) -> bool {
    &&& forall|i: int, j: int|
        0 <= i < j < points.len() ==> (#[trigger] points[i]).0 < (#[trigger] points[j]).0
    &&& forall|k: int| 0 <= k < points.len() ==> owns(names, (#[trigger] points[k]).1, points[k].0)
    &&& forall|s: int, h: u32|
        0 <= s < names.len() && #[trigger] has_point(names[s], h) ==> on_ring(points, h)
}

/// Whether server `s` has a point at `h`, and no server with a name that sorts
/// before its has one there.
pub open spec fn owns(names: Seq<Seq<char>>, s: u32, h: u32) -> bool {
    &&& s < names.len()
    &&& has_point(names[s as int], h)
    &&& forall|t: int|
        0 <= t < names.len() && #[trigger] has_point(names[t], h) ==> name_order(
            names[s as int],
            names[t],
        )
}

/// Whether some point lies at `h`.
pub open spec fn on_ring(points: Seq<(u32, u32)>, h: u32) -> bool {
    exists|k: int| 0 <= k < points.len() && (#[trigger] points[k]).0 == h
}

/// How far clockwise `point` is from `h`.
pub open spec fn distance(h: u32, point: u32) -> int {
    if point >= h {
        point - h
    } else {
        point - h + 0x1_0000_0000
    }
}

/// Whether point `k` is the first one clockwise from `h` whose server `up`
/// accepts.
pub open spec fn nearest(
    points: Seq<(u32, u32)>,
    h: u32,
    up: spec_fn(usize) -> bool,
    k: int,
) -> bool {
    &&& 0 <= k < points.len()
    &&& up(points[k].1 as usize)
    &&& forall|j: int|
        0 <= j < points.len() && up((#[trigger] points[j]).1 as usize) ==> distance(h, points[k].0)
            <= distance(h, points[j].0)
}

/// Whether `up` accepts none of the servers.
pub open spec fn all_down(points: Seq<(u32, u32)>, up: spec_fn(usize) -> bool) -> bool {
    forall|k: int| 0 <= k < points.len() ==> !up((#[trigger] points[k]).1 as usize)
}

/// Every server accepted.
pub open spec fn anyone() -> spec_fn(usize) -> bool {
    |s: usize| true
}

/// The servers that are tried: those `up` accepts, and every one where it
/// accepts none.
pub open spec fn tried(points: Seq<(u32, u32)>, up: spec_fn(usize) -> bool) -> spec_fn(
    usize,
) -> bool {
    if all_down(points, up) {
        anyone()
    } else {
        up
    }
}

/// Whether server `s` is where a key with hash `h` belongs: the first one
/// clockwise that `up` accepts, and with every server refused the first one.
pub open spec fn located(
    points: Seq<(u32, u32)>,
    h: u32,
    up: spec_fn(usize) -> bool,
    s: usize,
) -> bool {
    exists|k: int| #[trigger] nearest(points, h, tried(points, up), k) && points[k].1 == s
}

/// The servers of a cluster as points on a circle. Built once, read by every
/// call.
pub struct Ring {
    /// Hash and server index, sorted by hash and free of duplicates.
    pub points: Vec<(u32, u32)>,
}

/// The points of all `servers`, unsorted.
fn all_points(servers: &[String]) -> (r: Vec<(u32, u32)>)
    requires
        servers@.len() <= u32::MAX,
        servers@.len() * POINTS <= usize::MAX,
    ensures
        r@.len() == servers@.len() * POINTS,
        forall|s: int, p: int|
            0 <= s < servers@.len() && 0 <= p < POINTS ==> #[trigger] r@[s * POINTS + p] == (
                point_of(servers@[s]@, p as nat),
                s as u32,
            ),
{
    let mut r: Vec<(u32, u32)> = Vec::with_capacity(servers.len() * POINTS as usize);
    let mut i: usize = 0;
    while i < servers.len()
        invariant
            i <= servers@.len(),
            servers@.len() <= u32::MAX,
            servers@.len() * POINTS <= usize::MAX,
            r@.len() == i * POINTS,
            forall|s: int, p: int|
                0 <= s < i && 0 <= p < POINTS ==> #[trigger] r@[s * POINTS + p] == (
                    point_of(servers@[s]@, p as nat),
                    s as u32,
                ),
        decreases servers@.len() - i,
    {
        let mut n: u32 = 0;
        while n < POINTS
            invariant
                i < servers@.len(),
                servers@.len() <= u32::MAX,
                n <= POINTS,
                r@.len() == i * POINTS + n,
                forall|s: int, p: int|
                    0 <= s < i && 0 <= p < POINTS ==> #[trigger] r@[s * POINTS + p] == (
                        point_of(servers@[s]@, p as nat),
                        s as u32,
                    ),
                forall|p: int|
                    0 <= p < n ==> #[trigger] r@[i * POINTS + p] == (
                        point_of(servers@[i as int]@, p as nat),
                        i as u32,
                    ),
            decreases POINTS - n,
        {
            let mut point = String::new();
            point.append(servers[i].as_str());
            point.append("#");
            text::push_decimal(&mut point, n as u64);
            assert(point@ =~= servers@[i as int]@ + "#"@ + text::decimal(n as nat));
            r.push((hash(point.as_str().as_bytes()), i as u32));
            n += 1;
        }
        i += 1;
    }
    r
}

/// The first point at each hash.
fn first_of_each(points: &Vec<(u32, u32)>) -> (r: Vec<(u32, u32)>)
    requires
        forall|i: int, j: int|
            0 <= i <= j < points@.len() ==> (#[trigger] points@[i]).0 <= (#[trigger] points@[j]).0,
    ensures
        forall|i: int, j: int|
            0 <= i < j < r@.len() ==> (#[trigger] r@[i]).0 < (#[trigger] r@[j]).0,
        forall|k: int| 0 <= k < r@.len() ==> is_first(points@, points@.len() as int, #[trigger] r@[k]),
        forall|m: int| 0 <= m < points@.len() ==> on_ring(r@, (#[trigger] points@[m]).0),
{
    let mut r: Vec<(u32, u32)> = Vec::with_capacity(points.len());
    let mut i: usize = 0;
    while i < points.len()
        invariant
            i <= points@.len(),
            forall|i: int, j: int|
                0 <= i <= j < points@.len() ==> (#[trigger] points@[i]).0 <= (
                #[trigger] points@[j]).0,
            r@.len() == 0 <==> i == 0,
            r@.len() > 0 ==> r@.last().0 == points@[i - 1].0,
            forall|i: int, j: int|
                0 <= i < j < r@.len() ==> (#[trigger] r@[i]).0 < (#[trigger] r@[j]).0,
            forall|k: int| 0 <= k < r@.len() ==> is_first(points@, i as int, #[trigger] r@[k]),
            forall|m: int| 0 <= m < i ==> on_ring(r@, (#[trigger] points@[m]).0),
        decreases points@.len() - i,
    {
        let ghost before = r@;
        let new = if r.len() == 0 {
            true
        } else {
            r[r.len() - 1].0 != points[i].0
        };
        if new {
            r.push(points[i]);
        }
        proof {
            assert forall|k: int| 0 <= k < r@.len() implies is_first(
                points@,
                i + 1,
                #[trigger] r@[k],
            ) by {
                if k < before.len() {
                    assert(is_first(points@, i as int, before[k]));
                    let m = choose|m: int|
                        0 <= m < i && points@[m] == before[k] && forall|j: int|
                            0 <= j < m ==> (#[trigger] points@[j]).0 != before[k].0;
                    assert(0 <= m < i + 1 && points@[m] == r@[k]);
                } else {
                    assert(points@[i as int] == r@[k]);
                }
            }
            assert forall|m: int| 0 <= m < i + 1 implies on_ring(r@, (#[trigger] points@[m]).0) by {
                if m < i {
                    assert(on_ring(before, points@[m].0));
                    let k = choose|k: int|
                        0 <= k < before.len() && (#[trigger] before[k]).0 == points@[m].0;
                    assert(r@[k] == before[k]);
                } else {
                    assert(r@[r@.len() - 1].0 == points@[m].0);
                }
            }
        }
        i += 1;
    }
    r
}

/// Whether `x` is the first of the leading `n` points at its hash.
spec fn is_first(points: Seq<(u32, u32)>, n: int, x: (u32, u32)) -> bool {
    exists|m: int|
        0 <= m < n && points[m] == x && forall|j: int|
            0 <= j < m ==> (#[trigger] points[j]).0 != x.0
}

impl Ring {
    /// Whether this is the ring of the servers `names`, of which there is at
    /// least one.
    pub open spec fn of(self, names: Seq<Seq<char>>) -> bool {
        names.len() > 0 && is_ring_of(self.points@, names)
    }

    /// The ring `names` describe. There has to be one, and no two may be the
    /// same.
    pub fn new(names: &[String]) -> (r: Self)
        requires
            names@.len() > 0,
            names@.len() <= u32::MAX,
            names@.len() * POINTS * 8 <= isize::MAX,
            names_of(names@).no_duplicates(),
        ensures
            r.of(names_of(names@)),
    {
        let all = all_points(names);
        proof {
            all_points_are(names@, all@);
        }
        let in_order = sort(names, all.as_slice());
        let points = first_of_each(&in_order);
        proof {
            ring_is_made(names_of(names@), all@, in_order@, points@);
        }
        Self { points }
    }

    /// The server `key` belongs to: the first one clockwise from the key's own
    /// hash that `live` accepts. With every server refused, which is a whole
    /// cluster that is down, the key's own server, because trying it is what
    /// finds out it is back.
    pub fn locate(&self, key: &[u8], live: impl Fn(usize) -> bool) -> (r: usize)
        requires
            exists|names: Seq<Seq<char>>| #[trigger] self.of(names),
            forall|k: int|
                0 <= k < self.points@.len() ==> live.requires(
                    ((#[trigger] self.points@[k]).1 as usize,),
                ),
        ensures
            forall|up: spec_fn(usize) -> bool| #[trigger]
                decides(live, up) ==> located(self.points@, murmur3(key@), up, r),
    {
        let n: usize = self.points.len();
        let h: u32 = hash(key);
        let start: usize = self.start(h);
        let ghost points = self.points@;
        let mut i: usize = 0;
        while i < n
            invariant
                n == points.len(),
                points == self.points@,
                start < n,
                i <= n,
                forall|k: int|
                    0 <= k < points.len() ==> live.requires(((#[trigger] points[k]).1 as usize,)),
                is_start(points, h, start as int),
                forall|i: int, j: int|
                    0 <= i < j < points.len() ==> (#[trigger] points[i]).0 < (
                    #[trigger] points[j]).0,
                forall|k: int|
                    0 <= k < points.len() && (start <= k < start + i || k < start + i - n)
                        ==> live.ensures(((#[trigger] points[k]).1 as usize,), false),
                h == murmur3(key@),
            decreases n - i,
        {
            let at: usize = if i < n - start {
                start + i
            } else {
                i - (n - start)
            };
            let node: usize = self.points[at].1 as usize;
            if live(node) {
                proof {
                    assert forall|up: spec_fn(usize) -> bool| #[trigger]
                        decides(live, up) implies located(points, h, up, node) by {
                        assert(up(points[at as int].1 as usize));
                        assert(!all_down(points, up));
                        assert forall|j: int|
                            0 <= j < points.len() && up(
                                (#[trigger] points[j]).1 as usize,
                            ) implies distance(h, points[at as int].0) <= distance(
                            h,
                            points[j].0,
                        ) by {
                            assert(!(start <= j < start + i || j < start + i - n));
                        }
                        assert(nearest(points, h, tried(points, up), at as int));
                    }
                }
                return node;
            }
            i += 1;
        }
        proof {
            assert forall|up: spec_fn(usize) -> bool| #[trigger] decides(live, up) implies located(
                points,
                h,
                up,
                points[start as int].1 as usize,
            ) by {
                assert(all_down(points, up));
                assert(nearest(points, h, tried(points, up), start as int));
            }
        }
        self.points[start].1 as usize
    }

    /// The first point at or after `h`, wrapping round the end.
    fn start(&self, h: u32) -> (r: usize)
        requires
            exists|names: Seq<Seq<char>>| #[trigger] self.of(names),
        ensures
            r < self.points@.len(),
            is_start(self.points@, h, r as int),
            forall|i: int, j: int|
                0 <= i < j < self.points@.len() ==> (#[trigger] self.points@[i]).0 < (
                #[trigger] self.points@[j]).0,
    {
        let ghost names = choose|names: Seq<Seq<char>>| #[trigger] self.of(names);
        proof {
            assert(has_point(names[0], point_of(names[0], 0)));
        }
        let mut low: usize = 0;
        let mut high: usize = self.points.len();
        while low < high
            invariant
                low <= high <= self.points@.len(),
                forall|i: int, j: int|
                    0 <= i < j < self.points@.len() ==> (#[trigger] self.points@[i]).0 < (
                    #[trigger] self.points@[j]).0,
                forall|k: int| 0 <= k < low ==> (#[trigger] self.points@[k]).0 < h,
                forall|k: int| high <= k < self.points@.len() ==> (#[trigger] self.points@[k]).0 >= h,
            decreases high - low,
        {
            let mid: usize = low + (high - low) / 2;
            if self.points[mid].0 < h {
                low = mid + 1;
            } else {
                high = mid;
            }
        }
        if low == self.points.len() {
            0
        } else {
            low
        }
    }
}

/// Whether point `k` is the first one at or after `h`, wrapping round the end.
spec fn is_start(points: Seq<(u32, u32)>, h: u32, k: int) -> bool {
    ||| points[k].0 >= h && forall|j: int| 0 <= j < k ==> (#[trigger] points[j]).0 < h
    ||| k == 0 && forall|j: int| 0 <= j < points.len() ==> (#[trigger] points[j]).0 < h
}

/// Whether `live` answers what `up` says.
pub open spec fn decides(live: impl Fn(usize) -> bool, up: spec_fn(usize) -> bool) -> bool {
    forall|s: usize, b: bool| #[trigger] live.ensures((s,), b) ==> b == up(s)
}

proof fn all_points_are(servers: Seq<String>, all: Seq<(u32, u32)>)
    requires
        servers.len() <= u32::MAX,
        all.len() == servers.len() * POINTS,
        forall|s: int, p: int|
            0 <= s < servers.len() && 0 <= p < POINTS ==> #[trigger] all[s * POINTS + p] == (
                point_of(servers[s]@, p as nat),
                s as u32,
            ),
    ensures
        indexes(all, servers.len()),
        forall|x: (u32, u32)| #[trigger]
            within(all, all.len() as int, x) == (x.1 < servers.len() && has_point(
                names_of(servers)[x.1 as int],
                x.0,
            )),
{
    let n = POINTS as int;
    assert forall|k: int| 0 <= k < all.len() implies (#[trigger] all[k]).1 < servers.len()
        && all[k] == (
        point_of(servers[k / n]@, (k % n) as nat),
        (k / n) as u32,
    ) by {
        assert(k == (k / n) * n + k % n);
        assert(0 <= k / n < servers.len());
        assert(all[(k / n) * POINTS + k % n] == (
            point_of(servers[k / n]@, (k % n) as nat),
            (k / n) as u32,
        ));
    }
    assert forall|x: (u32, u32)| #[trigger]
        within(all, all.len() as int, x) == (x.1 < servers.len() && has_point(
            names_of(servers)[x.1 as int],
            x.0,
        )) by {
        if within(all, all.len() as int, x) {
            let k = choose|k: int| 0 <= k < all.len() && all[k] == x;
            assert(point_of(names_of(servers)[x.1 as int], (k % n) as nat) == x.0);
        }
        if x.1 < servers.len() && has_point(names_of(servers)[x.1 as int], x.0) {
            let p = choose|p: nat| p < POINTS && point_of(names_of(servers)[x.1 as int], p) == x.0;
            let k = x.1 as int * POINTS + p;
            assert(all[x.1 as int * POINTS + p as int] == x);
            assert(0 <= k < all.len());
            assert(all[k] == x);
        }
    }
}

proof fn ring_is_made(
    names: Seq<Seq<char>>,
    all: Seq<(u32, u32)>,
    in_order: Seq<(u32, u32)>,
    points: Seq<(u32, u32)>,
)
    requires
        names.len() <= u32::MAX,
        forall|x: (u32, u32)| #[trigger]
            within(all, all.len() as int, x) == (x.1 < names.len() && has_point(
                names[x.1 as int],
                x.0,
            )),
        same_points(in_order, all),
        sorted(names, in_order),
        forall|i: int, j: int|
            0 <= i < j < points.len() ==> (#[trigger] points[i]).0 < (#[trigger] points[j]).0,
        forall|k: int|
            0 <= k < points.len() ==> is_first(in_order, in_order.len() as int, #[trigger] points[k]),
        forall|m: int| 0 <= m < in_order.len() ==> on_ring(points, (#[trigger] in_order[m]).0),
    ensures
        is_ring_of(points, names),
{
    let n = in_order.len() as int;
    assert forall|k: int| 0 <= k < points.len() implies owns(
        names,
        (#[trigger] points[k]).1,
        points[k].0,
    ) by {
        let x = points[k];
        assert(is_first(in_order, n, x));
        let m = choose|m: int|
            0 <= m < n && in_order[m] == x && forall|j: int|
                0 <= j < m ==> (#[trigger] in_order[j]).0 != x.0;
        assert(within(in_order, n, x));
        assert(within(all, all.len() as int, x));
        assert forall|t: int|
            0 <= t < names.len() && #[trigger] has_point(names[t], x.0) implies name_order(
            names[x.1 as int],
            names[t],
        ) by {
            let y = (x.0, t as u32);
            assert(within(all, all.len() as int, y));
            assert(within(in_order, n, y));
            let j = choose|j: int| 0 <= j < n && in_order[j] == y;
            assert(m <= j);
            assert(point_order(names, in_order[m], in_order[j]));
        }
    }
    assert forall|s: int, h: u32|
        0 <= s < names.len() && #[trigger] has_point(names[s], h) implies on_ring(points, h) by {
        let y = (h, s as u32);
        assert(within(all, all.len() as int, y));
        assert(within(in_order, n, y));
        let j = choose|j: int| 0 <= j < n && in_order[j] == y;
        assert(on_ring(points, in_order[j].0));
    }
}

// Laws

/// The finaliser is a bijection: no two words are mixed to the same one.
pub proof fn the_finaliser_loses_nothing(g: u32, h: u32)
    requires
        fmix32_of(g) == fmix32_of(h),
    ensures
        g == h,
{
    let (g0, h0) = (g ^ (g >> 16), h ^ (h >> 16));
    let (g1, h1) = (g0.wrapping_mul(0x85eb_ca6b), h0.wrapping_mul(0x85eb_ca6b));
    let (g2, h2) = (g1 ^ (g1 >> 13), h1 ^ (h1 >> 13));
    let (g3, h3) = (g2.wrapping_mul(0xc2b2_ae35), h2.wrapping_mul(0xc2b2_ae35));
    assert(g3 ^ (g3 >> 16) == h3 ^ (h3 >> 16) ==> g3 == h3) by (bit_vector);
    mixing_loses_nothing(g2, h2, 0xc2b2_ae35, 0x7ed1_b41d, 1618177690);
    assert(g1 ^ (g1 >> 13) == h1 ^ (h1 >> 13) ==> g1 == h1) by (bit_vector);
    mixing_loses_nothing(g0, h0, 0x85eb_ca6b, 0xa5cb_9243, 1455126516);
    assert(g ^ (g >> 16) == h ^ (h >> 16) ==> g == h) by (bit_vector);
}

/// Multiplying by a factor that has an inverse loses nothing.
proof fn mixing_loses_nothing(g: u32, h: u32, factor: u32, inverse: int, rest: int)
    requires
        factor * inverse == 1 + 0x1_0000_0000 * rest,
        g.wrapping_mul(factor) == h.wrapping_mul(factor),
    ensures
        g == h,
{
    let m = 0x1_0000_0000int;
    let (a, b) = (g as int, h as int);
    let c = factor as int;
    let z = (a * c) / m - (b * c) / m;
    assert((a * c) % m == (b * c) % m);
    assert(a * c - b * c == m * z);
    assert(a - b == m * (z * inverse - rest * (a - b))) by (nonlinear_arith)
        requires
            a * c - b * c == m * z,
            c * inverse == 1 + m * rest,
    ;
    let q = z * inverse - rest * (a - b);
    assert(a - b == m * q);
}

/// A key belongs to one server, whichever are up.
pub proof fn a_key_has_one_server(
    points: Seq<(u32, u32)>,
    names: Seq<Seq<char>>,
    h: u32,
    up: spec_fn(usize) -> bool,
)
    requires
        is_ring_of(points, names),
        names.len() > 0,
    ensures
        exists|s: usize| #[trigger] located(points, h, up, s) && s < names.len(),
        forall|s: usize, t: usize|
            #![trigger located(points, h, up, s), located(points, h, up, t)]
            located(points, h, up, s) && located(points, h, up, t) ==> s == t,
{
    assert(has_point(names[0], point_of(names[0], 0)));
    assert(on_ring(points, point_of(names[0], 0)));
    let accept = tried(points, up);
    if all_down(points, up) {
        let k = choose|k: int|
            0 <= k < points.len() && (#[trigger] points[k]).0 == point_of(names[0], 0);
        assert(accept(points[k].1 as usize));
    }
    let some = choose|k: int| 0 <= k < points.len() && accept((#[trigger] points[k]).1 as usize);
    let k = nearest_exists(points, h, accept, points.len() as int, some);
    let s = points[k].1 as usize;
    assert(owns(names, points[k].1, points[k].0));
    assert(located(points, h, up, s));
    assert forall|s: usize, t: usize|
        #![trigger located(points, h, up, s), located(points, h, up, t)]
        located(points, h, up, s) && located(points, h, up, t) implies s == t by {
        let i = choose|k: int| #[trigger] nearest(points, h, accept, k) && points[k].1 == s;
        let j = choose|k: int| #[trigger] nearest(points, h, accept, k) && points[k].1 == t;
        assert(points[i].0 == points[j].0);
    }
}

proof fn nearest_exists(
    points: Seq<(u32, u32)>,
    h: u32,
    up: spec_fn(usize) -> bool,
    n: int,
    some: int,
) -> (k: int)
    requires
        0 <= some < points.len(),
        up(points[some].1 as usize),
        0 <= n <= points.len(),
    ensures
        0 <= k < points.len(),
        up(points[k].1 as usize),
        forall|j: int|
            0 <= j < n && up((#[trigger] points[j]).1 as usize) ==> distance(h, points[k].0)
                <= distance(h, points[j].0),
        n == points.len() ==> nearest(points, h, up, k),
    decreases n,
{
    if n == 0 {
        some
    } else {
        let k = nearest_exists(points, h, up, n - 1, some);
        if up(points[n - 1].1 as usize) && distance(h, points[n - 1].0) < distance(h, points[k].0) {
            n - 1
        } else {
            k
        }
    }
}

/// Two servers that own the same point have the same name.
proof fn owners_agree(names: Seq<Seq<char>>, s: u32, more: Seq<Seq<char>>, t: u32, h: u32)
    requires
        owns(names, s, h),
        owns(more, t, h),
        more.contains(names[s as int]),
        names.contains(more[t as int]),
    ensures
        names[s as int] == more[t as int],
{
    let i = choose|i: int| 0 <= i < more.len() && more[i] == names[s as int];
    let j = choose|j: int| 0 <= j < names.len() && names[j] == more[t as int];
    assert(has_point(more[i], h) && has_point(names[j], h));
    let (a, b) = (names[s as int], more[t as int]);
    order_is_antisymmetric(utf8::encode_utf8(a), utf8::encode_utf8(b));
    utf8::encode_utf8_decode_utf8(a);
    utf8::encode_utf8_decode_utf8(b);
}

/// Scrambling a block loses nothing of it.
proof fn scrambling_loses_nothing(j: u32, k: u32)
    requires
        scramble_of(j) == scramble_of(k),
    ensures
        j == k,
{
    let (a, b) = (j.wrapping_mul(0xcc9e_2d51), k.wrapping_mul(0xcc9e_2d51));
    mixing_loses_nothing(rotl(a, 15), rotl(b, 15), 0x1b87_3593, 1458385051, 156822886);
    turning_loses_nothing(a, b);
    mixing_loses_nothing(j, k, 0xcc9e_2d51, 3739302833, 2988782088);
}

proof fn turning_loses_nothing(a: u32, b: u32)
    ensures
        rotl(a, 15) == rotl(b, 15) ==> a == b,
        rotl(a, 13) == rotl(b, 13) ==> a == b,
{
    assert((a << 15) | (a >> 17) == (b << 15) | (b >> 17) ==> a == b) by (bit_vector);
    assert((a << 13) | (a >> 19) == (b << 13) | (b >> 19) ==> a == b) by (bit_vector);
}

/// What is mixed in, and what it is mixed into, can both be told from the
/// result.
proof fn a_block_loses_nothing(g: u32, h: u32, j: u32, k: u32)
    ensures
        mixed(g, k) == mixed(h, k) ==> g == h,
        mixed(h, j) == mixed(h, k) ==> j == k,
        g ^ scramble_of(k) == h ^ scramble_of(k) ==> g == h,
        h ^ scramble_of(j) == h ^ scramble_of(k) ==> j == k,
{
    let (sj, sk) = (scramble_of(j), scramble_of(k));
    assert(g ^ sk == h ^ sk ==> g == h) by (bit_vector);
    assert(h ^ sj == h ^ sk ==> sj == sk) by (bit_vector);
    if sj == sk {
        scrambling_loses_nothing(j, k);
    }
    if mixed(g, k) == mixed(h, k) {
        mixing_loses_nothing(rotl(g ^ sk, 13), rotl(h ^ sk, 13), 5, 3435973837, 4);
        turning_loses_nothing(g ^ sk, h ^ sk);
    }
    if mixed(h, j) == mixed(h, k) {
        mixing_loses_nothing(rotl(h ^ sj, 13), rotl(h ^ sk, 13), 5, 3435973837, 4);
        turning_loses_nothing(h ^ sj, h ^ sk);
    }
}

/// Bytes are mixed in four by four, each four alike wherever they stand: what
/// comes behind whole blocks goes on from where those have come to.
pub proof fn blocks_are_mixed_in_turn(h: u32, a: Seq<u8>, b: Seq<u8>)
    requires
        a.len() % 4 == 0,
    ensures
        blocks_of(h, a + b) == blocks_of(blocks_of(h, a), b),
    decreases a.len(),
{
    if a.len() == 0 {
        assert(a + b =~= b);
    } else {
        assert((a + b).take(4) =~= a.take(4));
        assert((a + b).skip(4) =~= a.skip(4) + b);
        blocks_are_mixed_in_turn(mixed(h, word_of(a.take(4))), a.skip(4), b);
    }
}

/// Mixing bytes into different words gives different words.
pub proof fn mixing_keeps_words_apart(g: u32, h: u32, b: Seq<u8>)
    requires
        g != h,
    ensures
        blocks_of(g, b) != blocks_of(h, b),
    decreases b.len(),
{
    if b.len() >= 4 {
        let k = word_of(b.take(4));
        a_block_loses_nothing(g, h, k, k);
        mixing_keeps_words_apart(mixed(g, k), mixed(h, k), b.skip(4));
    } else if b.len() > 0 {
        a_block_loses_nothing(g, h, 0, word_of(b));
    }
}

proof fn words_tell_bytes_apart(x: Seq<u8>, y: Seq<u8>)
    requires
        x.len() == y.len(),
        x.len() <= 4,
        word_of(x) == word_of(y),
    ensures
        x == y,
{
    reveal_with_fuel(word_of, 5);
    assert(x =~= y);
}

/// The whole length counts: of two inputs the hashes are the same exactly where
/// what their blocks come to differs just as their lengths do.
pub proof fn the_whole_length_is_mixed_in(a: Seq<u8>, b: Seq<u8>)
    requires
        a.len() < 0x1_0000_0000,
        b.len() < 0x1_0000_0000,
    ensures
        murmur3(a) == murmur3(b) <==> blocks_of(0, a) ^ (a.len() as u32) == blocks_of(0, b) ^ (
        b.len() as u32),
        blocks_of(0, a) == blocks_of(0, b) && a.len() != b.len() ==> murmur3(a) != murmur3(b),
{
    let (g, h) = (blocks_of(0, a), blocks_of(0, b));
    let (m, n) = (a.len() as u32, b.len() as u32);
    if murmur3(a) == murmur3(b) {
        the_finaliser_loses_nothing(g ^ m, h ^ n);
    }
    assert(g == h && g ^ m == h ^ n ==> m == n) by (bit_vector);
}

/// Changing bytes within one block of four, or in what is left over behind the
/// last whole one, changes the hash, however long the input is.
pub proof fn a_changed_block_changes_the_hash(
    before: Seq<u8>,
    x: Seq<u8>,
    y: Seq<u8>,
    after: Seq<u8>,
)
    requires
        before.len() % 4 == 0,
        x.len() == y.len(),
        x.len() == 4 || (x.len() < 4 && after.len() == 0),
        x != y,
    ensures
        murmur3(before + x + after) != murmur3(before + y + after),
{
    let (a, b) = (before + x + after, before + y + after);
    let h = blocks_of(0, before);
    assert(a =~= before + (x + after));
    assert(b =~= before + (y + after));
    blocks_are_mixed_in_turn(0, before, x + after);
    blocks_are_mixed_in_turn(0, before, y + after);
    let (j, k) = (word_of(x), word_of(y));
    if j == k {
        words_tell_bytes_apart(x, y);
    }
    a_block_loses_nothing(h, h, j, k);
    if x.len() == 4 {
        assert((x + after).take(4) =~= x);
        assert((y + after).take(4) =~= y);
        assert((x + after).skip(4) =~= after);
        assert((y + after).skip(4) =~= after);
        mixing_keeps_words_apart(mixed(h, j), mixed(h, k), after);
    } else {
        assert(x + after =~= x);
        assert(y + after =~= y);
    }
    let (g, i) = (blocks_of(0, a), blocks_of(0, b));
    assert(g != i);
    let n = (a.len() % 0x1_0000_0000) as u32;
    assert(g ^ n == i ^ n ==> g == i) by (bit_vector);
    if murmur3(a) == murmur3(b) {
        the_finaliser_loses_nothing(g ^ n, i ^ n);
    }
}

/// The ring follows the recipe: a point lies at the hash of a server's name, a
/// hash sign and a number below 512, for each of them, and nowhere else.
pub proof fn the_ring_follows_the_recipe(points: Seq<(u32, u32)>, names: Seq<Seq<char>>, h: u32)
    requires
        is_ring_of(points, names),
    ensures
        (exists|k: int| 0 <= k < points.len() && (#[trigger] points[k]).0 == h) <==> (exists|
            s: int,
            p: nat,
        |
            0 <= s < names.len() && p < 512 && h == murmur3(
                utf8::encode_utf8(#[trigger] names[s] + "#"@ + #[trigger] text::decimal(p)),
            )),
{
    the_points_are_those_of_the_servers(points, names, h);
    if on_ring(points, h) {
        let s = choose|s: int| 0 <= s < names.len() && #[trigger] has_point(names[s], h);
        let p = choose|p: nat| p < POINTS && point_of(names[s], p) == h;
        assert(h == murmur3(utf8::encode_utf8(names[s] + "#"@ + text::decimal(p))));
    }
    if exists|s: int, p: nat|
        0 <= s < names.len() && p < 512 && h == murmur3(
            utf8::encode_utf8(#[trigger] names[s] + "#"@ + #[trigger] text::decimal(p)),
        ) {
        let (s, p) = choose|s: int, p: nat|
            0 <= s < names.len() && p < 512 && h == murmur3(
                utf8::encode_utf8(#[trigger] names[s] + "#"@ + #[trigger] text::decimal(p)),
            );
        assert(point_of(names[s], p) == h);
        assert(has_point(names[s], h));
    }
}

/// Of servers with a point at one hash, the one whose name is lower has it: at
/// the first byte that differs, or by ending first.
pub proof fn the_lower_name_takes_a_shared_point(
    points: Seq<(u32, u32)>,
    names: Seq<Seq<char>>,
    k: int,
    t: int,
)
    requires
        is_ring_of(points, names),
        0 <= k < points.len(),
        0 <= t < names.len(),
        has_point(names[t], points[k].0),
        names[t] != names[points[k].1 as int],
    ensures
        ({
            let a = utf8::encode_utf8(names[points[k].1 as int]);
            let b = utf8::encode_utf8(names[t]);
            exists|i: int|
                0 <= i <= a.len() && i < b.len() && #[trigger] a.take(i) == b.take(i) && (i
                    == a.len() || a[i] < b[i])
        }),
{
    let (x, y) = (names[points[k].1 as int], names[t]);
    let (a, b) = (utf8::encode_utf8(x), utf8::encode_utf8(y));
    assert(owns(names, points[k].1, points[k].0));
    if a == b {
        utf8::encode_utf8_decode_utf8(x);
        utf8::encode_utf8_decode_utf8(y);
    }
    let i = where_they_part(a, b);
}

proof fn where_they_part(a: Seq<u8>, b: Seq<u8>) -> (i: int)
    requires
        sorts_before(a, b),
        a != b,
    ensures
        0 <= i <= a.len(),
        i < b.len(),
        a.take(i) == b.take(i),
        i == a.len() || a[i] < b[i],
    decreases a.len(),
{
    if a.len() == 0 {
        assert(b.len() > 0) by {
            if b.len() == 0 {
                assert(a =~= b);
            }
        }
        assert(a.take(0) =~= b.take(0));
        0
    } else if a[0] < b[0] {
        assert(a.take(0) =~= b.take(0));
        0
    } else {
        let (p, q) = (a.drop_first(), b.drop_first());
        assert(a =~= seq![a[0]] + p);
        assert(b =~= seq![b[0]] + q);
        let i = where_they_part(p, q);
        assert(a.take(i + 1) =~= seq![a[0]] + p.take(i));
        assert(b.take(i + 1) =~= seq![b[0]] + q.take(i));
        i + 1
    }
}

/// A key belongs to the first point at or after its own hash whose server is
/// accepted; where there is none it is the very first such point, round the end.
pub proof fn a_key_belongs_to_the_next_point(
    points: Seq<(u32, u32)>,
    h: u32,
    up: spec_fn(usize) -> bool,
    s: usize,
)
    requires
        located(points, h, up, s),
        exists|k: int| 0 <= k < points.len() && up((#[trigger] points[k]).1 as usize),
    ensures
        up(s),
        exists|k: int|
            0 <= k < points.len() && (#[trigger] points[k]).1 == s && forall|j: int|
                0 <= j < points.len() && up((#[trigger] points[j]).1 as usize) ==> if points[k].0
                    >= h {
                    points[j].0 < h || points[j].0 >= points[k].0
                } else {
                    points[j].0 < h && points[j].0 >= points[k].0
                },
{
    let k = choose|k: int| #[trigger] nearest(points, h, tried(points, up), k) && points[k].1 == s;
    assert(!all_down(points, up));
    assert(points[k].1 == s);
}

/// The points of a ring lie exactly where the servers have theirs.
pub proof fn the_points_are_those_of_the_servers(
    points: Seq<(u32, u32)>,
    names: Seq<Seq<char>>,
    h: u32,
)
    requires
        is_ring_of(points, names),
    ensures
        on_ring(points, h) <==> exists|s: int|
            0 <= s < names.len() && #[trigger] has_point(names[s], h),
{
    if on_ring(points, h) {
        let k = choose|k: int| 0 <= k < points.len() && (#[trigger] points[k]).0 == h;
        assert(owns(names, points[k].1, h));
        assert(has_point(names[points[k].1 as int], h));
    }
}

/// Rings of the same names, in whatever order they are listed, have the same
/// points: hash by hash, and each with the same server's name.
pub proof fn the_listing_order_leaves_the_points(
    points: Seq<(u32, u32)>,
    names: Seq<Seq<char>>,
    other_points: Seq<(u32, u32)>,
    other_names: Seq<Seq<char>>,
)
    requires
        is_ring_of(points, names),
        is_ring_of(other_points, other_names),
        forall|name: Seq<char>| names.contains(name) <==> #[trigger] other_names.contains(name),
    ensures
        points.len() == other_points.len(),
        forall|k: int|
            0 <= k < points.len() ==> (#[trigger] points[k]).0 == other_points[k].0
                && names[points[k].1 as int] == other_names[other_points[k].1 as int],
{
    let n = if points.len() < other_points.len() {
        points.len()
    } else {
        other_points.len()
    };
    same_place(points, names, other_points, other_names, n as int);
    if points.len() > n {
        let m = matching(points, names, other_points, other_names, n as int);
        assert(points[m].0 == other_points[m].0);
    }
    if other_points.len() > n {
        let m = matching(other_points, other_names, points, names, n as int);
        assert(points[m].0 == other_points[m].0);
    }
    assert forall|k: int| 0 <= k < points.len() implies (#[trigger] points[k]).0
        == other_points[k].0 && names[points[k].1 as int]
        == other_names[other_points[k].1 as int] by {
        let m = matching(points, names, other_points, other_names, k);
        assert(other_points[m].0 == other_points[k].0);
    }
}

/// The first `n` points of two rings of the same names lie at the same hashes.
proof fn same_place(
    points: Seq<(u32, u32)>,
    names: Seq<Seq<char>>,
    other_points: Seq<(u32, u32)>,
    other_names: Seq<Seq<char>>,
    n: int,
)
    requires
        is_ring_of(points, names),
        is_ring_of(other_points, other_names),
        forall|name: Seq<char>| names.contains(name) <==> #[trigger] other_names.contains(name),
        0 <= n <= points.len(),
        n <= other_points.len(),
    ensures
        forall|k: int| 0 <= k < n ==> (#[trigger] points[k]).0 == other_points[k].0,
    decreases n,
{
    if n > 0 {
        let last = n - 1;
        same_place(points, names, other_points, other_names, last);
        let m = matching(points, names, other_points, other_names, last);
        let j = matching(other_points, other_names, points, names, last);
        if m < last {
            assert(points[m].0 == other_points[m].0);
        }
        if j < last {
            assert(points[j].0 == other_points[j].0);
        }
        assert(other_points[last].0 <= other_points[m].0);
        assert(points[last].0 <= points[j].0);
    }
}

/// The order servers are listed in does not matter: rings of the same names
/// send a key to the same one.
pub proof fn the_listing_order_does_not_matter(
    points: Seq<(u32, u32)>,
    names: Seq<Seq<char>>,
    other_points: Seq<(u32, u32)>,
    other_names: Seq<Seq<char>>,
    h: u32,
    up: spec_fn(Seq<char>) -> bool,
    s: usize,
    t: usize,
)
    requires
        is_ring_of(points, names),
        is_ring_of(other_points, other_names),
        forall|name: Seq<char>| names.contains(name) <==> #[trigger] other_names.contains(name),
        located(points, h, |i: usize| up(names[i as int]), s),
        located(other_points, h, |i: usize| up(other_names[i as int]), t),
    ensures
        names[s as int] == other_names[t as int],
{
    let by_index = |i: usize| up(names[i as int]);
    let by_other_index = |i: usize| up(other_names[i as int]);
    let accept = tried(points, by_index);
    let other_accept = tried(other_points, by_other_index);
    assert(all_down(points, by_index) == all_down(other_points, by_other_index)) by {
        if !all_down(points, by_index) {
            let k = choose|k: int| 0 <= k < points.len() && by_index((#[trigger] points[k]).1 as usize);
            let m = matching(points, names, other_points, other_names, k);
            assert(by_other_index(other_points[m].1 as usize));
        }
        if !all_down(other_points, by_other_index) {
            let k = choose|k: int|
                0 <= k < other_points.len() && by_other_index(
                    (#[trigger] other_points[k]).1 as usize,
                );
            let m = matching(other_points, other_names, points, names, k);
            assert(by_index(points[m].1 as usize));
        }
    }
    let k = choose|k: int| #[trigger] nearest(points, h, accept, k) && points[k].1 == s;
    let j = choose|k: int| #[trigger] nearest(other_points, h, other_accept, k) && other_points[k].1 == t;
    let km = matching(points, names, other_points, other_names, k);
    let jm = matching(other_points, other_names, points, names, j);
    assert(other_accept(other_points[km].1 as usize));
    assert(accept(points[jm].1 as usize));
    assert(points[k].0 == other_points[j].0);
    assert(other_points[km].0 == other_points[j].0);
    assert(km == j);
}

/// Each point of one ring lies on another of the same names, with the same
/// owner.
spec fn matches_on(
    points: Seq<(u32, u32)>,
    names: Seq<Seq<char>>,
    other_points: Seq<(u32, u32)>,
    other_names: Seq<Seq<char>>,
    k: int,
    m: int,
) -> bool {
    &&& 0 <= m < other_points.len()
    &&& other_points[m].0 == points[k].0
    &&& other_points[m].1 < other_names.len()
    &&& names[points[k].1 as int] == other_names[other_points[m].1 as int]
}

proof fn matching(
    points: Seq<(u32, u32)>,
    names: Seq<Seq<char>>,
    other_points: Seq<(u32, u32)>,
    other_names: Seq<Seq<char>>,
    k: int,
) -> (m: int)
    requires
        is_ring_of(points, names),
        is_ring_of(other_points, other_names),
        forall|name: Seq<char>| names.contains(name) <==> #[trigger] other_names.contains(name),
        0 <= k < points.len(),
    ensures
        matches_on(points, names, other_points, other_names, k, m),
{
    let (h, s) = points[k];
    assert(owns(names, s, h));
    assert(names.contains(names[s as int]));
    assert(other_names.contains(names[s as int]));
    let i = choose|i: int| 0 <= i < other_names.len() && other_names[i] == names[s as int];
    assert(has_point(other_names[i], h));
    assert(on_ring(other_points, h));
    let m = choose|m: int| 0 <= m < other_points.len() && (#[trigger] other_points[m]).0 == h;
    let t = other_points[m].1;
    assert(owns(other_names, t, h));
    assert(other_names.contains(other_names[t as int]));
    owners_agree(names, s, other_names, t, h);
    m
}

proof fn without_one(names: Seq<Seq<char>>, dead: int)
    requires
        0 <= dead < names.len(),
        names.no_duplicates(),
    ensures
        forall|name: Seq<char>| #[trigger]
            names.remove(dead).contains(name) <==> names.contains(name) && name != names[dead],
{
    let short = names.remove(dead);
    assert forall|name: Seq<char>| #[trigger]
        short.contains(name) <==> names.contains(name) && name != names[dead] by {
        if short.contains(name) {
            let i = choose|i: int| 0 <= i < short.len() && short[i] == name;
            let j = if i < dead {
                i
            } else {
                i + 1
            };
            assert(names[j] == name);
        }
        if names.contains(name) && name != names[dead] {
            let j = choose|j: int| 0 <= j < names.len() && names[j] == name;
            let i = if j < dead {
                j
            } else {
                j - 1
            };
            assert(short[i] == name);
        }
    }
}

/// A point of a server that stays is on the smaller ring.
proof fn point_stays(
    points: Seq<(u32, u32)>,
    names: Seq<Seq<char>>,
    dead: int,
    fewer: Seq<(u32, u32)>,
    k: int,
) -> (m: int)
    requires
        is_ring_of(points, names),
        names.no_duplicates(),
        0 <= dead < names.len(),
        is_ring_of(fewer, names.remove(dead)),
        0 <= k < points.len(),
        points[k].1 != dead,
    ensures
        matches_on(points, names, fewer, names.remove(dead), k, m),
{
    without_one(names, dead);
    let short = names.remove(dead);
    let (h, s) = points[k];
    assert(owns(names, s, h));
    assert(names.contains(names[s as int]));
    assert(short.contains(names[s as int]));
    let i = choose|i: int| 0 <= i < short.len() && short[i] == names[s as int];
    assert(has_point(short[i], h));
    assert(on_ring(fewer, h));
    let m = choose|m: int| 0 <= m < fewer.len() && (#[trigger] fewer[m]).0 == h;
    let t = fewer[m].1;
    assert(owns(short, t, h));
    assert(short.contains(short[t as int]));
    owners_agree(names, s, short, t, h);
    m
}

/// A point of the smaller ring was on the full one, with the same owner or
/// with the server that is gone.
proof fn point_was_there(
    points: Seq<(u32, u32)>,
    names: Seq<Seq<char>>,
    dead: int,
    fewer: Seq<(u32, u32)>,
    k: int,
) -> (m: int)
    requires
        is_ring_of(points, names),
        names.no_duplicates(),
        0 <= dead < names.len(),
        is_ring_of(fewer, names.remove(dead)),
        0 <= k < fewer.len(),
    ensures
        0 <= m < points.len(),
        points[m].0 == fewer[k].0,
        points[m].1 == dead || matches_on(fewer, names.remove(dead), points, names, k, m),
{
    without_one(names, dead);
    let short = names.remove(dead);
    let (h, t) = fewer[k];
    assert(owns(short, t, h));
    assert(short.contains(short[t as int]));
    let i = choose|i: int| 0 <= i < names.len() && names[i] == short[t as int];
    assert(has_point(names[i], h));
    assert(on_ring(points, h));
    let m = choose|m: int| 0 <= m < points.len() && (#[trigger] points[m]).0 == h;
    let s = points[m].1;
    assert(owns(names, s, h));
    assert(names.contains(names[s as int]));
    if s != dead {
        assert(names[s as int] != names[dead]);
        owners_agree(short, t, names, s, h);
    }
    m
}

/// Losing a server moves only the keys it owns, and so does adding one: a key
/// that belongs to another server belongs to that server on the ring without
/// the one.
pub proof fn losing_a_server_moves_only_its_own_keys(
    points: Seq<(u32, u32)>,
    names: Seq<Seq<char>>,
    dead: usize,
    fewer: Seq<(u32, u32)>,
    h: u32,
    s: usize,
    t: usize,
)
    requires
        is_ring_of(points, names),
        names.no_duplicates(),
        dead < names.len(),
        is_ring_of(fewer, names.remove(dead as int)),
        located(points, h, anyone(), s),
        s != dead,
        located(fewer, h, anyone(), t),
    ensures
        names[s as int] == names.remove(dead as int)[t as int],
{
    let k = choose|k: int| #[trigger] nearest(points, h, anyone(), k) && points[k].1 == s;
    let j = choose|k: int| #[trigger] nearest(fewer, h, anyone(), k) && fewer[k].1 == t;
    let km = point_stays(points, names, dead as int, fewer, k);
    let jm = point_was_there(points, names, dead as int, fewer, j);
    assert(distance(h, points[k].0) <= distance(h, points[jm].0));
    assert(distance(h, fewer[j].0) <= distance(h, fewer[km].0));
    assert(fewer[km].0 == fewer[j].0);
    assert(km == j);
}

/// Skipping a server that is down is the same as never having had it, but
/// where one of its points lies at the very hash of the point that the key
/// comes to.
pub proof fn skipping_a_server_is_not_having_it(
    points: Seq<(u32, u32)>,
    names: Seq<Seq<char>>,
    dead: usize,
    fewer: Seq<(u32, u32)>,
    h: u32,
    s: usize,
    t: usize,
)
    requires
        is_ring_of(points, names),
        names.no_duplicates(),
        dead < names.len(),
        is_ring_of(fewer, names.remove(dead as int)),
        located(points, h, |i: usize| i != dead, s),
        located(fewer, h, anyone(), t),
    ensures
        names[s as int] == names.remove(dead as int)[t as int] || exists|k: int|
            #[trigger] nearest(fewer, h, anyone(), k) && has_point(names[dead as int], fewer[k].0),
{
    let up = |i: usize| i != dead;
    let j = choose|k: int| #[trigger] nearest(fewer, h, anyone(), k) && fewer[k].1 == t;
    let jm = point_was_there(points, names, dead as int, fewer, j);
    assert(owns(names, points[jm].1, points[jm].0));
    if points[jm].1 != dead {
        assert(up(points[jm].1 as usize));
        let k = choose|k: int| #[trigger] nearest(points, h, tried(points, up), k) && points[k].1 == s;
        let km = point_stays(points, names, dead as int, fewer, k);
        assert(distance(h, points[k].0) <= distance(h, points[jm].0));
        assert(distance(h, fewer[j].0) <= distance(h, fewer[km].0));
        assert(fewer[km].0 == fewer[j].0);
        assert(km == j);
    }
}

/// A cluster that is all down still points at the server a key belongs to.
pub proof fn a_cluster_that_is_all_down_points_at_the_owner(
    points: Seq<(u32, u32)>,
    h: u32,
    up: spec_fn(usize) -> bool,
    s: usize,
)
    requires
        all_down(points, up),
    ensures
        located(points, h, up, s) == located(points, h, anyone(), s),
{
    assert(tried(points, up) == tried(points, anyone())) by {
        assert(tried(points, anyone()) == anyone());
    }
}

/// One server owns everything.
pub proof fn one_server_owns_everything(
    points: Seq<(u32, u32)>,
    names: Seq<Seq<char>>,
    h: u32,
    up: spec_fn(usize) -> bool,
    s: usize,
)
    requires
        names.len() == 1,
        is_ring_of(points, names),
        located(points, h, up, s),
    ensures
        s == 0,
{
    let k = choose|k: int| #[trigger] nearest(points, h, tried(points, up), k) && points[k].1 == s;
    assert(owns(names, points[k].1, points[k].0));
}

} // verus!
