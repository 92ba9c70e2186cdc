//! Messages: numbers written out, and text as bytes.

use crate::buf;
use crate::cache::key::same_bytes;
use bytes::Bytes;
use vstd::prelude::*;
use vstd::utf8;

verus! {

/// `String::push`: appends one character.
pub assume_specification[ String::push ](s: &mut String, c: char)
    ensures
        final(s)@ == old(s)@.push(c),
;

/// The character of a decimal digit.
pub open spec fn digit(d: nat) -> char {
    (48 + d % 10) as char
}

/// `n` in decimal, without leading zeros.
pub open spec fn decimal(n: nat) -> Seq<char>
    decreases n,
{
    if n < 10 {
        seq![digit(n)]
    } else {
        decimal(n / 10).push(digit(n % 10))
    }
}

/// Appends `n` in decimal to `out`.
pub fn push_decimal(out: &mut String, n: u64)
    ensures
        final(out)@ == old(out)@ + decimal(n as nat),
    decreases n,
{
    if n >= 10 {
        push_decimal(out, n / 10);
    }
    let d: u8 = 48 + (n % 10) as u8;
    out.push(d as char);
    assert(out@ =~= old(out)@ + decimal(n as nat));
}

/// Ten to the power of `k`.
pub open spec fn pow10(k: nat) -> nat
    decreases k,
{
    if k == 0 {
        1
    } else {
        10 * pow10((k - 1) as nat)
    }
}

/// A number below ten to the power of `k` takes at most `k` digits.
pub proof fn decimal_len(n: nat, k: nat)
    requires
        n < pow10(k),
        k > 0,
    ensures
        1 <= decimal(n).len() <= k,
    decreases k,
{
    if n >= 10 {
        if k == 1 {
            assert(pow10(1) == 10 * pow10(0));
        } else {
            decimal_len(n / 10, (k - 1) as nat);
        }
    }
}

/// A 64-bit number takes at most twenty digits.
pub proof fn u64_decimal_len(n: u64)
    ensures
        1 <= decimal(n as nat).len() <= 20,
{
    reveal_with_fuel(pow10, 21);
    decimal_len(n as nat, 20);
}

/// A character takes at most four bytes.
pub proof fn utf8_len(text: Seq<char>)
    ensures
        utf8::encode_utf8(text).len() <= 4 * text.len(),
    decreases text.len(),
{
    if text.len() > 0 {
        utf8_len(text.drop_first());
    }
}

/// The bytes of a text.
pub fn to_bytes(s: &String) -> (b: Bytes)
    ensures
        buf::bytes_seq(b) == utf8::encode_utf8(s@),
{
    Bytes::copy_from_slice(s.as_str().as_bytes())
}

/// Whether two texts are equal.
pub fn same(a: &str, b: &str) -> (r: bool)
    ensures
        r == (a@ == b@),
{
    proof {
        utf8::encode_utf8_decode_utf8(a@);
        utf8::encode_utf8_decode_utf8(b@);
    }
    same_bytes(a.as_bytes(), b.as_bytes())
}

} // verus!
