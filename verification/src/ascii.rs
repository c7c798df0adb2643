//! ASCII byte/text conversions.
//!
//! Names inside the container are raw ASCII bytes; the rest of the
//! library speaks `String`.  This module converts between the two and
//! renders integers in decimal for derived file names.

use vstd::prelude::*;

verus! {

/// True iff every byte of `s` is ASCII.
pub open spec fn seq_is_ascii(s: Seq<u8>) -> bool {
    forall|i: int| 0 <= i < s.len() ==> s[i] < 0x80
}

/// The characters an ASCII byte sequence spells.
pub open spec fn ascii_chars(s: Seq<u8>) -> Seq<char> {
    Seq::new(s.len(), |i: int| s[i] as char)
}

/// Relies on `String::from_utf8`: ASCII bytes are valid UTF-8 and decode
/// to exactly one character per byte, each the byte's own code point.
#[verifier::external_body]
pub fn ascii_to_string(bytes: &[u8]) -> (r: String)
    requires
        seq_is_ascii(bytes@),
    ensures
        r@ == ascii_chars(bytes@),
{
    String::from_utf8(bytes.to_vec()).unwrap()
}

/// True iff every byte of the slice is ASCII.
pub fn is_ascii_bytes(bytes: &[u8]) -> (r: bool)
    ensures
        r == seq_is_ascii(bytes@),
{
    let n = bytes.len();
    for i in 0..n
        invariant
            n == bytes@.len(),
            forall|j: int| 0 <= j < i ==> bytes@[j] < 0x80,
    {
        if bytes[i] >= 0x80 {
            return false;
        }
    }
    true
}

/// The ASCII digits of `n` in decimal, most significant first.
pub open spec fn dec_digits(n: nat) -> Seq<u8>
    decreases n,
{
    if n < 10 {
        seq![(0x30 + n) as u8]
    } else {
        dec_digits(n / 10).push((0x30 + n % 10) as u8)
    }
}

/// The decimal spelling of `n`.
pub open spec fn dec_chars(n: nat) -> Seq<char> {
    ascii_chars(dec_digits(n))
}

/// Every decimal digit byte is ASCII.
pub proof fn lemma_dec_digits_ascii(n: nat)
    ensures
        seq_is_ascii(dec_digits(n)),
    decreases n,
{
    if n >= 10 {
        lemma_dec_digits_ascii(n / 10);
    }
}

/// Render `n` in decimal.
pub fn decimal_string(n: usize) -> (r: String)
    ensures
        r@ == dec_chars(n as nat),
{
    let mut low: Vec<u8> = Vec::new();
    let mut m: usize = n;
    while m >= 10
        invariant
            dec_digits(n as nat) =~= dec_digits(m as nat) + low@.reverse(),
        decreases m,
    {
        let d: u8 = (m % 10) as u8;
        low.push(0x30 + d);
        proof {
            assert(low@.reverse() =~= seq![(0x30 + (m as nat) % 10) as u8] + low@.drop_last().reverse());
        }
        m = m / 10;
    }
    let mut digits: Vec<u8> = Vec::new();
    digits.push(0x30 + (m as u8));
    let k = low.len();
    for t in 0..k
        invariant
            k == low@.len(),
            m < 10,
            digits@ =~= seq![(0x30 + (m as nat)) as u8] + low@.reverse().take(t as int),
    {
        digits.push(low[k - 1 - t]);
        proof {
            assert(low@.reverse()[t as int] == low@[k - 1 - t]);
            assert(low@.reverse().take(t + 1) =~= low@.reverse().take(t as int).push(
                low@.reverse()[t as int],
            ));
        }
    }
    proof {
        assert(digits@ =~= dec_digits(n as nat));
        lemma_dec_digits_ascii(n as nat);
    }
    ascii_to_string(digits.as_slice())
}

} // verus!
