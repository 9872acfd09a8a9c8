//! Object identifiers: the SHA-1 digest of a byte string, written as forty
//! lower-case hexadecimal digits.

use sha1::{Digest, Sha1};
use vstd::prelude::*;

verus! {

/// The SHA-1 digest of `data`, as the `sha1` crate computes it.
pub uninterp spec fn sha1_of(data: Seq<u8>) -> Seq<u8>;

/// Calls `Sha1::digest` of the `sha1` crate on `data`. The contract names the
/// digest [`sha1_of`]`(data)`; that it has twenty bytes is in the result's
/// type. Nothing else is claimed of it.
#[verifier::external_body]
fn sha1_digest(data: &[u8]) -> (out: [u8; 20])
    ensures
        out@ == sha1_of(data@),
{
    Sha1::digest(data).into()
}

/// The ASCII code of the hexadecimal digit for `n`, in lower case.
pub open spec fn hex_digit(n: int) -> u8 {
    if n < 10 {
        (0x30 + n) as u8
    } else {
        (0x57 + n) as u8
    }
}

/// `d` in hexadecimal: two digits for each byte, the high one first.
pub open spec fn hex(d: Seq<u8>) -> Seq<u8> {
    Seq::new(
        2 * d.len(),
        |i: int|
            if i % 2 == 0 {
                hex_digit(d[i / 2] as int / 16)
            } else {
                hex_digit(d[i / 2] as int % 16)
            },
    )
}

/// The digest of `data` as twenty bytes. The type of what [`sha1_digest`]
/// returns says that a digest has twenty bytes; should [`sha1_of`] name
/// anything else, twenty zero bytes stand for it, so that every
/// identifier has forty digits.
pub open spec fn digest(data: Seq<u8>) -> Seq<u8> {
    if sha1_of(data).len() == 20 {
        sha1_of(data)
    } else {
        Seq::new(20, |i: int| 0u8)
    }
}

/// The identifier of the bytes `data`: their digest in hexadecimal.
pub open spec fn oid_of(data: Seq<u8>) -> Seq<u8> {
    hex(digest(data))
}

/// Whether `b` is the ASCII code of a hexadecimal digit, in either case.
pub open spec fn is_hex_digit(b: u8) -> bool {
    (0x30 <= b <= 0x39) || (0x61 <= b <= 0x66) || (0x41 <= b <= 0x46)
}

/// Whether `s` has the shape of an object identifier: forty hexadecimal
/// digits.
pub open spec fn is_oid(s: Seq<u8>) -> bool {
    s.len() == 40 && forall|i: int| 0 <= i < s.len() ==> is_hex_digit(#[trigger] s[i])
}

/// The hexadecimal digit for a number below sixteen.
fn digit(n: u8) -> (r: u8)
    requires
        n < 16,
    ensures
        r == hex_digit(n as int),
        is_hex_digit(r),
{
    if n < 10 {
        0x30 + n
    } else {
        0x57 + n
    }
}

/// Writes `d` in hexadecimal.
pub fn to_hex(d: &[u8]) -> (r: Vec<u8>)
    ensures
        r@ == hex(d@),
        r@.len() == 2 * d@.len(),
        forall|i: int| 0 <= i < r@.len() ==> is_hex_digit(#[trigger] r@[i]),
{
    let mut r: Vec<u8> = Vec::new();
    let mut i: usize = 0;
    while i < d.len()
        invariant
            i <= d.len(),
            r@.len() == 2 * i,
            forall|j: int| 0 <= j < r@.len() ==> r@[j] == hex(d@)[j],
            forall|j: int| 0 <= j < r@.len() ==> is_hex_digit(#[trigger] r@[j]),
        decreases d.len() - i,
    {
        let b = d[i];
        r.push(digit(b / 16));
        r.push(digit(b % 16));
        i += 1;
    }
    assert(r@ =~= hex(d@));
    r
}

/// The identifier of `data`: its SHA-1 digest in hexadecimal.
pub fn generate_oid(data: &[u8]) -> (oid: Vec<u8>)
    ensures
        oid@ == oid_of(data@),
        is_oid(oid@),
{
    let digest = sha1_digest(data);
    to_hex(digest.as_slice())
}

/// Whether `s` has the shape of an object identifier.
pub fn is_oid_shaped(s: &[u8]) -> (r: bool)
    ensures
        r == is_oid(s@),
{
    if s.len() != 40 {
        return false;
    }
    let mut i: usize = 0;
    while i < s.len()
        invariant
            i <= s.len(),
            forall|j: int| 0 <= j < i ==> is_hex_digit(#[trigger] s@[j]),
        decreases s.len() - i,
    {
        let b = s[i];
        let ok = (0x30 <= b && b <= 0x39) || (0x61 <= b && b <= 0x66) || (0x41 <= b && b <= 0x46);
        if !ok {
            return false;
        }
        i += 1;
    }
    true
}

/// The hexadecimal digit for a number below sixteen is one.
pub proof fn lemma_hex_digit(n: int)
    requires
        0 <= n < 16,
    ensures
        is_hex_digit(hex_digit(n)),
{
}

/// Every identifier has the shape of one.
pub proof fn lemma_oid_shape(data: Seq<u8>)
    ensures
        is_oid(oid_of(data)),
{
    let d = digest(data);
    assert forall|i: int| 0 <= i < hex(d).len() implies is_hex_digit(#[trigger] hex(d)[i]) by {
        lemma_hex_digit(d[i / 2] as int / 16);
        lemma_hex_digit(d[i / 2] as int % 16);
    }
}

} // verus!
