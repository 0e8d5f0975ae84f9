//! LEB128 integers, as prost writes and reads them.

use vstd::prelude::*;

verus! {

/// The unsigned LEB128 encoding of `n`: seven bits per byte, low group first,
/// the high bit set on every byte but the last.
pub open spec fn varint(n: nat) -> Seq<u8>
    decreases n,
{
    if n < 128 {
        seq![n as u8]
    } else {
        seq![(n % 128 + 128) as u8] + varint(n / 128)
    }
}

/// `s` begins with the encoding of `v`.
pub open spec fn starts_with_varint(s: Seq<u8>, v: u64) -> bool {
    &&& varint(v as nat).len() <= s.len()
    &&& s.subrange(0, varint(v as nat).len() as int) == varint(v as nat)
}

/// Relies on prost::encoding::encode_varint: appends the LEB128 encoding of `v`.
#[verifier::external_body]
pub(crate) fn encode_varint(v: u64, buf: &mut Vec<u8>)
    ensures
        final(buf)@ == old(buf)@ + varint(v as nat),
{
    prost::encoding::encode_varint(v, buf)
}

/// Relies on prost::encoding::encoded_len_varint: the length of the LEB128 encoding of `v`.
#[verifier::external_body]
pub(crate) fn encoded_len_varint(v: u64) -> (r: usize)
    ensures
        r == varint(v as nat).len(),
{
    prost::encoding::encoded_len_varint(v)
}

/// Relies on prost::encoding::decode_varint: reads one LEB128 integer from the
/// front of `b` and hands back the bytes after it. An encoding of `v` decodes to
/// `v`; whatever is read, the rest is a proper suffix of `b`.
#[verifier::external_body]
pub(crate) fn decode_varint<'a>(b: &'a [u8]) -> (r: Option<(u64, &'a [u8])>)
    ensures
        forall|v: u64|
            #[trigger] starts_with_varint(b@, v) ==> {
                &&& r is Some
                &&& r->Some_0.0 == v
                &&& r->Some_0.1@ == b@.skip(varint(v as nat).len() as int)
            },
        r is Some ==> {
            &&& r->Some_0.1@.len() < b@.len()
            &&& r->Some_0.1@ == b@.skip(b@.len() - r->Some_0.1@.len())
        },
{
    let mut rest: &[u8] = b;
    match prost::encoding::decode_varint(&mut rest) {
        Ok(v) => Some((v, rest)),
        Err(_) => None,
    }
}

pub open spec fn pow128(k: nat) -> nat
    decreases k,
{
    if k == 0 {
        1
    } else {
        128 * pow128((k - 1) as nat)
    }
}

proof fn lemma_varint_len_bound(n: nat, k: nat)
    requires
        1 <= k,
        n < pow128(k),
    ensures
        varint(n).len() <= k,
    decreases n,
{
    if n >= 128 {
        let p = pow128((k - 1) as nat);
        if k == 1 {
            assert(pow128(0) == 1);
            assert(pow128(1) == 128);
        } else {
            assert(n / 128 < p) by (nonlinear_arith)
                requires n < 128 * p;
            lemma_varint_len_bound(n / 128, (k - 1) as nat);
        }
    }
}

/// The encoding is never empty, takes at most ten bytes for a 64-bit value and
/// at most five for a 32-bit one.
pub proof fn lemma_varint_len(n: nat)
    ensures
        1 <= varint(n).len(),
        n < 0x1_0000_0000_0000_0000 ==> varint(n).len() <= 10,
        n < 0x1_0000_0000 ==> varint(n).len() <= 5,
{
    reveal_with_fuel(pow128, 11);
    assert(pow128(10) == 0x40_0000_0000_0000_0000);
    assert(pow128(5) == 0x8_0000_0000);
    if n < 0x1_0000_0000_0000_0000 {
        lemma_varint_len_bound(n, 10);
    }
    if n < 0x1_0000_0000 {
        lemma_varint_len_bound(n, 5);
    }
}

} // verus!
