//! The fixed-width integers that travel in request and reply bodies.

use byteorder::{BigEndian, WriteBytesExt};
use vstd::prelude::*;

verus! {

/// The eight bytes of `value`, most significant first.
pub open spec fn be_bytes(value: u64) -> Seq<u8> {
    seq![
        (value / 0x100_0000_0000_0000) as u8,
        (value / 0x1_0000_0000_0000 % 256) as u8,
        (value / 0x100_0000_0000 % 256) as u8,
        (value / 0x1_0000_0000 % 256) as u8,
        (value / 0x100_0000 % 256) as u8,
        (value / 0x1_0000 % 256) as u8,
        (value / 0x100 % 256) as u8,
        (value % 256) as u8,
    ]
}

/// The number that `bytes` spell, most significant byte first.
pub open spec fn be_value(bytes: Seq<u8>) -> nat
    decreases bytes.len(),
{
    if bytes.len() == 0 {
        0
    } else {
        be_value(bytes.drop_last()) * 256 + bytes.last() as nat
    }
}

/// 256 to the power `k`.
pub open spec fn pow256(k: nat) -> nat
    decreases k,
{
    if k == 0 {
        1
    } else {
        256 * pow256((k - 1) as nat)
    }
}

/// `k` bytes spell a number below `256^k`.
pub proof fn lemma_be_value_bound(bytes: Seq<u8>)
    ensures
        be_value(bytes) < pow256(bytes.len()),
    decreases bytes.len(),
{
    if bytes.len() > 0 {
        lemma_be_value_bound(bytes.drop_last());
    }
}

/// Appending a byte shifts the number spelled so far by one byte.
pub proof fn lemma_be_value_push(bytes: Seq<u8>, last: u8)
    ensures
        be_value(bytes.push(last)) == be_value(bytes) * 256 + last,
{
    assert(bytes.push(last).drop_last() =~= bytes);
}

/// One step of reading a number byte by byte: the quotient by `unit` is made
/// of the quotient by `256 * unit` and the byte that stands at `unit`.
proof fn lemma_byte_step(value: nat, unit: nat)
    requires
        unit > 0,
    ensures
        value / unit == (value / (unit * 256)) * 256 + (value / unit) % 256,
{
    vstd::arithmetic::div_mod::lemma_div_denominator(value as int, unit as int, 256);
}

/// Reading back the eight bytes of a number gives the number.
pub proof fn lemma_be_round_trip(value: u64)
    ensures
        be_bytes(value).len() == 8,
        be_value(be_bytes(value)) == value,
{
    let v = value as nat;
    let e0 = (value / 0x100_0000_0000_0000) as u8;
    let e1 = (value / 0x1_0000_0000_0000 % 256) as u8;
    let e2 = (value / 0x100_0000_0000 % 256) as u8;
    let e3 = (value / 0x1_0000_0000 % 256) as u8;
    let e4 = (value / 0x100_0000 % 256) as u8;
    let e5 = (value / 0x1_0000 % 256) as u8;
    let e6 = (value / 0x100 % 256) as u8;
    let e7 = (value % 256) as u8;
    let s0 = Seq::<u8>::empty();
    let s1 = s0.push(e0);
    let s2 = s1.push(e1);
    let s3 = s2.push(e2);
    let s4 = s3.push(e3);
    let s5 = s4.push(e4);
    let s6 = s5.push(e5);
    let s7 = s6.push(e6);
    let s8 = s7.push(e7);
    assert(be_bytes(value) =~= s8);
    lemma_be_value_push(s0, e0);
    lemma_be_value_push(s1, e1);
    lemma_be_value_push(s2, e2);
    lemma_be_value_push(s3, e3);
    lemma_be_value_push(s4, e4);
    lemma_be_value_push(s5, e5);
    lemma_be_value_push(s6, e6);
    lemma_be_value_push(s7, e7);
    assert(be_value(s1) == v / 0x100_0000_0000_0000);
    lemma_byte_step(v, 0x1_0000_0000_0000);
    assert(be_value(s2) == v / 0x1_0000_0000_0000);
    lemma_byte_step(v, 0x100_0000_0000);
    assert(be_value(s3) == v / 0x100_0000_0000);
    lemma_byte_step(v, 0x1_0000_0000);
    assert(be_value(s4) == v / 0x1_0000_0000);
    lemma_byte_step(v, 0x100_0000);
    assert(be_value(s5) == v / 0x100_0000);
    lemma_byte_step(v, 0x1_0000);
    assert(be_value(s6) == v / 0x1_0000);
    lemma_byte_step(v, 0x100);
    assert(be_value(s7) == v / 0x100);
    lemma_byte_step(v, 1);
    assert(be_value(s8) == v);
}

/// Appends `value` to `out` as eight bytes in big-endian order.
///
/// Trusted: the body is byteorder's `WriteBytesExt::write_u64::<BigEndian>` on
/// a `Vec<u8>` writer. The contract claims that the call leaves the bytes
/// already in `out` alone and adds the eight bytes of `value`, most
/// significant first. Writing to a `Vec<u8>` cannot fail, so the `Result` of
/// the call is dropped.
#[verifier::external_body]
pub(crate) fn write_u64_be(out: &mut Vec<u8>, value: u64)
    ensures
        final(out)@ == old(out)@ + be_bytes(value),
{
    let _ = out.write_u64::<BigEndian>(value);
}

/// Reads a reply body as one 64-bit big-endian integer. A body of any other
/// length than eight bytes holds no such integer.
pub fn decode_u64_be(payload: &[u8]) -> (value: Option<u64>)
    ensures
        payload@.len() == 8 ==> value == Some(be_value(payload@) as u64) && be_value(payload@)
            <= u64::MAX,
        payload@.len() != 8 ==> value.is_none(),
{
    if payload.len() != 8 {
        return None;
    }
    let mut acc: u64 = 0;
    let mut i: usize = 0;
    while i < 8
        invariant
            i <= 8,
            payload@.len() == 8,
            acc == be_value(payload@.take(i as int)),
        decreases 8 - i,
    {
        proof {
            lemma_be_value_bound(payload@.take(i as int));
            reveal_with_fuel(pow256, 9);
            assert(payload@.take(i + 1).drop_last() =~= payload@.take(i as int));
        }
        acc = acc * 256 + payload[i] as u64;
        i += 1;
    }
    proof {
        assert(payload@.take(8) =~= payload@);
    }
    Some(acc)
}

} // verus!
