//! LEB128 varints as protobuf writes them, with the encoder and decoder of
//! `prost` behind two trusted wrappers.
use vstd::prelude::*;

verus! {

/// The bytes of the varint of `v`: seven bits per byte, low group first,
/// the high bit set on every byte but the last.
pub open spec fn varint_bytes(v: nat) -> Seq<u8>
    decreases v,
{
    if v < 128 {
        seq![v as u8]
    } else {
        seq![(v % 128 + 128) as u8] + varint_bytes(v / 128)
    }
}

/// Reads a varint at the front of `b`, where `depth` bytes of it were already
/// read: the value and the number of bytes it takes, or `None` when no byte
/// ends it within ten bytes in all.
pub open spec fn varint_from(b: Seq<u8>, depth: nat) -> Option<(nat, nat)>
    decreases b.len(),
{
    if depth >= 10 || b.len() == 0 {
        None
    } else if b[0] < 128 {
        Some((b[0] as nat, 1))
    } else {
        match varint_from(b.drop_first(), depth + 1) {
            Some((v, n)) => Some(((b[0] - 128) as nat + 128 * v, n + 1)),
            None => None,
        }
    }
}

/// 2^64: one more than the largest `u64`.
pub open spec fn u64_limit() -> nat {
    0x1_0000_0000_0000_0000
}

/// The varint at the front of `b` and its length, when there is one whose
/// value fits in 64 bits.
pub open spec fn parse_varint(b: Seq<u8>) -> Option<(u64, nat)> {
    match varint_from(b, 0) {
        Some((v, n)) => if v < u64_limit() {
            Some((v as u64, n))
        } else {
            None
        },
        None => None,
    }
}

/// Relies on prost::encoding::encode_varint: it appends the varint of `v`.
#[verifier::external_body]
pub(crate) fn put_varint(buf: &mut Vec<u8>, v: u64)
    ensures
        final(buf)@ == old(buf)@ + varint_bytes(v as nat),
{
    prost::encoding::encode_varint(v, buf);
}

/// Relies on prost::encoding::decode_varint on a byte slice: it reads the
/// varint at the front and leaves the slice after it, or fails where no
/// byte ends it within ten bytes or its value exceeds 64 bits.
#[verifier::external_body]
pub(crate) fn take_varint<'a>(b: &'a [u8]) -> (r: Option<(u64, &'a [u8])>)
    ensures
        r.is_some() == parse_varint(b@).is_some(),
        r.is_some() ==> r.unwrap().0 == parse_varint(b@).unwrap().0 && r.unwrap().1@ == b@.skip(
            parse_varint(b@).unwrap().1 as int,
        ),
{
    let mut rest = b;
    match prost::encoding::decode_varint(&mut rest) {
        Ok(v) => Some((v, rest)),
        Err(_) => None,
    }
}

/// A varint takes at least one byte and no more than there are.
pub proof fn lemma_varint_len(b: Seq<u8>, depth: nat)
    requires
        varint_from(b, depth).is_some(),
    ensures
        1 <= varint_from(b, depth).unwrap().1 <= b.len(),
        varint_from(b, depth).unwrap().1 <= 10 - depth,
    decreases b.len(),
{
    if b[0] >= 128 {
        lemma_varint_len(b.drop_first(), depth + 1);
    }
}

/// Reading back the varint of `v` gives `v` and its length, whatever follows.
pub proof fn lemma_varint_round_trip(v: nat, depth: nat, rest: Seq<u8>)
    requires
        depth < 10,
        v < vstd::arithmetic::power::pow(128, (10 - depth) as nat),
    ensures
        varint_from(varint_bytes(v) + rest, depth) == Some((v, varint_bytes(v).len())),
    decreases v,
{
    let b = varint_bytes(v) + rest;
    reveal(vstd::arithmetic::power::pow);
    if v >= 128 {
        let k = (10 - depth) as nat;
        let p = vstd::arithmetic::power::pow(128, (k - 1) as nat);
        assert(k >= 2) by {
            if k == 1 {
                assert(vstd::arithmetic::power::pow(128, 0) == 1);
                assert(vstd::arithmetic::power::pow(128, 1) == 128 * 1);
            }
        }
        assert(vstd::arithmetic::power::pow(128, k) == 128 * p);
        assert(v / 128 < p) by (nonlinear_arith)
            requires
                v < 128 * p,
                v >= 128,
        ;
        lemma_varint_round_trip(v / 128, depth + 1, rest);
        assert(b.drop_first() =~= varint_bytes(v / 128) + rest);
    }
}

/// Reading back the varint of a 64-bit value gives it and its length,
/// whatever follows.
pub proof fn lemma_parse_varint_bytes(v: nat, rest: Seq<u8>)
    requires
        v < u64_limit(),
    ensures
        parse_varint(varint_bytes(v) + rest) == Some((v as u64, varint_bytes(v).len())),
        1 <= varint_bytes(v).len() <= 10,
{
    reveal_with_fuel(vstd::arithmetic::power::pow, 11);
    assert(vstd::arithmetic::power::pow(128, 10) == 0x40_0000_0000_0000_0000);
    lemma_varint_round_trip(v, 0, rest);
    lemma_varint_len(varint_bytes(v) + rest, 0);
}

} // verus!
