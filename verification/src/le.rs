//! Little-endian encoding of 64-bit integers, the unit of the log format.
use byteorder::{ByteOrder, LittleEndian};
use vstd::prelude::*;

verus! {

/// `256^k`: one more than the largest value that `k` bytes can hold.
pub open spec fn byte_bound(k: nat) -> nat
    decreases k,
{
    if k == 0 {
        1
    } else {
        256 * byte_bound((k - 1) as nat)
    }
}

/// Value of a little-endian sequence of bytes (first byte least significant).
pub open spec fn le_value(b: Seq<u8>) -> nat
    decreases b.len(),
{
    if b.len() == 0 {
        0
    } else {
        b[0] as nat + 256 * le_value(b.drop_first())
    }
}

/// The `k` little-endian bytes of `n` (taken modulo `256^k`).
pub open spec fn le_bytes(n: nat, k: nat) -> Seq<u8>
    decreases k,
{
    if k == 0 {
        Seq::empty()
    } else {
        seq![(n % 256) as u8] + le_bytes(n / 256, (k - 1) as nat)
    }
}

/// The eight little-endian bytes of a 64-bit integer.
pub open spec fn u64_le(n: u64) -> Seq<u8> {
    le_bytes(n as nat, 8)
}

/// Value of the eight bytes that start at `pos`.
pub open spec fn u64_at(b: Seq<u8>, pos: int) -> u64 {
    le_value(b.subrange(pos, pos + 8)) as u64
}

pub proof fn lemma_byte_bound_64()
    ensures
        byte_bound(8) == 0x1_0000_0000_0000_0000nat,
{
    reveal_with_fuel(byte_bound, 9);
}

/// Encoding on `k` bytes has length `k`.
pub proof fn lemma_le_bytes_len(n: nat, k: nat)
    ensures
        le_bytes(n, k).len() == k,
    decreases k,
{
    if k > 0 {
        lemma_le_bytes_len(n / 256, (k - 1) as nat);
    }
}

/// A value read from `k` bytes is below `256^k`.
pub proof fn lemma_le_value_bound(b: Seq<u8>)
    ensures
        le_value(b) < byte_bound(b.len()),
    decreases b.len(),
{
    if b.len() > 0 {
        lemma_le_value_bound(b.drop_first());
        let r = le_value(b.drop_first());
        let bb = byte_bound((b.len() - 1) as nat);
        assert(b[0] as nat + 256 * r < 256 * bb) by (nonlinear_arith)
            requires
                r < bb,
                b[0] < 256,
        ;
    }
}

/// Reading back `k` bytes written from a value below `256^k` gives that value.
pub proof fn lemma_le_roundtrip(n: nat, k: nat)
    requires
        n < byte_bound(k),
    ensures
        le_value(le_bytes(n, k)) == n,
        le_bytes(n, k).len() == k,
    decreases k,
{
    lemma_le_bytes_len(n, k);
    if k > 0 {
        let bb = byte_bound((k - 1) as nat);
        assert(n / 256 < bb) by (nonlinear_arith)
            requires
                n < 256 * bb,
        ;
        lemma_le_roundtrip(n / 256, (k - 1) as nat);
        let s = le_bytes(n, k);
        assert(s.drop_first() =~= le_bytes(n / 256, (k - 1) as nat));
        assert(n == 256 * (n / 256) + n % 256) by (nonlinear_arith);
    }
}

/// The eight bytes of `n` read back as `n`.
pub proof fn lemma_u64_roundtrip(n: u64)
    ensures
        le_value(u64_le(n)) == n,
        u64_le(n).len() == 8,
{
    lemma_byte_bound_64();
    lemma_le_roundtrip(n as nat, 8);
}

/// If the eight bytes at `pos` encode `n`, reading there gives `n`.
pub proof fn lemma_u64_at(b: Seq<u8>, pos: int, n: u64)
    requires
        0 <= pos,
        pos + 8 <= b.len(),
        b.subrange(pos, pos + 8) == u64_le(n),
    ensures
        u64_at(b, pos) == n,
{
    lemma_u64_roundtrip(n);
}

/// Reads, with `byteorder`'s `LittleEndian::read_u64`, the eight bytes of
/// `buf` that start at `pos`: the claim is that the result is their
/// little-endian value (the crate calls `u64::from_le_bytes` on them).
#[verifier::external_body]
pub(crate) fn read_u64_at(buf: &[u8], pos: usize) -> (n: u64)
    requires
        pos + 8 <= buf@.len(),
    ensures
        n as nat == le_value(buf@.subrange(pos as int, pos + 8)),
{
    LittleEndian::read_u64(&buf[pos..])
}

/// Appends to `out` the eight bytes that `byteorder`'s
/// `LittleEndian::write_u64` writes for `n`: the claim is that they are the
/// little-endian bytes of `n` (the crate copies `n.to_le_bytes()`).
#[verifier::external_body]
pub(crate) fn push_u64(out: &mut Vec<u8>, n: u64)
    ensures
        final(out)@ == old(out)@ + u64_le(n),
{
    let mut buf = [0u8; 8];
    LittleEndian::write_u64(&mut buf, n);
    out.extend_from_slice(&buf);
}

} // verus!
