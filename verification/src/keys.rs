//! Deterministic key derivation: a segment is addressed by a stable 64-bit
//! identifier computed from its collection id and its position in the
//! transcript, via an FNV-1a hash of `"<collection>_<position>"`.

use vstd::prelude::*;
use vstd::string::StrSliceExecFns;
use vstd::string::StringSliceAdditionalSpecFns;

verus! {

/// FNV-1a 64-bit offset basis.
pub const FNV_OFFSET_BASIS: u64 = 0xcbf29ce484222325;

/// FNV-1a 64-bit prime.
pub const FNV_PRIME: u64 = 0x100000001b3;

/// One round of FNV-1a: fold a byte into the accumulator.
pub open spec fn fnv1a_step(h: u64, b: u8) -> u64 {
    vstd::wrapping::u64_specs::wrapping_mul(h ^ (b as u64), FNV_PRIME)
}

/// The FNV-1a hash of a byte sequence.
pub open spec fn fnv1a(bytes: Seq<u8>) -> u64
    decreases bytes.len(),
{
    if bytes.len() == 0 {
        FNV_OFFSET_BASIS
    } else {
        fnv1a_step(fnv1a(bytes.drop_last()), bytes.last())
    }
}

/// FNV-1a over a byte slice.
pub fn fnv1a_bytes(bytes: &[u8]) -> (h: u64)
    ensures
        h == fnv1a(bytes@),
{
    let mut h: u64 = FNV_OFFSET_BASIS;
    let n: usize = bytes.len();
    assert(bytes@.take(0) =~= Seq::<u8>::empty());
    for i in 0..n
        invariant
            n == bytes@.len(),
            h == fnv1a(bytes@.take(i as int)),
    {
        h = (h ^ (bytes[i] as u64)).wrapping_mul(FNV_PRIME);
        proof {
            assert(bytes@.take(i + 1).drop_last() =~= bytes@.take(i as int));
            assert(bytes@.take(i + 1).last() == bytes@[i as int]);
        }
    }
    proof {
        assert(bytes@.take(n as int) =~= bytes@);
    }
    h
}

/// FNV-1a over the UTF-8 bytes of a string.
pub fn fnv1a_hash(s: &str) -> (h: u64)
    ensures
        h == fnv1a(s.spec_bytes()),
{
    fnv1a_bytes(s.as_bytes())
}

/// The decimal rendering of a non-negative integer, as ASCII bytes,
/// most significant digit first.
pub open spec fn decimal_digits(n: nat) -> Seq<u8>
    decreases n,
{
    if n < 10 {
        seq![(48 + n) as u8]
    } else {
        decimal_digits(n / 10).push((48 + n % 10) as u8)
    }
}

/// Appends the decimal rendering of `n` to `out`.
fn push_decimal(out: &mut Vec<u8>, n: usize)
    ensures
        final(out)@ == old(out)@ + decimal_digits(n as nat),
    decreases n,
{
    if n < 10 {
        out.push((48 + n) as u8);
        assert(out@ =~= old(out)@ + decimal_digits(n as nat));
    } else {
        push_decimal(out, n / 10);
        out.push((48 + n % 10) as u8);
        assert(out@ =~= old(out)@ + decimal_digits(n as nat));
    }
}

/// The byte string hashed to derive a segment key: the collection id's UTF-8
/// bytes, an underscore, and the decimal rendering of the position.
pub open spec fn key_bytes(collection_id: Seq<char>, position: nat) -> Seq<u8> {
    vstd::utf8::encode_utf8(collection_id) + seq![95u8] + decimal_digits(position)
}

/// The stable 64-bit identifier of the segment at `position` within
/// `collection_id`.
pub open spec fn spec_derive_key(collection_id: Seq<char>, position: nat) -> u64 {
    fnv1a(key_bytes(collection_id, position))
}

/// Derives the stable 64-bit key of the segment at `position` within the
/// collection `collection_id`. Deterministic: the same pair always yields the
/// same key, across runs and across store handles.
pub fn derive_key(collection_id: &str, position: usize) -> (k: u64)
    ensures
        k == spec_derive_key(collection_id@, position as nat),
{
    let mut buf: Vec<u8> = collection_id.as_bytes_vec();
    buf.push(95);
    push_decimal(&mut buf, position);
    assert(buf@ =~= key_bytes(collection_id@, position as nat));
    fnv1a_bytes(buf.as_slice())
}

} // verus!
