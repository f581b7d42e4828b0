//! Little-endian encoding of the fixed-width integers used in pages.
use vstd::prelude::*;
use vstd::bytes::*;

verus! {

/// Eight little-endian bytes of a signed value (two's complement).
pub open spec fn spec_i64_le(x: i64) -> Seq<u8> {
    spec_u64_to_le_bytes(x as u64)
}

/// Four little-endian bytes of `x`.
pub open spec fn spec_u32_le(x: u32) -> Seq<u8> {
    spec_u32_to_le_bytes(x)
}

/// Eight little-endian bytes of `x`.
pub open spec fn spec_u64_le(x: u64) -> Seq<u8> {
    spec_u64_to_le_bytes(x)
}

pub proof fn lemma_le_lengths()
    ensures
        forall|x: u32| #[trigger] spec_u32_le(x).len() == 4,
        forall|x: u64| #[trigger] spec_u64_le(x).len() == 8,
        forall|x: i64| #[trigger] spec_i64_le(x).len() == 8,
{
    lemma_auto_spec_u32_to_from_le_bytes();
    lemma_auto_spec_u64_to_from_le_bytes();
    assert forall|x: i64| #[trigger] spec_i64_le(x).len() == 8 by {
        assert(spec_u64_to_le_bytes(x as u64).len() == 8);
    }
}

/// Appends all of `src` to `dst`.
pub fn push_all(dst: &mut Vec<u8>, src: &[u8])
    ensures
        final(dst)@ == old(dst)@ + src@,
{
    let mut i: usize = 0;
    while i < src.len()
        invariant
            i <= src@.len(),
            dst@ == old(dst)@ + src@.subrange(0, i as int),
        decreases src@.len() - i,
    {
        dst.push(src[i]);
        i += 1;
        proof {
            assert(dst@ =~= old(dst)@ + src@.subrange(0, i as int));
        }
    }
    proof {
        assert(src@.subrange(0, src@.len() as int) =~= src@);
    }
}

/// Appends the little-endian bytes of `x`.
pub fn push_u32_le(dst: &mut Vec<u8>, x: u32)
    ensures
        final(dst)@ == old(dst)@ + spec_u32_le(x),
{
    let b = u32_to_le_bytes(x);
    push_all(dst, b.as_slice());
}

/// Appends the little-endian bytes of `x`.
pub fn push_u64_le(dst: &mut Vec<u8>, x: u64)
    ensures
        final(dst)@ == old(dst)@ + spec_u64_le(x),
{
    let b = u64_to_le_bytes(x);
    push_all(dst, b.as_slice());
}

/// Appends the little-endian two's-complement bytes of `x`.
pub fn push_i64_le(dst: &mut Vec<u8>, x: i64)
    ensures
        final(dst)@ == old(dst)@ + spec_i64_le(x),
{
    let b = u64_to_le_bytes(x as u64);
    push_all(dst, b.as_slice());
}

/// Reads a little-endian `u32` at `off`.
pub fn read_u32_le(s: &[u8], off: usize) -> (r: u32)
    requires
        off + 4 <= s@.len(),
    ensures
        spec_u32_le(r) == s@.subrange(off as int, off + 4),
{
    let n = s.len();
    let r = u32_from_le_bytes(&s[off..off + 4]);
    proof {
        lemma_auto_spec_u32_to_from_le_bytes();
    }
    r
}

/// Reads a little-endian `u64` at `off`.
pub fn read_u64_le(s: &[u8], off: usize) -> (r: u64)
    requires
        off + 8 <= s@.len(),
    ensures
        spec_u64_le(r) == s@.subrange(off as int, off + 8),
{
    let n = s.len();
    let r = u64_from_le_bytes(&s[off..off + 8]);
    proof {
        lemma_auto_spec_u64_to_from_le_bytes();
    }
    r
}

/// Reads a little-endian two's-complement `i64` at `off`.
pub fn read_i64_le(s: &[u8], off: usize) -> (r: i64)
    requires
        off + 8 <= s@.len(),
    ensures
        spec_i64_le(r) == s@.subrange(off as int, off + 8),
{
    let u = read_u64_le(s, off);
    let r = u as i64;
    proof {
        assert((r as u64) == u) by (bit_vector)
            requires
                r == u as i64,
        ;
    }
    r
}

/// The encodings are injective: equal bytes mean equal values.
pub proof fn lemma_le_injective()
    ensures
        forall|a: u32, b: u32| #[trigger] spec_u32_le(a) == #[trigger] spec_u32_le(b) ==> a == b,
        forall|a: u64, b: u64| #[trigger] spec_u64_le(a) == #[trigger] spec_u64_le(b) ==> a == b,
        forall|a: i64, b: i64| #[trigger] spec_i64_le(a) == #[trigger] spec_i64_le(b) ==> a == b,
{
    lemma_auto_spec_u32_to_from_le_bytes();
    lemma_auto_spec_u64_to_from_le_bytes();
    assert forall|a: u32, b: u32| #[trigger] spec_u32_le(a) == #[trigger] spec_u32_le(b) implies a == b by {
        assert(spec_u32_to_le_bytes(a).len() == 4);
        assert(spec_u32_to_le_bytes(b).len() == 4);
        assert(spec_u32_from_le_bytes(spec_u32_to_le_bytes(a)) == a);
        assert(spec_u32_from_le_bytes(spec_u32_to_le_bytes(b)) == b);
    }
    assert forall|a: u64, b: u64| #[trigger] spec_u64_le(a) == #[trigger] spec_u64_le(b) implies a == b by {
        assert(spec_u64_from_le_bytes(spec_u64_to_le_bytes(a)) == a);
        assert(spec_u64_from_le_bytes(spec_u64_to_le_bytes(b)) == b);
    }
    assert forall|a: i64, b: i64| #[trigger] spec_i64_le(a) == #[trigger] spec_i64_le(b) implies a == b by {
        let ua = a as u64;
        let ub = b as u64;
        assert(spec_u64_from_le_bytes(spec_u64_to_le_bytes(ua)) == ua);
        assert(spec_u64_from_le_bytes(spec_u64_to_le_bytes(ub)) == ub);
        assert(ua == ub ==> a == b) by (bit_vector)
            requires
                ua == a as u64,
                ub == b as u64,
        ;
    }
}

} // verus!
