//! CRC-32C (Castagnoli), bit by bit.
use vstd::prelude::*;

verus! {

/// The reflected Castagnoli polynomial.
pub const CRC32C_POLY: u32 = 0x82F6_3B78;

/// One bit of polynomial division.
pub open spec fn crc_bit(s: u32) -> u32 {
    if s & 1 == 1 {
        (s >> 1) ^ CRC32C_POLY
    } else {
        s >> 1
    }
}

/// `n` bits of polynomial division.
pub open spec fn crc_bits(s: u32, n: nat) -> u32
    decreases n,
{
    if n == 0 {
        s
    } else {
        crc_bit(crc_bits(s, (n - 1) as nat))
    }
}

/// The register after one byte.
pub open spec fn crc_byte(s: u32, b: u8) -> u32 {
    crc_bits(s ^ (b as u32), 8)
}

/// The register after a run of bytes.
pub open spec fn crc_run(s: u32, data: Seq<u8>) -> u32
    decreases data.len(),
{
    if data.len() == 0 {
        s
    } else {
        crc_byte(crc_run(s, data.drop_last()), data.last())
    }
}

/// The checksum of what `crc` covers followed by `data`.
pub open spec fn crc32c_after(crc: u32, data: Seq<u8>) -> u32 {
    !crc_run(!crc, data)
}

/// The checksum of `data`.
pub open spec fn crc32c_of(data: Seq<u8>) -> u32 {
    crc32c_after(0, data)
}

proof fn lemma_crc_run_concat(s: u32, a: Seq<u8>, b: Seq<u8>)
    ensures
        crc_run(s, a + b) == crc_run(crc_run(s, a), b),
    decreases b.len(),
{
    if b.len() == 0 {
        assert(a + b =~= a);
    } else {
        assert((a + b).drop_last() =~= a + b.drop_last());
        lemma_crc_run_concat(s, a, b.drop_last());
    }
}

/// A checksum carried along piece by piece is the checksum of the whole.
pub proof fn law_crc_append(crc: u32, a: Seq<u8>, b: Seq<u8>)
    ensures
        crc32c_after(crc32c_after(crc, a), b) == crc32c_after(crc, a + b),
{
    lemma_crc_run_concat(!crc, a, b);
    let x = crc_run(!crc, a);
    assert(!(!x) == x) by (bit_vector);
}

/// Carry a checksum on over `data`.
pub fn crc32c_append(crc: u32, data: &[u8]) -> (r: u32)
    ensures
        r == crc32c_after(crc, data@),
{
    let mut s: u32 = !crc;
    let mut i: usize = 0;
    proof {
        assert(data@.subrange(0, 0) =~= Seq::<u8>::empty());
    }
    while i < data.len()
        invariant
            i <= data@.len(),
            s == crc_run(!crc, data@.subrange(0, i as int)),
        decreases data.len() - i,
    {
        let ghost start = s;
        s = s ^ (data[i] as u32);
        let ghost fed = s;
        let mut n: u32 = 0;
        while n < 8
            invariant
                n <= 8,
                s == crc_bits(fed, n as nat),
            decreases 8 - n,
        {
            if s & 1 == 1 {
                s = (s >> 1) ^ CRC32C_POLY;
            } else {
                s = s >> 1;
            }
            n = n + 1;
        }
        i = i + 1;
        proof {
            let t = data@.subrange(0, i as int);
            assert(t.drop_last() =~= data@.subrange(0, i - 1));
            assert(t.last() == data@[i - 1]);
        }
    }
    proof {
        assert(data@.subrange(0, i as int) =~= data@);
    }
    !s
}

/// The checksum of `data`.
pub fn crc32c(data: &[u8]) -> (r: u32)
    ensures
        r == crc32c_of(data@),
{
    crc32c_append(0, data)
}

proof fn lemma_bit_tells_apart(s: u32, t: u32)
    requires
        s != t,
    ensures
        crc_bit(s) != crc_bit(t),
{
    assert(s != t ==> (if s & 1 == 1 {
        (s >> 1) ^ 0x82F6_3B78u32
    } else {
        s >> 1
    }) != (if t & 1 == 1 {
        (t >> 1) ^ 0x82F6_3B78u32
    } else {
        t >> 1
    })) by (bit_vector);
}

proof fn lemma_bits_tell_apart(s: u32, t: u32, n: nat)
    requires
        s != t,
    ensures
        crc_bits(s, n) != crc_bits(t, n),
    decreases n,
{
    if n > 0 {
        lemma_bits_tell_apart(s, t, (n - 1) as nat);
        lemma_bit_tells_apart(crc_bits(s, (n - 1) as nat), crc_bits(t, (n - 1) as nat));
    }
}

proof fn lemma_run_tells_apart(s: u32, t: u32, data: Seq<u8>)
    requires
        s != t,
    ensures
        crc_run(s, data) != crc_run(t, data),
    decreases data.len(),
{
    if data.len() > 0 {
        lemma_run_tells_apart(s, t, data.drop_last());
        let x = crc_run(s, data.drop_last());
        let y = crc_run(t, data.drop_last());
        let b = data.last() as u32;
        assert(x != y ==> x ^ b != y ^ b) by (bit_vector);
        lemma_bits_tell_apart(x ^ b, y ^ b, 8);
    }
}

/// A changed byte never goes unnoticed: bytes that differ in one place have
/// different checksums.
pub proof fn law_one_changed_byte_is_noticed(front: Seq<u8>, a: u8, b: u8, back: Seq<u8>)
    requires
        a != b,
    ensures
        crc32c_of(front.push(a) + back) != crc32c_of(front.push(b) + back),
{
    let start = !0u32;
    let s = crc_run(start, front);
    let x = a as u32;
    let y = b as u32;
    assert(front.push(a).drop_last() =~= front);
    assert(front.push(b).drop_last() =~= front);
    assert(x != y ==> s ^ x != s ^ y) by (bit_vector);
    lemma_bits_tell_apart(s ^ x, s ^ y, 8);
    lemma_crc_run_concat(start, front.push(a), back);
    lemma_crc_run_concat(start, front.push(b), back);
    let p = crc_run(start, front.push(a));
    let q = crc_run(start, front.push(b));
    lemma_run_tells_apart(p, q, back);
    let u = crc_run(p, back);
    let v = crc_run(q, back);
    assert(u != v ==> !u != !v) by (bit_vector);
}

} // verus!
