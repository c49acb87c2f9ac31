use vstd::prelude::*;

verus! {

/// The 64-bit value that holds `v1` in its upper and `v2` in its lower
/// 32 bits.
pub open spec fn woven(v1: u32, v2: u32) -> int {
    v1 * 0x1_0000_0000 + v2
}

/// The two 32-bit halves of a 64-bit value, upper half first.
pub open spec fn unwoven(w: u64) -> Seq<u32> {
    seq![(w / 0x1_0000_0000) as u32, (w % 0x1_0000_0000) as u32]
}

/// Weave two u32 values into a single u64: `v1` in the upper 32 bits and
/// `v2` in the lower 32 bits.
pub fn weave(v1: u32, v2: u32) -> (w: u64)
    ensures
        w == woven(v1, v2),
{
    let w = ((v1 as u64) << 32) | (v2 as u64);
    assert(((v1 as u64) << 32) | (v2 as u64) == (v1 as u64) * 0x1_0000_0000u64 + (v2 as u64))
        by (bit_vector);
    w
}

/// Unweave a combined u64 back into its two u32 components, returned as
/// `[v1, v2]`.
pub fn unweave(woven: u64) -> (parts: Vec<u32>)
    ensures
        parts@ == unwoven(woven),
{
    let v1 = (woven >> 32) as u32;
    let v2 = (woven & 0xFFFFFFFF) as u32;
    assert(woven >> 32 == woven / 0x1_0000_0000u64) by (bit_vector);
    assert(woven & 0xFFFFFFFF == woven % 0x1_0000_0000u64) by (bit_vector);
    let parts = vec![v1, v2];
    assert(parts@ =~= unwoven(woven));
    parts
}

/// Unweaving a woven pair gives the pair back.
pub proof fn lemma_unweave_weave(v1: u32, v2: u32)
    ensures
        0 <= woven(v1, v2) <= u64::MAX,
        unwoven(woven(v1, v2) as u64) == seq![v1, v2],
{
    let w = woven(v1, v2);
    assert(w <= u64::MAX) by (nonlinear_arith)
        requires
            w == v1 * 0x1_0000_0000 + v2,
            v1 <= u32::MAX,
            v2 <= u32::MAX,
    ;
    assert(w / 0x1_0000_0000 == v1 && w % 0x1_0000_0000 == v2) by (nonlinear_arith)
        requires
            w == v1 * 0x1_0000_0000 + v2,
            0 <= v2 < 0x1_0000_0000,
    ;
    assert(unwoven(w as u64) =~= seq![v1, v2]);
}

/// Weaving the two halves of a value gives the value back.
pub proof fn lemma_weave_unweave(w: u64)
    ensures
        woven(unwoven(w)[0], unwoven(w)[1]) == w,
{
    let hi = w / 0x1_0000_0000;
    let lo = w % 0x1_0000_0000;
    assert(hi < 0x1_0000_0000 && w == hi * 0x1_0000_0000 + lo) by (nonlinear_arith)
        requires
            hi == w / 0x1_0000_0000,
            lo == w % 0x1_0000_0000,
            w <= u64::MAX,
    ;
}

/// The woven value holds `v1` in its upper 32 bits and `v2` in its lower
/// 32 bits.
pub proof fn lemma_weave_bits(v1: u32, v2: u32)
    ensures
        0 <= woven(v1, v2) <= u64::MAX,
        (woven(v1, v2) as u64) >> 32u64 == v1 as u64,
        (woven(v1, v2) as u64) & 0xFFFF_FFFFu64 == v2 as u64,
{
    lemma_unweave_weave(v1, v2);
    let w = woven(v1, v2) as u64;
    assert(w >> 32u64 == w / 0x1_0000_0000u64) by (bit_vector);
    assert(w & 0xFFFF_FFFFu64 == w % 0x1_0000_0000u64) by (bit_vector);
}

/// Unweaving gives the upper 32 bits first, then the lower 32 bits.
pub proof fn lemma_unweave_bits(w: u64)
    ensures
        unwoven(w).len() == 2,
        unwoven(w)[0] == (w >> 32u64) as u32,
        unwoven(w)[1] == (w & 0xFFFF_FFFFu64) as u32,
{
    assert(w >> 32u64 == w / 0x1_0000_0000u64) by (bit_vector);
    assert(w & 0xFFFF_FFFFu64 == w % 0x1_0000_0000u64) by (bit_vector);
}

} // verus!
