//! Quantized coefficients: the quantization table, dequantization, the
//! quantized DC coefficient of a block, and the rule that writes a payload bit
//! into a coefficient.

use vstd::prelude::*;

verus! {

/// The standard JPEG luminance quantization table, one divisor per frequency
/// pair, row-major.
pub const QUANT_TABLE: [u8; 64] = [
    16, 11, 10, 16, 24, 40, 51, 61,
    12, 12, 14, 19, 26, 58, 60, 55,
    14, 13, 16, 24, 40, 57, 69, 56,
    14, 17, 22, 29, 51, 87, 80, 62,
    18, 22, 37, 56, 68, 109, 103, 77,
    24, 36, 55, 64, 81, 104, 113, 92,
    49, 64, 78, 87, 103, 121, 120, 101,
    72, 92, 95, 98, 112, 100, 103, 99,
];

/// Number of samples (and of coefficients) in one block.
pub const BLOCK_LEN: usize = 64;

/// Divisor of the flattened coefficient `i`: the table repeats every block.
pub open spec fn quant_step(i: int) -> int {
    QUANT_TABLE@[i % 64] as int
}

/// The payload bit carried by a coefficient: its parity.
pub open spec fn parity(c: int) -> int {
    c % 2
}

/// Writes `bit` into coefficient `c`: its least significant bit is replaced,
/// so that the parity of the result is `bit`.
pub open spec fn embed(c: int, bit: int) -> int {
    c - c % 2 + bit
}

/// `s / d` rounded to the nearest integer, halves rounded up.
pub open spec fn nearest_div(s: int, d: int) -> int {
    (s + d / 2) / d
}

/// Replaces the least significant bit of `c` by `bit` (`(c & !1) | bit`).
pub fn embed_bit(c: i64, bit: u8) -> (r: i64)
    requires
        bit <= 1,
    ensures
        r == embed(c as int, bit as int),
{
    let b = bit as i64;
    let r = (c & !1i64) | b;
    assert(r == c - c % 2 + b) by (bit_vector)
        requires
            r == (c & !1i64) | b,
            0 <= b <= 1,
    ;
    r
}

/// The payload bit carried by a coefficient (`c & 1`).
pub fn extract_bit(c: i64) -> (r: u8)
    ensures
        r as int == parity(c as int),
        r <= 1,
{
    let r = c & 1i64;
    assert(r == c % 2) by (bit_vector)
        requires
            r == c & 1i64,
    ;
    r as u8
}

/// Scales quantized coefficients back by their divisors: coefficient `i` is
/// multiplied by the divisor of its position in its block. The rounding lost in
/// quantization is not undone.
pub fn dequantize(quantized: &[i32]) -> (r: Vec<i64>)
    ensures
        r@.len() == quantized@.len(),
        forall|i: int| 0 <= i < r@.len() ==> #[trigger] r@[i] == quantized@[i] * quant_step(i),
{
    let n: usize = quantized.len();
    let mut r: Vec<i64> = Vec::with_capacity(n);
    let mut i: usize = 0;
    while i < n
        invariant
            n == quantized@.len(),
            i <= n,
            r@.len() == i,
            forall|j: int| 0 <= j < i ==> #[trigger] r@[j] == quantized@[j] * quant_step(j),
        decreases n - i,
    {
        let step = QUANT_TABLE[i % BLOCK_LEN] as i64;
        let q = quantized[i] as i64;
        assert(-0x8000_0000 * 256 <= q * step <= 0x8000_0000 * 256) by (nonlinear_arith)
            requires
                -0x8000_0000 <= q <= 0x8000_0000,
                0 <= step < 256,
        ;
        r.push(q * step);
        i = i + 1;
    }
    r
}

/// Embedding a bit twice gives the coefficient that embedding it once gives.
pub proof fn lemma_embed_idempotent(c: int, bit: int)
    requires
        bit == 0 || bit == 1,
    ensures
        embed(embed(c, bit), bit) == embed(c, bit),
        parity(embed(c, bit)) == bit,
{
}

} // verus!
