//! The codec: encoding a message into a pixel grid and decoding it back.
//!
//! Each payload bit goes into the quantized DC coefficient of one block of the
//! queue, in queue order. The DC coefficient of the forward transform of a
//! block is the sum of its 64 samples divided by 8; its quantization divisor
//! is `QUANT_TABLE[0]` (16). Conversely, the inverse transform of a DC change
//! of `16 * d` adds `2 * d` to every sample of the block. Both facts let the
//! embedding and the extraction of a bit run on integers.
//!
//! The lossy part of encoding (forward transform, quantization, dequantization
//! and inverse transform of each block, rounded to integers) is computed in
//! floating point by the caller and handed in as the requantized block queue.

use vstd::prelude::*;
use crate::bitstream::{bits_of, is_bit_seq, message_bits, pack_bits, bits_to_bytes, lemma_bits_of_are_bits, lemma_pack_of_bits};
use crate::coefficient::{QUANT_TABLE, embed, embed_bit, extract_bit, nearest_div, parity, lemma_embed_idempotent};
use crate::error::StegError;
use crate::tiler::{capacity, capacity_of, is_grid, tile, tiles, untile, untiled, lemma_sample_index};

verus! {

/// Sum of a sequence of integers.
pub open spec fn seq_sum(s: Seq<int>) -> int
    decreases s.len(),
{
    if s.len() == 0 {
        0
    } else {
        seq_sum(s.drop_last()) + s.last()
    }
}

/// Samples as integers.
pub open spec fn widen_u8(s: Seq<u8>) -> Seq<int> {
    s.map_values(|v: u8| v as int)
}

/// Requantized samples as integers.
pub open spec fn widen_i32(s: Seq<i32>) -> Seq<int> {
    s.map_values(|v: i32| v as int)
}

/// Block `b` of a flattened block queue.
pub open spec fn block_of(queue: Seq<int>, b: int) -> Seq<int> {
    queue.subrange(64 * b, 64 * b + 64)
}

/// The quantized DC coefficient of a block of samples: the block sum divided by
/// 8 (the DC coefficient) and by the DC divisor, rounded to nearest.
pub open spec fn quantized_dc(block: Seq<int>) -> int {
    nearest_div(seq_sum(block), 8 * QUANT_TABLE@[0])
}

/// How much every sample of a requantized block moves when `bit` is written
/// into its quantized DC coefficient.
pub open spec fn dc_shift(block: Seq<int>, bit: int) -> int {
    let q = quantized_dc(block);
    2 * (embed(q, bit) - q)
}

/// Entry `i` of the requantized queue once the payload bit of its block is
/// embedded, before clamping.
pub open spec fn shifted_sample(requantized: Seq<int>, bits: Seq<u8>, i: int) -> int {
    requantized[i] + dc_shift(block_of(requantized, i / 64), bits[i / 64] as int)
}

/// A sample value brought into `[0, 255]`.
pub open spec fn clamp_sample(v: int) -> u8 {
    if v < 0 {
        0
    } else if v > 255 {
        255
    } else {
        v as u8
    }
}

/// The leading blocks of the stego queue: one per payload bit.
pub open spec fn stego_blocks(requantized: Seq<int>, bits: Seq<u8>) -> Seq<u8> {
    Seq::new(64 * bits.len(), |i: int| clamp_sample(shifted_sample(requantized, bits, i)))
}

/// Whether embedding `bits` pushes some sample out of `[0, 255]`, so that it is clamped.
pub open spec fn clamps_some_sample(requantized: Seq<int>, bits: Seq<u8>) -> bool {
    exists|i: int|
        0 <= i < 64 * bits.len() && !(0 <= #[trigger] shifted_sample(requantized, bits, i) <= 255)
}

/// What encoding `message` into the grid yields.
pub open spec fn encode_result(
    pixels: Seq<u8>,
    width: int,
    height: int,
    message: Seq<u8>,
    requantized: Seq<i32>,
) -> Result<Seq<u8>, StegError> {
    if width < 8 || height < 8 {
        Err(StegError::ImageTooSmall)
    } else if 8 * message.len() > capacity_of(width, height) {
        Err(StegError::CapacityExceeded)
    } else {
        Ok(untiled(pixels, width, height, stego_blocks(widen_i32(requantized), bits_of(message))))
    }
}

/// The first `n` payload bits of a block queue: the parity of each block's
/// quantized DC coefficient.
pub open spec fn payload_bits(queue: Seq<u8>, n: int) -> Seq<u8> {
    Seq::new(n as nat, |b: int| parity(quantized_dc(block_of(widen_u8(queue), b))) as u8)
}

/// What decoding `n` bits from the grid yields.
pub open spec fn decode_result(pixels: Seq<u8>, width: int, height: int, n: int) -> Result<
    Seq<u8>,
    StegError,
> {
    if width < 8 || height < 8 {
        Err(StegError::ImageTooSmall)
    } else if n > capacity_of(width, height) {
        Err(StegError::TruncatedPayload)
    } else {
        Ok(pack_bits(payload_bits(tiles(pixels, width, height), n)))
    }
}

/// A stego grid, and whether some sample had to be clamped into `[0, 255]`.
pub struct Encoded {
    pub pixels: Vec<u8>,
    pub clamped: bool,
}

proof fn lemma_sum_shift(s: Seq<int>, t: Seq<int>, c: int)
    requires
        t.len() == s.len(),
        forall|k: int| 0 <= k < s.len() ==> #[trigger] t[k] == s[k] + c,
    ensures
        seq_sum(t) == seq_sum(s) + s.len() * c,
    decreases s.len(),
{
    if s.len() > 0 {
        lemma_sum_shift(s.drop_last(), t.drop_last(), c);
        assert(t.last() == t[t.len() - 1]);
        let m = s.len() - 1;
        assert(m * c + c == (m + 1) * c) by (nonlinear_arith);
    }
}

proof fn lemma_nearest_div_shift(x: int, d: int)
    ensures
        nearest_div(x + 128 * d, 128) == nearest_div(x, 128) + d,
{
    let y = x + 64;
    vstd::arithmetic::div_mod::lemma_fundamental_div_mod(y, 128);
    vstd::arithmetic::div_mod::lemma_fundamental_div_mod_converse(y + 128 * d, 128, y / 128 + d, y % 128);
}

/// Decoding as many bits as a message has, from the grid that encoding the
/// message produced, gives the message back, provided that no sample had to be
/// clamped.
pub proof fn lemma_decode_of_encode(
    pixels: Seq<u8>,
    width: int,
    height: int,
    message: Seq<u8>,
    requantized: Seq<i32>,
)
    requires
        is_grid(pixels, width, height),
        width >= 8,
        height >= 8,
        8 * message.len() <= capacity_of(width, height),
        requantized.len() == 64 * capacity_of(width, height),
        !clamps_some_sample(widen_i32(requantized), bits_of(message)),
    ensures
        encode_result(pixels, width, height, message, requantized) is Ok,
        decode_result(
            encode_result(pixels, width, height, message, requantized)->Ok_0,
            width,
            height,
            8 * message.len() as int,
        ) == Ok::<Seq<u8>, StegError>(message),
{
    let rq = widen_i32(requantized);
    let bits = bits_of(message);
    let n = bits.len() as int;
    let blocks = stego_blocks(rq, bits);
    let out = untiled(pixels, width, height, blocks);
    let queue = tiles(out, width, height);
    let wide = widen_u8(queue);
    lemma_bits_of_are_bits(message);
    assert forall|i: int| 0 <= i < 64 * n implies #[trigger] wide[i] == shifted_sample(rq, bits, i) by {
        lemma_sample_index(width, height, i);
        assert(!(0 <= shifted_sample(rq, bits, i) <= 255) == false);
    }
    assert forall|b: int| 0 <= b < n implies #[trigger] payload_bits(queue, n)[b] == bits[b] by {
        let block = block_of(rq, b);
        let bit = bits[b] as int;
        let q = quantized_dc(block);
        let shift = dc_shift(block, bit);
        assert forall|k: int| 0 <= k < 64 implies #[trigger] block_of(wide, b)[k] == block[k] + shift by {
            assert((64 * b + k) / 64 == b);
            assert(wide[64 * b + k] == shifted_sample(rq, bits, 64 * b + k));
        }
        lemma_sum_shift(block, block_of(wide, b), shift);
        lemma_nearest_div_shift(seq_sum(block), embed(q, bit) - q);
        assert(QUANT_TABLE@[0] == 16);
        lemma_embed_idempotent(q, bit);
    }
    assert(payload_bits(queue, n) =~= bits);
    lemma_pack_of_bits(message);
}

/// Encoding an empty message leaves every sample of the grid as it was.
pub proof fn lemma_empty_message_is_noop(
    pixels: Seq<u8>,
    width: int,
    height: int,
    requantized: Seq<i32>,
)
    requires
        is_grid(pixels, width, height),
        width >= 8,
        height >= 8,
    ensures
        encode_result(pixels, width, height, Seq::<u8>::empty(), requantized) == Ok::<
            Seq<u8>,
            StegError,
        >(pixels),
{
    let out = untiled(
        pixels,
        width,
        height,
        stego_blocks(widen_i32(requantized), bits_of(Seq::<u8>::empty())),
    );
    assert(out =~= pixels);
}

/// A message with exactly as many bits as the grid has blocks is encoded; one
/// bit more is refused with `CapacityExceeded`.
pub proof fn lemma_capacity_boundary(
    pixels: Seq<u8>,
    width: int,
    height: int,
    message: Seq<u8>,
    requantized: Seq<i32>,
)
    requires
        is_grid(pixels, width, height),
        width >= 8,
        height >= 8,
    ensures
        8 * message.len() == capacity_of(width, height) ==> encode_result(
            pixels,
            width,
            height,
            message,
            requantized,
        ) is Ok,
        8 * message.len() == capacity_of(width, height) + 1 ==> encode_result(
            pixels,
            width,
            height,
            message,
            requantized,
        ) == Err::<Seq<u8>, StegError>(StegError::CapacityExceeded),
{
}

/// Asking for more bits than the grid has blocks never yields a message:
/// decoding fails, with `TruncatedPayload` when the grid is at least one tile.
pub proof fn lemma_truncated_decode(pixels: Seq<u8>, width: int, height: int, n: int)
    requires
        is_grid(pixels, width, height),
        n > capacity_of(width, height),
    ensures
        decode_result(pixels, width, height, n) is Err,
        width >= 8 && height >= 8 ==> decode_result(pixels, width, height, n) == Err::<
            Seq<u8>,
            StegError,
        >(StegError::TruncatedPayload),
{
}

/// Sum of block `b` of a requantized queue.
fn requantized_block_sum(queue: &Vec<i32>, b: usize) -> (r: i64)
    requires
        64 * b + 64 <= queue@.len(),
    ensures
        r == seq_sum(block_of(widen_i32(queue@), b as int)),
        -0x40_0000_0000 <= r <= 0x40_0000_0000,
{
    assert(queue@.len() == queue.len());
    let start: usize = 64 * b;
    let ghost wide = widen_i32(queue@);
    let mut acc: i64 = 0;
    let mut k: usize = 0;
    while k < 64
        invariant
            start == 64 * b,
            start + 64 <= queue@.len(),
            wide == widen_i32(queue@),
            k <= 64,
            acc == seq_sum(wide.subrange(start as int, start + k)),
            -(k * 0x8000_0000) <= acc <= k * 0x8000_0000,
        decreases 64 - k,
    {
        proof {
            let next = wide.subrange(start as int, start + k + 1);
            assert(next.drop_last() =~= wide.subrange(start as int, start + k));
        }
        acc = acc + queue[start + k] as i64;
        k = k + 1;
    }
    assert(wide.subrange(start as int, start + 64) =~= block_of(wide, b as int));
    acc
}

/// Sum of block `b` of a queue of samples.
fn sample_block_sum(queue: &Vec<u8>, b: usize) -> (r: i64)
    requires
        64 * b + 64 <= queue@.len(),
    ensures
        r == seq_sum(block_of(widen_u8(queue@), b as int)),
        0 <= r <= 64 * 255,
{
    assert(queue@.len() == queue.len());
    let start: usize = 64 * b;
    let ghost wide = widen_u8(queue@);
    let mut acc: i64 = 0;
    let mut k: usize = 0;
    while k < 64
        invariant
            start == 64 * b,
            start + 64 <= queue@.len(),
            wide == widen_u8(queue@),
            k <= 64,
            acc == seq_sum(wide.subrange(start as int, start + k)),
            0 <= acc <= k * 255,
        decreases 64 - k,
    {
        proof {
            let next = wide.subrange(start as int, start + k + 1);
            assert(next.drop_last() =~= wide.subrange(start as int, start + k));
        }
        acc = acc + queue[start + k] as i64;
        k = k + 1;
    }
    assert(wide.subrange(start as int, start + 64) =~= block_of(wide, b as int));
    acc
}

/// The quantized DC coefficient of a block whose samples sum to `sum`.
fn dc_of_sum(sum: i64) -> (r: i64)
    requires
        -0x40_0000_0000 <= sum <= 0x40_0000_0000,
    ensures
        r == nearest_div(sum as int, 8 * QUANT_TABLE@[0]),
        -0x1_0000_0000 <= r <= 0x1_0000_0000,
{
    assert(QUANT_TABLE@[0] == 16);
    let offset: i64 = 0x100_0000_0000;
    let shifted: u64 = (sum + 64 + offset) as u64;
    let q: u64 = shifted / 128;
    proof {
        vstd::arithmetic::div_mod::lemma_fundamental_div_mod(shifted as int, 128);
        vstd::arithmetic::div_mod::lemma_fundamental_div_mod_converse(
            sum + 64,
            128,
            q - 0x2_0000_0000,
            shifted as int % 128,
        );
    }
    q as i64 - 0x2_0000_0000
}

/// Writes the payload bits of `message` into the leading blocks of the block
/// queue of the grid, one bit per block.
///
/// `requantized` is the block queue of `pixels` after forward transform,
/// quantization, dequantization and inverse transform, each sample rounded to
/// an integer. For each payload bit, the block's quantized DC coefficient is
/// read from its sum, the bit is embedded into it, the block is moved by the
/// matching shift, and each sample is clamped into `[0, 255]`. The blocks
/// after the last bit keep their samples.
///
/// Fails with `ImageTooSmall` when a side is under 8 pixels, and with
/// `CapacityExceeded` when the message has more bits than the grid has blocks;
/// otherwise succeeds, and says whether some sample was clamped.
pub fn encode_message(
    pixels: &Vec<u8>,
    width: usize,
    height: usize,
    message: &[u8],
    requantized: &Vec<i32>,
) -> (r: Result<Encoded, StegError>)
    requires
        is_grid(pixels@, width as int, height as int),
        requantized@.len() == 64 * capacity_of(width as int, height as int),
    ensures
        match r {
            Ok(e) => {
                &&& encode_result(pixels@, width as int, height as int, message@, requantized@)
                    == Ok::<Seq<u8>, StegError>(e.pixels@)
                &&& e.clamped == clamps_some_sample(widen_i32(requantized@), bits_of(message@))
            },
            Err(err) => encode_result(pixels@, width as int, height as int, message@, requantized@)
                == Err::<Seq<u8>, StegError>(err),
        },
{
    if width < 8 || height < 8 {
        return Err(StegError::ImageTooSmall);
    }
    assert(pixels@.len() == pixels.len());
    let cap = capacity(width, height);
    if message.len() > cap / 8 {
        return Err(StegError::CapacityExceeded);
    }
    let bits = message_bits(message);
    proof {
        lemma_bits_of_are_bits(message@);
    }
    let ghost rq = widen_i32(requantized@);
    assert(requantized@.len() == requantized.len());
    let n: usize = bits.len();
    let mut blocks: Vec<u8> = Vec::with_capacity(64 * n);
    let mut clamped: bool = false;
    let mut b: usize = 0;
    while b < n
        invariant
            rq == widen_i32(requantized@),
            bits@ == bits_of(message@),
            is_bit_seq(bits@),
            n == bits@.len(),
            64 * n <= requantized@.len(),
            requantized@.len() <= usize::MAX,
            b <= n,
            blocks@.len() == 64 * b,
            forall|i: int|
                0 <= i < 64 * b ==> blocks@[i] == clamp_sample(
                    #[trigger] shifted_sample(rq, bits@, i),
                ),
            clamped == exists|i: int|
                0 <= i < 64 * b && !(0 <= #[trigger] shifted_sample(rq, bits@, i) <= 255),
        decreases n - b,
    {
        let sum = requantized_block_sum(requantized, b);
        let q = dc_of_sum(sum);
        let q2 = embed_bit(q, bits[b]);
        let shift: i64 = 2 * (q2 - q);
        assert(shift == dc_shift(block_of(rq, b as int), bits@[b as int] as int));
        let start: usize = 64 * b;
        let mut k: usize = 0;
        while k < 64
            invariant
                rq == widen_i32(requantized@),
                bits@ == bits_of(message@),
                n == bits@.len(),
                64 * n <= requantized@.len(),
                requantized@.len() <= usize::MAX,
                b < n,
                start == 64 * b,
                k <= 64,
                shift == dc_shift(block_of(rq, b as int), bits@[b as int] as int),
                -4 <= shift <= 4,
                blocks@.len() == start + k,
                forall|i: int|
                    0 <= i < start + k ==> blocks@[i] == clamp_sample(
                        #[trigger] shifted_sample(rq, bits@, i),
                    ),
                clamped == exists|i: int|
                    0 <= i < start + k && !(0 <= #[trigger] shifted_sample(rq, bits@, i) <= 255),
            decreases 64 - k,
        {
            let i: usize = start + k;
            assert(i as int / 64 == b);
            let v: i64 = requantized[i] as i64 + shift;
            assert(v == shifted_sample(rq, bits@, i as int));
            if v < 0 {
                blocks.push(0);
                clamped = true;
            } else if v > 255 {
                blocks.push(255);
                clamped = true;
            } else {
                blocks.push(v as u8);
            }
            k = k + 1;
        }
        b = b + 1;
    }
    let ghost expected = stego_blocks(rq, bits@);
    assert(blocks@ =~= expected);
    let out = untile(pixels, width, height, &blocks);
    Ok(Encoded { pixels: out, clamped })
}

/// Reads `expected_bit_count` payload bits from the leading blocks of the
/// grid's block queue, the parity of each block's quantized DC coefficient,
/// and packs them into bytes, eight bits per byte, most significant first.
///
/// Fails with `ImageTooSmall` when a side is under 8 pixels, and with
/// `TruncatedPayload` when more bits are asked for than the grid has blocks.
pub fn decode_message(pixels: &Vec<u8>, width: usize, height: usize, expected_bit_count: usize) -> (r:
    Result<Vec<u8>, StegError>)
    requires
        is_grid(pixels@, width as int, height as int),
    ensures
        match r {
            Ok(m) => decode_result(pixels@, width as int, height as int, expected_bit_count as int)
                == Ok::<Seq<u8>, StegError>(m@),
            Err(e) => decode_result(pixels@, width as int, height as int, expected_bit_count as int)
                == Err::<Seq<u8>, StegError>(e),
        },
{
    let queue = match tile(pixels, width, height) {
        Ok(q) => q,
        Err(e) => return Err(e),
    };
    assert(pixels@.len() == pixels.len());
    let cap = capacity(width, height);
    if expected_bit_count > cap {
        return Err(StegError::TruncatedPayload);
    }
    let n = expected_bit_count;
    let mut bits: Vec<u8> = Vec::with_capacity(n);
    let mut b: usize = 0;
    while b < n
        invariant
            queue@ == tiles(pixels@, width as int, height as int),
            queue@.len() == 64 * cap,
            n <= cap,
            b <= n,
            bits@.len() == b,
            forall|j: int|
                0 <= j < b ==> bits@[j] == parity(quantized_dc(block_of(widen_u8(queue@), j))) as u8,
            is_bit_seq(bits@),
        decreases n - b,
    {
        let sum = sample_block_sum(&queue, b);
        let q = dc_of_sum(sum);
        let bit = extract_bit(q);
        bits.push(bit);
        b = b + 1;
    }
    assert(bits@ =~= payload_bits(queue@, n as int));
    Ok(bits_to_bytes(&bits))
}

} // verus!
