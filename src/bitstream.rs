//! The bitstream adapter: a message of bytes as a sequence of single bits,
//! most significant bit of each byte first, and back.

use vstd::prelude::*;
use vstd::arithmetic::power2::{pow2, lemma2_to64, lemma_pow2_unfold, lemma_pow2_strictly_increases};

verus! {

/// Bit `i` of `bytes`, counted from the most significant bit of the first byte.
pub open spec fn bit_at(bytes: Seq<u8>, i: int) -> u8 {
    (bytes[i / 8] >> ((7 - i % 8) as u8)) & 1u8
}

/// The payload bitstream of a message: eight bits per byte, most significant first.
pub open spec fn bits_of(bytes: Seq<u8>) -> Seq<u8> {
    Seq::new(8 * bytes.len(), |i: int| bit_at(bytes, i))
}

/// Whether every element of `bits` is 0 or 1.
pub open spec fn is_bit_seq(bits: Seq<u8>) -> bool {
    forall|i: int| 0 <= i < bits.len() ==> #[trigger] bits[i] <= 1
}

/// The value of a sequence of bits read as a binary number, first bit most significant.
pub open spec fn group_value(bits: Seq<u8>) -> int
    decreases bits.len(),
{
    if bits.len() == 0 {
        0
    } else {
        2 * group_value(bits.drop_last()) + bits.last()
    }
}

/// Number of bytes that `n` bits fill, the last one possibly partly.
pub open spec fn byte_count(n: int) -> int {
    (n + 7) / 8
}

/// Bits `8 * j ..` of `bits`, at most eight of them: the group that forms byte `j`.
pub open spec fn bit_group(bits: Seq<u8>, j: int) -> Seq<u8> {
    bits.subrange(8 * j, vstd::math::min(8 * j + 8, bits.len() as int))
}

/// Bytes assembled from a bitstream: each group of eight bits, most significant
/// first, becomes one byte; a shorter last group is read as a binary number.
pub open spec fn pack_bits(bits: Seq<u8>) -> Seq<u8> {
    Seq::new(byte_count(bits.len() as int) as nat, |j: int| group_value(bit_group(bits, j)) as u8)
}

/// Relies on bitreader's `BitReader::new`, `BitReader::skip` and
/// `BitReader::read_u8`: after skipping `position` bits of a reader over
/// `bytes`, reading one bit yields bit `position % 8` of byte `position / 8`,
/// counted from the most significant bit. Both calls succeed when `position`
/// is below the bit length of `bytes`.
#[verifier::external_body]
fn read_bit_at(bytes: &[u8], position: u64) -> (r: u8)
    requires
        position < 8 * bytes@.len(),
    ensures
        r == bit_at(bytes@, position as int),
{
    let mut reader = bitreader::BitReader::new(bytes);
    reader.skip(position).unwrap();
    reader.read_u8(1).unwrap()
}

/// Converts a message into its payload bitstream, most significant bit of each
/// byte first.
pub fn message_bits(message: &[u8]) -> (bits: Vec<u8>)
    requires
        8 * message@.len() <= usize::MAX,
    ensures
        bits@ == bits_of(message@),
{
    let n: usize = message.len() * 8;
    let mut bits: Vec<u8> = Vec::with_capacity(n);
    let mut i: usize = 0;
    while i < n
        invariant
            n == 8 * message@.len(),
            i <= n,
            bits@.len() == i,
            forall|j: int| 0 <= j < i ==> bits@[j] == bit_at(message@, j),
        decreases n - i,
    {
        let b = read_bit_at(message, i as u64);
        bits.push(b);
        i = i + 1;
    }
    assert(bits@ =~= bits_of(message@));
    bits
}

/// Assembles bytes from a bitstream, eight bits per byte, most significant bit
/// first; a shorter trailing group is read as a binary number.
pub fn bits_to_bytes(bits: &[u8]) -> (bytes: Vec<u8>)
    requires
        is_bit_seq(bits@),
    ensures
        bytes@ == pack_bits(bits@),
{
    let n: usize = bits.len();
    let groups: usize = n / 8 + if n % 8 == 0 { 0 } else { 1 };
    assert(groups == byte_count(n as int));
    let mut bytes: Vec<u8> = Vec::with_capacity(groups);
    let mut j: usize = 0;
    while j < groups
        invariant
            n == bits@.len(),
            groups == byte_count(n as int),
            is_bit_seq(bits@),
            j <= groups,
            bytes@.len() == j,
            forall|g: int| 0 <= g < j ==> bytes@[g] == group_value(bit_group(bits@, g)) as u8,
        decreases groups - j,
    {
        let start: usize = 8 * j;
        let end: usize = if n - start < 8 { n } else { start + 8 };
        let mut acc: u32 = 0;
        let mut k: usize = start;
        proof {
            lemma2_to64();
        }
        while k < end
            invariant
                n == bits@.len(),
                is_bit_seq(bits@),
                start <= k <= end <= n,
                end - start <= 8,
                acc as int == group_value(bits@.subrange(start as int, k as int)),
                acc < pow2((k - start) as nat),
            decreases end - k,
        {
            let ghost prefix = bits@.subrange(start as int, k as int);
            let ghost next = bits@.subrange(start as int, k + 1);
            assert(next.drop_last() =~= prefix);
            assert(next.last() == bits@[k as int]);
            proof {
                lemma_pow2_strictly_increases((k - start) as nat, 8);
                lemma2_to64();
                lemma_pow2_unfold((k + 1 - start) as nat);
            }
            acc = acc * 2 + bits[k] as u32;
            k = k + 1;
        }
        proof {
            let group = bits@.subrange(start as int, end as int);
            assert(group =~= bit_group(bits@, j as int));
            if end - start < 8 {
                lemma_pow2_strictly_increases((end - start) as nat, 8);
            }
            lemma2_to64();
        }
        bytes.push(acc as u8);
        j = j + 1;
    }
    assert(bytes@ =~= pack_bits(bits@));
    bytes
}

/// Every element of a message's bitstream is 0 or 1.
pub proof fn lemma_bits_of_are_bits(m: Seq<u8>)
    ensures
        is_bit_seq(bits_of(m)),
{
    assert forall|i: int| 0 <= i < bits_of(m).len() implies #[trigger] bits_of(m)[i] <= 1 by {
        let v = m[i / 8];
        let s = (7 - i % 8) as u8;
        assert((v >> s) & 1u8 <= 1u8) by (bit_vector);
    }
}

proof fn lemma_byte_group(m: Seq<u8>, j: int)
    requires
        0 <= j < m.len(),
    ensures
        group_value(bit_group(bits_of(m), j)) == m[j] as int,
{
    let bits = bits_of(m);
    let g = bit_group(bits, j);
    let v = m[j];
    assert(g.len() == 8);
    assert forall|k: int| 0 <= k < 8 implies #[trigger] g[k] == (v >> ((7 - k) as u8)) & 1u8 by {
        assert((8 * j + k) / 8 == j);
        assert((8 * j + k) % 8 == k);
    }
    let g1 = g.drop_last();
    let g2 = g1.drop_last();
    let g3 = g2.drop_last();
    let g4 = g3.drop_last();
    let g5 = g4.drop_last();
    let g6 = g5.drop_last();
    let g7 = g6.drop_last();
    let g8 = g7.drop_last();
    assert(group_value(g8) == 0);
    assert(g7.last() == g[0]);
    assert(group_value(g7) == g[0]);
    assert(group_value(g6) == 2 * g[0] + g[1]);
    assert(group_value(g5) == 2 * group_value(g6) + g[2]);
    assert(group_value(g4) == 2 * group_value(g5) + g[3]);
    assert(group_value(g3) == 2 * group_value(g4) + g[4]);
    assert(group_value(g2) == 2 * group_value(g3) + g[5]);
    assert(group_value(g1) == 2 * group_value(g2) + g[6]);
    assert(group_value(g) == 2 * group_value(g1) + g[7]);
    let b0 = (v >> 7u8) & 1u8;
    let b1 = (v >> 6u8) & 1u8;
    let b2 = (v >> 5u8) & 1u8;
    let b3 = (v >> 4u8) & 1u8;
    let b4 = (v >> 3u8) & 1u8;
    let b5 = (v >> 2u8) & 1u8;
    let b6 = (v >> 1u8) & 1u8;
    let b7 = (v >> 0u8) & 1u8;
    assert(g[0] == b0 && g[1] == b1 && g[2] == b2 && g[3] == b3);
    assert(g[4] == b4 && g[5] == b5 && g[6] == b6 && g[7] == b7);
    assert(v == 128 * b0 + 64 * b1 + 32 * b2 + 16 * b3 + 8 * b4 + 4 * b5 + 2 * b6 + b7)
        by (bit_vector)
        requires
            b0 == (v >> 7u8) & 1u8,
            b1 == (v >> 6u8) & 1u8,
            b2 == (v >> 5u8) & 1u8,
            b3 == (v >> 4u8) & 1u8,
            b4 == (v >> 3u8) & 1u8,
            b5 == (v >> 2u8) & 1u8,
            b6 == (v >> 1u8) & 1u8,
            b7 == (v >> 0u8) & 1u8,
    ;
}

/// Packing the bitstream of a message gives the message back.
pub proof fn lemma_pack_of_bits(m: Seq<u8>)
    ensures
        pack_bits(bits_of(m)) == m,
{
    let bits = bits_of(m);
    assert(byte_count(bits.len() as int) == m.len());
    assert forall|j: int| 0 <= j < m.len() implies #[trigger] pack_bits(bits)[j] == m[j] by {
        lemma_byte_group(m, j);
    }
    assert(pack_bits(bits) =~= m);
}

} // verus!
