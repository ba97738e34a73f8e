//! The tiler: the block queue of a pixel grid, and the write-back of modified
//! blocks into the grid.
//!
//! A pixel grid of `width × height` pixels is a sequence of `width * height * 3`
//! samples, row-major, three channels (R, G, B) per pixel. Its block queue holds
//! one 8×8 block per (tile row, tile column, channel), in that order of
//! nesting; each block is 64 samples, row-major. Rows and columns past the last
//! whole tile are not tiled.

use vstd::prelude::*;
use vstd::arithmetic::div_mod::{lemma_fundamental_div_mod, lemma_fundamental_div_mod_converse};
use crate::error::StegError;

verus! {

/// Number of whole tiles along a side of `n` pixels.
pub open spec fn tiles_along(n: int) -> int {
    n / 8
}

/// Number of blocks in the block queue: one per (tile, channel) pair. Each
/// carries one payload bit.
pub open spec fn capacity_of(width: int, height: int) -> int {
    tiles_along(width) * tiles_along(height) * 3
}

/// Whether `pixels` is a grid of `width × height` pixels of three samples each.
pub open spec fn is_grid(pixels: Seq<u8>, width: int, height: int) -> bool {
    pixels.len() == width * height * 3
}

/// Grid index of entry `i` of the flattened block queue: sample `i % 64` of
/// block `i / 64`.
pub open spec fn sample_index(width: int, i: int) -> int {
    let b = i / 64;
    let k = i % 64;
    let t = b / 3;
    let c = b % 3;
    let tile_row = t / tiles_along(width);
    let tile_col = t % tiles_along(width);
    ((tile_row * 8 + k / 8) * width + tile_col * 8 + k % 8) * 3 + c
}

/// Whether grid index `j` belongs to a whole tile.
pub open spec fn in_tiled_area(width: int, height: int, j: int) -> bool {
    let p = j / 3;
    &&& 0 <= j < width * height * 3
    &&& p % width < 8 * tiles_along(width)
    &&& p / width < 8 * tiles_along(height)
}

/// Position in the flattened block queue of grid index `j`, for `j` in a whole tile.
pub open spec fn queue_position(width: int, j: int) -> int {
    let p = j / 3;
    let c = j % 3;
    let x = p % width;
    let y = p / width;
    64 * (((y / 8) * tiles_along(width) + x / 8) * 3 + c) + (y % 8) * 8 + x % 8
}

/// The flattened block queue of a grid.
pub open spec fn tiles(pixels: Seq<u8>, width: int, height: int) -> Seq<u8> {
    Seq::new((64 * capacity_of(width, height)) as nat, |i: int| pixels[sample_index(width, i)])
}

/// The grid with the leading blocks of its queue replaced by `blocks`; every
/// other sample is left as it was.
pub open spec fn untiled(pixels: Seq<u8>, width: int, height: int, blocks: Seq<u8>) -> Seq<u8> {
    Seq::new(
        pixels.len(),
        |j: int|
            if in_tiled_area(width, height, j) && queue_position(width, j) < blocks.len() {
                blocks[queue_position(width, j)]
            } else {
                pixels[j]
            },
    )
}

/// Entry `i` of the queue is read from a sample of a whole tile, and that
/// sample's queue position is `i`.
pub proof fn lemma_sample_index(width: int, height: int, i: int)
    requires
        0 < width,
        0 < height,
        0 <= i < 64 * capacity_of(width, height),
    ensures
        in_tiled_area(width, height, sample_index(width, i)),
        queue_position(width, sample_index(width, i)) == i,
{
    let across = tiles_along(width);
    let down = tiles_along(height);
    let b = i / 64;
    let k = i % 64;
    let t = b / 3;
    let c = b % 3;
    assert(across > 0 && down > 0) by (nonlinear_arith)
        requires
            0 <= i < 64 * (across * down * 3),
            across >= 0,
            down >= 0,
    ;
    lemma_fundamental_div_mod(i, 64);
    lemma_fundamental_div_mod(b, 3);
    lemma_fundamental_div_mod(t, across);
    lemma_fundamental_div_mod(k, 8);
    let tile_row = t / across;
    let tile_col = t % across;
    let row = k / 8;
    let col = k % 8;
    assert(0 <= t < across * down) by (nonlinear_arith)
        requires
            i == 64 * b + k,
            0 <= k < 64,
            b == 3 * t + c,
            0 <= c < 3,
            0 <= i < 64 * (across * down * 3),
    ;
    assert(0 <= tile_row < down) by (nonlinear_arith)
        requires
            t == across * tile_row + tile_col,
            0 <= tile_col < across,
            0 <= t < across * down,
    ;
    let y = tile_row * 8 + row;
    let x = tile_col * 8 + col;
    let p = y * width + x;
    let j = p * 3 + c;
    assert(j == sample_index(width, i));
    assert(x < 8 * across <= width);
    assert(y < 8 * down <= height);
    assert(0 <= p < width * height) by (nonlinear_arith)
        requires
            p == y * width + x,
            0 <= x < width,
            0 <= y < height,
    ;
    lemma_fundamental_div_mod_converse(j, 3, p, c);
    lemma_fundamental_div_mod_converse(p, width, y, x);
    lemma_fundamental_div_mod_converse(x, 8, tile_col, col);
    lemma_fundamental_div_mod_converse(y, 8, tile_row, row);
}

/// A sample of a whole tile has a position in the queue, and entry that
/// position of the queue is read from it.
pub proof fn lemma_queue_position(width: int, height: int, j: int)
    requires
        0 < width,
        0 < height,
        in_tiled_area(width, height, j),
    ensures
        0 <= queue_position(width, j) < 64 * capacity_of(width, height),
        sample_index(width, queue_position(width, j)) == j,
{
    let across = tiles_along(width);
    let down = tiles_along(height);
    let p = j / 3;
    let c = j % 3;
    lemma_fundamental_div_mod(j, 3);
    lemma_fundamental_div_mod(p, width);
    let x = p % width;
    let y = p / width;
    lemma_fundamental_div_mod(x, 8);
    lemma_fundamental_div_mod(y, 8);
    let tile_row = y / 8;
    let tile_col = x / 8;
    let row = y % 8;
    let col = x % 8;
    assert(across > 0 && down > 0);
    let t = tile_row * across + tile_col;
    let b = t * 3 + c;
    let k = row * 8 + col;
    let i = b * 64 + k;
    assert(i == queue_position(width, j));
    assert(0 <= t < across * down) by (nonlinear_arith)
        requires
            t == tile_row * across + tile_col,
            0 <= tile_col < across,
            0 <= tile_row < down,
    ;
    assert(0 <= i < 64 * capacity_of(width, height));
    lemma_fundamental_div_mod_converse(i, 64, b, k);
    lemma_fundamental_div_mod_converse(b, 3, t, c);
    lemma_fundamental_div_mod_converse(t, across, tile_row, tile_col);
    lemma_fundamental_div_mod_converse(k, 8, row, col);
    assert(y == tile_row * 8 + row && x == tile_col * 8 + col);
    assert(p == y * width + x) by (nonlinear_arith)
        requires
            p == width * y + x,
    ;
    assert(j == p * 3 + c);
}

proof fn lemma_queue_fits(width: int, height: int)
    requires
        0 <= width,
        0 <= height,
    ensures
        0 <= 64 * capacity_of(width, height) <= width * height * 3,
{
    let across = tiles_along(width);
    let down = tiles_along(height);
    assert(0 <= 64 * (across * down * 3) <= width * height * 3) by (nonlinear_arith)
        requires
            0 <= across * 8 <= width,
            0 <= down * 8 <= height,
    ;
}

/// Number of blocks in the block queue of a `width × height` grid: the
/// number of payload bits it can carry.
pub fn capacity(width: usize, height: usize) -> (r: usize)
    requires
        width * height * 3 <= usize::MAX,
    ensures
        r == capacity_of(width as int, height as int),
{
    proof {
        lemma_queue_fits(width as int, height as int);
    }
    (width / 8) * (height / 8) * 3
}

/// Grid index of entry `i` of the block queue.
fn queue_entry_index(width: usize, height: usize, i: usize) -> (r: usize)
    requires
        0 < width,
        0 < height,
        width * height * 3 <= usize::MAX,
        i < 64 * capacity_of(width as int, height as int),
    ensures
        r == sample_index(width as int, i as int),
        r < width * height * 3,
{
    proof {
        lemma_sample_index(width as int, height as int, i as int);
    }
    let across = width / 8;
    let b = i / 64;
    let k = i % 64;
    let t = b / 3;
    let c = b % 3;
    let tile_row = t / across;
    let tile_col = t % across;
    let y = tile_row * 8 + k / 8;
    let x = tile_col * 8 + k % 8;
    (y * width + x) * 3 + c
}

/// Splits a grid into its block queue, flattened: entry `64 * b + k` is sample
/// `k` of block `b`. Fails when the grid is smaller than one tile.
pub fn tile(pixels: &Vec<u8>, width: usize, height: usize) -> (r: Result<Vec<u8>, StegError>)
    requires
        is_grid(pixels@, width as int, height as int),
    ensures
        match r {
            Ok(queue) => width >= 8 && height >= 8 && queue@ == tiles(
                pixels@,
                width as int,
                height as int,
            ),
            Err(e) => (width < 8 || height < 8) && e == StegError::ImageTooSmall,
        },
{
    if width < 8 || height < 8 {
        return Err(StegError::ImageTooSmall);
    }
    assert(pixels@.len() == pixels.len());
    proof {
        lemma_queue_fits(width as int, height as int);
    }
    let n: usize = 64 * capacity(width, height);
    let mut queue: Vec<u8> = Vec::with_capacity(n);
    let mut i: usize = 0;
    while i < n
        invariant
            is_grid(pixels@, width as int, height as int),
            width * height * 3 <= usize::MAX,
            width >= 8,
            height >= 8,
            n == 64 * capacity_of(width as int, height as int),
            i <= n,
            queue@.len() == i,
            forall|j: int| 0 <= j < i ==> queue@[j] == pixels@[sample_index(width as int, j)],
        decreases n - i,
    {
        let idx = queue_entry_index(width, height, i);
        queue.push(pixels[idx]);
        i = i + 1;
    }
    assert(queue@ =~= tiles(pixels@, width as int, height as int));
    Ok(queue)
}

/// Writes the leading blocks of a queue back into the grid, each sample at the
/// grid index it was read from; the rest of the grid is left as it was.
pub fn untile(pixels: &Vec<u8>, width: usize, height: usize, blocks: &Vec<u8>) -> (r: Vec<u8>)
    requires
        is_grid(pixels@, width as int, height as int),
        blocks@.len() <= 64 * capacity_of(width as int, height as int),
    ensures
        r@ == untiled(pixels@, width as int, height as int, blocks@),
{
    let ghost w = width as int;
    let ghost h = height as int;
    assert(pixels@.len() == pixels.len());
    let mut out: Vec<u8> = pixels.clone();
    assert(out@ =~= pixels@);
    let m: usize = blocks.len();
    let mut i: usize = 0;
    while i < m
        invariant
            is_grid(pixels@, w, h),
            width * height * 3 <= usize::MAX,
            w == width,
            h == height,
            m == blocks@.len(),
            m <= 64 * capacity_of(w, h),
            i <= m,
            out@.len() == pixels@.len(),
            forall|j: int|
                0 <= j < pixels@.len() ==> #[trigger] out@[j] == if in_tiled_area(w, h, j)
                    && queue_position(w, j) < i {
                    blocks@[queue_position(w, j)]
                } else {
                    pixels@[j]
                },
        decreases m - i,
    {
        assert(width > 0 && height > 0) by (nonlinear_arith)
            requires
                i < m <= 64 * ((width / 8) * (height / 8) * 3),
        ;
        proof {
            lemma_sample_index(w, h, i as int);
        }
        let idx = queue_entry_index(width, height, i);
        out.set(idx, blocks[i]);
        proof {
            assert forall|j: int| 0 <= j < pixels@.len() implies #[trigger] out@[j] == if in_tiled_area(w, h, j)
                && queue_position(w, j) < i + 1 {
                blocks@[queue_position(w, j)]
            } else {
                pixels@[j]
            } by {
                if j != idx && in_tiled_area(w, h, j) {
                    lemma_queue_position(w, h, j);
                }
            }
        }
        i = i + 1;
    }
    assert(out@ =~= untiled(pixels@, w, h, blocks@));
    out
}

} // verus!
