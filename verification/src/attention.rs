//! The tiling of an attention kernel over row-major matrices with `D` columns.
//!
//! One block owns `BR` rows of the queries, one row per thread, and produces the same
//! rows of the output. The keys and values stream through shared memory in tiles of
//! `BC` rows, which the threads of the block load together.

use vstd::prelude::*;
use vstd::arithmetic::div_mod::lemma_fundamental_div_mod;
use vstd::arithmetic::div_mod::lemma_fundamental_div_mod_converse;

verus! {

/// Columns of a matrix.
pub const D: usize = 64;

/// Query rows per block, which is also the number of threads.
pub const BR: usize = 32;

/// Key and value rows per tile.
pub const BC: usize = 32;

/// Items in a tile of `BR` or `BC` rows.
pub const TILE: usize = 2048;

/// Items in the tile of scores, one row per query and one column per key.
pub const SCORES: usize = 1024;

/// Where row `row` and column `col` stand in a row-major matrix with `D` columns.
pub open spec fn at(row: int, col: int) -> int {
    row * 64 + col
}

/// The query row that thread `tid` of block `tile` owns.
pub open spec fn owned_row(tile: int, tid: int) -> int {
    tile * 32 + tid
}

/// The shape of a kernel launch.
#[derive(Clone, Copy, Debug, PartialEq, Eq)]
pub struct LaunchConfig {
    /// The number of blocks in each dimension.
    pub grid_dim: (u32, u32, u32),
    /// The number of threads per block in each dimension.
    pub block_dim: (u32, u32, u32),
    /// The bytes of dynamic shared memory per block.
    pub shared_mem_bytes: u32,
}

/// The launch of the tiled kernel: one block per `BR` query rows. The rows divide into
/// whole tiles.
pub fn tiled_launch(n: u32) -> (config: LaunchConfig)
    requires
        n as int % BR as int == 0,
        n as int % BC as int == 0,
    ensures
        config == (LaunchConfig {
            grid_dim: (n / 32, 1, 1),
            block_dim: (32, 1, 1),
            shared_mem_bytes: 0,
        }),
        config.block_dim.0 == BR,
        config.grid_dim.0 * 32 == n,
{
    LaunchConfig {
        grid_dim: ((n as usize / BR) as u32, 1, 1),
        block_dim: (BR as u32, 1, 1),
        shared_mem_bytes: 0,
    }
}

/// The launch of the kernel without tiles: one block per query row, and one thread per
/// output column.
pub fn naive_launch(n: u32) -> (config: LaunchConfig)
    ensures
        config == (LaunchConfig {
            grid_dim: (n, 1, 1),
            block_dim: (64, 1, 1),
            shared_mem_bytes: 0,
        }),
        config.block_dim.0 == D,
{
    LaunchConfig { grid_dim: (n, 1, 1), block_dim: (D as u32, 1, 1), shared_mem_bytes: 0 }
}

/// The query row that thread `tid` of block `tile` owns, where it is one of the `n`
/// rows.
pub fn query_row(tile: usize, tid: usize, n: usize) -> (row: Option<usize>)
    requires
        owned_row(tile as int, tid as int) <= usize::MAX,
    ensures
        row is Some <==> owned_row(tile as int, tid as int) < n,
        row matches Some(r) ==> r == owned_row(tile as int, tid as int),
        row is Some <==> tile * 32 + tid < n,
        row matches Some(r) ==> r == tile * 32 + tid,
{
    assert(tile * BR == tile * 32) by (nonlinear_arith)
        requires
            BR == 32,
    ;
    let row: usize = tile * BR + tid;
    if row < n {
        Some(row)
    } else {
        None
    }
}

/// The number of key and value tiles.
pub fn kv_tiles(n: usize) -> (tiles: usize)
    ensures
        tiles == n / 32,
{
    n / BC
}

/// The position of row `row` and column `col` in a row-major matrix with `D` columns.
pub fn item(row: usize, col: usize) -> (i: usize)
    requires
        at(row as int, col as int) <= usize::MAX,
    ensures
        i == at(row as int, col as int),
        i == 64 * row + col,
{
    assert(row * D == row * 64) by (nonlinear_arith)
        requires
            D == 64,
    ;
    row * D + col
}

/// Copies row `src_row` of `src` to row `dst_row` of `dst`.
pub fn copy_row<T: Copy>(dst: &mut Vec<T>, dst_row: usize, src: &[T], src_row: usize)
    requires
        at(dst_row as int, 64) <= old(dst)@.len(),
        at(src_row as int, 64) <= src@.len(),
    ensures
        final(dst)@.len() == old(dst)@.len(),
        forall|a: int|
            0 <= a < old(dst)@.len() ==> #[trigger] final(dst)@[a] == (if at(dst_row as int, 0) <= a
                < at(dst_row as int, 64) {
                src@[at(src_row as int, a - at(dst_row as int, 0))]
            } else {
                old(dst)@[a]
            }),
        forall|c: int|
            0 <= c < 64 ==> #[trigger] final(dst)@[64 * dst_row + c] == src@[64 * src_row + c],
        forall|a: int|
            0 <= a < old(dst)@.len() && !(64 * dst_row <= a < 64 * dst_row + 64)
                ==> #[trigger] final(dst)@[a] == old(dst)@[a],
{
    let ghost before = dst@;
    let mut k: usize = 0;
    while k < D
        invariant
            k <= D,
            at(dst_row as int, 64) <= before.len(),
            at(src_row as int, 64) <= src@.len(),
            dst@.len() == before.len(),
            forall|a: int|
                0 <= a < before.len() ==> #[trigger] dst@[a] == (if at(dst_row as int, 0) <= a < at(
                    dst_row as int,
                    k as int,
                ) {
                    src@[at(src_row as int, a - at(dst_row as int, 0))]
                } else {
                    before[a]
                }),
        decreases D - k,
    {
        assert(dst@.len() <= usize::MAX && src@.len() <= usize::MAX) by {
            assert(dst@.len() == dst.len() && src@.len() == src.len());
        }
        let x = src[item(src_row, k)];
        dst.set(item(dst_row, k), x);
        k += 1;
    }
}

/// The part of a tile load that thread `tid` does: it copies every `BR`-th item of the
/// `BC` rows of `src` that start at row `base`.
pub fn load_tile_part<T: Copy>(tile: &mut Vec<T>, src: &[T], base: usize, tid: usize)
    requires
        old(tile)@.len() == TILE,
        at(base + 32, 0) <= src@.len(),
        tid < BR,
    ensures
        final(tile)@.len() == TILE,
        forall|a: int|
            0 <= a < TILE ==> #[trigger] final(tile)@[a] == (if a % 32 == tid {
                src@[at(base as int, a)]
            } else {
                old(tile)@[a]
            }),
        forall|a: int|
            0 <= a < 2048 && a % 32 == tid ==> #[trigger] final(tile)@[a] == src@[64 * base + a],
        forall|a: int|
            0 <= a < 2048 && a % 32 != tid ==> #[trigger] final(tile)@[a] == old(tile)@[a],
{
    let ghost before = tile@;
    let mut i: usize = tid;
    while i < TILE
        invariant
            tid < BR,
            i % 32 == tid,
            tile@.len() == TILE,
            before.len() == TILE,
            at(base + 32, 0) <= src@.len(),
            forall|a: int|
                0 <= a < TILE ==> #[trigger] tile@[a] == (if a < i && a % 32 == tid {
                    src@[at(base as int, a)]
                } else {
                    before[a]
                }),
        decreases TILE + BR - i,
    {
        let r: usize = i / D;
        let c: usize = i % D;
        assert(src@.len() <= usize::MAX) by {
            assert(src@.len() == src.len());
        }
        assert(at(base + r, c as int) == at(base as int, i as int));
        let x = src[item(base + r, c)];
        tile.set(i, x);
        i += BR;
    }
}

/// Loads the tile of key or value rows number `j`: what all threads of the block have
/// done together when they synchronize.
pub fn load_tile<T: Copy>(tile: &mut Vec<T>, src: &[T], j: usize)
    requires
        old(tile)@.len() == TILE,
        (j + 1) * 2048 <= src@.len(),
    ensures
        final(tile)@ == src@.subrange(j * 2048, (j + 1) * 2048),
        forall|r: int, c: int|
            0 <= r < 32 && 0 <= c < 64 ==> final(tile)@[#[trigger] at(r, c)] == src@[64 * (32 * j
                + r) + c],
{
    assert(src@.len() <= usize::MAX) by {
        assert(src@.len() == src.len());
    }
    assert(j * BC == j * 32) by (nonlinear_arith)
        requires
            BC == 32,
    ;
    let base: usize = j * BC;
    let mut tid: usize = 0;
    while tid < BR
        invariant
            tid <= BR,
            base == j * 32,
            tile@.len() == TILE,
            (j + 1) * 2048 <= src@.len(),
            forall|a: int|
                0 <= a < TILE && a % 32 < tid ==> #[trigger] tile@[a] == src@[j * 2048 + a],
        decreases BR - tid,
    {
        load_tile_part(tile, src, base, tid);
        tid += 1;
    }
    assert(tile@ =~= src@.subrange(j * 2048, (j + 1) * 2048));
}

/// A reproducible source of pseudo-random input values.
#[derive(Clone, Copy, Debug)]
pub struct Lcg {
    /// The current state.
    pub seed: u64,
}

/// Adding `c` to a remainder, with one wrap at most, gives the remainder of the sum.
proof fn lemma_wrapped_sum(p: int, c: int, m: int)
    requires
        0 <= c < m,
    ensures
        (p + c) % m == (if p % m + c >= m {
            p % m + c - m
        } else {
            p % m + c
        }),
{
    lemma_fundamental_div_mod(p, m);
    assert(m * (p / m) == (p / m) * m) by (nonlinear_arith);
    if p % m + c >= m {
        assert((p / m) * m + m == (p / m + 1) * m) by (nonlinear_arith);
        lemma_fundamental_div_mod_converse(p + c, m, p / m + 1, p % m + c - m);
    } else {
        lemma_fundamental_div_mod_converse(p + c, m, p / m, p % m + c);
    }
}

impl Lcg {
    /// Advances the state and gives its upper 31 bits.
    pub fn next_bits(&mut self) -> (bits: i32)
        ensures
            final(self).seed == (old(self).seed * 6364136223846793005 + 1442695040888963407)
                % 0x1_0000_0000_0000_0000,
            bits == final(self).seed / 0x2_0000_0000,
    {
        let product: u64 = self.seed.wrapping_mul(6364136223846793005);
        proof {
            lemma_wrapped_sum(
                self.seed * 6364136223846793005,
                1442695040888963407,
                0x1_0000_0000_0000_0000,
            );
        }
        let seed: u64 = product.wrapping_add(1442695040888963407);
        self.seed = seed;
        assert(seed >> 33 == seed / 0x2_0000_0000) by (bit_vector);
        (seed >> 33) as i32
    }
}

/// Positions run through a row of 64 columns and then on to the next row, and no two
/// places share one.
pub proof fn law_positions_are_row_major(row: int, col: int)
    ensures
        at(0, 0) == 0,
        at(row, col + 1) == at(row, col) + 1,
        at(row + 1, 0) == at(row, 63) + 1,
        forall|r: int, c: int|
            0 <= col < 64 && 0 <= c < 64 && #[trigger] at(r, c) == at(row, col) ==> r == row && c
                == col,
{
}

/// The rows of consecutive threads, and of consecutive blocks of 32 threads, follow one
/// another.
pub proof fn law_rows_are_owned_in_order(tile: int, tid: int)
    ensures
        owned_row(0, 0) == 0,
        owned_row(tile, tid + 1) == owned_row(tile, tid) + 1,
        owned_row(tile + 1, 0) == owned_row(tile, 31) + 1,
{
}

/// The tiles hold as many items as their rows and columns make, and the five of them
/// take 36 KB at 4 bytes per item, which the default 48 KB of a block can hold.
pub proof fn law_tiles_fit_shared_memory()
    ensures
        BR * D == TILE,
        BC * D == TILE,
        BR * BC == SCORES,
        4 * (TILE + TILE + TILE + SCORES + TILE) == 36 * 1024,
        4 * (TILE + TILE + TILE + SCORES + TILE) <= 48 * 1024,
{
    assert(BR * D == TILE && BC * D == TILE && BR * BC == SCORES) by (nonlinear_arith)
        requires
            BR == 32,
            BC == 32,
            D == 64,
            TILE == 2048,
            SCORES == 1024,
    ;
}

/// Every row is owned by exactly one thread of exactly one block, so every output row
/// is written, and by one thread only.
pub proof fn law_each_row_has_one_owner(n: int, row: int)
    requires
        n % 32 == 0,
        0 <= row < n,
    ensures
        0 <= row / 32 < n / 32,
        0 <= row % 32 < 32,
        owned_row(row / 32, row % 32) == row,
        forall|tile: int, tid: int|
            0 <= tid < 32 && #[trigger] owned_row(tile, tid) == row ==> tile == row / 32 && tid
                == row % 32,
{
}

/// Every item of the `n` key or value rows is loaded with exactly one of the tiles.
pub proof fn law_each_item_is_in_one_tile(n: int, i: int)
    requires
        n % 32 == 0,
        0 <= i < n * 64,
    ensures
        0 <= i / 2048 < n / 32,
        forall|j: int| (j * 2048 <= i < #[trigger] ((j + 1) * 2048)) <==> j == i / 2048,
{
}

} // verus!
