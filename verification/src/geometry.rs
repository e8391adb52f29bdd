//! Geometry of the tile pyramid: number of zoom levels, size of each level and
//! the grid of tiles that covers a level.
use vstd::prelude::*;
use vstd::arithmetic::power2::{pow2, lemma_pow2_unfold, lemma_pow2_pos, lemma2_to64};
use vstd::arithmetic::div_mod::{lemma_div_denominator, lemma_fundamental_div_mod};

verus! {

/// The least `k` such that `tile * 2^k >= cube` (zero for a tile of size zero).
pub open spec fn doublings(cube: int, tile: int) -> nat
    decreases (if tile >= cube {
        0
    } else {
        cube - tile
    }),
{
    if tile <= 0 || tile >= cube {
        0
    } else {
        doublings(cube, 2 * tile) + 1
    }
}

/// Number of zoom levels of the pyramid for a cube face of `cube` pixels and
/// tiles of `tile` pixels: one more than the number of halvings that bring
/// the tile up to the face, less one when the face halved `levels - 2` times
/// is exactly the tile (the adjustment of Pannellum's `generate.py`).
pub open spec fn pyramid_levels(cube: int, tile: int) -> nat {
    let l = doublings(cube, tile) + 1;
    if l >= 2 && cube / (pow2((l - 2) as nat) as int) == tile {
        (l - 1) as nat
    } else {
        l
    }
}

/// Side, in pixels, of level `level` (1 is the smallest, `levels` the full face).
pub open spec fn level_size(cube: int, levels: int, level: int) -> int {
    cube / (pow2((levels - level) as nat) as int)
}

/// Number of tiles along each side of a level of `size` pixels (none for a
/// tile of size zero).
pub open spec fn tiles_per_side(size: int, tile: int) -> int {
    if tile <= 0 {
        0
    } else {
        (size + tile - 1) / tile
    }
}

/// Computes `2^e`.
pub(crate) fn pow2_u64(e: u32) -> (p: u64)
    requires
        e <= 63,
    ensures
        p == pow2(e as nat),
{
    let mut p: u64 = 1;
    let mut i: u32 = 0;
    proof {
        lemma2_to64();
    }
    while i < e
        invariant
            i <= e <= 63,
            p == pow2(i as nat),
        decreases e - i,
    {
        proof {
            lemma2_to64();
            lemma_pow2_unfold((i + 1) as nat);
            vstd::arithmetic::power2::lemma2_to64_rest();
            vstd::arithmetic::power2::lemma_pow2_strictly_increases(i as nat, 63);
        }
        p = p * 2;
        i = i + 1;
    }
    p
}

/// Number of zoom levels of the pyramid (see [`pyramid_levels`]).
pub fn pyramid_level_count(cube_size: u32, tile_size: u32) -> (levels: u32)
    requires
        tile_size <= cube_size,
        cube_size > 0 ==> tile_size > 0,
    ensures
        levels == pyramid_levels(cube_size as int, tile_size as int),
        1 <= levels <= 33,
{
    let mut t: u64 = tile_size as u64;
    let mut k: u32 = 0;
    proof {
        lemma2_to64();
    }
    if tile_size > 0 {
        while t < cube_size as u64
            invariant
                0 < tile_size <= t,
                t == tile_size * pow2(k as nat),
                k <= 32,
                k > 0 ==> t < 2 * (cube_size as int),
                t < 2 * (cube_size as int) || t == tile_size,
                doublings(cube_size as int, tile_size as int) == k + doublings(
                    cube_size as int,
                    t as int,
                ),
            decreases 32 - k,
        {
            proof {
                lemma2_to64();
                lemma_pow2_unfold((k + 1) as nat);
                assert(pow2(k as nat) <= t) by (nonlinear_arith)
                    requires
                        t == tile_size * pow2(k as nat),
                        tile_size >= 1,
                ;
                if k >= 32 {
                    vstd::arithmetic::power2::lemma_pow2_strictly_increases(32, k as nat);
                }
                assert(tile_size * pow2((k + 1) as nat) == 2 * (tile_size * pow2(k as nat)))
                    by (nonlinear_arith)
                    requires
                        pow2((k + 1) as nat) == 2 * pow2(k as nat),
                ;
            }
            t = t * 2;
            k = k + 1;
        }
    }
    let mut l: u32 = k + 1;
    if l >= 2 {
        let p = pow2_u64(l - 2);
        proof {
            lemma_pow2_pos((l - 2) as nat);
        }
        if cube_size as u64 / p == tile_size as u64 {
            l = l - 1;
        }
    }
    l
}

/// Halving `cube` `m` times, rounding down each time, gives `cube / 2^m`.
pub proof fn lemma_halving(cube: int, m: nat)
    requires
        0 <= cube,
    ensures
        cube / (pow2(m) as int) / 2 == cube / (pow2(m + 1) as int),
{
    lemma_pow2_pos(m);
    lemma_div_denominator(cube, pow2(m) as int, 2);
    lemma_pow2_unfold(m + 1);
}

/// The side of every level, indexed by level; index 0 is unused and zero.
pub fn level_sizes(cube_size: u32, levels: u32) -> (sizes: Vec<u32>)
    requires
        1 <= levels <= 33,
    ensures
        sizes@.len() == levels + 1,
        sizes@[0] == 0,
        forall|l: int|
            1 <= l <= levels ==> #[trigger] sizes@[l] == level_size(
                cube_size as int,
                levels as int,
                l,
            ),
{
    let mut sizes: Vec<u32> = Vec::new();
    let mut i: u32 = 0;
    while i <= levels
        invariant
            i <= levels + 1,
            levels <= 33,
            sizes@.len() == i,
            forall|j: int| 0 <= j < i ==> #[trigger] sizes@[j] == 0,
        decreases levels + 1 - i,
    {
        sizes.push(0);
        i = i + 1;
    }
    let mut current: u32 = cube_size;
    let mut level: u32 = levels;
    proof {
        lemma2_to64();
    }
    while level >= 1
        invariant
            0 <= level <= levels <= 33,
            sizes@.len() == levels + 1,
            sizes@[0] == 0,
            current == level_size(cube_size as int, levels as int, level as int),
            forall|l: int|
                level < l <= levels ==> #[trigger] sizes@[l] == level_size(
                    cube_size as int,
                    levels as int,
                    l,
                ),
        decreases level,
    {
        sizes.set(level as usize, current);
        proof {
            lemma_halving(cube_size as int, (levels - level) as nat);
            assert((levels - level) as nat + 1 == (levels - (level - 1)) as nat);
        }
        current = current / 2;
        level = level - 1;
    }
    sizes
}

/// Number of tiles along each side of a level (see [`tiles_per_side`]).
pub fn tile_count(size: u32, tile_size: u32) -> (n: u32)
    ensures
        n == tiles_per_side(size as int, tile_size as int),
{
    if tile_size == 0 {
        0
    } else {
        let n: u64 = (size as u64 + tile_size as u64 - 1) / tile_size as u64;
        proof {
            lemma_fundamental_div_mod(size + tile_size - 1, tile_size as int);
            vstd::arithmetic::div_mod::lemma_mod_bound(size + tile_size - 1, tile_size as int);
            assert(n <= size) by (nonlinear_arith)
                requires
                    n * tile_size <= size + tile_size - 1,
                    tile_size >= 1,
                    n >= 0,
            ;
        }
        n as u32
    }
}

/// Every tile of the grid starts inside the level: the last column starts
/// before the right edge.
pub proof fn lemma_last_tile_starts_inside(size: int, tile: int, col: int)
    requires
        0 < tile,
        0 <= col < tiles_per_side(size, tile),
    ensures
        col * tile < size,
{
    let n = tiles_per_side(size, tile);
    lemma_fundamental_div_mod(size + tile - 1, tile);
    vstd::arithmetic::div_mod::lemma_mod_bound(size + tile - 1, tile);
    assert(n * tile <= size + tile - 1);
    assert(col * tile <= (n - 1) * tile) by (nonlinear_arith)
        requires
            0 <= col <= n - 1,
            0 < tile,
    ;
    assert((n - 1) * tile == n * tile - tile) by (nonlinear_arith);
}

/// The tiles of the grid cover the whole level.
pub proof fn lemma_grid_covers_level(size: int, tile: int)
    requires
        0 < tile,
        0 <= size,
    ensures
        tiles_per_side(size, tile) * tile >= size,
{
    let n = tiles_per_side(size, tile);
    lemma_fundamental_div_mod(size + tile - 1, tile);
    vstd::arithmetic::div_mod::lemma_mod_bound(size + tile - 1, tile);
}

/// `doublings` is the least `k` with `tile * 2^k >= cube`.
pub proof fn lemma_doublings(cube: int, tile: int)
    requires
        0 < tile,
    ensures
        tile * pow2(doublings(cube, tile)) >= cube,
        doublings(cube, tile) > 0 ==> tile * pow2((doublings(cube, tile) - 1) as nat) < cube,
    decreases (if tile >= cube {
        0
    } else {
        cube - tile
    }),
{
    lemma2_to64();
    assert(tile * pow2(0) == tile);
    if tile < cube {
        lemma_doublings(cube, 2 * tile);
        let k = doublings(cube, 2 * tile);
        assert(doublings(cube, tile) == k + 1);
        lemma_pow2_unfold(k + 1);
        assert(tile * pow2(k + 1) == 2 * tile * pow2(k)) by (nonlinear_arith)
            requires
                pow2(k + 1) == 2 * pow2(k),
        ;
        if k > 0 {
            lemma_pow2_unfold(k);
            assert(2 * tile * pow2((k - 1) as nat) == tile * pow2(k)) by (nonlinear_arith)
                requires
                    pow2(k) == 2 * pow2((k - 1) as nat),
            ;
        }
    }
}

/// The shape of the pyramid for a face of `cube` pixels and tiles of `tile`
/// pixels: the top level is the full face, each level is the one above
/// halved (rounding down), the smallest level has at least one pixel and
/// fits in a single tile, and the level above it does not.
pub proof fn lemma_pyramid_shape(cube: int, tile: int)
    requires
        0 < tile <= cube,
    ensures
        pyramid_levels(cube, tile) >= 1,
        level_size(cube, pyramid_levels(cube, tile) as int, pyramid_levels(cube, tile) as int)
            == cube,
        forall|l: int|
            2 <= l <= pyramid_levels(cube, tile) ==> #[trigger] level_size(
                cube,
                pyramid_levels(cube, tile) as int,
                l - 1,
            ) == level_size(cube, pyramid_levels(cube, tile) as int, l) / 2,
        1 <= level_size(cube, pyramid_levels(cube, tile) as int, 1) <= tile,
        pyramid_levels(cube, tile) >= 2 ==> level_size(cube, pyramid_levels(cube, tile) as int, 2)
            > tile,
{
    lemma2_to64();
    let big_l = pyramid_levels(cube, tile) as int;
    let k = doublings(cube, tile);
    lemma_doublings(cube, tile);
    assert((big_l - big_l) as nat == 0);
    assert(cube / 1 == cube);
    assert(level_size(cube, big_l, big_l) == cube);
    assert forall|l: int| 2 <= l <= big_l implies #[trigger] level_size(cube, big_l, l - 1)
        == level_size(cube, big_l, l) / 2 by {
        lemma_halving(cube, (big_l - l) as nat);
        assert((big_l - l) as nat + 1 == (big_l - (l - 1)) as nat);
    }
    if k == 0 {
        assert(big_l == 1);
    } else {
        let p = pow2((k - 1) as nat) as int;
        lemma_pow2_pos((k - 1) as nat);
        lemma_pow2_unfold(k);
        let q = cube / p;
        // q >= tile, as tile * p < cube
        vstd::arithmetic::div_mod::lemma_div_is_ordered(tile * p, cube, p);
        vstd::arithmetic::div_mod::lemma_div_by_multiple(tile, p);
        assert(q >= tile);
        if q == tile {
            assert(big_l == k);
            assert(level_size(cube, big_l, 1) == q);
            if big_l >= 2 {
                lemma_halving(cube, (k - 2) as nat);
                assert((k - 2) as nat + 1 == (k - 1) as nat);
                assert(level_size(cube, big_l, 2) == cube / (pow2((k - 2) as nat) as int));
            }
        } else {
            assert(big_l == k + 1);
            lemma_halving(cube, (k - 1) as nat);
            assert((k - 1) as nat + 1 == k);
            assert(level_size(cube, big_l, 1) == q / 2);
            // cube <= tile * 2^k, so cube / 2^k <= tile
            lemma_pow2_pos(k);
            vstd::arithmetic::div_mod::lemma_div_is_ordered(cube, tile * pow2(k), pow2(k) as int);
            vstd::arithmetic::div_mod::lemma_div_by_multiple(tile, pow2(k) as int);
            assert(level_size(cube, big_l, 2) == q);
        }
    }
}

} // verus!
