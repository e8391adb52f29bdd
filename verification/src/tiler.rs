//! The multi-resolution pyramid: every cube face is cut into tiles at every
//! zoom level, background-only tiles of partial panoramas are left out and
//! listed in the missing-tile string, and each face is resampled once more
//! for the fallback cube.
use vstd::prelude::*;
use crate::geometry::{
    level_size, level_sizes, pyramid_level_count, pyramid_levels, tile_count, tiles_per_side,
    lemma_last_tile_starts_inside,
};
use crate::missing::{MissingTile, missing_string, missing_tiles_string};
use crate::raster::{RgbBuffer, crop_rows, is_region_empty, region_is_background};
use crate::resize::lanczos3_resized;
use crate::config::DownscalingMethod;

verus! {

/// A representation of an individual generated tile.
#[derive(Debug, Clone, PartialEq, Eq)]
pub struct TileItem {
    pub level: u32,
    pub face: char,
    pub col: u32,
    pub row: u32,
    pub image: RgbBuffer,
}

/// A representation of a fallback cube face tile.
#[derive(Debug, Clone, PartialEq, Eq)]
pub struct FallbackItem {
    pub face: char,
    pub image: RgbBuffer,
}

/// Container holding the raw outputs of the multi-resolution pipeline.
#[derive(Debug, Clone, PartialEq, Eq)]
pub struct GeneratedTiles {
    pub tiles: Vec<TileItem>,
    pub fallback_tiles: Vec<FallbackItem>,
    pub missing_tiles_str: Option<String>,
    pub levels: u32,
}

/// Level, face letter, column, row and image of a tile.
pub type TileView = (u32, char, u32, u32, (u32, u32, Seq<u8>));

impl View for TileItem {
    type V = TileView;

    open spec fn view(&self) -> TileView {
        (self.level, self.face, self.col, self.row, self.image@)
    }
}

/// The views of a sequence of tiles.
pub open spec fn tile_views(v: Seq<TileItem>) -> Seq<TileView> {
    v.map_values(|t: TileItem| t@)
}

/// The side of every level, indexed by level; index 0 is zero.
pub open spec fn sizes_seq(cube: int, levels: int) -> Seq<u32> {
    Seq::new(
        (levels + 1) as nat,
        |l: int|
            if l == 0 {
                0u32
            } else {
                level_size(cube, levels, l) as u32
            },
    )
}

/// The image of level `level` of a face: the face itself at the top level,
/// below it the image of the level above resampled to the level's size.
pub open spec fn level_raster(
    face: (u32, u32, Seq<u8>),
    sizes: Seq<u32>,
    levels: int,
    level: int,
) -> (u32, u32, Seq<u8>)
    decreases levels - level,
{
    if level >= levels {
        face
    } else {
        let above = level_raster(face, sizes, levels, level + 1);
        let s = sizes[level];
        (s, s, lanczos3_resized(above.2, above.0, above.1, s, s))
    }
}

/// The image of level `level` of a face for a downscaling method: the face
/// itself at the top level; below it, with `Recursive`, the level above
/// resampled (see [`level_raster`]), with `Direct`, the full face resampled
/// to the level's size.
pub open spec fn level_image(
    face: (u32, u32, Seq<u8>),
    sizes: Seq<u32>,
    levels: int,
    level: int,
    method: DownscalingMethod,
) -> (u32, u32, Seq<u8>) {
    match method {
        DownscalingMethod::Recursive => level_raster(face, sizes, levels, level),
        DownscalingMethod::Direct => if level >= levels {
            face
        } else {
            let s = sizes[level];
            (s, s, lanczos3_resized(face.2, face.0, face.1, s, s))
        },
    }
}

/// The smaller of two integers.
pub open spec fn min_int(a: int, b: int) -> int {
    if a <= b {
        a
    } else {
        b
    }
}

/// Column of cell `k` of a grid with `n` tiles per side (cells run row by row).
pub open spec fn cell_col(n: int, k: int) -> int {
    k % n
}

/// Row of cell `k` of a grid with `n` tiles per side.
pub open spec fn cell_row(n: int, k: int) -> int {
    k / n
}

/// Whether cell `k` of a level image is a missing tile: the panorama is
/// partial and the whole tile is background.
pub open spec fn cell_is_missing(
    img: (u32, u32, Seq<u8>),
    tile: int,
    k: int,
    is_partial: bool,
    bg: [u8; 3],
) -> bool {
    let size = img.0 as int;
    let n = tiles_per_side(size, tile);
    let left = cell_col(n, k) * tile;
    let upper = cell_row(n, k) * tile;
    is_partial && region_is_background(
        img.2,
        size,
        left,
        upper,
        min_int(tile, size - left),
        min_int(tile, size - upper),
        bg,
    )
}

/// The image of cell `k` of a level image.
pub open spec fn cell_image(img: (u32, u32, Seq<u8>), tile: int, k: int) -> (u32, u32, Seq<u8>) {
    let size = img.0 as int;
    let n = tiles_per_side(size, tile);
    let left = cell_col(n, k) * tile;
    let upper = cell_row(n, k) * tile;
    let w = min_int(tile, size - left);
    let h = min_int(tile, size - upper);
    (w as u32, h as u32, crop_rows(img.2, size, left, upper, w, h as nat))
}

/// Tiles and missing tiles of the first `k` cells of a level image.
pub open spec fn level_outputs(
    letter: char,
    face_idx: usize,
    level: u32,
    img: (u32, u32, Seq<u8>),
    tile: int,
    is_partial: bool,
    bg: [u8; 3],
    k: nat,
) -> (Seq<TileView>, Seq<MissingTile>)
    decreases k,
{
    if k == 0 {
        (Seq::empty(), Seq::empty())
    } else {
        let prev = level_outputs(letter, face_idx, level, img, tile, is_partial, bg, (k - 1) as nat);
        let c = k - 1;
        let n = tiles_per_side(img.0 as int, tile);
        let col = cell_col(n, c) as u32;
        let row = cell_row(n, c) as u32;
        if cell_is_missing(img, tile, c, is_partial, bg) {
            (prev.0, prev.1.push(MissingTile { face_idx, level, col, row }))
        } else {
            (prev.0.push((level, letter, col, row, cell_image(img, tile, c))), prev.1)
        }
    }
}

/// Tiles and missing tiles of a whole level image.
pub open spec fn all_level_outputs(
    letter: char,
    face_idx: usize,
    level: u32,
    img: (u32, u32, Seq<u8>),
    tile: int,
    is_partial: bool,
    bg: [u8; 3],
) -> (Seq<TileView>, Seq<MissingTile>) {
    let n = tiles_per_side(img.0 as int, tile);
    level_outputs(letter, face_idx, level, img, tile, is_partial, bg, (n * n) as nat)
}

/// Tiles and missing tiles of the `done` top levels of a face, the full
/// resolution level first.
pub open spec fn face_outputs(
    letter: char,
    face_idx: usize,
    face: (u32, u32, Seq<u8>),
    sizes: Seq<u32>,
    levels: int,
    tile: int,
    is_partial: bool,
    bg: [u8; 3],
    method: DownscalingMethod,
    done: nat,
) -> (Seq<TileView>, Seq<MissingTile>)
    decreases done,
{
    if done == 0 {
        (Seq::empty(), Seq::empty())
    } else {
        let prev = face_outputs(
            letter,
            face_idx,
            face,
            sizes,
            levels,
            tile,
            is_partial,
            bg,
            method,
            (done - 1) as nat,
        );
        let level = levels - done + 1;
        let img = level_image(face, sizes, levels, level, method);
        let out = all_level_outputs(letter, face_idx, level as u32, img, tile, is_partial, bg);
        (prev.0 + out.0, prev.1 + out.1)
    }
}

/// Tiles and missing tiles of the first `count` faces.
pub open spec fn pyramid_outputs(
    faces: Seq<(char, (u32, u32, Seq<u8>))>,
    sizes: Seq<u32>,
    levels: int,
    tile: int,
    is_partial: bool,
    bg: [u8; 3],
    method: DownscalingMethod,
    count: nat,
) -> (Seq<TileView>, Seq<MissingTile>)
    decreases count,
{
    if count == 0 {
        (Seq::empty(), Seq::empty())
    } else {
        let prev = pyramid_outputs(
            faces,
            sizes,
            levels,
            tile,
            is_partial,
            bg,
            method,
            (count - 1) as nat,
        );
        let f = faces[count - 1];
        let out = face_outputs(
            f.0,
            (count - 1) as usize,
            f.1,
            sizes,
            levels,
            tile,
            is_partial,
            bg,
            method,
            levels as nat,
        );
        (prev.0 + out.0, prev.1 + out.1)
    }
}

/// Cuts one level image into its tiles, row by row; with `is_partial`,
/// background-only tiles become missing tiles instead.
fn level_tiles(
    letter: char,
    face_idx: usize,
    level: u32,
    img: &RgbBuffer,
    tile_size: u32,
    is_partial: bool,
    bg: [u8; 3],
) -> (res: (Vec<TileItem>, Vec<MissingTile>))
    requires
        img.wf(),
        img.width == img.height,
    ensures
        tile_views(res.0@) == all_level_outputs(
            letter,
            face_idx,
            level,
            img@,
            tile_size as int,
            is_partial,
            bg,
        ).0,
        res.1@ == all_level_outputs(letter, face_idx, level, img@, tile_size as int, is_partial, bg).1,
        forall|i: int|
            0 <= i < res.1@.len() ==> (#[trigger] res.1@[i]).face_idx == face_idx
                && res.1@[i].level == level && tiles_per_side(img.width as int, tile_size as int)
                >= 1,
{
    let size = img.width;
    let n = tile_count(size, tile_size);
    proof {
        assert((n as int) * (n as int) <= u32::MAX * u32::MAX) by (nonlinear_arith)
            requires
                n <= u32::MAX,
        ;
    }
    let total: u64 = (n as u64) * (n as u64);
    let mut tiles: Vec<TileItem> = Vec::new();
    let mut missing: Vec<MissingTile> = Vec::new();
    let mut k: u64 = 0;
    while k < total
        invariant
            img.wf(),
            img.width == img.height,
            size == img.width,
            n == tiles_per_side(size as int, tile_size as int),
            total == n * n,
            k <= total,
            tile_views(tiles@) == level_outputs(
                letter,
                face_idx,
                level,
                img@,
                tile_size as int,
                is_partial,
                bg,
                k as nat,
            ).0,
            missing@ == level_outputs(
                letter,
                face_idx,
                level,
                img@,
                tile_size as int,
                is_partial,
                bg,
                k as nat,
            ).1,
            forall|i: int|
                0 <= i < missing@.len() ==> (#[trigger] missing@[i]).face_idx == face_idx
                    && missing@[i].level == level && n >= 1,
        decreases total - k,
    {
        proof {
            assert(n >= 1) by (nonlinear_arith)
                requires
                    k < n * n,
                    0 <= k,
                    n >= 0,
            ;
            assert(tile_size > 0);
            assert((k as int) / (n as int) < n) by (nonlinear_arith)
                requires
                    0 <= k < n * n,
                    n >= 1,
            ;
            vstd::arithmetic::div_mod::lemma_mod_bound(k as int, n as int);
            vstd::arithmetic::div_mod::lemma_div_pos_is_pos(k as int, n as int);
        }
        let col: u32 = (k % (n as u64)) as u32;
        let row: u32 = (k / (n as u64)) as u32;
        proof {
            lemma_last_tile_starts_inside(size as int, tile_size as int, col as int);
            lemma_last_tile_starts_inside(size as int, tile_size as int, row as int);
        }
        let left: u32 = col * tile_size;
        let upper: u32 = row * tile_size;
        let width: u32 = if tile_size <= size - left {
            tile_size
        } else {
            size - left
        };
        let height: u32 = if tile_size <= size - upper {
            tile_size
        } else {
            size - upper
        };
        let ghost tiles0 = tiles@;
        if is_partial && is_region_empty(img, left, upper, width, height, bg) {
            missing.push(MissingTile { face_idx, level, col, row });
        } else {
            let image = img.crop(left, upper, width, height);
            let item = TileItem { level, face: letter, col, row, image };
            tiles.push(item);
            proof {
                assert(tile_views(tiles@) =~= tile_views(tiles0).push(item@));
            }
        }
        k = k + 1;
    }
    (tiles, missing)
}

/// Cuts every level of one face into tiles, from the full-resolution level
/// down to level 1; each level below the top is the level above (with
/// `Recursive`) or the full face (with `Direct`) resampled to its size.
fn face_tiles(
    letter: char,
    face_idx: usize,
    face: &RgbBuffer,
    sizes: &Vec<u32>,
    levels: u32,
    tile_size: u32,
    is_partial: bool,
    bg: [u8; 3],
    method: DownscalingMethod,
) -> (res: (Vec<TileItem>, Vec<MissingTile>))
    requires
        face.wf(),
        face.width == face.height,
        face.width * face.width * 3 <= isize::MAX,
        1 <= levels <= 33,
        sizes@.len() == levels + 1,
        sizes@[levels as int] == face.width,
        forall|l: int| 1 <= l <= levels ==> #[trigger] sizes@[l] <= face.width,
    ensures
        tile_views(res.0@) == face_outputs(
            letter,
            face_idx,
            face@,
            sizes@,
            levels as int,
            tile_size as int,
            is_partial,
            bg,
            method,
            levels as nat,
        ).0,
        res.1@ == face_outputs(
            letter,
            face_idx,
            face@,
            sizes@,
            levels as int,
            tile_size as int,
            is_partial,
            bg,
            method,
            levels as nat,
        ).1,
        forall|i: int|
            0 <= i < res.1@.len() ==> (#[trigger] res.1@[i]).face_idx == face_idx && 1
                <= res.1@[i].level <= levels && tiles_per_side(
                sizes@[res.1@[i].level as int] as int,
                tile_size as int,
            ) >= 1,
{
    let mut tiles: Vec<TileItem> = Vec::new();
    let mut missing: Vec<MissingTile> = Vec::new();
    let mut current: RgbBuffer = face.duplicate();
    let mut level: u32 = levels;
    let mut done: u32 = 0;
    while done < levels
        invariant
            face.wf(),
            face.width == face.height,
            face.width * face.width * 3 <= isize::MAX,
            1 <= levels <= 33,
            sizes@.len() == levels + 1,
            sizes@[levels as int] == face.width,
            forall|l: int| 1 <= l <= levels ==> #[trigger] sizes@[l] <= face.width,
            done <= levels,
            level == levels - done,
            current.wf(),
            current.width == current.height,
            current@ == level_image(face@, sizes@, levels as int, (level + 1) as int, method)
                || done == 0,
            done == 0 ==> current@ == face@,
            current.width <= face.width,
            tile_views(tiles@) == face_outputs(
                letter,
                face_idx,
                face@,
                sizes@,
                levels as int,
                tile_size as int,
                is_partial,
                bg,
                method,
                done as nat,
            ).0,
            missing@ == face_outputs(
                letter,
                face_idx,
                face@,
                sizes@,
                levels as int,
                tile_size as int,
                is_partial,
                bg,
                method,
                done as nat,
            ).1,
            forall|i: int|
                0 <= i < missing@.len() ==> (#[trigger] missing@[i]).face_idx == face_idx && 1
                    <= missing@[i].level <= levels && tiles_per_side(
                    sizes@[missing@[i].level as int] as int,
                    tile_size as int,
                ) >= 1,
        decreases levels - done,
    {
        if done > 0 {
            let s = sizes[level as usize];
            proof {
                assert(s * s * 3 <= face.width * face.width * 3) by (nonlinear_arith)
                    requires
                        s <= face.width,
                ;
            }
            let next = match method {
                DownscalingMethod::Recursive => current.resized(s, s),
                DownscalingMethod::Direct => face.resized(s, s),
            };
            current = next;
        }
        proof {
            assert(current@ == level_image(face@, sizes@, levels as int, level as int, method));
            assert(current.width == sizes@[level as int]);
        }
        let (level_items, level_missing) = level_tiles(
            letter,
            face_idx,
            level,
            &current,
            tile_size,
            is_partial,
            bg,
        );
        let ghost tiles0 = tiles@;
        let ghost missing0 = missing@;
        let mut level_items = level_items;
        let mut level_missing = level_missing;
        let ghost items_v = level_items@;
        let ghost missing_v = level_missing@;
        tiles.append(&mut level_items);
        missing.append(&mut level_missing);
        proof {
            assert(tile_views(tiles@) =~= tile_views(tiles0) + tile_views(items_v));
            assert forall|i: int| 0 <= i < missing@.len() implies (#[trigger] missing@[i]).face_idx
                == face_idx && 1 <= missing@[i].level <= levels && tiles_per_side(
                sizes@[missing@[i].level as int] as int,
                tile_size as int,
            ) >= 1 by {
                if i >= missing0.len() {
                    assert(missing@[i] == missing_v[i - missing0.len()]);
                }
            }
        }
        done = done + 1;
        level = level - 1;
    }
    (tiles, missing)
}

/// The letter of face `g`.
fn letter_at(faces: &Vec<(char, RgbBuffer)>, g: usize) -> (c: char)
    requires
        g < faces@.len(),
    ensures
        c == faces@[g as int].0,
{
    faces[g].0
}

/// Every face resampled to `fallback_size x fallback_size`.
fn fallback_faces(faces: &Vec<(char, RgbBuffer)>, fallback_size: u32, cube_size: u32) -> (res: Vec<
    FallbackItem,
>)
    requires
        forall|i: int|
            0 <= i < faces@.len() ==> (#[trigger] faces@[i]).1.wf() && faces@[i].1.width
                == cube_size && faces@[i].1.height == cube_size,
        fallback_size * fallback_size * 3 <= isize::MAX,
    ensures
        res@.len() == faces@.len(),
        forall|i: int|
            0 <= i < res@.len() ==> (#[trigger] res@[i]).face == faces@[i].0 && res@[i].image@ == (
                fallback_size,
                fallback_size,
                lanczos3_resized(faces@[i].1.data@, cube_size, cube_size, fallback_size, fallback_size),
            ),
{
    let mut out: Vec<FallbackItem> = Vec::new();
    let mut g: usize = 0;
    while g < faces.len()
        invariant
            g <= faces@.len(),
            forall|i: int|
                0 <= i < faces@.len() ==> (#[trigger] faces@[i]).1.wf() && faces@[i].1.width
                    == cube_size && faces@[i].1.height == cube_size,
            fallback_size * fallback_size * 3 <= isize::MAX,
            out@.len() == g,
            forall|i: int|
                0 <= i < g ==> (#[trigger] out@[i]).face == faces@[i].0 && out@[i].image@ == (
                    fallback_size,
                    fallback_size,
                    lanczos3_resized(
                        faces@[i].1.data@,
                        cube_size,
                        cube_size,
                        fallback_size,
                        fallback_size,
                    ),
                ),
        decreases faces@.len() - g,
    {
        let letter = letter_at(faces, g);
        let image = faces[g].1.resized(fallback_size, fallback_size);
        out.push(FallbackItem { face: letter, image });
        g = g + 1;
    }
    out
}

/// The tile side actually used: the requested one, at most the cube face.
pub open spec fn effective_tile_size(clamped_tile_size: int, cube_size: int) -> int {
    min_int(clamped_tile_size, cube_size)
}

/// The faces as letters and image views.
pub open spec fn face_views(faces: Seq<(char, RgbBuffer)>) -> Seq<(char, (u32, u32, Seq<u8>))> {
    faces.map_values(|f: (char, RgbBuffer)| (f.0, f.1@))
}

/// Tiles and missing tiles of all faces for the given tiling parameters.
pub open spec fn generated_outputs(
    faces: Seq<(char, RgbBuffer)>,
    is_partial: bool,
    bg: [u8; 3],
    method: DownscalingMethod,
    clamped_tile_size: int,
    cube_size: int,
) -> (Seq<TileView>, Seq<MissingTile>) {
    let tile = effective_tile_size(clamped_tile_size, cube_size);
    let levels = pyramid_levels(cube_size, tile) as int;
    pyramid_outputs(
        face_views(faces),
        sizes_seq(cube_size, levels),
        levels,
        tile,
        is_partial,
        bg,
        method,
        faces.len(),
    )
}

/// Breaks down each of the high-res faces into multi-resolution pyramids and
/// tiles.
///
/// `faces` are the cube faces (letter and image, each `actual_cube_size`
/// pixels square); `is_partial` tells whether the panorama covers less than
/// the whole sphere, in which case tiles of pure `background_color` are left
/// out and listed in the missing-tile string; `downscaling_method` tells
/// whether each lower level is resampled from the level above or from the
/// full face; with `fallback_size > 0` every face is also resampled to a
/// fallback image of that size. A partial panorama has at most six faces,
/// the faces that the missing-tile string can name.
pub fn generate_pyramid(
    faces: &Vec<(char, RgbBuffer)>,
    is_partial: bool,
    background_color: [u8; 3],
    fallback_size: u32,
    downscaling_method: DownscalingMethod,
    clamped_tile_size: u32,
    actual_cube_size: u32,
) -> (res: GeneratedTiles)
    requires
        actual_cube_size > 0 ==> clamped_tile_size > 0,
        is_partial ==> faces@.len() <= 6,
        forall|i: int|
            0 <= i < faces@.len() ==> (#[trigger] faces@[i]).1.wf() && faces@[i].1.width
                == actual_cube_size && faces@[i].1.height == actual_cube_size,
        actual_cube_size * actual_cube_size * 3 <= isize::MAX,
        fallback_size * fallback_size * 3 <= isize::MAX,
    ensures
        res.levels == pyramid_levels(
            actual_cube_size as int,
            effective_tile_size(clamped_tile_size as int, actual_cube_size as int),
        ),
        tile_views(res.tiles@) == generated_outputs(
            faces@,
            is_partial,
            background_color,
            downscaling_method,
            clamped_tile_size as int,
            actual_cube_size as int,
        ).0,
        res.missing_tiles_str is Some <==> generated_outputs(
            faces@,
            is_partial,
            background_color,
            downscaling_method,
            clamped_tile_size as int,
            actual_cube_size as int,
        ).1.len() > 0,
        res.missing_tiles_str matches Some(s) ==> s@ == missing_string(
            generated_outputs(
                faces@,
                is_partial,
                background_color,
                downscaling_method,
                clamped_tile_size as int,
                actual_cube_size as int,
            ).1,
            sizes_seq(actual_cube_size as int, res.levels as int),
            effective_tile_size(clamped_tile_size as int, actual_cube_size as int),
        ),
        res.fallback_tiles@.len() == (if fallback_size > 0 {
            faces@.len()
        } else {
            0
        }),
        forall|i: int|
            0 <= i < res.fallback_tiles@.len() ==> (#[trigger] res.fallback_tiles@[i]).face
                == faces@[i].0 && res.fallback_tiles@[i].image@ == (
                fallback_size,
                fallback_size,
                lanczos3_resized(
                    faces@[i].1.data@,
                    actual_cube_size,
                    actual_cube_size,
                    fallback_size,
                    fallback_size,
                ),
            ),
{
    let tile_size = if clamped_tile_size <= actual_cube_size {
        clamped_tile_size
    } else {
        actual_cube_size
    };
    let levels = pyramid_level_count(actual_cube_size, tile_size);
    let sizes = level_sizes(actual_cube_size, levels);
    let ghost sizes_v = sizes_seq(actual_cube_size as int, levels as int);
    proof {
        vstd::arithmetic::power2::lemma2_to64();
        assert forall|l: int| 1 <= l <= levels implies #[trigger] sizes@[l] <= actual_cube_size by {
            vstd::arithmetic::power2::lemma_pow2_pos((levels - l) as nat);
            vstd::arithmetic::div_mod::lemma_div_is_ordered_by_denominator(
                actual_cube_size as int,
                1,
                vstd::arithmetic::power2::pow2((levels - l) as nat) as int,
            );
        }
        assert(sizes@[levels as int] == actual_cube_size);
        assert(sizes@ =~= sizes_v);
    }
    let ghost fv = face_views(faces@);
    let mut tiles: Vec<TileItem> = Vec::new();
    let mut missing: Vec<MissingTile> = Vec::new();
    let mut f: usize = 0;
    while f < faces.len()
        invariant
            f <= faces@.len(),
            is_partial ==> faces@.len() <= 6,
            forall|i: int|
                0 <= i < faces@.len() ==> (#[trigger] faces@[i]).1.wf() && faces@[i].1.width
                    == actual_cube_size && faces@[i].1.height == actual_cube_size,
            actual_cube_size * actual_cube_size * 3 <= isize::MAX,
            1 <= levels <= 33,
            sizes@ == sizes_v,
            sizes@.len() == levels + 1,
            sizes@[levels as int] == actual_cube_size,
            forall|l: int| 1 <= l <= levels ==> #[trigger] sizes@[l] <= actual_cube_size,
            fv == face_views(faces@),
            tile_views(tiles@) == pyramid_outputs(
                fv,
                sizes_v,
                levels as int,
                tile_size as int,
                is_partial,
                background_color,
                downscaling_method,
                f as nat,
            ).0,
            missing@ == pyramid_outputs(
                fv,
                sizes_v,
                levels as int,
                tile_size as int,
                is_partial,
                background_color,
                downscaling_method,
                f as nat,
            ).1,
            forall|i: int|
                0 <= i < missing@.len() ==> (#[trigger] missing@[i]).face_idx < f && 1
                    <= missing@[i].level < sizes@.len() && tiles_per_side(
                    sizes@[missing@[i].level as int] as int,
                    tile_size as int,
                ) >= 1,
        decreases faces@.len() - f,
    {
        let letter = faces[f].0;
        let face = &faces[f].1;
        let (face_items, face_missing) = face_tiles(
            letter,
            f,
            face,
            &sizes,
            levels,
            tile_size,
            is_partial,
            background_color,
            downscaling_method,
        );
        let ghost tiles0 = tiles@;
        let ghost missing0 = missing@;
        let mut face_items = face_items;
        let mut face_missing = face_missing;
        let ghost items_v = face_items@;
        let ghost missing_v = face_missing@;
        tiles.append(&mut face_items);
        missing.append(&mut face_missing);
        proof {
            assert(fv[f as int] == (letter, face@));
            assert(tile_views(tiles@) =~= tile_views(tiles0) + tile_views(items_v));
            assert forall|i: int| 0 <= i < missing@.len() implies (#[trigger] missing@[i]).face_idx
                < f + 1 && 1 <= missing@[i].level < sizes@.len() && tiles_per_side(
                sizes@[missing@[i].level as int] as int,
                tile_size as int,
            ) >= 1 by {
                if i >= missing0.len() {
                    assert(missing@[i] == missing_v[i - missing0.len()]);
                }
            }
        }
        f = f + 1;
    }
    proof {
        assert(fv.len() == faces@.len());
        if !is_partial {
            lemma_pyramid_full_no_missing(
                fv,
                sizes_v,
                levels as int,
                tile_size as int,
                background_color,
                downscaling_method,
                faces@.len(),
            );
        }
    }
    let missing_tiles_str = missing_tiles_string(&missing, &sizes, tile_size);
    let fallback_tiles = if fallback_size > 0 {
        fallback_faces(faces, fallback_size, actual_cube_size)
    } else {
        Vec::new()
    };
    GeneratedTiles { tiles, fallback_tiles, missing_tiles_str, levels }
}

/// Along one axis, the tiles of a level partition it: position `x` lies in
/// tile `x / tile`, and in no other tile of the grid.
pub proof fn lemma_tile_axis_partition(size: int, tile: int, x: int, c: int)
    requires
        0 < tile,
        0 <= x < size,
        0 <= c,
    ensures
        x / tile < tiles_per_side(size, tile),
        (x / tile) * tile <= x < (x / tile) * tile + min_int(tile, size - (x / tile) * tile),
        c * tile <= x < c * tile + min_int(tile, size - c * tile) ==> c == x / tile,
{
    vstd::arithmetic::div_mod::lemma_fundamental_div_mod(x, tile);
    vstd::arithmetic::div_mod::lemma_mod_bound(x, tile);
    let n = tiles_per_side(size, tile);
    vstd::arithmetic::div_mod::lemma_fundamental_div_mod(size + tile - 1, tile);
    vstd::arithmetic::div_mod::lemma_mod_bound(size + tile - 1, tile);
    let q = x / tile;
    assert(tile * n >= size) by (nonlinear_arith)
        requires
            size + tile - 1 == tile * n + (size + tile - 1) % tile,
            (size + tile - 1) % tile < tile,
    ;
    assert(q < n) by (nonlinear_arith)
        requires
            x == tile * q + x % tile,
            0 <= x % tile,
            x < size,
            size <= tile * n,
            0 < tile,
    ;
    assert(q * tile == tile * q) by (nonlinear_arith);
    assert(q * tile <= x < q * tile + tile);
    assert(x < size);
    if c * tile <= x < c * tile + min_int(tile, size - c * tile) {
        if c < q {
            assert(c * tile + tile <= q * tile) by (nonlinear_arith)
                requires
                    c + 1 <= q,
                    0 < tile,
            ;
        }
        if c > q {
            assert(q * tile + tile <= c * tile) by (nonlinear_arith)
                requires
                    q + 1 <= c,
                    0 < tile,
            ;
        }
    }
}

/// Every cell of a level yields either a tile or a missing tile, and a full
/// panorama (not partial) has no missing tiles.
pub proof fn lemma_level_outputs_count(
    letter: char,
    face_idx: usize,
    level: u32,
    img: (u32, u32, Seq<u8>),
    tile: int,
    is_partial: bool,
    bg: [u8; 3],
    k: nat,
)
    ensures
        level_outputs(letter, face_idx, level, img, tile, is_partial, bg, k).0.len()
            + level_outputs(letter, face_idx, level, img, tile, is_partial, bg, k).1.len() == k,
        !is_partial ==> level_outputs(letter, face_idx, level, img, tile, is_partial, bg, k).1.len()
            == 0,
    decreases k,
{
    if k > 0 {
        lemma_level_outputs_count(letter, face_idx, level, img, tile, is_partial, bg, (k - 1) as nat);
    }
}

/// In a full panorama, the `c`-th tile of a level is cell `c` of the grid:
/// its column and row, and the level image cropped to the cell.
pub proof fn lemma_full_level_tiles(
    letter: char,
    face_idx: usize,
    level: u32,
    img: (u32, u32, Seq<u8>),
    tile: int,
    bg: [u8; 3],
    k: nat,
    c: int,
)
    requires
        0 <= c < k,
    ensures
        level_outputs(letter, face_idx, level, img, tile, false, bg, k).0.len() == k,
        level_outputs(letter, face_idx, level, img, tile, false, bg, k).0[c] == (
            level,
            letter,
            cell_col(tiles_per_side(img.0 as int, tile), c) as u32,
            cell_row(tiles_per_side(img.0 as int, tile), c) as u32,
            cell_image(img, tile, c),
        ),
    decreases k,
{
    lemma_level_outputs_count(letter, face_idx, level, img, tile, false, bg, k);
    if c < k - 1 {
        lemma_full_level_tiles(letter, face_idx, level, img, tile, bg, (k - 1) as nat, c);
    }
    lemma_level_outputs_count(letter, face_idx, level, img, tile, false, bg, (k - 1) as nat);
}

/// Missing tile `m` of a level of face `face_idx`: the panorama is partial
/// and the tile's rectangle of the level image is all background.
pub open spec fn missing_tile_is_background(
    m: MissingTile,
    face_idx: usize,
    level: u32,
    img: (u32, u32, Seq<u8>),
    tile: int,
    is_partial: bool,
    bg: [u8; 3],
) -> bool {
    let size = img.0 as int;
    &&& is_partial
    &&& m.face_idx == face_idx
    &&& m.level == level
    &&& region_is_background(
        img.2,
        size,
        m.col * tile,
        m.row * tile,
        min_int(tile, size - m.col * tile),
        min_int(tile, size - m.row * tile),
        bg,
    )
}

/// Kept tile `t` of a level: in a partial panorama, its rectangle of the
/// level image holds a pixel that is not background.
pub open spec fn kept_tile_shows_content(
    t: TileView,
    letter: char,
    level: u32,
    img: (u32, u32, Seq<u8>),
    tile: int,
    is_partial: bool,
    bg: [u8; 3],
) -> bool {
    let size = img.0 as int;
    &&& t.0 == level
    &&& t.1 == letter
    &&& is_partial ==> !region_is_background(
        img.2,
        size,
        t.2 * tile,
        t.3 * tile,
        min_int(tile, size - t.2 * tile),
        min_int(tile, size - t.3 * tile),
        bg,
    )
}

/// Every missing tile of a level lies in a partial panorama and covers only
/// background pixels; every tile that is kept in a partial panorama has a
/// pixel that is not background.
pub proof fn lemma_missing_cells_are_background(
    letter: char,
    face_idx: usize,
    level: u32,
    img: (u32, u32, Seq<u8>),
    tile: int,
    is_partial: bool,
    bg: [u8; 3],
    k: nat,
)
    requires
        0 < tile,
        k <= tiles_per_side(img.0 as int, tile) * tiles_per_side(img.0 as int, tile),
    ensures
        forall|i: int|
            0 <= i < level_outputs(letter, face_idx, level, img, tile, is_partial, bg, k).1.len()
                ==> missing_tile_is_background(
                #[trigger] level_outputs(letter, face_idx, level, img, tile, is_partial, bg, k).1[i],
                face_idx,
                level,
                img,
                tile,
                is_partial,
                bg,
            ),
        forall|i: int|
            0 <= i < level_outputs(letter, face_idx, level, img, tile, is_partial, bg, k).0.len()
                ==> kept_tile_shows_content(
                #[trigger] level_outputs(letter, face_idx, level, img, tile, is_partial, bg, k).0[i],
                letter,
                level,
                img,
                tile,
                is_partial,
                bg,
            ),
    decreases k,
{
    if k > 0 {
        lemma_missing_cells_are_background(
            letter,
            face_idx,
            level,
            img,
            tile,
            is_partial,
            bg,
            (k - 1) as nat,
        );
        let n = tiles_per_side(img.0 as int, tile);
        let c = k - 1;
        assert(n >= 1) by (nonlinear_arith)
            requires
                c < n * n,
                0 <= c,
                n >= 0,
        ;
        assert(c / n < n) by (nonlinear_arith)
            requires
                0 <= c < n * n,
                n >= 1,
        ;
        vstd::arithmetic::div_mod::lemma_mod_bound(c, n);
        vstd::arithmetic::div_mod::lemma_div_pos_is_pos(c, n);
        assert(n <= img.0) by {
            let sz = img.0 as int;
            vstd::arithmetic::div_mod::lemma_fundamental_div_mod(sz + tile - 1, tile);
            vstd::arithmetic::div_mod::lemma_mod_bound(sz + tile - 1, tile);
            assert(n <= sz) by (nonlinear_arith)
                requires
                    sz + tile - 1 == tile * n + (sz + tile - 1) % tile,
                    0 <= (sz + tile - 1) % tile,
                    tile >= 1,
                    n >= 1,
                    sz >= 0,
            ;
        }
        let col = cell_col(n, c) as u32;
        let row = cell_row(n, c) as u32;
        assert(col as int == cell_col(n, c));
        assert(row as int == cell_row(n, c));
        let prev = level_outputs(letter, face_idx, level, img, tile, is_partial, bg, c as nat);
        let cur = level_outputs(letter, face_idx, level, img, tile, is_partial, bg, k);
        assert forall|i: int| 0 <= i < cur.1.len() implies missing_tile_is_background(
            #[trigger] cur.1[i],
            face_idx,
            level,
            img,
            tile,
            is_partial,
            bg,
        ) by {
            if i < prev.1.len() {
                assert(cur.1[i] == prev.1[i]);
            }
        }
        assert forall|i: int| 0 <= i < cur.0.len() implies kept_tile_shows_content(
            #[trigger] cur.0[i],
            letter,
            level,
            img,
            tile,
            is_partial,
            bg,
        ) by {
            if i < prev.0.len() {
                assert(cur.0[i] == prev.0[i]);
            }
        }
    }
}

/// Cutting a level into tiles loses nothing: in a full panorama, pixel
/// `(x, y)` of a level image is pixel `(x - col * tile, y - row * tile)` of
/// the tile in column `col = x / tile` and row `row = y / tile`, which is
/// tile number `row * n + col` of the level (`n` tiles per side).
pub proof fn lemma_full_level_reassembles(
    letter: char,
    face_idx: usize,
    level: u32,
    img: (u32, u32, Seq<u8>),
    tile: int,
    bg: [u8; 3],
    x: int,
    y: int,
    chan: int,
)
    requires
        0 < tile,
        img.0 == img.1,
        img.2.len() == img.0 * img.1 * 3,
        0 <= x < img.0,
        0 <= y < img.0,
        0 <= chan < 3,
    ensures
        ({
            let size = img.0 as int;
            let n = tiles_per_side(size, tile);
            let col = x / tile;
            let row = y / tile;
            let out = all_level_outputs(letter, face_idx, level, img, tile, false, bg).0;
            let t = out[row * n + col];
            &&& row * n + col < out.len()
            &&& t.0 == level && t.1 == letter && t.2 == col && t.3 == row
            &&& t.4.2[crate::raster::pixel_start(t.4.0 as int, x - col * tile, y - row * tile)
                + chan] == img.2[crate::raster::pixel_start(size, x, y) + chan]
        }),
{
    let size = img.0 as int;
    let n = tiles_per_side(size, tile);
    let col = x / tile;
    let row = y / tile;
    lemma_tile_axis_partition(size, tile, x, 0);
    lemma_tile_axis_partition(size, tile, y, 0);
    let c = row * n + col;
    assert(0 <= c < n * n) by (nonlinear_arith)
        requires
            0 <= col < n,
            0 <= row < n,
            c == row * n + col,
    ;
    vstd::arithmetic::div_mod::lemma_fundamental_div_mod_converse(c, n, row, col);
    lemma_full_level_tiles(letter, face_idx, level, img, tile, bg, (n * n) as nat, c);
    let left = col * tile;
    let upper = row * tile;
    let w = min_int(tile, size - left);
    let h = min_int(tile, size - upper);
    assert forall|r: int| 0 <= r < h implies 0 <= #[trigger] crate::raster::pixel_start(
        size,
        left,
        upper + r,
    ) && crate::raster::pixel_start(size, left, upper + r) + w * 3 <= img.2.len() by {
        let yy = upper + r;
        assert(0 <= yy * size) by (nonlinear_arith)
            requires
                0 <= yy,
                0 <= size,
        ;
        assert(yy * size + size <= size * size) by (nonlinear_arith)
            requires
                0 <= yy < size,
        ;
    }
    assert(n <= u32::MAX) by {
        vstd::arithmetic::div_mod::lemma_fundamental_div_mod(size + tile - 1, tile);
        vstd::arithmetic::div_mod::lemma_mod_bound(size + tile - 1, tile);
        assert(n <= size) by (nonlinear_arith)
            requires
                size + tile - 1 == tile * n + (size + tile - 1) % tile,
                0 <= (size + tile - 1) % tile,
                tile >= 1,
                size >= 1,
                n >= 0,
        ;
    }
    crate::raster::lemma_crop_rows_pixel(
        img.2,
        size,
        left,
        upper,
        w,
        h as nat,
        x - left,
        y - upper,
        chan,
    );
}

/// A full panorama (not partial) has no missing tiles.
pub proof fn lemma_full_panorama_has_no_missing_tiles(
    faces: Seq<(char, RgbBuffer)>,
    bg: [u8; 3],
    method: DownscalingMethod,
    clamped_tile_size: int,
    cube_size: int,
)
    ensures
        generated_outputs(faces, false, bg, method, clamped_tile_size, cube_size).1.len() == 0,
{
    let tile = effective_tile_size(clamped_tile_size, cube_size);
    let levels = pyramid_levels(cube_size, tile) as int;
    let sizes = sizes_seq(cube_size, levels);
    let fv = face_views(faces);
    assert forall|count: nat| count <= fv.len() implies #[trigger] pyramid_outputs(
        fv,
        sizes,
        levels,
        tile,
        false,
        bg,
        method,
        count,
    ).1.len() == 0 by {
        lemma_pyramid_full_no_missing(fv, sizes, levels, tile, bg, method, count);
    }
}

proof fn lemma_pyramid_full_no_missing(
    fv: Seq<(char, (u32, u32, Seq<u8>))>,
    sizes: Seq<u32>,
    levels: int,
    tile: int,
    bg: [u8; 3],
    method: DownscalingMethod,
    count: nat,
)
    ensures
        pyramid_outputs(fv, sizes, levels, tile, false, bg, method, count).1.len() == 0,
    decreases count,
{
    if count > 0 {
        lemma_pyramid_full_no_missing(fv, sizes, levels, tile, bg, method, (count - 1) as nat);
        let f = fv[count - 1];
        lemma_face_full_no_missing(
            f.0,
            (count - 1) as usize,
            f.1,
            sizes,
            levels,
            tile,
            bg,
            method,
            levels as nat,
        );
    }
}

proof fn lemma_face_full_no_missing(
    letter: char,
    face_idx: usize,
    face: (u32, u32, Seq<u8>),
    sizes: Seq<u32>,
    levels: int,
    tile: int,
    bg: [u8; 3],
    method: DownscalingMethod,
    done: nat,
)
    ensures
        face_outputs(letter, face_idx, face, sizes, levels, tile, false, bg, method, done).1.len()
            == 0,
    decreases done,
{
    if done > 0 {
        lemma_face_full_no_missing(
            letter,
            face_idx,
            face,
            sizes,
            levels,
            tile,
            bg,
            method,
            (done - 1) as nat,
        );
        let level = levels - done + 1;
        let img = level_image(face, sizes, levels, level, method);
        let n = tiles_per_side(img.0 as int, tile);
        lemma_level_outputs_count(letter, face_idx, level as u32, img, tile, false, bg, (n * n) as nat);
    }
}

/// Leaving out background tiles changes nothing else: every tile of a
/// partial panorama (its level, face, column, row and image) is also a tile
/// of the same faces tiled as a full panorama. The level images, and the
/// window each tile is cut from, do not depend on whether the panorama is
/// partial.
pub proof fn lemma_partial_tiles_are_full_tiles(
    faces: Seq<(char, RgbBuffer)>,
    bg: [u8; 3],
    method: DownscalingMethod,
    clamped_tile_size: int,
    cube_size: int,
)
    ensures
        forall|t: TileView|
            generated_outputs(faces, true, bg, method, clamped_tile_size, cube_size).0.contains(t)
                ==> generated_outputs(faces, false, bg, method, clamped_tile_size, cube_size).0.contains(
                t,
            ),
{
    let tile = effective_tile_size(clamped_tile_size, cube_size);
    let levels = pyramid_levels(cube_size, tile) as int;
    let sizes = sizes_seq(cube_size, levels);
    lemma_pyramid_partial_in_full(face_views(faces), sizes, levels, tile, bg, method, faces.len());
}

proof fn lemma_level_partial_in_full(
    letter: char,
    face_idx: usize,
    level: u32,
    img: (u32, u32, Seq<u8>),
    tile: int,
    bg: [u8; 3],
    k: nat,
)
    ensures
        forall|t: TileView|
            level_outputs(letter, face_idx, level, img, tile, true, bg, k).0.contains(t)
                ==> level_outputs(letter, face_idx, level, img, tile, false, bg, k).0.contains(t),
    decreases k,
{
    broadcast use vstd::seq_lib::group_seq_properties;

    if k > 0 {
        lemma_level_partial_in_full(letter, face_idx, level, img, tile, bg, (k - 1) as nat);
        let p0 = level_outputs(letter, face_idx, level, img, tile, true, bg, (k - 1) as nat).0;
        let f0 = level_outputs(letter, face_idx, level, img, tile, false, bg, (k - 1) as nat).0;
        let p1 = level_outputs(letter, face_idx, level, img, tile, true, bg, k).0;
        let f1 = level_outputs(letter, face_idx, level, img, tile, false, bg, k).0;
        let c = k - 1;
        let n = tiles_per_side(img.0 as int, tile);
        let cell = (level, letter, cell_col(n, c) as u32, cell_row(n, c) as u32, cell_image(img, tile, c));
        assert(!cell_is_missing(img, tile, c, false, bg));
        assert(f1 == f0.push(cell));
        assert forall|t: TileView| p1.contains(t) implies f1.contains(t) by {
            if cell_is_missing(img, tile, c, true, bg) {
                assert(p1 == p0);
                assert(f0.contains(t));
            } else {
                assert(p1 == p0.push(cell));
                if t != cell {
                    assert(p0.contains(t));
                    assert(f0.contains(t));
                }
            }
        }
    }
}

proof fn lemma_face_partial_in_full(
    letter: char,
    face_idx: usize,
    face: (u32, u32, Seq<u8>),
    sizes: Seq<u32>,
    levels: int,
    tile: int,
    bg: [u8; 3],
    method: DownscalingMethod,
    done: nat,
)
    ensures
        forall|t: TileView|
            face_outputs(letter, face_idx, face, sizes, levels, tile, true, bg, method, done).0.contains(t)
                ==> face_outputs(letter, face_idx, face, sizes, levels, tile, false, bg, method, done).0.contains(
                t,
            ),
    decreases done,
{
    broadcast use vstd::seq_lib::group_seq_properties;

    if done > 0 {
        lemma_face_partial_in_full(
            letter,
            face_idx,
            face,
            sizes,
            levels,
            tile,
            bg,
            method,
            (done - 1) as nat,
        );
        let level = levels - done + 1;
        let img = level_image(face, sizes, levels, level, method);
        let n = tiles_per_side(img.0 as int, tile);
        lemma_level_partial_in_full(letter, face_idx, level as u32, img, tile, bg, (n * n) as nat);
        let p0 = face_outputs(letter, face_idx, face, sizes, levels, tile, true, bg, method, (done - 1) as nat).0;
        let f0 = face_outputs(letter, face_idx, face, sizes, levels, tile, false, bg, method, (done - 1) as nat).0;
        let lp = all_level_outputs(letter, face_idx, level as u32, img, tile, true, bg).0;
        let lf = all_level_outputs(letter, face_idx, level as u32, img, tile, false, bg).0;
        assert(face_outputs(letter, face_idx, face, sizes, levels, tile, true, bg, method, done).0 == p0 + lp);
        assert(face_outputs(letter, face_idx, face, sizes, levels, tile, false, bg, method, done).0 == f0 + lf);
    }
}

proof fn lemma_pyramid_partial_in_full(
    fv: Seq<(char, (u32, u32, Seq<u8>))>,
    sizes: Seq<u32>,
    levels: int,
    tile: int,
    bg: [u8; 3],
    method: DownscalingMethod,
    count: nat,
)
    ensures
        forall|t: TileView|
            pyramid_outputs(fv, sizes, levels, tile, true, bg, method, count).0.contains(t)
                ==> pyramid_outputs(fv, sizes, levels, tile, false, bg, method, count).0.contains(t),
    decreases count,
{
    broadcast use vstd::seq_lib::group_seq_properties;

    if count > 0 {
        lemma_pyramid_partial_in_full(fv, sizes, levels, tile, bg, method, (count - 1) as nat);
        let f = fv[count - 1];
        lemma_face_partial_in_full(
            f.0,
            (count - 1) as usize,
            f.1,
            sizes,
            levels,
            tile,
            bg,
            method,
            levels as nat,
        );
        let p0 = pyramid_outputs(fv, sizes, levels, tile, true, bg, method, (count - 1) as nat).0;
        let f0 = pyramid_outputs(fv, sizes, levels, tile, false, bg, method, (count - 1) as nat).0;
        let op = face_outputs(f.0, (count - 1) as usize, f.1, sizes, levels, tile, true, bg, method, levels as nat).0;
        let of = face_outputs(f.0, (count - 1) as usize, f.1, sizes, levels, tile, false, bg, method, levels as nat).0;
        assert(pyramid_outputs(fv, sizes, levels, tile, true, bg, method, count).0 == p0 + op);
        assert(pyramid_outputs(fv, sizes, levels, tile, false, bg, method, count).0 == f0 + of);
    }
}

/// Tile `t` comes from cell `c` of the `tile`-pixel grid over the level
/// image `img`, which is level `level` of a face with letter `letter`.
spec fn is_cell_tile(t: TileView, letter: char, level: u32, img: (u32, u32, Seq<u8>), tile: int) -> bool {
    let n = tiles_per_side(img.0 as int, tile);
    exists|c: int|
        0 <= c < n * n && t == (
            level,
            letter,
            cell_col(n, c) as u32,
            cell_row(n, c) as u32,
            cell_image(img, tile, c),
        )
}

proof fn lemma_level_origin(
    letter: char,
    face_idx: usize,
    level: u32,
    img: (u32, u32, Seq<u8>),
    tile: int,
    is_partial: bool,
    bg: [u8; 3],
    k: nat,
)
    requires
        k <= tiles_per_side(img.0 as int, tile) * tiles_per_side(img.0 as int, tile),
    ensures
        forall|t: TileView|
            level_outputs(letter, face_idx, level, img, tile, is_partial, bg, k).0.contains(t)
                ==> is_cell_tile(t, letter, level, img, tile),
    decreases k,
{
    if k > 0 {
        lemma_level_origin(letter, face_idx, level, img, tile, is_partial, bg, (k - 1) as nat);
        let p0 = level_outputs(letter, face_idx, level, img, tile, is_partial, bg, (k - 1) as nat).0;
        let p1 = level_outputs(letter, face_idx, level, img, tile, is_partial, bg, k).0;
        let c = k - 1;
        let n = tiles_per_side(img.0 as int, tile);
        let cell = (level, letter, cell_col(n, c) as u32, cell_row(n, c) as u32, cell_image(img, tile, c));
        assert forall|t: TileView| p1.contains(t) implies is_cell_tile(t, letter, level, img, tile) by {
            if cell_is_missing(img, tile, c, is_partial, bg) {
                assert(p1 == p0);
            } else {
                assert(p1 == p0.push(cell));
                if t == cell {
                    assert(t == (level, letter, cell_col(n, c) as u32, cell_row(n, c) as u32, cell_image(img, tile, c)));
                } else {
                    let j = choose|j: int| 0 <= j < p1.len() && p1[j] == t;
                    assert(p0[j] == t);
                    assert(p0.contains(t));
                }
            }
        }
    }
}

proof fn lemma_face_origin(
    letter: char,
    face_idx: usize,
    face: (u32, u32, Seq<u8>),
    sizes: Seq<u32>,
    levels: int,
    tile: int,
    is_partial: bool,
    bg: [u8; 3],
    method: DownscalingMethod,
    done: nat,
)
    ensures
        forall|t: TileView|
            face_outputs(letter, face_idx, face, sizes, levels, tile, is_partial, bg, method, done).0.contains(t)
                ==> exists|l: int|
                levels - done < l <= levels && #[trigger] is_cell_tile(
                    t,
                    letter,
                    l as u32,
                    level_image(face, sizes, levels, l, method),
                    tile,
                ),
    decreases done,
{
    broadcast use vstd::seq_lib::group_seq_properties;

    if done > 0 {
        lemma_face_origin(letter, face_idx, face, sizes, levels, tile, is_partial, bg, method, (done - 1) as nat);
        let level = levels - done + 1;
        let img = level_image(face, sizes, levels, level, method);
        let n = tiles_per_side(img.0 as int, tile);
        assert(0 <= n * n) by (nonlinear_arith);
        lemma_level_origin(letter, face_idx, level as u32, img, tile, is_partial, bg, (n * n) as nat);
        let p0 = face_outputs(letter, face_idx, face, sizes, levels, tile, is_partial, bg, method, (done - 1) as nat).0;
        let lp = all_level_outputs(letter, face_idx, level as u32, img, tile, is_partial, bg).0;
        let p1 = face_outputs(letter, face_idx, face, sizes, levels, tile, is_partial, bg, method, done).0;
        assert(p1 == p0 + lp);
        assert forall|t: TileView| p1.contains(t) implies exists|l: int|
            levels - done < l <= levels && #[trigger] is_cell_tile(
                t,
                letter,
                l as u32,
                level_image(face, sizes, levels, l, method),
                tile,
            ) by {
            if lp.contains(t) {
                assert(is_cell_tile(t, letter, level as u32, img, tile));
            }
        }
    }
}

proof fn lemma_pyramid_origin(
    fv: Seq<(char, (u32, u32, Seq<u8>))>,
    sizes: Seq<u32>,
    levels: int,
    tile: int,
    is_partial: bool,
    bg: [u8; 3],
    method: DownscalingMethod,
    count: nat,
)
    requires
        count <= fv.len(),
        0 <= levels,
    ensures
        forall|t: TileView|
            pyramid_outputs(fv, sizes, levels, tile, is_partial, bg, method, count).0.contains(t)
                ==> exists|f: int, l: int|
                0 <= f < count && 0 < l <= levels && #[trigger] is_cell_tile(
                    t,
                    fv[f].0,
                    l as u32,
                    level_image(fv[f].1, sizes, levels, l, method),
                    tile,
                ),
    decreases count,
{
    broadcast use vstd::seq_lib::group_seq_properties;

    if count > 0 {
        lemma_pyramid_origin(fv, sizes, levels, tile, is_partial, bg, method, (count - 1) as nat);
        let f = count - 1;
        let fc = fv[f];
        lemma_face_origin(fc.0, f as usize, fc.1, sizes, levels, tile, is_partial, bg, method, levels as nat);
        let p0 = pyramid_outputs(fv, sizes, levels, tile, is_partial, bg, method, (count - 1) as nat).0;
        let op = face_outputs(fc.0, f as usize, fc.1, sizes, levels, tile, is_partial, bg, method, levels as nat).0;
        let p1 = pyramid_outputs(fv, sizes, levels, tile, is_partial, bg, method, count).0;
        assert(p1 == p0 + op);
        assert forall|t: TileView| p1.contains(t) implies exists|f2: int, l: int|
            0 <= f2 < count && 0 < l <= levels && #[trigger] is_cell_tile(
                t,
                fv[f2].0,
                l as u32,
                level_image(fv[f2].1, sizes, levels, l, method),
                tile,
            ) by {
            if op.contains(t) {
                let l = choose|l: int|
                    levels - (levels as nat) < l <= levels && #[trigger] is_cell_tile(
                        t,
                        fc.0,
                        l as u32,
                        level_image(fc.1, sizes, levels, l, method),
                        tile,
                    );
                assert(is_cell_tile(t, fv[f].0, l as u32, level_image(fv[f].1, sizes, levels, l, method), tile));
            }
        }
    }
}

/// The window of `data`, an image `size` pixels square, that a grid of
/// `tile`-pixel tiles puts in column `col` and row `row`: it starts at
/// `(col * tile, row * tile)` and is cut short at the right and bottom edges.
pub open spec fn tile_window(data: Seq<u8>, size: int, tile: int, col: int, row: int) -> (
    u32,
    u32,
    Seq<u8>,
) {
    let left = col * tile;
    let upper = row * tile;
    let w = min_int(tile, size - left);
    let h = min_int(tile, size - upper);
    (w as u32, h as u32, crop_rows(data, size, left, upper, w, h as nat))
}

/// Tile `t` of the pyramid `tiles` belongs to the face with letter `letter`
/// and pixels `face` (a face of `cube` pixels; `levels` levels, tiles of
/// `tile` pixels), and holds the window at its column and row of the image
/// of its level: at the top level the face itself; below it, with `Direct`,
/// the face resampled to the level's size, and with `Recursive`, the image
/// of the level above (the image whose windows are the tiles of that level
/// with the face's letter) resampled to the level's size.
pub open spec fn tile_from_face(
    t: TileView,
    letter: char,
    face: Seq<u8>,
    tiles: Seq<TileView>,
    cube: int,
    tile: int,
    levels: int,
    method: DownscalingMethod,
) -> bool {
    let level = t.0 as int;
    let s = level_size(cube, levels, level);
    let a = level_size(cube, levels, level + 1);
    &&& t.1 == letter
    &&& 1 <= level <= levels
    &&& t.2 * tile < s
    &&& t.3 * tile < s
    &&& if level == levels {
        t.4 == tile_window(face, s, tile, t.2 as int, t.3 as int)
    } else {
        match method {
            DownscalingMethod::Direct => t.4 == tile_window(
                lanczos3_resized(face, cube as u32, cube as u32, s as u32, s as u32),
                s,
                tile,
                t.2 as int,
                t.3 as int,
            ),
            DownscalingMethod::Recursive => exists|above: Seq<u8>|
                #![trigger lanczos3_resized(above, a as u32, a as u32, s as u32, s as u32)]
                t.4 == tile_window(
                    lanczos3_resized(above, a as u32, a as u32, s as u32, s as u32),
                    s,
                    tile,
                    t.2 as int,
                    t.3 as int,
                ) && forall|u: TileView|
                    #![trigger tiles.contains(u)]
                    tiles.contains(u) && u.0 == level + 1 && u.1 == letter ==> u.4 == tile_window(
                        above,
                        a,
                        tile,
                        u.2 as int,
                        u.3 as int,
                    ),
        }
    }
}

/// The sides of the level images: level `l` of a face of `cube` pixels is
/// `level_size(cube, levels, l)` pixels square.
proof fn lemma_level_image_size(
    face: (u32, u32, Seq<u8>),
    cube: int,
    levels: int,
    l: int,
    method: DownscalingMethod,
)
    requires
        0 <= cube <= u32::MAX,
        face.0 == cube,
        face.1 == cube,
        1 <= l <= levels,
    ensures
        level_image(face, sizes_seq(cube, levels), levels, l, method).0 == level_size(cube, levels, l),
        level_image(face, sizes_seq(cube, levels), levels, l, method).1 == level_size(cube, levels, l),
        0 <= level_size(cube, levels, l) <= cube,
        level_size(cube, levels, levels) == cube,
{
    vstd::arithmetic::power2::lemma_pow2_pos((levels - l) as nat);
    vstd::arithmetic::div_mod::lemma_div_is_ordered_by_denominator(
        cube,
        1,
        vstd::arithmetic::power2::pow2((levels - l) as nat) as int,
    );
    vstd::arithmetic::div_mod::lemma_div_pos_is_pos(
        cube,
        vstd::arithmetic::power2::pow2((levels - l) as nat) as int,
    );
    vstd::arithmetic::power2::lemma2_to64();
    assert((levels - levels) as nat == 0);
    assert(cube / 1 == cube);
}

/// A tile from cell `c` of its level image is the window at its column and
/// row, and that window starts inside the level.
proof fn lemma_cell_tile_window(
    t: TileView,
    letter: char,
    l: u32,
    img: (u32, u32, Seq<u8>),
    tile: int,
)
    requires
        is_cell_tile(t, letter, l, img, tile),
    ensures
        t.0 == l,
        t.1 == letter,
        t.4 == tile_window(img.2, img.0 as int, tile, t.2 as int, t.3 as int),
        t.2 * tile < img.0,
        t.3 * tile < img.0,
{
    let size = img.0 as int;
    let n = tiles_per_side(size, tile);
    let c = choose|c: int|
        0 <= c < n * n && t == (
            l,
            letter,
            cell_col(n, c) as u32,
            cell_row(n, c) as u32,
            cell_image(img, tile, c),
        );
    if tile <= 0 {
        assert(n == 0);
    }
    vstd::arithmetic::div_mod::lemma_div_pos_is_pos(size + tile - 1, tile);
    assert(n >= 1) by (nonlinear_arith)
        requires
            0 <= c < n * n,
            n >= 0,
    ;
    assert(tile > 0);
    vstd::arithmetic::div_mod::lemma_fundamental_div_mod(size + tile - 1, tile);
    vstd::arithmetic::div_mod::lemma_mod_bound(size + tile - 1, tile);
    assert(n <= size) by (nonlinear_arith)
        requires
            size + tile - 1 == tile * n + (size + tile - 1) % tile,
            0 <= (size + tile - 1) % tile,
            tile >= 1,
            n >= 1,
    ;
    vstd::arithmetic::div_mod::lemma_mod_bound(c, n);
    vstd::arithmetic::div_mod::lemma_div_pos_is_pos(c, n);
    assert(c / n < n) by (nonlinear_arith)
        requires
            0 <= c < n * n,
            n >= 1,
    ;
    assert(t.2 as int == c % n);
    assert(t.3 as int == c / n);
    lemma_last_tile_starts_inside(size, tile, c % n);
    lemma_last_tile_starts_inside(size, tile, c / n);
}

/// Every tile of the pyramid, in a partial panorama as in a full one, is the
/// window at its column and row (left edge `col * tile`, top edge
/// `row * tile`) of the image of its level of its face: the face at the top
/// level, the face resampled (`Direct`) or the level above resampled
/// (`Recursive`) below it. The faces of a cube have distinct letters.
pub proof fn lemma_tiles_are_windows_of_their_level(
    faces: Seq<(char, RgbBuffer)>,
    is_partial: bool,
    bg: [u8; 3],
    method: DownscalingMethod,
    clamped_tile_size: int,
    cube_size: int,
)
    requires
        0 <= cube_size <= u32::MAX,
        forall|i: int|
            0 <= i < faces.len() ==> (#[trigger] faces[i]).1.width == cube_size && faces[i].1.height
                == cube_size,
        forall|i: int, j: int| 0 <= i < j < faces.len() ==> faces[i].0 != faces[j].0,
    ensures
        ({
            let tile = effective_tile_size(clamped_tile_size, cube_size);
            let levels = pyramid_levels(cube_size, tile) as int;
            let tiles = generated_outputs(
                faces,
                is_partial,
                bg,
                method,
                clamped_tile_size,
                cube_size,
            ).0;
            forall|t: TileView|
                #![trigger tiles.contains(t)]
                tiles.contains(t) ==> exists|f: int|
                    0 <= f < faces.len() && #[trigger] tile_from_face(
                        t,
                        faces[f].0,
                        faces[f].1.data@,
                        tiles,
                        cube_size,
                        tile,
                        levels,
                        method,
                    )
        }),
{
    let tile = effective_tile_size(clamped_tile_size, cube_size);
    let levels = pyramid_levels(cube_size, tile) as int;
    let sizes = sizes_seq(cube_size, levels);
    let fv = face_views(faces);
    let tiles = generated_outputs(faces, is_partial, bg, method, clamped_tile_size, cube_size).0;
    lemma_pyramid_origin(fv, sizes, levels, tile, is_partial, bg, method, faces.len());
    assert(tiles == pyramid_outputs(fv, sizes, levels, tile, is_partial, bg, method, faces.len()).0);
    assert forall|t: TileView| #![trigger tiles.contains(t)] tiles.contains(t) implies exists|f: int|
        0 <= f < faces.len() && #[trigger] tile_from_face(
            t,
            faces[f].0,
            faces[f].1.data@,
            tiles,
            cube_size,
            tile,
            levels,
            method,
        ) by {
        let (f, l) = choose|f: int, l: int|
            0 <= f < faces.len() && 0 < l <= levels && #[trigger] is_cell_tile(
                t,
                fv[f].0,
                l as u32,
                level_image(fv[f].1, sizes, levels, l, method),
                tile,
            );
        let face = fv[f].1;
        assert(fv[f] == (faces[f].0, faces[f].1@));
        lemma_level_image_size(face, cube_size, levels, l, method);
        let img = level_image(face, sizes, levels, l, method);
        lemma_cell_tile_window(t, fv[f].0, l as u32, img, tile);
        assert(l <= 33) by {
            lemma_levels_small(cube_size, tile);
        }
        assert(t.0 as int == l);
        let s = level_size(cube_size, levels, l);
        if l < levels {
            lemma_level_image_size(face, cube_size, levels, l + 1, method);
            let a = level_size(cube_size, levels, l + 1);
            match method {
                DownscalingMethod::Direct => {
                    assert(sizes[l] == s as u32);
                }
                DownscalingMethod::Recursive => {
                    let above = level_raster(face, sizes, levels, l + 1);
                    assert(sizes[l] == s as u32);
                    assert(above.0 == a as u32 && above.1 == a as u32);
                    assert(img.2 == lanczos3_resized(above.2, a as u32, a as u32, s as u32, s as u32));
                    assert forall|u: TileView|
                        #![trigger tiles.contains(u)]
                        tiles.contains(u) && u.0 == l + 1 && u.1 == faces[f].0 implies u.4
                        == tile_window(above.2, a, tile, u.2 as int, u.3 as int) by {
                        let (f2, l2) = choose|f2: int, l2: int|
                            0 <= f2 < faces.len() && 0 < l2 <= levels && #[trigger] is_cell_tile(
                                u,
                                fv[f2].0,
                                l2 as u32,
                                level_image(fv[f2].1, sizes, levels, l2, method),
                                tile,
                            );
                        assert(fv[f2] == (faces[f2].0, faces[f2].1@));
                        lemma_cell_tile_window(
                            u,
                            fv[f2].0,
                            l2 as u32,
                            level_image(fv[f2].1, sizes, levels, l2, method),
                            tile,
                        );
                        assert(l2 <= 33) by {
                            lemma_levels_small(cube_size, tile);
                        }
                        assert(f2 == f);
                        assert(l2 == l + 1);
                    }
                    assert(tile_from_face(
                        t,
                        faces[f].0,
                        faces[f].1.data@,
                        tiles,
                        cube_size,
                        tile,
                        levels,
                        method,
                    ));
                }
            }
        }
        assert(tile_from_face(
            t,
            faces[f].0,
            faces[f].1.data@,
            tiles,
            cube_size,
            tile,
            levels,
            method,
        ));
    }
}

/// There are at most 33 levels.
proof fn lemma_levels_small(cube: int, tile: int)
    requires
        0 <= cube <= u32::MAX,
    ensures
        pyramid_levels(cube, tile) <= 33,
{
    if tile > 0 {
        let d = crate::geometry::doublings(cube, tile);
        crate::geometry::lemma_doublings(cube, tile);
        if d > 32 {
            vstd::arithmetic::power2::lemma2_to64();
            if d - 1 > 32 {
                vstd::arithmetic::power2::lemma_pow2_strictly_increases(32, (d - 1) as nat);
            }
            assert(vstd::arithmetic::power2::pow2((d - 1) as nat) >= vstd::arithmetic::power2::pow2(
                32,
            ));
            assert(tile * vstd::arithmetic::power2::pow2((d - 1) as nat) >= vstd::arithmetic::power2::pow2(
                (d - 1) as nat,
            )) by (nonlinear_arith)
                requires
                    tile >= 1,
                    vstd::arithmetic::power2::pow2((d - 1) as nat) >= 0,
            ;
        }
    }
}

/// In a partial panorama no tile is lost: every tile of the same faces tiled
/// as a full panorama is either kept, unchanged, or listed as missing (same
/// face, level, column and row).
pub proof fn lemma_full_tiles_kept_or_missing(
    faces: Seq<(char, RgbBuffer)>,
    bg: [u8; 3],
    method: DownscalingMethod,
    clamped_tile_size: int,
    cube_size: int,
)
    requires
        faces.len() <= usize::MAX,
    ensures
        ({
            let partial = generated_outputs(faces, true, bg, method, clamped_tile_size, cube_size);
            let full = generated_outputs(faces, false, bg, method, clamped_tile_size, cube_size);
            forall|t: TileView|
                #![trigger full.0.contains(t)]
                full.0.contains(t) ==> partial.0.contains(t) || exists|m: MissingTile|
                    #![trigger partial.1.contains(m)]
                    partial.1.contains(m) && m.face_idx < faces.len() && faces[m.face_idx as int].0
                        == t.1 && m.level == t.0 && m.col == t.2 && m.row == t.3
        }),
{
    let tile = effective_tile_size(clamped_tile_size, cube_size);
    let levels = pyramid_levels(cube_size, tile) as int;
    let sizes = sizes_seq(cube_size, levels);
    let fv = face_views(faces);
    lemma_pyramid_kept_or_missing(fv, sizes, levels, tile, bg, method, faces.len());
    assert forall|f: int| 0 <= f < fv.len() implies (#[trigger] fv[f]).0 == faces[f].0 by {}
}

/// `m` is a missing tile at the place of tile `t`: same level, column and
/// row, of the face with index `face_idx` and letter `letter`.
spec fn missing_in_place(m: MissingTile, t: TileView, face_idx: int, letter: char) -> bool {
    &&& m.face_idx == face_idx
    &&& t.1 == letter
    &&& m.level == t.0
    &&& m.col == t.2
    &&& m.row == t.3
}

proof fn lemma_level_kept_or_missing(
    letter: char,
    face_idx: usize,
    level: u32,
    img: (u32, u32, Seq<u8>),
    tile: int,
    bg: [u8; 3],
    k: nat,
)
    ensures
        forall|t: TileView|
            #![trigger level_outputs(letter, face_idx, level, img, tile, false, bg, k).0.contains(t)]
            level_outputs(letter, face_idx, level, img, tile, false, bg, k).0.contains(t) ==> t.1
                == letter && (level_outputs(letter, face_idx, level, img, tile, true, bg, k).0.contains(t)
                || exists|m: MissingTile|
                level_outputs(letter, face_idx, level, img, tile, true, bg, k).1.contains(m)
                    && #[trigger] missing_in_place(m, t, face_idx as int, letter)),
    decreases k,
{
    broadcast use vstd::seq_lib::group_seq_properties;

    if k > 0 {
        lemma_level_kept_or_missing(letter, face_idx, level, img, tile, bg, (k - 1) as nat);
        let p0 = level_outputs(letter, face_idx, level, img, tile, true, bg, (k - 1) as nat);
        let f0 = level_outputs(letter, face_idx, level, img, tile, false, bg, (k - 1) as nat).0;
        let p1 = level_outputs(letter, face_idx, level, img, tile, true, bg, k);
        let f1 = level_outputs(letter, face_idx, level, img, tile, false, bg, k).0;
        let c = k - 1;
        let n = tiles_per_side(img.0 as int, tile);
        let cell = (level, letter, cell_col(n, c) as u32, cell_row(n, c) as u32, cell_image(img, tile, c));
        let mt = MissingTile { face_idx, level, col: cell_col(n, c) as u32, row: cell_row(n, c) as u32 };
        assert(!cell_is_missing(img, tile, c, false, bg));
        assert(f1 == f0.push(cell));
        assert forall|t: TileView| #![trigger f1.contains(t)] f1.contains(t) implies t.1 == letter && (
        p1.0.contains(t) || exists|m: MissingTile|
            p1.1.contains(m) && #[trigger] missing_in_place(m, t, face_idx as int, letter)) by {
            if cell_is_missing(img, tile, c, true, bg) {
                assert(p1.0 == p0.0);
                assert(p1.1 == p0.1.push(mt));
                if t == cell {
                    assert(missing_in_place(mt, t, face_idx as int, letter));
                    assert(p1.1.contains(mt));
                } else {
                    assert(f0.contains(t));
                    if !p0.0.contains(t) {
                        let m = choose|m: MissingTile|
                            p0.1.contains(m) && #[trigger] missing_in_place(m, t, face_idx as int, letter);
                        assert(p1.1.contains(m));
                    }
                }
            } else {
                assert(p1.0 == p0.0.push(cell));
                assert(p1.1 == p0.1);
                if t != cell {
                    assert(f0.contains(t));
                    if !p0.0.contains(t) {
                        let m = choose|m: MissingTile|
                            p0.1.contains(m) && #[trigger] missing_in_place(m, t, face_idx as int, letter);
                    }
                }
            }
        }
    }
}

proof fn lemma_face_kept_or_missing(
    letter: char,
    face_idx: usize,
    face: (u32, u32, Seq<u8>),
    sizes: Seq<u32>,
    levels: int,
    tile: int,
    bg: [u8; 3],
    method: DownscalingMethod,
    done: nat,
)
    ensures
        forall|t: TileView|
            #![trigger face_outputs(letter, face_idx, face, sizes, levels, tile, false, bg, method, done).0.contains(t)]
            face_outputs(letter, face_idx, face, sizes, levels, tile, false, bg, method, done).0.contains(t)
                ==> t.1 == letter && (face_outputs(letter, face_idx, face, sizes, levels, tile, true, bg, method, done).0.contains(t)
                || exists|m: MissingTile|
                face_outputs(letter, face_idx, face, sizes, levels, tile, true, bg, method, done).1.contains(m)
                    && #[trigger] missing_in_place(m, t, face_idx as int, letter)),
    decreases done,
{
    broadcast use vstd::seq_lib::group_seq_properties;

    if done > 0 {
        lemma_face_kept_or_missing(letter, face_idx, face, sizes, levels, tile, bg, method, (done - 1) as nat);
        let level = levels - done + 1;
        let img = level_image(face, sizes, levels, level, method);
        let n = tiles_per_side(img.0 as int, tile);
        lemma_level_kept_or_missing(letter, face_idx, level as u32, img, tile, bg, (n * n) as nat);
        let p0 = face_outputs(letter, face_idx, face, sizes, levels, tile, true, bg, method, (done - 1) as nat);
        let f0 = face_outputs(letter, face_idx, face, sizes, levels, tile, false, bg, method, (done - 1) as nat).0;
        let lp = all_level_outputs(letter, face_idx, level as u32, img, tile, true, bg);
        let lf = all_level_outputs(letter, face_idx, level as u32, img, tile, false, bg).0;
        let p1 = face_outputs(letter, face_idx, face, sizes, levels, tile, true, bg, method, done);
        let f1 = face_outputs(letter, face_idx, face, sizes, levels, tile, false, bg, method, done).0;
        assert(p1.0 == p0.0 + lp.0);
        assert(p1.1 == p0.1 + lp.1);
        assert(f1 == f0 + lf);
        assert forall|t: TileView| #![trigger f1.contains(t)] f1.contains(t) implies t.1 == letter && (
        p1.0.contains(t) || exists|m: MissingTile|
            p1.1.contains(m) && #[trigger] missing_in_place(m, t, face_idx as int, letter)) by {
            if f0.contains(t) {
                if !p0.0.contains(t) {
                    let m = choose|m: MissingTile|
                        p0.1.contains(m) && #[trigger] missing_in_place(m, t, face_idx as int, letter);
                    assert(p1.1.contains(m));
                }
            } else {
                assert(lf.contains(t));
                if !lp.0.contains(t) {
                    let m = choose|m: MissingTile|
                        lp.1.contains(m) && #[trigger] missing_in_place(m, t, face_idx as int, letter);
                    assert(p1.1.contains(m));
                }
            }
        }
    }
}

proof fn lemma_pyramid_kept_or_missing(
    fv: Seq<(char, (u32, u32, Seq<u8>))>,
    sizes: Seq<u32>,
    levels: int,
    tile: int,
    bg: [u8; 3],
    method: DownscalingMethod,
    count: nat,
)
    requires
        count <= fv.len(),
        fv.len() <= usize::MAX,
    ensures
        forall|t: TileView|
            #![trigger pyramid_outputs(fv, sizes, levels, tile, false, bg, method, count).0.contains(t)]
            pyramid_outputs(fv, sizes, levels, tile, false, bg, method, count).0.contains(t)
                ==> pyramid_outputs(fv, sizes, levels, tile, true, bg, method, count).0.contains(t)
                || exists|m: MissingTile|
                #![trigger pyramid_outputs(fv, sizes, levels, tile, true, bg, method, count).1.contains(m)]
                pyramid_outputs(fv, sizes, levels, tile, true, bg, method, count).1.contains(m)
                    && m.face_idx < count && fv[m.face_idx as int].0 == t.1 && m.level == t.0
                    && m.col == t.2 && m.row == t.3,
    decreases count,
{
    broadcast use vstd::seq_lib::group_seq_properties;

    if count > 0 {
        lemma_pyramid_kept_or_missing(fv, sizes, levels, tile, bg, method, (count - 1) as nat);
        let f = count - 1;
        let fc = fv[f];
        lemma_face_kept_or_missing(fc.0, f as usize, fc.1, sizes, levels, tile, bg, method, levels as nat);
        let p0 = pyramid_outputs(fv, sizes, levels, tile, true, bg, method, (count - 1) as nat);
        let f0 = pyramid_outputs(fv, sizes, levels, tile, false, bg, method, (count - 1) as nat).0;
        let op = face_outputs(fc.0, f as usize, fc.1, sizes, levels, tile, true, bg, method, levels as nat);
        let of = face_outputs(fc.0, f as usize, fc.1, sizes, levels, tile, false, bg, method, levels as nat).0;
        let p1 = pyramid_outputs(fv, sizes, levels, tile, true, bg, method, count);
        let f1 = pyramid_outputs(fv, sizes, levels, tile, false, bg, method, count).0;
        assert(p1.0 == p0.0 + op.0);
        assert(p1.1 == p0.1 + op.1);
        assert(f1 == f0 + of);
        assert forall|t: TileView| #![trigger f1.contains(t)] f1.contains(t) implies p1.0.contains(t)
            || exists|m: MissingTile|
            #![trigger p1.1.contains(m)]
            p1.1.contains(m) && m.face_idx < count && fv[m.face_idx as int].0 == t.1 && m.level
                == t.0 && m.col == t.2 && m.row == t.3 by {
            if f0.contains(t) {
                if !p0.0.contains(t) {
                    let m = choose|m: MissingTile|
                        p0.1.contains(m) && m.face_idx < count - 1 && fv[m.face_idx as int].0 == t.1
                            && m.level == t.0 && m.col == t.2 && m.row == t.3;
                    assert(p1.1.contains(m));
                }
            } else {
                assert(of.contains(t));
                if !op.0.contains(t) {
                    let m = choose|m: MissingTile|
                        op.1.contains(m) && #[trigger] missing_in_place(m, t, (f as usize) as int, fc.0);
                    assert(p1.1.contains(m));
                    assert(m.face_idx as int == f);
                }
            }
        }
    }
}

proof fn lemma_face_has_level(
    letter: char,
    face_idx: usize,
    face: (u32, u32, Seq<u8>),
    sizes: Seq<u32>,
    levels: int,
    tile: int,
    is_partial: bool,
    bg: [u8; 3],
    method: DownscalingMethod,
    done: nat,
    level: int,
    t: TileView,
)
    requires
        levels - done < level <= levels,
        all_level_outputs(
            letter,
            face_idx,
            level as u32,
            level_image(face, sizes, levels, level, method),
            tile,
            is_partial,
            bg,
        ).0.contains(t),
    ensures
        face_outputs(letter, face_idx, face, sizes, levels, tile, is_partial, bg, method, done).0.contains(t),
    decreases done,
{
    broadcast use vstd::seq_lib::group_seq_properties;

    let l = levels - done + 1;
    let p0 = face_outputs(letter, face_idx, face, sizes, levels, tile, is_partial, bg, method, (done - 1) as nat).0;
    let lp = all_level_outputs(letter, face_idx, l as u32, level_image(face, sizes, levels, l, method), tile, is_partial, bg).0;
    assert(face_outputs(letter, face_idx, face, sizes, levels, tile, is_partial, bg, method, done).0 == p0 + lp);
    if level != l {
        lemma_face_has_level(letter, face_idx, face, sizes, levels, tile, is_partial, bg, method, (done - 1) as nat, level, t);
    }
}

proof fn lemma_pyramid_has_face(
    fv: Seq<(char, (u32, u32, Seq<u8>))>,
    sizes: Seq<u32>,
    levels: int,
    tile: int,
    is_partial: bool,
    bg: [u8; 3],
    method: DownscalingMethod,
    count: nat,
    f: int,
    t: TileView,
)
    requires
        0 <= f < count,
        face_outputs(fv[f].0, f as usize, fv[f].1, sizes, levels, tile, is_partial, bg, method, levels as nat).0.contains(t),
    ensures
        pyramid_outputs(fv, sizes, levels, tile, is_partial, bg, method, count).0.contains(t),
    decreases count,
{
    broadcast use vstd::seq_lib::group_seq_properties;

    let g = count - 1;
    let p0 = pyramid_outputs(fv, sizes, levels, tile, is_partial, bg, method, (count - 1) as nat).0;
    let op = face_outputs(fv[g].0, g as usize, fv[g].1, sizes, levels, tile, is_partial, bg, method, levels as nat).0;
    assert(pyramid_outputs(fv, sizes, levels, tile, is_partial, bg, method, count).0 == p0 + op);
    if f != g {
        lemma_pyramid_has_face(fv, sizes, levels, tile, is_partial, bg, method, (count - 1) as nat, f, t);
    }
}

/// A full panorama leaves no hole: for every face, every level and every
/// column and row of that level's grid there is a tile with that face's
/// letter, level, column and row.
pub proof fn lemma_full_pyramid_covers_every_cell(
    faces: Seq<(char, RgbBuffer)>,
    bg: [u8; 3],
    method: DownscalingMethod,
    clamped_tile_size: int,
    cube_size: int,
    f: int,
    level: int,
    col: int,
    row: int,
)
    requires
        0 <= cube_size <= u32::MAX,
        faces.len() <= usize::MAX,
        forall|i: int|
            0 <= i < faces.len() ==> (#[trigger] faces[i]).1.width == cube_size && faces[i].1.height
                == cube_size,
        0 <= f < faces.len(),
        1 <= level <= pyramid_levels(cube_size, effective_tile_size(clamped_tile_size, cube_size)),
        0 <= col < tiles_per_side(
            level_size(
                cube_size,
                pyramid_levels(cube_size, effective_tile_size(clamped_tile_size, cube_size)) as int,
                level,
            ),
            effective_tile_size(clamped_tile_size, cube_size),
        ),
        0 <= row < tiles_per_side(
            level_size(
                cube_size,
                pyramid_levels(cube_size, effective_tile_size(clamped_tile_size, cube_size)) as int,
                level,
            ),
            effective_tile_size(clamped_tile_size, cube_size),
        ),
    ensures
        exists|t: TileView|
            #![trigger generated_outputs(faces, false, bg, method, clamped_tile_size, cube_size).0.contains(t)]
            generated_outputs(faces, false, bg, method, clamped_tile_size, cube_size).0.contains(t)
                && t.0 == level && t.1 == faces[f].0 && t.2 == col && t.3 == row,
{
    broadcast use vstd::seq_lib::group_seq_properties;

    let tile = effective_tile_size(clamped_tile_size, cube_size);
    let levels = pyramid_levels(cube_size, tile) as int;
    let sizes = sizes_seq(cube_size, levels);
    let fv = face_views(faces);
    assert(fv[f] == (faces[f].0, faces[f].1@));
    let face = fv[f].1;
    lemma_level_image_size(face, cube_size, levels, level, method);
    lemma_levels_small(cube_size, tile);
    let img = level_image(face, sizes, levels, level, method);
    let size = img.0 as int;
    let n = tiles_per_side(size, tile);
    let c = row * n + col;
    assert(0 <= c < n * n) by (nonlinear_arith)
        requires
            0 <= col < n,
            0 <= row < n,
            c == row * n + col,
    ;
    vstd::arithmetic::div_mod::lemma_fundamental_div_mod_converse(c, n, row, col);
    assert(tile > 0);
    vstd::arithmetic::div_mod::lemma_fundamental_div_mod(size + tile - 1, tile);
    vstd::arithmetic::div_mod::lemma_mod_bound(size + tile - 1, tile);
    assert(n <= size) by (nonlinear_arith)
        requires
            size + tile - 1 == tile * n + (size + tile - 1) % tile,
            0 <= (size + tile - 1) % tile,
            tile >= 1,
            n >= 1,
    ;
    lemma_full_level_tiles(faces[f].0, f as usize, level as u32, img, tile, bg, (n * n) as nat, c);
    let lo = all_level_outputs(faces[f].0, f as usize, level as u32, img, tile, false, bg).0;
    let t = lo[c];
    assert(lo.contains(t));
    lemma_face_has_level(fv[f].0, f as usize, face, sizes, levels, tile, false, bg, method, levels as nat, level, t);
    lemma_pyramid_has_face(fv, sizes, levels, tile, false, bg, method, faces.len(), f, t);
    assert(generated_outputs(faces, false, bg, method, clamped_tile_size, cube_size).0.contains(t));
}

} // verus!
