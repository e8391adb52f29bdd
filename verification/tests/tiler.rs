use panorama_tiler::{DownscalingMethod, RgbBuffer};
use panorama_tiler::missing::{MissingTile, missing_tiles_string};
use panorama_tiler::tiler::generate_pyramid;

fn solid(size: u32, rgb: [u8; 3]) -> RgbBuffer {
    let mut data = Vec::new();
    for _ in 0..size * size {
        data.extend_from_slice(&rgb);
    }
    RgbBuffer::from_raw(size, size, data).unwrap()
}

fn faces_of(size: u32, rgb: [u8; 3]) -> Vec<(char, RgbBuffer)> {
    ['f', 'b', 'u', 'd', 'l', 'r'].iter().map(|&c| (c, solid(size, rgb))).collect()
}

#[test]
fn full_panorama_keeps_every_tile() {
    let faces = faces_of(4, [0, 0, 0]);
    let out = generate_pyramid(&faces, false, [0, 0, 0], 0, DownscalingMethod::Recursive, 2, 4);
    assert_eq!(out.levels, 2);
    assert_eq!(out.tiles.len(), 6 * (4 + 1));
    assert_eq!(out.missing_tiles_str, None);
    assert!(out.fallback_tiles.is_empty());
    let first = &out.tiles[0];
    assert_eq!((first.level, first.face, first.col, first.row), (2, 'f', 0, 0));
    assert_eq!((first.image.width, first.image.height), (2, 2));
    let second = &out.tiles[1];
    assert_eq!((second.col, second.row), (1, 0));
    let fifth = &out.tiles[4];
    assert_eq!((fifth.level, fifth.col, fifth.row), (1, 0, 0));
}

#[test]
fn partial_background_faces_become_missing() {
    let faces = faces_of(4, [0, 0, 0]);
    let out = generate_pyramid(&faces, true, [0, 0, 0], 0, DownscalingMethod::Recursive, 2, 4);
    assert!(out.tiles.is_empty());
    // Level-2 tiles have a missing parent and are not listed; the face
    // changes but the level does not, so '>' is written once.
    assert_eq!(out.missing_tiles_str.as_deref(), Some("!f>100!b00!u00!d00!l00!r00"));
}

#[test]
fn partial_with_content_keeps_tiles() {
    let mut faces = faces_of(4, [0, 0, 0]);
    // one red pixel in the top-left corner of the front face
    faces[0].1.data[0] = 255;
    let out = generate_pyramid(&faces, true, [0, 0, 0], 0, DownscalingMethod::Recursive, 2, 4);
    let front: Vec<(u32, u32, u32)> = out
        .tiles
        .iter()
        .filter(|t| t.face == 'f')
        .map(|t| (t.level, t.col, t.row))
        .collect();
    assert!(front.contains(&(2, 0, 0)));
    assert!(!front.contains(&(2, 1, 0)));
    let s = out.missing_tiles_str.unwrap();
    assert!(s.starts_with("!f>2"));
    assert!(s.contains("!b>100"));
}

#[test]
fn tiles_crop_the_level_image() {
    let mut data = Vec::new();
    for y in 0..5u32 {
        for x in 0..5u32 {
            data.extend_from_slice(&[x as u8, y as u8, 0]);
        }
    }
    let face = RgbBuffer::from_raw(5, 5, data).unwrap();
    let faces = vec![('f', face)];
    let out = generate_pyramid(&faces, false, [0, 0, 0], 0, DownscalingMethod::Recursive, 2, 5);
    // levels: 5 -> 2 levels (5 / 2 = 2 is the tile), top level has 3 x 3 tiles
    assert_eq!(out.levels, 2);
    let top: Vec<_> = out.tiles.iter().filter(|t| t.level == 2).collect();
    assert_eq!(top.len(), 9);
    let corner = top.iter().find(|t| t.col == 2 && t.row == 2).unwrap();
    assert_eq!((corner.image.width, corner.image.height), (1, 1));
    assert_eq!(corner.image.data, vec![4, 4, 0]);
    let middle = top.iter().find(|t| t.col == 1 && t.row == 0).unwrap();
    assert_eq!(middle.image.data, vec![2, 0, 0, 3, 0, 0, 2, 1, 0, 3, 1, 0]);
}

#[test]
fn fallback_faces_have_fallback_size() {
    let faces = faces_of(4, [10, 20, 30]);
    let out = generate_pyramid(&faces, false, [0, 0, 0], 3, DownscalingMethod::Recursive, 4, 4);
    assert_eq!(out.levels, 1);
    assert_eq!(out.fallback_tiles.len(), 6);
    assert_eq!(out.fallback_tiles[2].face, 'u');
    assert_eq!((out.fallback_tiles[2].image.width, out.fallback_tiles[2].image.height), (3, 3));
    assert_eq!(out.fallback_tiles[2].image.data.len(), 27);
}

#[test]
fn empty_cube_gives_one_empty_level() {
    let faces = vec![('f', RgbBuffer::from_raw(0, 0, vec![]).unwrap())];
    let out = generate_pyramid(&faces, true, [0, 0, 0], 0, DownscalingMethod::Recursive, 512, 0);
    assert_eq!(out.levels, 1);
    assert!(out.tiles.is_empty());
    assert_eq!(out.missing_tiles_str, None);
}

#[test]
fn missing_string_sorts_and_prunes() {
    let t = |face_idx, level, col, row| MissingTile { face_idx, level, col, row };
    let missing = vec![t(1, 2, 3, 0), t(0, 2, 1, 1), t(0, 1, 0, 0), t(0, 2, 2, 2), t(0, 2, 1, 1)];
    let sizes = vec![0, 512, 1024];
    // (0,2,1,1) has missing parent (0,1,0,0); (0,2,2,2) has parent (0,1,1,1), not missing.
    let s = missing_tiles_string(&missing, &sizes, 256).unwrap();
    assert_eq!(s, "!f>100>222!b30");
    assert_eq!(missing_tiles_string(&vec![], &sizes, 256), None);
}

#[test]
fn missing_string_digit_width_grows() {
    // 100 tiles per side need two Base83 digits.
    let m = vec![MissingTile { face_idx: 5, level: 1, col: 99, row: 0 }];
    let s = missing_tiles_string(&m, &vec![0, 100], 1).unwrap();
    assert_eq!(s, "!r>11G00");
}

fn gradient_face(size: u32) -> RgbBuffer {
    let mut data = Vec::new();
    for y in 0..size {
        for x in 0..size {
            data.extend_from_slice(&[(x * 31) as u8, (y * 17) as u8, ((x * y) % 251) as u8]);
        }
    }
    RgbBuffer::from_raw(size, size, data).unwrap()
}

#[test]
fn downscaling_methods_pick_the_source_of_each_level() {
    let face = gradient_face(8);
    let faces = vec![('f', face.clone())];
    // 8 pixels, tiles of 2: levels of 8, 4 and 2 pixels
    let direct = generate_pyramid(&faces, false, [0, 0, 0], 0, DownscalingMethod::Direct, 2, 8);
    let recursive =
        generate_pyramid(&faces, false, [0, 0, 0], 0, DownscalingMethod::Recursive, 2, 8);
    assert_eq!(direct.levels, 3);
    assert_eq!(recursive.levels, 3);
    let level_one = |out: &panorama_tiler::GeneratedTiles| {
        out.tiles.iter().find(|t| t.level == 1).unwrap().image.clone()
    };
    assert_eq!(level_one(&direct), face.resized(2, 2));
    assert_eq!(level_one(&recursive), face.resized(4, 4).resized(2, 2));
    // the top level is the face itself either way
    let top = |out: &panorama_tiler::GeneratedTiles| {
        out.tiles.iter().filter(|t| t.level == 3).count()
    };
    assert_eq!(top(&direct), 16);
    assert_eq!(top(&recursive), 16);
}

#[test]
fn full_panorama_with_a_seventh_face_is_tiled() {
    let mut faces = faces_of(4, [1, 2, 3]);
    faces.push(('x', solid(4, [1, 2, 3])));
    let out = generate_pyramid(&faces, false, [0, 0, 0], 0, DownscalingMethod::Recursive, 2, 4);
    assert_eq!(out.tiles.len(), 7 * (4 + 1));
    assert_eq!(out.tiles.last().unwrap().face, 'x');
    assert_eq!(out.missing_tiles_str, None);
}
