use panorama_tiler::geometry::{level_sizes, pyramid_level_count, tile_count};

#[test]
fn level_count_examples() {
    assert_eq!(pyramid_level_count(512, 512), 1);
    assert_eq!(pyramid_level_count(1000, 512), 2);
    assert_eq!(pyramid_level_count(1024, 512), 2);
    // 1025 halved once is exactly the tile: one level less.
    assert_eq!(pyramid_level_count(1025, 512), 2);
    assert_eq!(pyramid_level_count(1026, 512), 3);
    assert_eq!(pyramid_level_count(8192, 512), 5);
    assert_eq!(pyramid_level_count(3, 1), 2);
    assert_eq!(pyramid_level_count(0, 0), 1);
    assert_eq!(pyramid_level_count(u32::MAX, 1), 32);
}

#[test]
fn level_sizes_halve() {
    assert_eq!(level_sizes(1025, 2), vec![0, 512, 1025]);
    assert_eq!(level_sizes(8192, 5), vec![0, 512, 1024, 2048, 4096, 8192]);
    assert_eq!(level_sizes(3, 2), vec![0, 1, 3]);
}

#[test]
fn smallest_level_fits_one_tile() {
    for &(cube, tile) in &[(1000u32, 512u32), (1025, 512), (1026, 512), (3, 1), (5000, 300), (7, 7)] {
        let levels = pyramid_level_count(cube, tile);
        let sizes = level_sizes(cube, levels);
        assert!(sizes[1] >= 1 && sizes[1] <= tile);
        if levels >= 2 {
            assert!(sizes[2] > tile);
        }
        assert_eq!(sizes[levels as usize], cube);
    }
}

#[test]
fn tile_count_is_ceiling() {
    assert_eq!(tile_count(1024, 512), 2);
    assert_eq!(tile_count(1025, 512), 3);
    assert_eq!(tile_count(1, 512), 1);
    assert_eq!(tile_count(0, 512), 0);
    assert_eq!(tile_count(10, 0), 0);
    assert_eq!(tile_count(u32::MAX, 1), u32::MAX);
}
