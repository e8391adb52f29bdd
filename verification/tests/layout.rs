use panorama_tiler::layout::{fallback_file_name, level_dir_name, tile_file_name};

#[test]
fn level_directories_are_decimal() {
    assert_eq!(level_dir_name(0), "0");
    assert_eq!(level_dir_name(1), "1");
    assert_eq!(level_dir_name(10), "10");
    assert_eq!(level_dir_name(407), "407");
    assert_eq!(level_dir_name(u32::MAX), "4294967295");
}

#[test]
fn tile_files_follow_the_pattern() {
    assert_eq!(tile_file_name('f', 0, 0, "jpg"), "f0_0.jpg");
    assert_eq!(tile_file_name('u', 3, 12, "png"), "u3_12.png");
    assert_eq!(tile_file_name('r', 100, 9, "webp"), "r100_9.webp");
}

#[test]
fn fallback_files_follow_the_pattern() {
    assert_eq!(fallback_file_name('d', "jpg"), "d.jpg");
    assert_eq!(fallback_file_name('l', "webp"), "l.webp");
}

#[test]
fn tile_path_matches_config_pattern() {
    // "/%l/%s%y_%x" with the extension appended
    let (level, face, row, col) = (3u32, 'b', 5u32, 7u32);
    let pattern = "/%l/%s%y_%x"
        .replace("%l", &level.to_string())
        .replace("%s", &face.to_string())
        .replace("%y", &row.to_string())
        .replace("%x", &col.to_string());
    let written = format!("/{}/{}", level_dir_name(level), tile_file_name(face, row, col, "jpg"));
    assert_eq!(written, format!("{pattern}.jpg"));
}

#[test]
fn fallback_path_matches_config_pattern() {
    // "/fallback/%s" with the extension appended
    let pattern = "/fallback/%s".replace("%s", "u");
    let written = format!("/fallback/{}", fallback_file_name('u', "png"));
    assert_eq!(written, format!("{pattern}.png"));
}
