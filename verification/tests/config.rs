use panorama_tiler::config::projection_from_type;
use panorama_tiler::{
    DownscalingMethod, InterpolationMode, MultiResConfig, OutputFormat, Projection,
    multires_config,
};

#[test]
fn extensions_of_formats() {
    assert_eq!(OutputFormat::Jpeg.to_extension(), "jpg");
    assert_eq!(OutputFormat::Png.to_extension(), "png");
    assert_eq!(OutputFormat::Webp.to_extension(), "webp");
}

#[test]
fn enum_defaults() {
    assert_eq!(Projection::default(), Projection::Equirectangular);
    assert_eq!(OutputFormat::default(), OutputFormat::Jpeg);
    assert_eq!(InterpolationMode::default(), InterpolationMode::Bicubic);
    assert_eq!(DownscalingMethod::default(), DownscalingMethod::Recursive);
}

#[test]
fn multires_with_fallback() {
    let cfg = multires_config(Some("!f>100".to_string()), 1024, OutputFormat::Webp, 512, 3, 2048);
    assert_eq!(
        cfg,
        MultiResConfig {
            missing_tiles: Some("!f>100".to_string()),
            path: "/%l/%s%y_%x".to_string(),
            fallback_path: Some("/fallback/%s".to_string()),
            extension: "webp".to_string(),
            tile_resolution: 512,
            max_level: 3,
            cube_resolution: 2048,
        }
    );
}

#[test]
fn multires_without_fallback() {
    let cfg = multires_config(None, 0, OutputFormat::Png, 256, 1, 256);
    assert_eq!(cfg.fallback_path, None);
    assert_eq!(cfg.missing_tiles, None);
    assert_eq!(cfg.extension, "png");
    assert_eq!(cfg.path, "/%l/%s%y_%x");
    assert_eq!((cfg.tile_resolution, cfg.max_level, cfg.cube_resolution), (256, 1, 256));
}

#[test]
fn projection_names() {
    assert_eq!(projection_from_type(None), Projection::Equirectangular);
    assert_eq!(projection_from_type(Some("cylindrical")), Projection::Cylindrical);
    assert_eq!(projection_from_type(Some("  Cylindrical\n")), Projection::Cylindrical);
    assert_eq!(projection_from_type(Some("CYLINDRICAL")), Projection::Cylindrical);
    assert_eq!(projection_from_type(Some("\u{3000}cylindrical\u{a0}")), Projection::Cylindrical);
    assert_eq!(projection_from_type(Some("equirectangular")), Projection::Equirectangular);
    assert_eq!(projection_from_type(Some("cylindrica")), Projection::Equirectangular);
    assert_eq!(projection_from_type(Some("cylin drical")), Projection::Equirectangular);
    assert_eq!(projection_from_type(Some("")), Projection::Equirectangular);
    assert_eq!(projection_from_type(Some("   ")), Projection::Equirectangular);
}
