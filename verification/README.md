# panorama-tiler

Multi-resolution cubemap tiles and a Pannellum configuration from an
equirectangular or cylindrical panorama.

The crate is in two parts.

- `src/` is the verified library. Its functions have `requires`/`ensures`
  contracts that Verus proves:
  - `b83`: the Base83 encoder, with laws about the length of the output and
    how each block decodes back to its value.
  - `geometry`: the number of zoom levels, the size of each level, and the
    tile grid.
  - `raster`: an RGB buffer, cropping, and background detection.
  - `missing`: the compressed list of missing tiles.
  - `tiler`: the whole pyramid, with its tiles, missing tiles and fallback
    faces.
  - `layout`: the names of the output files, and why they match the path
    patterns of the configuration.
  - `config`: the format enumerations, the `multiRes` section and the
    projection tag.

  Lanczos3 resampling is done by `fast_image_resize`, behind one trusted
  wrapper (`resize`).
- `app/` is ordinary Rust built around the library. It holds the image
  decoding and encoding, the EXIF/XMP metadata, the floating-point projection
  of the panorama onto the cube faces, the JSON output and the file system.

The tests under `tests/` run the library with the real outside crates.
