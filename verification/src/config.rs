//! Configuration enumerations and the `multiRes` section of the viewer configuration.
use vstd::prelude::*;
use vstd::string::{StrSliceExecFns, StringExecFns};

verus! {

/// Input projection format of the source image.
#[derive(Debug, Clone, Copy, PartialEq, Eq, Structural)]
pub enum Projection {
    Equirectangular,
    Cylindrical,
}

impl Default for Projection {
    fn default() -> (p: Self)
        ensures
            p == Projection::Equirectangular,
    {
        Projection::Equirectangular
    }
}

/// Output image formats supported by the tiler.
#[derive(Debug, Clone, Copy, PartialEq, Eq, Structural)]
pub enum OutputFormat {
    Jpeg,
    Png,
    Webp,
}

impl Default for OutputFormat {
    fn default() -> (f: Self)
        ensures
            f == OutputFormat::Jpeg,
    {
        OutputFormat::Jpeg
    }
}

/// The file extension of an output format, as characters.
pub open spec fn extension_of(format: OutputFormat) -> Seq<char> {
    match format {
        OutputFormat::Jpeg => "jpg"@,
        OutputFormat::Png => "png"@,
        OutputFormat::Webp => "webp"@,
    }
}

impl OutputFormat {
    /// The file extension used for tiles written in this format.
    pub fn to_extension(&self) -> (ext: &'static str)
        ensures
            ext@ == extension_of(*self),
    {
        match self {
            OutputFormat::Jpeg => "jpg",
            OutputFormat::Png => "png",
            OutputFormat::Webp => "webp",
        }
    }
}

/// Interpolation mode for pixel sampling.
#[derive(Debug, Clone, Copy, PartialEq, Eq, Structural)]
pub enum InterpolationMode {
    Bilinear,
    Bicubic,
}

impl Default for InterpolationMode {
    fn default() -> (m: Self)
        ensures
            m == InterpolationMode::Bicubic,
    {
        InterpolationMode::Bicubic
    }
}

/// Downscaling method used for lower-resolution pyramid levels.
#[derive(Debug, Clone, Copy, PartialEq, Eq, Structural)]
pub enum DownscalingMethod {
    /// Recursively downscale from the previous level. Faster but can accumulate interpolation errors.
    Recursive,
    /// Downscale directly from the full-resolution cube face for each level. Slower but preserves maximum sharpness.
    Direct,
}

impl Default for DownscalingMethod {
    fn default() -> (m: Self)
        ensures
            m == DownscalingMethod::Recursive,
    {
        DownscalingMethod::Recursive
    }
}

/// The `multiRes` section of the Pannellum configuration.
#[derive(Debug, Clone, PartialEq, Eq)]
pub struct MultiResConfig {
    pub missing_tiles: Option<String>,
    pub path: String,
    pub fallback_path: Option<String>,
    pub extension: String,
    pub tile_resolution: u32,
    pub max_level: u32,
    pub cube_resolution: u32,
}

/// The path pattern of the tiles: level, face, row and column.
pub open spec fn tile_path_pattern() -> Seq<char> {
    "/%l/%s%y_%x"@
}

/// The path pattern of the fallback faces.
pub open spec fn fallback_path_pattern() -> Seq<char> {
    "/fallback/%s"@
}

/// Builds the `multiRes` section from the outcome of the tiling: the
/// missing-tile string, the output format, the tile and cube resolutions and
/// the number of levels. The fallback path is present exactly when fallback
/// faces are generated (`fallback_size > 0`).
pub fn multires_config(
    missing_tiles: Option<String>,
    fallback_size: u32,
    format: OutputFormat,
    tile_resolution: u32,
    max_level: u32,
    cube_resolution: u32,
) -> (cfg: MultiResConfig)
    ensures
        cfg.missing_tiles == missing_tiles,
        cfg.path@ == tile_path_pattern(),
        cfg.fallback_path is Some <==> fallback_size > 0,
        cfg.fallback_path matches Some(p) ==> p@ == fallback_path_pattern(),
        cfg.extension@ == extension_of(format),
        cfg.tile_resolution == tile_resolution,
        cfg.max_level == max_level,
        cfg.cube_resolution == cube_resolution,
{
    let fallback_path = if fallback_size > 0 {
        Some(String::from_str("/fallback/%s"))
    } else {
        None
    };
    MultiResConfig {
        missing_tiles,
        path: String::from_str("/%l/%s%y_%x"),
        fallback_path,
        extension: String::from_str(format.to_extension()),
        tile_resolution,
        max_level,
        cube_resolution,
    }
}

/// White space as `str::trim` removes it: the Unicode `White_Space` characters.
pub open spec fn is_white_space(c: char) -> bool {
    let u = c as u32;
    ||| 0x9 <= u <= 0xD
    ||| u == 0x20
    ||| u == 0x85
    ||| u == 0xA0
    ||| u == 0x1680
    ||| 0x2000 <= u <= 0x200A
    ||| u == 0x2028
    ||| u == 0x2029
    ||| u == 0x202F
    ||| u == 0x205F
    ||| u == 0x3000
}

/// `s[a..b]` is `s` with leading and trailing white space removed.
pub open spec fn trim_bounds(s: Seq<char>, a: int, b: int) -> bool {
    &&& 0 <= a <= b <= s.len()
    &&& forall|i: int| 0 <= i < a ==> is_white_space(#[trigger] s[i])
    &&& forall|i: int| b <= i < s.len() ==> is_white_space(#[trigger] s[i])
    &&& a < b ==> !is_white_space(s[a]) && !is_white_space(s[b - 1])
}

/// ASCII upper-case letters mapped to lower case, every other character kept.
pub open spec fn ascii_lower(c: char) -> int {
    if 0x41 <= (c as u32) <= 0x5A {
        (c as u32) + 32
    } else {
        c as u32 as int
    }
}

/// The projection name that selects a cylindrical projection.
pub open spec fn cylindrical_name() -> Seq<char> {
    seq!['c', 'y', 'l', 'i', 'n', 'd', 'r', 'i', 'c', 'a', 'l']
}

/// `s`, trimmed of white space, is `cylindrical` up to ASCII case.
pub open spec fn names_cylindrical(s: Seq<char>) -> bool {
    exists|a: int, b: int|
        #![trigger trim_bounds(s, a, b)]
        trim_bounds(s, a, b) && b - a == 11 && forall|i: int|
            0 <= i < 11 ==> ascii_lower(#[trigger] s[a + i]) == cylindrical_name()[i] as u32 as int
}

/// Whether a character is white space (see [`is_white_space`]).
fn white_space(c: char) -> (r: bool)
    ensures
        r == is_white_space(c),
{
    let u = c as u32;
    (0x9 <= u && u <= 0xD) || u == 0x20 || u == 0x85 || u == 0xA0 || u == 0x1680 || (0x2000 <= u
        && u <= 0x200A) || u == 0x2028 || u == 0x2029 || u == 0x202F || u == 0x205F || u == 0x3000
}

/// The projection named by a panorama's `ProjectionType` tag: cylindrical
/// when the name, trimmed of white space, is `cylindrical` in any ASCII
/// case; equirectangular for any other name and when there is no tag.
pub fn projection_from_type(projection_type: Option<&str>) -> (p: Projection)
    ensures
        p == (match projection_type {
            Some(name) => if names_cylindrical(name@) {
                Projection::Cylindrical
            } else {
                Projection::Equirectangular
            },
            None => Projection::Equirectangular,
        }),
{
    match projection_type {
        None => Projection::Equirectangular,
        Some(name) => {
            if is_cylindrical_name(name) {
                Projection::Cylindrical
            } else {
                Projection::Equirectangular
            }
        },
    }
}

fn is_cylindrical_name(name: &str) -> (r: bool)
    ensures
        r == names_cylindrical(name@),
{
    let ghost s = name@;
    let len = name.unicode_len();
    let mut a: usize = 0;
    while a < len
        invariant
            s == name@,
            len == s.len(),
            a <= len,
            forall|i: int| 0 <= i < a ==> is_white_space(#[trigger] s[i]),
        ensures
            a <= len,
            forall|i: int| 0 <= i < a ==> is_white_space(#[trigger] s[i]),
            a < len ==> !is_white_space(s[a as int]),
        decreases len - a,
    {
        if !white_space(name.get_char(a)) {
            break;
        }
        a = a + 1;
    }
    let mut b: usize = len;
    while b > a
        invariant
            s == name@,
            len == s.len(),
            a <= b <= len,
            forall|i: int| b <= i < len ==> is_white_space(#[trigger] s[i]),
        ensures
            a <= b <= len,
            forall|i: int| b <= i < len ==> is_white_space(#[trigger] s[i]),
            a < b ==> !is_white_space(s[b - 1]),
        decreases b - a,
    {
        if !white_space(name.get_char(b - 1)) {
            break;
        }
        b = b - 1;
    }
    assert(trim_bounds(s, a as int, b as int));
    if b - a != 11 {
        proof {
            assert forall|a2: int, b2: int| trim_bounds(s, a2, b2) implies b2 - a2 != 11 by {
                lemma_trim_bounds_unique(s, a as int, b as int, a2, b2);
            }
        }
        return false;
    }
    let lower: [char; 11] = ['c', 'y', 'l', 'i', 'n', 'd', 'r', 'i', 'c', 'a', 'l'];
    let upper: [char; 11] = ['C', 'Y', 'L', 'I', 'N', 'D', 'R', 'I', 'C', 'A', 'L'];
    proof {
        assert(lower@ == cylindrical_name());
    }
    let mut i: usize = 0;
    while i < 11
        invariant
            s == name@,
            len == s.len(),
            trim_bounds(s, a as int, b as int),
            b - a == 11,
            lower@ == cylindrical_name(),
            upper@ == seq!['C', 'Y', 'L', 'I', 'N', 'D', 'R', 'I', 'C', 'A', 'L'],
            i <= 11,
            forall|j: int| 0 <= j < i ==> ascii_lower(#[trigger] s[a + j]) == cylindrical_name()[j] as u32 as int,
        decreases 11 - i,
    {
        let c = name.get_char(a + i);
        if c != lower[i] && c != upper[i] {
            proof {
                assert(lower@[i as int] as u32 == upper@[i as int] as u32 + 32);
                assert(0x61 <= lower@[i as int] as u32 <= 0x7A);
                assert(c as u32 != lower@[i as int] as u32);
                assert(c as u32 != upper@[i as int] as u32);
                assert(s[a + i] == c);
                assert(ascii_lower(s[a + i]) != cylindrical_name()[i as int] as u32 as int);
                assert forall|a2: int, b2: int| trim_bounds(s, a2, b2) implies a2 == a && b2 == b by {
                    lemma_trim_bounds_unique(s, a as int, b as int, a2, b2);
                }
            }
            return false;
        }
        proof {
            assert(lower@[i as int] as u32 == upper@[i as int] as u32 + 32);
            assert(0x61 <= lower@[i as int] as u32 <= 0x7A);
        }
        i = i + 1;
    }
    true
}

/// The trimmed range of a sequence is unique.
pub proof fn lemma_trim_bounds_unique(s: Seq<char>, a1: int, b1: int, a2: int, b2: int)
    requires
        trim_bounds(s, a1, b1),
        trim_bounds(s, a2, b2),
    ensures
        a1 < b1 ==> a1 == a2 && b1 == b2,
        a1 == b1 ==> a2 == b2,
{
    if a1 < b1 {
        if a2 < a1 {
            assert(is_white_space(s[a1]) || a2 >= b2);
        }
        if a1 < a2 {
            assert(is_white_space(s[a1]));
        }
        if b2 < b1 {
            assert(is_white_space(s[b1 - 1]));
        }
        if b1 < b2 {
            assert(is_white_space(s[b2 - 1]) || a2 >= b2);
        }
    } else if a2 < b2 {
        if a2 < a1 {
            assert(is_white_space(s[a2]));
        } else {
            assert(is_white_space(s[a2]));
        }
    }
}

} // verus!
