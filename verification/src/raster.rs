//! An RGB raster with 8 bits per channel, stored row by row.
use vstd::prelude::*;
use crate::resize::{lanczos3_resized, resize_lanczos3};

verus! {

/// An RGB image: `width * height` pixels of three bytes each, row by row.
#[derive(Debug, Clone, PartialEq, Eq)]
pub struct RgbBuffer {
    pub width: u32,
    pub height: u32,
    pub data: Vec<u8>,
}

/// Index of the first byte of pixel `(x, y)` in an image `width` pixels wide.
pub open spec fn pixel_start(width: int, x: int, y: int) -> int {
    (y * width + x) * 3
}

/// Pixel `(x, y)` of `data` (an image `width` pixels wide) has colour `bg`.
pub open spec fn pixel_is(data: Seq<u8>, width: int, x: int, y: int, bg: [u8; 3]) -> bool {
    &&& data[pixel_start(width, x, y)] == bg@[0]
    &&& data[pixel_start(width, x, y) + 1] == bg@[1]
    &&& data[pixel_start(width, x, y) + 2] == bg@[2]
}

/// Every pixel of the rectangle `[left, left + w) x [upper, upper + h)` has colour `bg`.
pub open spec fn region_is_background(
    data: Seq<u8>,
    width: int,
    left: int,
    upper: int,
    w: int,
    h: int,
    bg: [u8; 3],
) -> bool {
    forall|x: int, y: int|
        left <= x < left + w && upper <= y < upper + h ==> #[trigger] pixel_is(
            data,
            width,
            x,
            y,
            bg,
        )
}

/// The bytes of the first `rows` rows of the `w`-pixel-wide window at
/// `(left, upper)` of an image `width` pixels wide.
pub open spec fn crop_rows(
    data: Seq<u8>,
    width: int,
    left: int,
    upper: int,
    w: int,
    rows: nat,
) -> Seq<u8>
    decreases rows,
{
    if rows == 0 {
        Seq::empty()
    } else {
        let start = pixel_start(width, left, upper + rows - 1);
        crop_rows(data, width, left, upper, w, (rows - 1) as nat) + data.subrange(
            start,
            start + w * 3,
        )
    }
}

/// A pixel `(x, y)` inside a `width x height` image starts at least three
/// bytes before the end of the buffer.
pub proof fn lemma_pixel_in_bounds(width: int, height: int, x: int, y: int)
    requires
        0 <= x < width,
        0 <= y < height,
    ensures
        0 <= y * width <= y * width + x,
        0 <= pixel_start(width, x, y),
        pixel_start(width, x, y) + 3 <= width * height * 3,
{
    assert(0 <= y * width) by (nonlinear_arith)
        requires
            0 <= y,
            0 <= width,
    ;
    assert(y * width + x + 1 <= height * width) by (nonlinear_arith)
        requires
            0 <= x < width,
            0 <= y < height,
    ;
    assert(height * width == width * height) by (nonlinear_arith);
}

/// A row of the window lies inside the image.
proof fn lemma_window_row_in_bounds(
    width: int,
    height: int,
    left: int,
    upper: int,
    w: int,
    h: int,
    r: int,
)
    requires
        0 <= left,
        0 <= upper,
        0 <= w,
        left + w <= width,
        upper + h <= height,
        0 <= r < h,
    ensures
        0 <= (upper + r) * width <= (upper + r) * width + left,
        0 <= pixel_start(width, left, upper + r),
        pixel_start(width, left, upper + r) + w * 3 <= width * height * 3,
{
    let y = upper + r;
    assert(0 <= y * width) by (nonlinear_arith)
        requires
            0 <= y,
            0 <= width,
    ;
    assert(y * width + width <= height * width) by (nonlinear_arith)
        requires
            0 <= y < height,
            0 <= width,
    ;
    assert(height * width == width * height) by (nonlinear_arith);
}

/// The window holds `w * 3` bytes per row.
pub proof fn lemma_crop_rows_len(data: Seq<u8>, width: int, left: int, upper: int, w: int, rows: nat)
    requires
        0 <= w,
        forall|r: int|
            0 <= r < rows ==> 0 <= #[trigger] pixel_start(width, left, upper + r) && pixel_start(
                width,
                left,
                upper + r,
            ) + w * 3 <= data.len(),
    ensures
        crop_rows(data, width, left, upper, w, rows).len() == rows * w * 3,
    decreases rows,
{
    if rows > 0 {
        lemma_crop_rows_len(data, width, left, upper, w, (rows - 1) as nat);
        let start = pixel_start(width, left, upper + rows - 1);
        assert(0 <= pixel_start(width, left, upper + (rows - 1)));
        assert(start + w * 3 <= data.len());
        assert(data.subrange(start, start + w * 3).len() == w * 3);
        assert(crop_rows(data, width, left, upper, w, rows).len() == crop_rows(
            data,
            width,
            left,
            upper,
            w,
            (rows - 1) as nat,
        ).len() + w * 3);
        assert(rows * w * 3 == (rows - 1) * w * 3 + w * 3) by (nonlinear_arith);
    } else {
        assert(rows * w * 3 == 0) by (nonlinear_arith)
            requires
                rows == 0,
        ;
    }
}

/// Pixel `(x, y)` of a window is pixel `(left + x, upper + y)` of the image.
pub proof fn lemma_crop_rows_pixel(
    data: Seq<u8>,
    width: int,
    left: int,
    upper: int,
    w: int,
    rows: nat,
    x: int,
    y: int,
    c: int,
)
    requires
        0 <= w,
        0 <= x < w,
        0 <= y < rows,
        0 <= c < 3,
        forall|r: int|
            0 <= r < rows ==> 0 <= #[trigger] pixel_start(width, left, upper + r) && pixel_start(
                width,
                left,
                upper + r,
            ) + w * 3 <= data.len(),
    ensures
        crop_rows(data, width, left, upper, w, rows)[pixel_start(w, x, y) + c] == data[pixel_start(
            width,
            left + x,
            upper + y,
        ) + c],
    decreases rows,
{
    lemma_crop_rows_len(data, width, left, upper, w, (rows - 1) as nat);
    let start = pixel_start(width, left, upper + rows - 1);
    assert(0 <= pixel_start(width, left, upper + (rows - 1)));
    assert(pixel_start(w, x, y) == y * w * 3 + x * 3) by (nonlinear_arith);
    assert(pixel_start(width, left + x, upper + y) == pixel_start(width, left, upper + y) + x * 3)
        by (nonlinear_arith);
    if y < rows - 1 {
        lemma_crop_rows_pixel(data, width, left, upper, w, (rows - 1) as nat, x, y, c);
        assert(y * w * 3 + x * 3 + c < (rows - 1) * w * 3) by (nonlinear_arith)
            requires
                0 <= x < w,
                0 <= y < rows - 1,
                0 <= c < 3,
        ;
    } else {
        assert((rows - 1) * w * 3 == y * w * 3);
    }
}

impl View for RgbBuffer {
    type V = (u32, u32, Seq<u8>);

    /// Width, height and pixel bytes.
    open spec fn view(&self) -> (u32, u32, Seq<u8>) {
        (self.width, self.height, self.data@)
    }
}

impl RgbBuffer {
    /// A copy of the image.
    pub fn duplicate(&self) -> (out: RgbBuffer)
        ensures
            out@ == self@,
    {
        let data = self.data.clone();
        proof {
            assert(data@ =~= self.data@);
        }
        RgbBuffer { width: self.width, height: self.height, data }
    }

    /// The buffer holds three bytes for each of the `width * height` pixels.
    pub open spec fn wf(&self) -> bool {
        self.data@.len() == self.width * self.height * 3
    }

    /// Makes an image from its pixel bytes, row by row; `None` when the
    /// buffer does not hold exactly `width * height` pixels.
    pub fn from_raw(width: u32, height: u32, data: Vec<u8>) -> (img: Option<RgbBuffer>)
        ensures
            img is Some <==> data@.len() == width * height * 3,
            img matches Some(i) ==> i.width == width && i.height == height && i.data@ == data@,
    {
        proof {
            assert((width as int) * (height as int) * 3 <= u32::MAX * u32::MAX * 3) by (nonlinear_arith)
                requires
                    width <= u32::MAX,
                    height <= u32::MAX,
            ;
        }
        if (width as u128) * (height as u128) * 3 == data.len() as u128 {
            Some(RgbBuffer { width, height, data })
        } else {
            None
        }
    }

    /// The `width x height` window of the image whose top-left pixel is
    /// `(left, upper)`, as an image of its own.
    pub fn crop(&self, left: u32, upper: u32, width: u32, height: u32) -> (out: RgbBuffer)
        requires
            self.wf(),
            left + width <= self.width,
            upper + height <= self.height,
        ensures
            out.wf(),
            out.width == width,
            out.height == height,
            out.data@ == crop_rows(
                self.data@,
                self.width as int,
                left as int,
                upper as int,
                width as int,
                height as nat,
            ),
    {
        let mut data: Vec<u8> = Vec::new();
        let mut r: u32 = 0;
        while r < height
            invariant
                self.wf(),
                left + width <= self.width,
                upper + height <= self.height,
                r <= height,
                data@ == crop_rows(
                    self.data@,
                    self.width as int,
                    left as int,
                    upper as int,
                    width as int,
                    r as nat,
                ),
            decreases height - r,
        {
            proof {
                lemma_window_row_in_bounds(
                    self.width as int,
                    self.height as int,
                    left as int,
                    upper as int,
                    width as int,
                    height as int,
                    r as int,
                );
                assert(self.data@.len() == self.data.len());
            }
            let start: usize = (((upper + r) as usize) * (self.width as usize) + left as usize) * 3;
            let end: usize = start + (width as usize) * 3;
            let ghost old_data = data@;
            data.extend_from_slice(&self.data.as_slice()[start..end]);
            proof {
                assert(data@ == old_data + self.data@.subrange(start as int, end as int));
            }
            r = r + 1;
        }
        proof {
            assert forall|row: int| 0 <= row < height implies 0 <= #[trigger] pixel_start(
                self.width as int,
                left as int,
                upper + row,
            ) && pixel_start(self.width as int, left as int, upper + row) + width * 3
                <= self.data@.len() by {
                lemma_window_row_in_bounds(
                    self.width as int,
                    self.height as int,
                    left as int,
                    upper as int,
                    width as int,
                    height as int,
                    row,
                );
            }
            lemma_crop_rows_len(
                self.data@,
                self.width as int,
                left as int,
                upper as int,
                width as int,
                height as nat,
            );
            assert(height * width * 3 == width * height * 3) by (nonlinear_arith);
        }
        RgbBuffer { width, height, data }
    }

    /// The image resampled to `width x height` with a Lanczos3 convolution.
    pub fn resized(&self, width: u32, height: u32) -> (out: RgbBuffer)
        requires
            self.wf(),
            width * height * 3 <= isize::MAX,
        ensures
            out.wf(),
            out.width == width,
            out.height == height,
            out.data@ == lanczos3_resized(self.data@, self.width, self.height, width, height),
    {
        let data = resize_lanczos3(self.data.as_slice(), self.width, self.height, width, height);
        RgbBuffer { width, height, data }
    }
}

/// Whether every pixel of the `width x height` rectangle at `(left, upper)`
/// has the background colour `bg_color`.
pub fn is_region_empty(
    img: &RgbBuffer,
    left: u32,
    upper: u32,
    width: u32,
    height: u32,
    bg_color: [u8; 3],
) -> (empty: bool)
    requires
        img.wf(),
        left + width <= img.width,
        upper + height <= img.height,
    ensures
        empty == region_is_background(
            img.data@,
            img.width as int,
            left as int,
            upper as int,
            width as int,
            height as int,
            bg_color,
        ),
{
    let mut y: u32 = upper;
    while y < upper + height
        invariant
            img.wf(),
            left + width <= img.width,
            upper + height <= img.height,
            upper <= y <= upper + height,
            forall|px: int, py: int|
                left <= px < left + width && upper <= py < y ==> #[trigger] pixel_is(
                    img.data@,
                    img.width as int,
                    px,
                    py,
                    bg_color,
                ),
        decreases upper + height - y,
    {
        let mut x: u32 = left;
        while x < left + width
            invariant
                img.wf(),
                left + width <= img.width,
                upper + height <= img.height,
                upper <= y < upper + height,
                left <= x <= left + width,
                forall|px: int, py: int|
                    left <= px < left + width && upper <= py < y ==> #[trigger] pixel_is(
                        img.data@,
                        img.width as int,
                        px,
                        py,
                        bg_color,
                    ),
                forall|px: int|
                    left <= px < x ==> #[trigger] pixel_is(
                        img.data@,
                        img.width as int,
                        px,
                        y as int,
                        bg_color,
                    ),
            decreases left + width - x,
        {
            proof {
                lemma_pixel_in_bounds(img.width as int, img.height as int, x as int, y as int);
                assert(img.data@.len() == img.data.len());
            }
            let i: usize = ((y as usize) * (img.width as usize) + x as usize) * 3;
            if img.data[i] != bg_color[0] || img.data[i + 1] != bg_color[1] || img.data[i + 2]
                != bg_color[2] {
                proof {
                    assert(!pixel_is(img.data@, img.width as int, x as int, y as int, bg_color));
                }
                return false;
            }
            x = x + 1;
        }
        y = y + 1;
    }
    true
}

} // verus!
