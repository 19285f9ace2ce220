//! Pictures as plain bytes, and the picture operations that come from the
//! `image` and `imageproc` crates.

use vstd::prelude::*;

use crate::binary32::convert;
use crate::binary32::Binary32;
use crate::shares;

verus! {

/// A grey picture, row by row from the top.
#[derive(Clone, Debug)]
pub struct Gray8 {
    pub width: u32,
    pub height: u32,
    pub data: Vec<u8>,
}

/// A colour picture: red, green and blue of each pixel, row by row.
#[derive(Clone, Debug)]
pub struct Rgb8 {
    pub width: u32,
    pub height: u32,
    pub data: Vec<u8>,
}

/// A colour picture with opacity: four bytes a pixel, row by row.
#[derive(Clone, Debug)]
pub struct Rgba8 {
    pub width: u32,
    pub height: u32,
    pub data: Vec<u8>,
}

/// How brightness changes along one axis, row by row.
#[derive(Clone, Debug)]
pub struct Gradient {
    pub width: u32,
    pub height: u32,
    pub data: Vec<i16>,
}

/// What a grey picture shows.
#[verifier::ext_equal]
pub struct Shades {
    pub width: int,
    pub height: int,
    pub data: Seq<u8>,
}

impl View for Gray8 {
    type V = Shades;

    open spec fn view(&self) -> Shades {
        Shades { width: self.width as int, height: self.height as int, data: self.data@ }
    }
}

/// What a colour picture shows.
#[verifier::ext_equal]
pub struct Colours {
    pub width: int,
    pub height: int,
    pub data: Seq<u8>,
}

impl View for Rgb8 {
    type V = Colours;

    open spec fn view(&self) -> Colours {
        Colours { width: self.width as int, height: self.height as int, data: self.data@ }
    }
}

impl Colours {
    /// One of the three colours of a pixel.
    pub open spec fn channel(self, x: int, y: int, c: int) -> u8 {
        self.data[3 * (y * self.width + x) + c]
    }
}

impl Gray8 {
    pub open spec fn wf(&self) -> bool {
        self.data@.len() == self.width * self.height
    }
}

impl Shades {
    /// The nearest pixel inside the picture.
    pub open spec fn nearest_at(self, x: int, y: int) -> int {
        self.data[within(y, self.height - 1) * self.width + within(x, self.width - 1)] as int
    }
}

impl Rgb8 {
    pub open spec fn wf(&self) -> bool {
        self.data@.len() == 3 * (self.width * self.height)
    }

    /// The picture without its colour.
    pub open spec fn shades(&self) -> Shades {
        Shades {
            width: self.width as int,
            height: self.height as int,
            data: gray_of(self.data@, self.width * self.height),
        }
    }

    /// One of the three colours of a pixel.
    pub fn channel_at(&self, x: u32, y: u32, c: usize) -> (r: u8)
        requires
            self.wf(),
            x < self.width,
            y < self.height,
            c < 3,
        ensures
            r == self@.channel(x as int, y as int, c as int),
    {
        proof {
            lemma_index(x as int, y as int, self.width as int, self.height as int);
            assert(self.data@.len() == self.data.len());
        }
        let i: usize = (y as usize) * (self.width as usize) + (x as usize);
        self.data[3 * i + c]
    }
}

impl Rgba8 {
    pub open spec fn wf(&self) -> bool {
        self.data@.len() == 4 * (self.width * self.height)
    }
}

impl Gradient {
    pub open spec fn wf(&self) -> bool {
        self.data@.len() == self.width * self.height
    }

    pub open spec fn at(&self, x: int, y: int) -> i16 {
        self.data@[y * self.width + x]
    }

    pub fn get(&self, x: u32, y: u32) -> (r: i16)
        requires
            self.wf(),
            x < self.width,
            y < self.height,
        ensures
            r == self.at(x as int, y as int),
    {
        proof {
            lemma_index(x as int, y as int, self.width as int, self.height as int);
            assert(self.data@.len() == self.data.len());
        }
        self.data[(y as usize) * (self.width as usize) + (x as usize)]
    }
}

/// `k` held between 0 and `last`.
pub open spec fn within(k: int, last: int) -> int {
    if k > last {
        last
    } else if k < 0 {
        0
    } else {
        k
    }
}

/// The place of a pixel in a row by row picture.
pub proof fn lemma_index(x: int, y: int, w: int, h: int)
    requires
        0 <= x < w,
        0 <= y < h,
    ensures
        0 <= y * w,
        0 <= y * w + x < w * h,
{
    assert(0 <= y * w && y * w + w <= w * h) by (nonlinear_arith)
        requires
            0 <= y < h,
            0 < w,
    ;
}

/// The column and the row of the `i`th pixel of a row by row picture.
pub fn place(i: usize, w: u32, h: u32) -> (r: (u32, u32))
    requires
        i < w * h,
    ensures
        r.0 == i as int % w as int,
        r.1 == i as int / w as int,
        r.0 < w,
        r.1 < h,
{
    proof {
        if w == 0 {
            assert(w * h == 0) by (nonlinear_arith)
                requires
                    w == 0,
            ;
        }
        let ww = w as int;
        let hh = h as int;
        assert(hh * ww == ww * hh) by (nonlinear_arith);
        vstd::arithmetic::div_mod::lemma_div_pos_is_pos(i as int, ww);
        vstd::arithmetic::div_mod::lemma_div_by_multiple_is_strongly_ordered(
            i as int,
            hh * ww,
            hh,
            ww,
        );
        vstd::arithmetic::div_mod::lemma_div_multiples_vanish(hh, ww);
    }
    ((i % (w as usize)) as u32, (i / (w as usize)) as u32)
}

/// The middle of `n` pixels.
pub open spec fn middle_of(n: int) -> Binary32 {
    convert::of_int(n).minus(Binary32::one()).times(Binary32::half())
}

/// The middle of `n` pixels.
pub fn middle(n: u32) -> (r: Binary32)
    ensures
        r == middle_of(n as int),
{
    Binary32::of_u32(n).minus(Binary32::one()).times(Binary32::half())
}

/// How far a pixel is from the middle of `n` pixels.
pub open spec fn off_middle(k: int, n: int) -> Binary32 {
    convert::of_int(k).minus(middle_of(n))
}

/// The brightness of a colour, in the weights of the sRGB primaries.
pub open spec fn luma(r: u8, g: u8, b: u8) -> u8 {
    ((2126 * r + 7152 * g + 722 * b) / 10000) as u8
}

/// The part of a window of length `n` from `start` that lies in `0..limit`: its
/// first place and its length.
pub open spec fn visible(start: int, n: int, limit: int) -> (int, int) {
    let first = if start < limit {
        start
    } else {
        limit
    };
    (
        first,
        if n < limit - first {
            n
        } else {
            limit - first
        },
    )
}

/// The correlation with the Sobel kernel across columns.
pub open spec fn sobel_across(img: Shades, x: int, y: int) -> int {
    (img.nearest_at(x + 1, y - 1) - img.nearest_at(x - 1, y - 1)) + 2 * (img.nearest_at(x + 1, y)
        - img.nearest_at(x - 1, y)) + (img.nearest_at(x + 1, y + 1) - img.nearest_at(x - 1, y + 1))
}

/// The correlation with the Sobel kernel across rows.
pub open spec fn sobel_down(img: Shades, x: int, y: int) -> int {
    (img.nearest_at(x - 1, y + 1) - img.nearest_at(x - 1, y - 1)) + 2 * (img.nearest_at(x, y + 1)
        - img.nearest_at(x, y - 1)) + (img.nearest_at(x + 1, y + 1) - img.nearest_at(x + 1, y - 1))
}

/// The correlation with the kernel across columns at every pixel, row by row.
pub open spec fn slopes_across(img: Shades) -> Seq<i16> {
    Seq::new(
        (img.width * img.height) as nat,
        |i: int| sobel_across(img, i % img.width, i / img.width) as i16,
    )
}

/// The correlation with the kernel across rows at every pixel, row by row.
pub open spec fn slopes_down(img: Shades) -> Seq<i16> {
    Seq::new(
        (img.width * img.height) as nat,
        |i: int| sobel_down(img, i % img.width, i / img.width) as i16,
    )
}

/// What resampling a picture of `w` by `h` pixels to `nw` by `nh` takes: rows of
/// four numbers a pixel at the new height, which must have addresses, and a
/// share of the picture for every new pixel. A picture without pixels, or of
/// the same size, takes neither.
pub open spec fn convertible(w: int, h: int, nw: int, nh: int) -> bool {
    ||| w == 0 || h == 0
    ||| nw == w && nh == h
    ||| {
        &&& 16 * (w * nh) <= isize::MAX
        &&& nw == 0 || nh == 0 || (shares::samples(w, nw) && shares::samples(h, nh))
    }
}

/// A picture of `w` by `h` pixels of `channels` bytes can be resampled to `nw`
/// by `nh`.
pub open spec fn resizable(w: int, h: int, nw: int, nh: int, channels: int) -> bool {
    &&& channels * (nw * nh) <= isize::MAX
    &&& convertible(w, h, nw, nh)
}

/// Whether a picture of the first size can be resampled to the second.
pub fn can_resize(w: u32, h: u32, nw: u32, nh: u32, channels: u32) -> (r: bool)
    requires
        channels <= 4,
    ensures
        r == resizable(w as int, h as int, nw as int, nh as int, channels as int),
{
    proof {
        assert(0 <= w * nh <= 0xffff_ffff * 0xffff_ffff && 0 <= nw * nh <= 0xffff_ffff
            * 0xffff_ffff) by (nonlinear_arith)
            requires
                0 <= w <= 0xffff_ffff,
                0 <= nw <= 0xffff_ffff,
                0 <= nh <= 0xffff_ffff,
        ;
        assert(0 <= channels * (nw * nh) <= 4 * (0xffff_ffff * 0xffff_ffff)) by (nonlinear_arith)
            requires
                0 <= channels <= 4,
                0 <= nw * nh <= 0xffff_ffff * 0xffff_ffff,
        ;
    }
    let after: u128 = (channels as u128) * ((nw as u128) * (nh as u128));
    if after > isize::MAX as u128 {
        return false;
    }
    if w == 0 || h == 0 || (nw == w && nh == h) {
        return true;
    }
    let between: u128 = 16 * ((w as u128) * (nh as u128));
    if between > isize::MAX as u128 {
        return false;
    }
    nw == 0 || nh == 0 || (shares::can_sample(w, nw) && shares::can_sample(h, nh))
}

/// The bytes that `image::imageops::resize` gives for a grey picture of `w` by
/// `h` pixels, at `nw` by `nh` pixels with the triangle filter.
pub uninterp spec fn triangle_gray(data: Seq<u8>, w: int, h: int, nw: int, nh: int) -> Seq<u8>;

/// The bytes that `image::imageops::resize` gives for a colour picture of `w`
/// by `h` pixels, at `nw` by `nh` pixels with the triangle filter.
pub uninterp spec fn triangle_rgb(data: Seq<u8>, w: int, h: int, nw: int, nh: int) -> Seq<u8>;

/// Calls `image::imageops::resize` with the triangle filter on a grey picture.
/// Taken on trust: the result has the size asked for, depends on the picture
/// and the sizes alone, and is the same picture when the size is the same. The
/// weights of the filter are not restated. The call gives no picture where some
/// new pixel gets no share, or where a buffer would have no address; that is
/// left out.
#[verifier::external_body]
pub(crate) fn resize_gray(img: &Gray8, nw: u32, nh: u32) -> (r: Gray8)
    requires
        img.wf(),
        resizable(img.width as int, img.height as int, nw as int, nh as int, 1),
    ensures
        r.wf(),
        r.width == nw,
        r.height == nh,
        r.data@ == triangle_gray(
            img.data@,
            img.width as int,
            img.height as int,
            nw as int,
            nh as int,
        ),
        nw == img.width && nh == img.height ==> r.data@ == img.data@,
{
    let buffer = image::GrayImage::from_raw(img.width, img.height, img.data.clone()).unwrap();
    let small = image::imageops::resize(&buffer, nw, nh, image::imageops::FilterType::Triangle);
    Gray8 { width: nw, height: nh, data: small.into_raw() }
}

/// Calls `image::imageops::resize` with the triangle filter on a colour
/// picture. Taken on trust: as for a grey picture.
#[verifier::external_body]
pub(crate) fn resize_rgb(img: &Rgb8, nw: u32, nh: u32) -> (r: Rgb8)
    requires
        img.wf(),
        resizable(img.width as int, img.height as int, nw as int, nh as int, 3),
    ensures
        r.wf(),
        r.width == nw,
        r.height == nh,
        r.data@ == triangle_rgb(
            img.data@,
            img.width as int,
            img.height as int,
            nw as int,
            nh as int,
        ),
        nw == img.width && nh == img.height ==> r.data@ == img.data@,
{
    let buffer = image::RgbImage::from_raw(img.width, img.height, img.data.clone()).unwrap();
    let small = image::imageops::resize(&buffer, nw, nh, image::imageops::FilterType::Triangle);
    Rgb8 { width: nw, height: nh, data: small.into_raw() }
}

/// The grey picture of a colour picture.
pub open spec fn gray_of(data: Seq<u8>, pixels: int) -> Seq<u8> {
    Seq::new(pixels as nat, |i: int| luma(data[3 * i], data[3 * i + 1], data[3 * i + 2]))
}

/// Calls `image::imageops::grayscale`. Taken on trust: each pixel becomes its
/// brightness, with the weights 2126, 7152 and 722 of ten thousand, cut to a
/// whole number.
#[verifier::external_body]
pub(crate) fn grayscale(img: &Rgb8) -> (r: Gray8)
    requires
        img.wf(),
    ensures
        r.wf(),
        r.width == img.width,
        r.height == img.height,
        r@ == img.shades(),
{
    let buffer = image::RgbImage::from_raw(img.width, img.height, img.data.clone()).unwrap();
    let gray = image::imageops::grayscale(&buffer);
    Gray8 { width: img.width, height: img.height, data: gray.into_raw() }
}

/// The bytes of a window of a grey picture that is `w` pixels wide: the first
/// column and the number of columns, then the same of the rows.
pub open spec fn window_gray(data: Seq<u8>, w: int, cols: (int, int), rows: (int, int)) -> Seq<u8> {
    Seq::new(
        (cols.1 * rows.1) as nat,
        |i: int| data[(rows.0 + i / cols.1) * w + (cols.0 + i % cols.1)],
    )
}

/// The bytes of a window of a colour picture, in the same terms.
pub open spec fn window_rgb(data: Seq<u8>, w: int, cols: (int, int), rows: (int, int)) -> Seq<u8> {
    Seq::new(
        (3 * (cols.1 * rows.1)) as nat,
        |i: int|
            data[3 * ((rows.0 + (i / 3) / cols.1) * w + (cols.0 + (i / 3) % cols.1)) + i % 3],
    )
}

/// Calls `image::imageops::crop_imm` and `to_image` on a grey picture. Taken on
/// trust: the result is the part of the window that lies in the picture.
#[verifier::external_body]
pub(crate) fn crop_gray(img: &Gray8, x: u32, y: u32, w: u32, h: u32) -> (r: Gray8)
    requires
        img.wf(),
    ensures
        r.wf(),
        r.width == visible(x as int, w as int, img.width as int).1,
        r.height == visible(y as int, h as int, img.height as int).1,
        r.data@ == window_gray(
            img.data@,
            img.width as int,
            visible(x as int, w as int, img.width as int),
            visible(y as int, h as int, img.height as int),
        ),
{
    let buffer = image::GrayImage::from_raw(img.width, img.height, img.data.clone()).unwrap();
    let part = image::imageops::crop_imm(&buffer, x, y, w, h).to_image();
    Gray8 { width: part.width(), height: part.height(), data: part.into_raw() }
}

/// Calls `image::imageops::crop_imm` and `to_image` on a colour picture. Taken
/// on trust: as for a grey picture.
#[verifier::external_body]
pub(crate) fn crop_rgb(img: &Rgb8, x: u32, y: u32, w: u32, h: u32) -> (r: Rgb8)
    requires
        img.wf(),
    ensures
        r.wf(),
        r.width == visible(x as int, w as int, img.width as int).1,
        r.height == visible(y as int, h as int, img.height as int).1,
        r.data@ == window_rgb(
            img.data@,
            img.width as int,
            visible(x as int, w as int, img.width as int),
            visible(y as int, h as int, img.height as int),
        ),
{
    let buffer = image::RgbImage::from_raw(img.width, img.height, img.data.clone()).unwrap();
    let part = image::imageops::crop_imm(&buffer, x, y, w, h).to_image();
    Rgb8 { width: part.width(), height: part.height(), data: part.into_raw() }
}

/// Calls `image::DynamicImage::to_rgb8` on a grey picture. Taken on trust: each
/// brightness is repeated for the three colours.
#[verifier::external_body]
pub(crate) fn gray_to_rgb(img: &Gray8) -> (r: Rgb8)
    requires
        img.wf(),
        3 * img.data@.len() <= isize::MAX,
    ensures
        r.wf(),
        r.width == img.width,
        r.height == img.height,
        forall|i: int| 0 <= i < r.data@.len() ==> #[trigger] r.data@[i] == img.data@[i / 3],
{
    let buffer = image::GrayImage::from_raw(img.width, img.height, img.data.clone()).unwrap();
    let rgb = image::DynamicImage::ImageLuma8(buffer).to_rgb8();
    Rgb8 { width: img.width, height: img.height, data: rgb.into_raw() }
}

/// Calls `imageproc::gradients::horizontal_sobel`. Taken on trust: each value
/// is the correlation with the three by three kernel that takes the left column
/// from the right one, the middle row counting twice; outside the picture the
/// nearest pixel counts.
#[verifier::external_body]
pub(crate) fn horizontal_sobel(img: &Gray8) -> (r: Gradient)
    requires
        img.wf(),
        2 * img.data@.len() <= isize::MAX,
    ensures
        r.wf(),
        r.width == img.width,
        r.height == img.height,
        r.data@ == slopes_across(img@),
{
    let buffer = image::GrayImage::from_raw(img.width, img.height, img.data.clone()).unwrap();
    let slope = imageproc::gradients::horizontal_sobel(&buffer);
    Gradient { width: img.width, height: img.height, data: slope.into_raw() }
}

/// Calls `imageproc::gradients::vertical_sobel`. Taken on trust: each value is
/// the correlation with the three by three kernel that takes the upper row from
/// the lower one, the middle column counting twice; outside the picture the
/// nearest pixel counts.
#[verifier::external_body]
pub(crate) fn vertical_sobel(img: &Gray8) -> (r: Gradient)
    requires
        img.wf(),
        2 * img.data@.len() <= isize::MAX,
    ensures
        r.wf(),
        r.width == img.width,
        r.height == img.height,
        r.data@ == slopes_down(img@),
{
    let buffer = image::GrayImage::from_raw(img.width, img.height, img.data.clone()).unwrap();
    let slope = imageproc::gradients::vertical_sobel(&buffer);
    Gradient { width: img.width, height: img.height, data: slope.into_raw() }
}

} // verus!
