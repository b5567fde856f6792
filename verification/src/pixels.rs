//! Parts of images and their colours.

use vstd::prelude::*;

use crate::local;
use crate::local::{has_all_pixels, Rgb};

verus! {

/// The bytes of a rectangle of an image, row by row: `w` by `h` pixels from
/// the column `x` and the row `y` on, of an image that is `width` pixels wide.
pub open spec fn part(data: Seq<u8>, width: int, x: int, y: int, w: int, h: int) -> Seq<u8> {
    Seq::new(
        (3 * w * h) as nat,
        |i: int| data[3 * ((y + i / (3 * w)) * width + x) + i % (3 * w)],
    )
}

/// Where a byte of a rectangle stands in its image.
proof fn lemma_part(data: Seq<u8>, width: int, x: int, y: int, w: int, h: int, row: int, k: int)
    requires
        0 < w,
        0 <= row < h,
        0 <= k < 3 * w,
    ensures
        0 <= row * (3 * w) + k < 3 * w * h,
        part(data, width, x, y, w, h)[row * (3 * w) + k] == data[3 * ((y + row) * width + x) + k],
{
    let i = row * (3 * w) + k;
    vstd::arithmetic::div_mod::lemma_fundamental_div_mod_converse(i, 3 * w, row, k);
    assert(0 <= row * (3 * w) && row * (3 * w) + 3 * w <= 3 * w * h) by (nonlinear_arith)
        requires
            0 < w,
            0 <= row < h,
    ;
}

/// A byte of a rectangle is one of the image.
proof fn lemma_within(width: int, height: int, x: int, y: int, w: int, k: int)
    requires
        0 <= x,
        0 < w,
        x + w <= width,
        0 <= y < height,
        0 <= k < 3 * w,
    ensures
        0 <= y * width <= y * width + x < width * height,
        0 <= 3 * (y * width + x) + k < 3 * width * height,
{
    assert(0 <= y * width && y * width + width <= width * height) by (nonlinear_arith)
        requires
            0 < width,
            0 <= y < height,
    ;
    assert(3 * (width * height) == 3 * width * height) by (nonlinear_arith);
}

/// Copy a rectangle out of an image: the columns from `x0` to before `x1`, the
/// rows from `y0` to before `y1`.
pub fn crop(img: &Rgb, x0: u32, y0: u32, x1: u32, y1: u32) -> (r: Rgb)
    requires
        has_all_pixels(img.width, img.height, img.data@),
        x0 < x1 <= img.width,
        y0 < y1 <= img.height,
    ensures
        r.width == x1 - x0,
        r.height == y1 - y0,
        r.data@ == part(
            img.data@,
            img.width as int,
            x0 as int,
            y0 as int,
            x1 - x0,
            y1 - y0,
        ),
        has_all_pixels(r.width, r.height, r.data@),
{
    let len: usize = img.data.len();
    let (width, x): (usize, usize) = (img.width as usize, x0 as usize);
    let w: usize = (x1 - x0) as usize;
    let ghost all = part(
        img.data@,
        img.width as int,
        x0 as int,
        y0 as int,
        x1 - x0,
        y1 - y0,
    );
    proof {
        lemma_within(width as int, img.height as int, x as int, y0 as int, w as int, 3 * w - 1);
        assert(3 * w <= 3 * width * img.height) by (nonlinear_arith)
            requires
                0 < w <= width,
                0 < img.height,
        ;
    }
    let wide: usize = 3 * w;
    let mut out: Vec<u8> = Vec::new();
    let mut y: u32 = y0;
    assert(all.take(0) =~= Seq::empty());
    assert((y - y0) * wide == 0) by (nonlinear_arith)
        requires
            y == y0,
    ;
    while y < y1
        invariant
            len == img.data@.len(),
            len == 3 * width * img.height,
            width == img.width,
            x == x0,
            w == x1 - x0,
            wide == 3 * w,
            x0 < x1 <= img.width,
            y0 <= y <= y1 <= img.height,
            all == part(
                img.data@,
                img.width as int,
                x0 as int,
                y0 as int,
                x1 - x0,
                y1 - y0,
            ),
            out@.len() == (y - y0) * wide,
            out@ == all.take((y - y0) * wide),
        decreases y1 - y,
    {
        proof {
            lemma_within(width as int, img.height as int, x as int, y as int, w as int, 0);
        }
        let start: usize = 3 * (y as usize * width + x);
        let ghost row = y - y0;
        let mut k: usize = 0;
        while k < wide
            invariant
                len == img.data@.len(),
                len == 3 * width * img.height,
                width == img.width,
                x == x0,
                w == x1 - x0,
                wide == 3 * w,
                x0 < x1 <= img.width,
                y0 <= y < y1 <= img.height,
                row == y - y0,
                start == 3 * (y * width + x),
                k <= wide,
                all == part(
                    img.data@,
                    img.width as int,
                    x0 as int,
                    y0 as int,
                    x1 - x0,
                    y1 - y0,
                ),
                out@.len() == row * wide + k,
                out@ == all.take(row * wide + k),
            decreases wide - k,
        {
            proof {
                lemma_within(
                    width as int,
                    img.height as int,
                    x as int,
                    y as int,
                    w as int,
                    k as int,
                );
                lemma_part(
                    img.data@,
                    width as int,
                    x as int,
                    y0 as int,
                    w as int,
                    y1 - y0,
                    row,
                    k as int,
                );
            }
            let ghost n = row * wide + k;
            out.push(img.data[start + k]);
            assert(out@ =~= all.take(n + 1));
            k += 1;
        }
        assert((row + 1) * wide == row * wide + wide) by (nonlinear_arith);
        y += 1;
    }
    proof {
        assert((y1 - y0) * wide == 3 * w * (y1 - y0)) by (nonlinear_arith)
            requires
                wide == 3 * w,
        ;
        assert(all.take(all.len() as int) =~= all);
    }
    Rgb { width: x1 - x0, height: y1 - y0, data: out }
}

/// The pixels of a line of text, with red and blue exchanged.
pub fn line_pixels(img: &Rgb, x0: u32, y0: u32, x1: u32, y1: u32) -> (r: Rgb)
    requires
        has_all_pixels(img.width, img.height, img.data@),
        x0 < x1 <= img.width,
        y0 < y1 <= img.height,
    ensures
        r.width == x1 - x0,
        r.height == y1 - y0,
        r.data@ == local::swapped(
            part(img.data@, img.width as int, x0 as int, y0 as int, x1 - x0, y1 - y0),
        ),
        has_all_pixels(r.width, r.height, r.data@),
{
    let mut r = crop(img, x0, y0, x1, y1);
    assert(3 * r.width * r.height == 3 * (r.width * r.height)) by (nonlinear_arith);
    local::to_bgr(&mut r.data);
    r
}

/// Every byte replaced by its complement.
pub open spec fn inverted(data: Seq<u8>) -> Seq<u8> {
    data.map_values(|b: u8| (255 - b) as u8)
}

/// What `docling_pdf::ocr_prep::normalize_polarity` makes of an image's bytes.
pub uninterp spec fn polarised(width: u32, height: u32, data: Seq<u8>) -> Seq<u8>;

/// `docling_pdf::ocr_prep::normalize_polarity` inverts an image that is dark
/// on the whole and leaves any other as it is. Its size stays. Which images
/// are dark is a mean in single precision, added up pixel by pixel: a function
/// of the pixels. The number of pixels is counted in 32 bits.
#[verifier::external_body]
fn normalize(img: Rgb) -> (r: Rgb)
    requires
        has_all_pixels(img.width, img.height, img.data@),
        img.width * img.height <= u32::MAX,
    ensures
        r.width == img.width,
        r.height == img.height,
        r.data@ == polarised(img.width, img.height, img.data@),
        r.data@ == img.data@ || r.data@ == inverted(img.data@),
{
    let whole = image::RgbImage::from_raw(img.width, img.height, img.data);
    let out = docling_pdf::ocr_prep::normalize_polarity(whole.expect("three bytes to a pixel"));
    Rgb { width: out.width(), height: out.height(), data: out.into_raw() }
}

/// An image with dark ink on light paper: inverted where it is dark on the
/// whole.
pub fn with_dark_ink(img: Rgb) -> (r: Rgb)
    requires
        has_all_pixels(img.width, img.height, img.data@),
        img.width * img.height <= u32::MAX,
    ensures
        r.width == img.width,
        r.height == img.height,
        r.data@ == polarised(img.width, img.height, img.data@),
        r.data@ == img.data@ || r.data@ == inverted(img.data@),
        has_all_pixels(r.width, r.height, r.data@),
{
    normalize(img)
}

/// The longest side that an image is scaled to.
pub const MAX_SIDE: u32 = 0xffff;

/// The bytes of an image that `image::imageops::resize` scales to `w` by `h`
/// pixels with its triangle filter.
pub uninterp spec fn scaled(width: u32, height: u32, data: Seq<u8>, w: u32, h: u32) -> Seq<u8>;

/// An image can be scaled: what is held on the way is counted, and sides up to
/// [`MAX_SIDE`] leave every pixel with a weight in single precision.
pub open spec fn scalable(width: u32, w: u32, h: u32) -> bool {
    &&& 0 < w <= MAX_SIDE
    &&& 0 < h <= MAX_SIDE
    &&& 16 * width * h <= isize::MAX
    &&& 3 * w * h <= isize::MAX
}

/// Whether an image can be scaled.
pub fn is_scalable(width: u32, w: u32, h: u32) -> (r: bool)
    ensures
        r == scalable(width, w, h),
{
    if w == 0 || w > MAX_SIDE || h == 0 || h > MAX_SIDE {
        return false;
    }
    proof {
        assert(16 * width * h <= 16 * 0xffff_ffff * 0xffff) by (nonlinear_arith)
            requires
                width <= 0xffff_ffff,
                h <= 0xffff,
        ;
        assert(3 * w * h <= 3 * 0xffff * 0xffff) by (nonlinear_arith)
            requires
                w <= 0xffff,
                h <= 0xffff,
        ;
    }
    16 * width as u128 * h as u128 <= isize::MAX as u128 && 3 * w as u128 * h as u128
        <= isize::MAX as u128
}

/// `image::imageops::resize` scales an image with its triangle filter: sums in
/// single precision, in a fixed order, so a function of the pixels and of the
/// two sizes. An image that has the size already is copied.
#[verifier::external_body]
fn resize(img: &Rgb, w: u32, h: u32) -> (r: Rgb)
    requires
        has_all_pixels(img.width, img.height, img.data@),
        scalable(img.width, w, h),
    ensures
        r.width == w,
        r.height == h,
        has_all_pixels(w, h, r.data@),
        r.data@ == scaled(img.width, img.height, img.data@, w, h),
        w == img.width && h == img.height ==> r.data@ == img.data@,
{
    let whole = image::RgbImage::from_raw(img.width, img.height, img.data.clone());
    let whole = whole.expect("three bytes to a pixel");
    let filter = image::imageops::FilterType::Triangle;
    let out = image::imageops::resize(&whole, w, h, filter);
    Rgb { width: out.width(), height: out.height(), data: out.into_raw() }
}

/// The bytes of an image as three planes: all its blue, then all its green,
/// then all its red.
pub open spec fn planes(data: Seq<u8>, n: int) -> Seq<u8> {
    Seq::new((3 * n) as nat, |i: int| data[3 * (i % n) + 2 - i / n])
}

proof fn lemma_planes(data: Seq<u8>, n: int, c: int, i: int)
    requires
        0 <= i < n,
        0 <= c < 3,
    ensures
        planes(data, n)[c * n + i] == data[3 * i + 2 - c],
{
    vstd::arithmetic::div_mod::lemma_fundamental_div_mod_converse(c * n + i, n, c, i);
    assert(0 <= c * n <= 2 * n) by (nonlinear_arith)
        requires
            0 <= c < 3,
            0 <= n,
    ;
}

/// Lay an image out as three planes.
pub fn planes_of(img: &Rgb) -> (r: Vec<u8>)
    requires
        has_all_pixels(img.width, img.height, img.data@),
    ensures
        r@ == planes(img.data@, img.width * img.height),
{
    let len: usize = img.data.len();
    let n: usize = len / 3;
    proof {
        assert(3 * img.width * img.height == 3 * (img.width * img.height)) by (nonlinear_arith);
        assert(n == img.width * img.height);
    }
    let ghost all = planes(img.data@, n as int);
    let mut out: Vec<u8> = Vec::new();
    let mut c: usize = 0;
    assert(all.take(0) =~= Seq::empty());
    while c < 3
        invariant
            c <= 3,
            len == img.data@.len(),
            len == 3 * n,
            all == planes(img.data@, n as int),
            out@.len() == c * n,
            out@ == all.take(c * n),
        decreases 3 - c,
    {
        let mut i: usize = 0;
        while i < n
            invariant
                c < 3,
                i <= n,
                len == img.data@.len(),
                len == 3 * n,
                all == planes(img.data@, n as int),
                out@.len() == c * n + i,
                out@ == all.take(c * n + i),
            decreases n - i,
        {
            let ghost k = c * n + i;
            proof {
                lemma_planes(img.data@, n as int, c as int, i as int);
                assert(0 <= c * n && c * n + n <= 3 * n) by (nonlinear_arith)
                    requires
                        c < 3,
                        0 <= n,
                ;
            }
            out.push(img.data[3 * i + 2 - c]);
            assert(out@ =~= all.take(k + 1));
            i += 1;
        }
        assert((c + 1) * n == c * n + n) by (nonlinear_arith);
        c += 1;
    }
    assert(all.take(all.len() as int) =~= all);
    out
}

/// The bytes that a detector reads: an image scaled to `w` by `h` pixels, as
/// three planes.
pub fn detector_bytes(img: &Rgb, w: u32, h: u32) -> (r: Vec<u8>)
    requires
        has_all_pixels(img.width, img.height, img.data@),
        scalable(img.width, w, h),
    ensures
        r@ == planes(scaled(img.width, img.height, img.data@, w, h), w * h),
        r@.len() == 3 * w * h,
{
    let small = resize(img, w, h);
    proof {
        assert(3 * w * h == 3 * (w * h)) by (nonlinear_arith);
        assert(0 <= w * h) by (nonlinear_arith);
    }
    planes_of(&small)
}

/// Inverting twice changes nothing.
pub proof fn law_inverting_twice_changes_nothing(data: Seq<u8>)
    ensures
        inverted(inverted(data)) == data,
{
    assert(inverted(inverted(data)) =~= data);
}

} // verus!
