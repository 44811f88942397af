//! The albedo pipeline: pixel-wise averaging of the input photographs and
//! iterative corner-weighted brightness rebalancing.
//!
//! Images are modeled as plain RGBA byte rasters; brightness factors are
//! fixed-point (`SCALE` stands for a factor of one).

use vstd::arithmetic::div_mod::{lemma_div_is_ordered, lemma_div_pos_is_pos};
use vstd::prelude::*;

use crate::arith::{lemma_tdiv_bound, lemma_tdiv_shrinks, tdiv, tdiv_i128, SCALE};
use crate::radiance_map::DIM_LIMIT;
use crate::vec3::lemma_mul_abs_bound;

verus! {

/// Largest brightness factor `brightness_tilt` accepts (a factor of 64).
pub const FACT_BOUND: i64 = 0x40_0000;

/// An RGBA raster: four bytes per pixel, row-major.
pub struct RasterImage {
    pub width: usize,
    pub height: usize,
    pub rgba: Vec<u8>,
}

/// Well-formedness of a raster: plausible dimensions, four bytes per pixel.
pub open spec fn raster_wf(img: RasterImage) -> bool {
    &&& 1 <= img.width <= DIM_LIMIT
    &&& 1 <= img.height <= DIM_LIMIT
    &&& img.rgba@.len() == 4 * (img.width * img.height)
}

/// Sum of the byte at index `i` over the first `k` images.
pub open spec fn byte_sum(imgs: Seq<RasterImage>, i: int, k: int) -> int
    decreases k,
{
    if k <= 0 {
        0
    } else {
        byte_sum(imgs, i, k - 1) + imgs[k - 1].rgba@[i]
    }
}

/// Average the pixels of a slice of images, channel by channel (truncating
/// toward zero, as a float-to-byte cast would).
///
/// Returns `None` exactly when no image is supplied.
pub fn average(images: &Vec<RasterImage>) -> (r: Option<RasterImage>)
    requires
        images@.len() <= 0x1_0000,
        forall|k: int| 0 <= k < images@.len() ==> raster_wf(#[trigger] images@[k]),
        forall|k: int|
            0 <= k < images@.len() ==> (#[trigger] images@[k]).width == images@[0].width
                && images@[k].height == images@[0].height,
    ensures
        (r is None) <==> images@.len() == 0,
        r matches Some(out) ==> {
            &&& raster_wf(out)
            &&& out.width == images@[0].width
            &&& out.height == images@[0].height
            &&& out.rgba@.len() == images@[0].rgba@.len()
            &&& forall|i: int|
                0 <= i < out.rgba@.len() ==> #[trigger] out.rgba@[i] == byte_sum(
                    images@,
                    i,
                    images@.len() as int,
                ) / (images@.len() as int)
        },
{
    let n = images.len();
    if n == 0 {
        return None;
    }
    let w = images[0].width;
    let h = images[0].height;
    let len = images[0].rgba.len();
    let mut rgba: Vec<u8> = Vec::new();
    let mut i: usize = 0;
    while i < len
        invariant
            i <= len,
            1 <= n == images@.len() <= 0x1_0000,
            forall|k: int| 0 <= k < images@.len() ==> raster_wf(#[trigger] images@[k]),
            forall|k: int|
                0 <= k < images@.len() ==> (#[trigger] images@[k]).width == images@[0].width
                    && images@[k].height == images@[0].height,
            len == images@[0].rgba@.len(),
            rgba@.len() == i,
            forall|j: int|
                0 <= j < i ==> #[trigger] rgba@[j] == byte_sum(images@, j, n as int) / (n as int),
        decreases len - i,
    {
        let mut s: u32 = 0;
        let mut k: usize = 0;
        while k < n
            invariant
                k <= n,
                i < len,
                1 <= n == images@.len() <= 0x1_0000,
                forall|j: int| 0 <= j < images@.len() ==> raster_wf(#[trigger] images@[j]),
                forall|j: int|
                    0 <= j < images@.len() ==> (#[trigger] images@[j]).width == images@[0].width
                        && images@[j].height == images@[0].height,
                len == images@[0].rgba@.len(),
                s == byte_sum(images@, i as int, k as int),
                s <= (k as int) * 255,
            decreases n - k,
        {
            let img = &images[k];
            proof {
                assert(img.rgba@.len() == 4 * (img.width * img.height));
                assert(images@[0].rgba@.len() == 4 * (images@[0].width * images@[0].height));
            }
            s = s + (img.rgba[i] as u32);
            k = k + 1;
        }
        proof {
            lemma_div_pos_is_pos(s as int, n as int);
            lemma_div_is_ordered(s as int, (n as int) * 255, n as int);
            assert(((n as int) * 255) / (n as int) == 255) by (nonlinear_arith)
                requires
                    n >= 1,
            ;
        }
        let b: u8 = (s / (n as u32)) as u8;
        rgba.push(b);
        i = i + 1;
    }
    Some(RasterImage { width: w, height: h, rgba })
}

/// The blended relative intensity at fractional position `(fx, fy)`, given
/// the four corner factors (all `SCALE`-scaled).
pub open spec fn blend_rel(ul: int, ur: int, ll: int, lr: int, fx: int, fy: int) -> int {
    tdiv(
        (ul * (SCALE - fx) + ur * fx) * (SCALE - fy) + (ll * (SCALE - fx) + lr * fx) * fy,
        SCALE * SCALE,
    )
}

/// The byte a channel becomes when divided by the relative intensity
/// `rel` and saturated; a vanishing intensity washes any lit channel out
/// entirely and leaves a black one black.
pub open spec fn tilted_byte(b: int, rel: int) -> int {
    if rel <= 0 {
        if b == 0 {
            0
        } else {
            255
        }
    } else {
        let q = tdiv(b * SCALE, rel);
        if q > 255 {
            255
        } else {
            q
        }
    }
}

/// Scale the brightness of an image non-uniformly: each pixel's channels
/// are divided by the relative intensity interpolated between the four
/// corner factors; the alpha channel is kept.
pub fn brightness_tilt(
    image_data: &RasterImage,
    upper_left: i64,
    upper_right: i64,
    lower_left: i64,
    lower_right: i64,
) -> (out: RasterImage)
    requires
        raster_wf(*image_data),
        0 <= upper_left <= FACT_BOUND,
        0 <= upper_right <= FACT_BOUND,
        0 <= lower_left <= FACT_BOUND,
        0 <= lower_right <= FACT_BOUND,
    ensures
        raster_wf(out),
        out.width == image_data.width,
        out.height == image_data.height,
        out.rgba@.len() == image_data.rgba@.len(),
        forall|p: int|
            0 <= p < image_data.width * image_data.height ==> {
                let rel = blend_rel(
                    upper_left as int,
                    upper_right as int,
                    lower_left as int,
                    lower_right as int,
                    ((p % (image_data.width as int)) * SCALE) / (image_data.width as int),
                    ((p / (image_data.width as int)) * SCALE) / (image_data.height as int),
                );
                &&& #[trigger] out.rgba@[4 * p] == tilted_byte(image_data.rgba@[4 * p] as int, rel)
                &&& out.rgba@[4 * p + 1] == tilted_byte(image_data.rgba@[4 * p + 1] as int, rel)
                &&& out.rgba@[4 * p + 2] == tilted_byte(image_data.rgba@[4 * p + 2] as int, rel)
                &&& out.rgba@[4 * p + 3] == image_data.rgba@[4 * p + 3]
            },
{
    let w = image_data.width;
    let h = image_data.height;
    proof {
        lemma_mul_abs_bound(w as int, h as int, DIM_LIMIT as int, DIM_LIMIT as int);
    }
    let npix: usize = w * h;
    let mut rgba: Vec<u8> = Vec::new();
    let mut p: usize = 0;
    while p < npix
        invariant
            p <= npix,
            npix == w * h,
            w == image_data.width,
            h == image_data.height,
            raster_wf(*image_data),
            0 <= upper_left <= FACT_BOUND,
            0 <= upper_right <= FACT_BOUND,
            0 <= lower_left <= FACT_BOUND,
            0 <= lower_right <= FACT_BOUND,
            rgba@.len() == 4 * p,
            forall|q: int|
                0 <= q < p ==> {
                    let rel = blend_rel(
                        upper_left as int,
                        upper_right as int,
                        lower_left as int,
                        lower_right as int,
                        ((q % (w as int)) * SCALE) / (w as int),
                        ((q / (w as int)) * SCALE) / (h as int),
                    );
                    &&& #[trigger] rgba@[4 * q] == tilted_byte(image_data.rgba@[4 * q] as int, rel)
                    &&& rgba@[4 * q + 1] == tilted_byte(image_data.rgba@[4 * q + 1] as int, rel)
                    &&& rgba@[4 * q + 2] == tilted_byte(image_data.rgba@[4 * q + 2] as int, rel)
                    &&& rgba@[4 * q + 3] == image_data.rgba@[4 * q + 3]
                },
        decreases npix - p,
    {
        let x: usize = p % w;
        let y: usize = p / w;
        proof {
            lemma_mul_abs_bound(w as int, h as int, DIM_LIMIT as int, DIM_LIMIT as int);
            assert((y as int) < (h as int)) by (nonlinear_arith)
                requires
                    y as int == (p as int) / (w as int),
                    (p as int) < (w as int) * (h as int),
                    w as int >= 1,
                    h as int >= 1,
            ;
        }
        let fx: i64 = (((x as u64) * (SCALE as u64)) / (w as u64)) as i64;
        let fy: i64 = (((y as u64) * (SCALE as u64)) / (h as u64)) as i64;
        proof {
            assert(0 <= ((x as int) * SCALE) / (w as int) <= SCALE) by (nonlinear_arith)
                requires
                    0 <= x as int,
                    (x as int) < (w as int),
                    1 <= w as int,
                    SCALE == 65536,
            ;
            assert(0 <= ((y as int) * SCALE) / (h as int) <= SCALE) by (nonlinear_arith)
                requires
                    0 <= y as int,
                    (y as int) < (h as int),
                    1 <= h as int,
                    SCALE == 65536,
            ;
        }
        let rel: i64 = blend_factors(upper_left, upper_right, lower_left, lower_right, fx, fy);
        proof {
            assert(4 * (p as int) + 3 < image_data.rgba@.len());
        }
        let b0: u8 = tilt_channel(image_data.rgba[4 * p], rel);
        let b1: u8 = tilt_channel(image_data.rgba[4 * p + 1], rel);
        let b2: u8 = tilt_channel(image_data.rgba[4 * p + 2], rel);
        let b3: u8 = image_data.rgba[4 * p + 3];
        let ghost rgba0 = rgba@;
        rgba.push(b0);
        rgba.push(b1);
        rgba.push(b2);
        rgba.push(b3);
        proof {
            assert forall|q: int| 0 <= q < p as int implies (#[trigger] rgba@[4 * q]) == rgba0[4
                * q] && rgba@[4 * q + 1] == rgba0[4 * q + 1] && rgba@[4 * q + 2] == rgba0[4 * q
                + 2] && rgba@[4 * q + 3] == rgba0[4 * q + 3] by {
                assert(4 * q + 3 < rgba0.len());
            }
            assert(rgba@[4 * (p as int)] == b0 && rgba@[4 * (p as int) + 1] == b1 && rgba@[4 * (
            p as int) + 2] == b2 && rgba@[4 * (p as int) + 3] == b3);
        }
        p = p + 1;
    }
    RasterImage { width: w, height: h, rgba }
}

/// The bilinear factor blend of `blend_rel`, evaluated exactly.
fn blend_factors(ul: i64, ur: i64, ll: i64, lr: i64, fx: i64, fy: i64) -> (rel: i64)
    requires
        0 <= ul <= FACT_BOUND,
        0 <= ur <= FACT_BOUND,
        0 <= ll <= FACT_BOUND,
        0 <= lr <= FACT_BOUND,
        0 <= fx <= SCALE,
        0 <= fy <= SCALE,
    ensures
        rel == blend_rel(ul as int, ur as int, ll as int, lr as int, fx as int, fy as int),
        0 <= rel <= FACT_BOUND,
{
    let uli: i128 = ul as i128;
    let uri: i128 = ur as i128;
    let lli: i128 = ll as i128;
    let lri: i128 = lr as i128;
    let fxi: i128 = fx as i128;
    let fyi: i128 = fy as i128;
    proof {
        lemma_mul_abs_bound(ul as int, (SCALE - fx) as int, FACT_BOUND as int, SCALE as int);
        lemma_mul_abs_bound(ur as int, fx as int, FACT_BOUND as int, SCALE as int);
        lemma_mul_abs_bound(ll as int, (SCALE - fx) as int, FACT_BOUND as int, SCALE as int);
        lemma_mul_abs_bound(lr as int, fx as int, FACT_BOUND as int, SCALE as int);
    }
    let t1: i128 = uli * ((SCALE as i128) - fxi) + uri * fxi;
    let t2: i128 = lli * ((SCALE as i128) - fxi) + lri * fxi;
    proof {
        lemma_mul_abs_bound(t1 as int, (SCALE - fy) as int, 0x80_0000_0000 as int, SCALE as int);
        lemma_mul_abs_bound(t2 as int, fy as int, 0x80_0000_0000 as int, SCALE as int);
    }
    let num: i128 = t1 * ((SCALE as i128) - fyi) + t2 * fyi;
    let rel128: i128 = tdiv_i128(num, (SCALE as i128) * (SCALE as i128));
    proof {
        // The blend is a weighted mean of the four factors, so it stays in
        // range: num <= FACT_BOUND * SCALE * SCALE.
        assert(num <= (FACT_BOUND as int) * ((SCALE as int) * (SCALE as int)) && num >= 0)
            by (nonlinear_arith)
            requires
                num == (uli * (SCALE - fxi) + uri * fxi) * (SCALE - fyi) + (lli * (SCALE - fxi)
                    + lri * fxi) * fyi,
                0 <= uli <= FACT_BOUND,
                0 <= uri <= FACT_BOUND,
                0 <= lli <= FACT_BOUND,
                0 <= lri <= FACT_BOUND,
                0 <= fxi <= SCALE,
                0 <= fyi <= SCALE,
                SCALE == 65536,
                FACT_BOUND == 0x40_0000,
        ;
        lemma_tdiv_bound(num as int, (SCALE as int) * (SCALE as int), FACT_BOUND as int);
        crate::arith::lemma_tdiv_sign(num as int, (SCALE as int) * (SCALE as int));
    }
    rel128 as i64
}

/// Divide one channel by the relative intensity `rel`, saturating at 255.
fn tilt_channel(b: u8, rel: i64) -> (out: u8)
    requires
        rel <= FACT_BOUND,
    ensures
        out == tilted_byte(b as int, rel as int),
{
    if rel <= 0 {
        if b == 0 {
            0
        } else {
            255
        }
    } else {
        let q: i64 = (((b as u64) * 65536u64) / (rel as u64)) as i64;
        proof {
            lemma_div_pos_is_pos((b as int) * SCALE, rel as int);
            lemma_tdiv_shrinks((b as int) * SCALE, rel as int);
        }
        if q > 255 {
            255
        } else {
            q as u8
        }
    }
}

/// The gray level of one RGB pixel, by the usual integer luma weights.
pub open spec fn luma_byte(r: int, g: int, b: int) -> int {
    (299 * r + 587 * g + 114 * b) / 1000
}

/// The fixed-point gray value of the pixel at index `p`.
pub open spec fn gray_at(img: RasterImage, p: int) -> int {
    crate::radiance_map::luma_fixed(
        luma_byte(img.rgba@[4 * p] as int, img.rgba@[4 * p + 1] as int, img.rgba@[4 * p + 2] as int),
    )
}

/// Sum of the fixed-point gray values of `n` pixels taken at `start`,
/// `start + stride`, ...
pub open spec fn gray_strided(img: RasterImage, start: int, stride: int, n: int) -> int
    decreases n,
{
    if n <= 0 {
        0
    } else {
        gray_strided(img, start, stride, n - 1) + gray_at(img, start + (n - 1) * stride)
    }
}

/// The gray level of the pixel at index `p`, as a byte.
fn gray_byte_at(img: &RasterImage, p: usize) -> (g: u8)
    requires
        raster_wf(*img),
        p < img.width * img.height,
    ensures
        g == luma_byte(
            img.rgba@[4 * p] as int,
            img.rgba@[4 * p + 1] as int,
            img.rgba@[4 * p + 2] as int,
        ),
{
    proof {
        lemma_mul_abs_bound(img.width as int, img.height as int, DIM_LIMIT as int,
            DIM_LIMIT as int);
        assert(4 * (p as int) + 3 < img.rgba@.len());
    }
    let r: u32 = img.rgba[4 * p] as u32;
    let g: u32 = img.rgba[4 * p + 1] as u32;
    let b: u32 = img.rgba[4 * p + 2] as u32;
    let lb: u32 = (299 * r + 587 * g + 114 * b) / 1000;
    proof {
        lemma_div_pos_is_pos(299 * (r as int) + 587 * (g as int) + 114 * (b as int), 1000);
        lemma_div_is_ordered(
            299 * (r as int) + 587 * (g as int) + 114 * (b as int),
            255000,
            1000,
        );
    }
    lb as u8
}

/// Sum `count` fixed-point gray values along a stride.
fn gray_sum_strided(img: &RasterImage, start: usize, stride: usize, count: usize) -> (t: i64)
    requires
        raster_wf(*img),
        stride >= 1,
        count <= 0x1_0000,
        count >= 1 ==> start + (count - 1) * stride < img.width * img.height,
    ensures
        t == gray_strided(*img, start as int, stride as int, count as int),
        0 <= t <= (count as int) * 65536,
{
    let mut t: i64 = 0;
    let mut j: usize = 0;
    while j < count
        invariant
            j <= count,
            raster_wf(*img),
            stride >= 1,
            count <= 0x1_0000,
            count >= 1 ==> start + (count - 1) * stride < img.width * img.height,
            t == gray_strided(*img, start as int, stride as int, j as int),
            0 <= t <= (j as int) * 65536,
        decreases count - j,
    {
        proof {
            vstd::arithmetic::mul::lemma_mul_inequality(j as int, count as int - 1, stride as int);
            lemma_mul_abs_bound(img.width as int, img.height as int, DIM_LIMIT as int,
                DIM_LIMIT as int);
        }
        let idx: usize = start + j * stride;
        let gb: u8 = gray_byte_at(img, idx);
        let gk: i64 = ((gb as i64) * SCALE) / 255;
        proof {
            lemma_div_pos_is_pos((gb as int) * SCALE, 255);
            lemma_div_is_ordered((gb as int) * SCALE, 255 * (SCALE as int), 255);
        }
        t = t + gk;
        j = j + 1;
    }
    t
}

/// The four corner gray sums: each corner's sum covers the half-nearest
/// segments of its two adjacent edges.
pub open spec fn corner_gray_sums(img: RasterImage) -> (int, int, int, int) {
    let w = img.width as int;
    let h = img.height as int;
    (
        gray_strided(img, 0, 1, w / 2) + gray_strided(img, 0, w, h / 2),
        gray_strided(img, w / 2, 1, w - w / 2) + gray_strided(img, w - 1, w, h / 2),
        gray_strided(img, (h - 1) * w, 1, w / 2) + gray_strided(img, (h / 2) * w, w, h - h / 2),
        gray_strided(img, (h - 1) * w + w / 2, 1, w - w / 2) + gray_strided(
            img,
            w - 1 + (h / 2) * w,
            w,
            h - h / 2,
        ),
    )
}

/// A corner's average brightness relative to the overall corner average,
/// squared (the rebalancing gain of one corner).
pub open spec fn corner_gain(v: int, a: int) -> int {
    let r = tdiv(v * SCALE, a);
    tdiv(r * r, SCALE as int)
}

/// Mean corner brightness of the image (the base the gains divide by).
pub open spec fn corner_base(img: RasterImage) -> int {
    let (s1, s2, s3, s4) = corner_gray_sums(img);
    let w = img.width as int;
    let h = img.height as int;
    let v1 = tdiv(2 * s1, w + h);
    let v2 = tdiv(2 * s2, w + h);
    let v3 = tdiv(2 * s3, w + h);
    let v4 = tdiv(2 * s4, w + h);
    tdiv(v1 + v2 + v3 + v4, 4)
}

/// Balance the brightness of the image corners: estimate each corner's
/// average brightness from the pixels along its two adjacent half-edges,
/// and divide every pixel by the interpolated squared relative brightness.
/// Only approaches a balanced image; repeating sharpens it.
///
/// An entirely black boundary gives no base to balance against; the image
/// is then returned unchanged.
#[verifier::rlimit(100)]
pub fn corner_flatten(image_data: &RasterImage) -> (out: RasterImage)
    requires
        raster_wf(*image_data),
    ensures
        raster_wf(out),
        out.width == image_data.width,
        out.height == image_data.height,
        out.rgba@.len() == image_data.rgba@.len(),
        corner_base(*image_data) <= 0 ==> out.rgba@ == image_data.rgba@,
        corner_base(*image_data) > 0 ==> {
            let (s1, s2, s3, s4) = corner_gray_sums(*image_data);
            let w = image_data.width as int;
            let h = image_data.height as int;
            let a = corner_base(*image_data);
            forall|p: int|
                0 <= p < image_data.width * image_data.height ==> {
                    let rel = blend_rel(
                        corner_gain(tdiv(2 * s1, w + h), a),
                        corner_gain(tdiv(2 * s2, w + h), a),
                        corner_gain(tdiv(2 * s3, w + h), a),
                        corner_gain(tdiv(2 * s4, w + h), a),
                        ((p % w) * SCALE) / w,
                        ((p / w) * SCALE) / h,
                    );
                    &&& #[trigger] out.rgba@[4 * p] == tilted_byte(
                        image_data.rgba@[4 * p] as int,
                        rel,
                    )
                    &&& out.rgba@[4 * p + 1] == tilted_byte(image_data.rgba@[4 * p + 1] as int, rel)
                    &&& out.rgba@[4 * p + 2] == tilted_byte(image_data.rgba@[4 * p + 2] as int, rel)
                    &&& out.rgba@[4 * p + 3] == image_data.rgba@[4 * p + 3]
                }
        },
{
    let w = image_data.width;
    let h = image_data.height;
    proof {
        lemma_mul_abs_bound(w as int, h as int, DIM_LIMIT as int, DIM_LIMIT as int);
        assert((h as int) <= (w as int) * (h as int) && (w as int) <= (w as int) * (h as int))
            by (nonlinear_arith)
            requires
                1 <= w as int,
                1 <= h as int,
        ;
        assert(((h as int) - 1) * (w as int) + (w as int) == (h as int) * (w as int) && ((
        h as int)) * (w as int) == (w as int) * (h as int)) by (nonlinear_arith);
        assert(((h as int) / 2) * (w as int) + ((h as int) - (h as int) / 2 - 1) * (w as int) + (
        w as int) == (h as int) * (w as int)) by (nonlinear_arith);
        assert(((h as int) / 2 - 1) * (w as int) + (w as int) <= ((h as int)) * (w as int))
            by (nonlinear_arith)
            requires
                1 <= h as int,
                1 <= w as int,
        ;
    }
    let wl: usize = w / 2;
    let hl: usize = h / 2;
    let s1: i64 = gray_sum_strided(image_data, 0, 1, wl) + gray_sum_strided(image_data, 0, w, hl);
    let s2: i64 = gray_sum_strided(image_data, wl, 1, w - wl) + gray_sum_strided(
        image_data,
        w - 1,
        w,
        hl,
    );
    let s3: i64 = gray_sum_strided(image_data, (h - 1) * w, 1, wl) + gray_sum_strided(
        image_data,
        hl * w,
        w,
        h - hl,
    );
    let s4: i64 = gray_sum_strided(image_data, (h - 1) * w + wl, 1, w - wl) + gray_sum_strided(
        image_data,
        w - 1 + hl * w,
        w,
        h - hl,
    );
    let v1: i64 = corner_value(s1, w, h);
    let v2: i64 = corner_value(s2, w, h);
    let v3: i64 = corner_value(s3, w, h);
    let v4: i64 = corner_value(s4, w, h);
    let a: i64 = (v1 + v2 + v3 + v4) / 4;
    proof {
        lemma_div_pos_is_pos((v1 + v2 + v3 + v4) as int, 4);
    }
    if a <= 0 {
        return copy_raster(image_data);
    }
    let g1: i64 = gain(v1, a);
    let g2: i64 = gain(v2, a);
    let g3: i64 = gain(v3, a);
    let g4: i64 = gain(v4, a);
    proof {
        assert(v1 + v2 + v3 + v4 <= 4 * a + 3);
    }
    brightness_tilt(image_data, g1, g2, g3, g4)
}

/// One corner's mean brightness: twice its gray sum over the total length
/// of its two half-edges.
fn corner_value(s: i64, w: usize, h: usize) -> (v: i64)
    requires
        0 <= s <= 0x2_0000 * 65536,
        1 <= w,
        1 <= h,
        w + h <= 0x1_0000_0000,
    ensures
        v == tdiv(2 * s, (w + h) as int),
        0 <= v,
{
    let q: i128 = tdiv_i128(2 * (s as i128), (w as i128) + (h as i128));
    proof {
        crate::arith::lemma_tdiv_sign(2 * (s as int), (w + h) as int);
        lemma_tdiv_shrinks(2 * (s as int), (w + h) as int);
    }
    q as i64
}

/// A corner's squared relative brightness, bounded by a factor of 49.
fn gain(v: i64, a: i64) -> (g: i64)
    requires
        1 <= a,
        0 <= v,
        v <= 4 * a + 3,
    ensures
        g == corner_gain(v as int, a as int),
        0 <= g <= 49 * SCALE,
{
    proof {
        assert((v as int) * SCALE <= (7 * SCALE) * (a as int)) by (nonlinear_arith)
            requires
                0 <= v as int,
                1 <= a as int,
                v as int <= 4 * (a as int) + 3,
                SCALE == 65536,
        ;
        assert((v as int) * SCALE >= 0) by (nonlinear_arith)
            requires
                0 <= v as int,
                SCALE == 65536,
        ;
        lemma_tdiv_bound((v as int) * SCALE, a as int, 7 * SCALE);
        crate::arith::lemma_tdiv_sign((v as int) * SCALE, a as int);
    }
    let r: i128 = tdiv_i128((v as i128) * (SCALE as i128), a as i128);
    proof {
        assert((r as int) * (r as int) <= (49 * SCALE) * (SCALE as int) && 0 <= (r as int) * (
        r as int)) by (nonlinear_arith)
            requires
                0 <= r as int,
                r as int <= 7 * SCALE,
                SCALE == 65536,
        ;
        lemma_tdiv_bound((r as int) * (r as int), SCALE as int, 49 * SCALE);
        crate::arith::lemma_tdiv_sign((r as int) * (r as int), SCALE as int);
    }
    let g: i128 = tdiv_i128(r * r, SCALE as i128);
    g as i64
}

/// An exact copy of a raster, byte by byte.
fn copy_raster(img: &RasterImage) -> (out: RasterImage)
    requires
        raster_wf(*img),
    ensures
        raster_wf(out),
        out.width == img.width,
        out.height == img.height,
        out.rgba@ == img.rgba@,
{
    let n = img.rgba.len();
    let mut rgba: Vec<u8> = Vec::new();
    let mut i: usize = 0;
    while i < n
        invariant
            i <= n,
            n == img.rgba@.len(),
            rgba@.len() == i,
            forall|j: int| 0 <= j < i ==> #[trigger] rgba@[j] == img.rgba@[j],
        decreases n - i,
    {
        let b = img.rgba[i];
        rgba.push(b);
        i = i + 1;
    }
    proof {
        assert(rgba@ =~= img.rgba@);
    }
    RasterImage { width: img.width, height: img.height, rgba }
}

/// The weighted brightness of quadrant `q` (0 = upper left, 1 = upper
/// right, 2 = lower left, 3 = lower right), summed over its first `j`
/// pixels: each gray level is weighted by its distance from the image
/// corner the quadrant touches.
pub open spec fn quad_weight(img: RasterImage, q: int, j: int) -> int
    decreases j,
{
    if j <= 0 {
        0
    } else {
        let w = img.width as int;
        let qw = w / 2;
        let qh = (img.height as int) / 2;
        let x = (j - 1) % qw;
        let y = (j - 1) / qw;
        let basex = if q % 2 == 1 {
            qw
        } else {
            0
        };
        let basey = if q >= 2 {
            qh
        } else {
            0
        };
        let dx = if q % 2 == 0 {
            x
        } else {
            qw - 1 - x
        };
        let dy = if q < 2 {
            y
        } else {
            qh - 1 - y
        };
        let p = (basey + y) * w + basex + x;
        quad_weight(img, q, j - 1) + (dx + dy) * luma_byte(
            img.rgba@[4 * p] as int,
            img.rgba@[4 * p + 1] as int,
            img.rgba@[4 * p + 2] as int,
        )
    }
}

/// Total weighted brightness over the four quadrants.
pub open spec fn quad_total(img: RasterImage) -> int {
    let n = ((img.width as int) / 2) * ((img.height as int) / 2);
    quad_weight(img, 0, n) + quad_weight(img, 1, n) + quad_weight(img, 2, n) + quad_weight(
        img,
        3,
        n,
    )
}

/// The weighted brightness of one whole quadrant.
fn quad_weight_exec(img: &RasterImage, q: usize) -> (t: i64)
    requires
        raster_wf(*img),
        q < 4,
        img.width / 2 >= 1,
        img.height / 2 >= 1,
    ensures
        t == quad_weight(*img, q as int, ((img.width as int) / 2) * ((img.height as int) / 2)),
        0 <= t <= 0x8_0000_0000_0000,
{
    let w = img.width;
    let qw: usize = w / 2;
    let qh: usize = img.height / 2;
    proof {
        lemma_mul_abs_bound(qw as int, qh as int, 8192, 8192);
    }
    let n: usize = qw * qh;
    let mut t: i64 = 0;
    let mut j: usize = 0;
    while j < n
        invariant
            j <= n,
            raster_wf(*img),
            q < 4,
            w == img.width,
            qw == img.width / 2,
            qh == img.height / 2,
            1 <= qw <= 8192,
            1 <= qh <= 8192,
            n == qw * qh,
            t == quad_weight(*img, q as int, j as int),
            0 <= t <= (j as int) * 0x80_0000,
        decreases n - j,
    {
        let x: usize = j % qw;
        let y: usize = j / qw;
        proof {
            assert((y as int) < (qh as int)) by (nonlinear_arith)
                requires
                    y as int == (j as int) / (qw as int),
                    (j as int) < (qw as int) * (qh as int),
                    qw as int >= 1,
                    qh as int >= 1,
            ;
            lemma_mul_abs_bound(img.width as int, img.height as int, DIM_LIMIT as int,
                DIM_LIMIT as int);
        }
        let basex: usize = if q % 2 == 1 {
            qw
        } else {
            0
        };
        let basey: usize = if q >= 2 {
            qh
        } else {
            0
        };
        let dx: usize = if q % 2 == 0 {
            x
        } else {
            qw - 1 - x
        };
        let dy: usize = if q < 2 {
            y
        } else {
            qh - 1 - y
        };
        proof {
            assert(((basey as int) + (y as int)) * (w as int) + (basex as int) + (x as int) < (
            w as int) * (img.height as int)) by (nonlinear_arith)
                requires
                    basey as int <= (img.height as int) / 2,
                    basex as int <= (w as int) / 2,
                    0 <= x as int && (x as int) < (w as int) / 2,
                    0 <= y as int && (y as int) < (img.height as int) / 2,
                    1 <= w as int,
                    1 <= img.height as int,
            ;
        }
        let pi: usize = (basey + y) * w + basex + x;
        let gb: u8 = gray_byte_at(img, pi);
        proof {
            lemma_mul_abs_bound((dx + dy) as int, gb as int, 16384, 255);
            lemma_mul_abs_bound(qw as int, qh as int, 8192, 8192);
        }
        let term: i64 = ((dx + dy) as i64) * (gb as i64);
        t = t + term;
        j = j + 1;
    }
    t
}

/// Balance the brightness around the image corners, weighting each pixel
/// by its distance to the nearest corner, and divide every pixel by the
/// interpolated relative weight. Only approaches a balanced image;
/// repeating sharpens it.
///
/// An image too small to hold four quadrants, or an entirely black one,
/// has nothing to balance and is returned unchanged.
pub fn corner_weight_flatten(image_data: &RasterImage) -> (out: RasterImage)
    requires
        raster_wf(*image_data),
    ensures
        raster_wf(out),
        out.width == image_data.width,
        out.height == image_data.height,
        out.rgba@.len() == image_data.rgba@.len(),
        (image_data.width < 2 || image_data.height < 2 || quad_total(*image_data) <= 0)
            ==> out.rgba@ == image_data.rgba@,
        !(image_data.width < 2 || image_data.height < 2 || quad_total(*image_data) <= 0) ==> {
            let w = image_data.width as int;
            let h = image_data.height as int;
            let n = (w / 2) * (h / 2);
            let total = quad_total(*image_data);
            forall|p: int|
                0 <= p < image_data.width * image_data.height ==> {
                    let rel = blend_rel(
                        tdiv(4 * quad_weight(*image_data, 0, n) * SCALE, total),
                        tdiv(4 * quad_weight(*image_data, 1, n) * SCALE, total),
                        tdiv(4 * quad_weight(*image_data, 2, n) * SCALE, total),
                        tdiv(4 * quad_weight(*image_data, 3, n) * SCALE, total),
                        ((p % w) * SCALE) / w,
                        ((p / w) * SCALE) / h,
                    );
                    &&& #[trigger] out.rgba@[4 * p] == tilted_byte(
                        image_data.rgba@[4 * p] as int,
                        rel,
                    )
                    &&& out.rgba@[4 * p + 1] == tilted_byte(image_data.rgba@[4 * p + 1] as int, rel)
                    &&& out.rgba@[4 * p + 2] == tilted_byte(image_data.rgba@[4 * p + 2] as int, rel)
                    &&& out.rgba@[4 * p + 3] == image_data.rgba@[4 * p + 3]
                }
        },
{
    if image_data.width < 2 || image_data.height < 2 {
        return copy_raster(image_data);
    }
    let w0 = quad_weight_exec(image_data, 0);
    let w1 = quad_weight_exec(image_data, 1);
    let w2 = quad_weight_exec(image_data, 2);
    let w3 = quad_weight_exec(image_data, 3);
    let total: i64 = w0 + w1 + w2 + w3;
    if total <= 0 {
        return copy_raster(image_data);
    }
    let f0 = weight_factor(w0, total);
    let f1 = weight_factor(w1, total);
    let f2 = weight_factor(w2, total);
    let f3 = weight_factor(w3, total);
    brightness_tilt(image_data, f0, f1, f2, f3)
}

/// One quadrant's weight relative to the average quadrant weight.
fn weight_factor(wq: i64, total: i64) -> (f: i64)
    requires
        0 <= wq <= total,
        1 <= total <= 0x20_0000_0000_0000,
    ensures
        f == tdiv(4 * wq * SCALE, total as int),
        0 <= f <= 4 * SCALE,
{
    proof {
        assert(0 <= 4 * (wq as int) * SCALE <= (4 * SCALE) * (total as int)) by (nonlinear_arith)
            requires
                0 <= wq as int,
                wq as int <= total as int,
                SCALE == 65536,
        ;
        lemma_tdiv_bound(4 * (wq as int) * SCALE, total as int, 4 * SCALE);
        crate::arith::lemma_tdiv_sign(4 * (wq as int) * SCALE, total as int);
    }
    let f: i128 = tdiv_i128(4 * (wq as i128) * (SCALE as i128), total as i128);
    f as i64
}

/// Generate an albedo map: average the photographs pixel by pixel, then
/// rebalance the brightness around the corners for `passes` rounds.
///
/// Returns `None` exactly when no image is supplied.
pub fn generate_albedo(images: &Vec<RasterImage>, passes: usize) -> (r: Option<RasterImage>)
    requires
        images@.len() <= 0x1_0000,
        forall|k: int| 0 <= k < images@.len() ==> raster_wf(#[trigger] images@[k]),
        forall|k: int|
            0 <= k < images@.len() ==> (#[trigger] images@[k]).width == images@[0].width
                && images@[k].height == images@[0].height,
    ensures
        (r is None) <==> images@.len() == 0,
        r matches Some(out) ==> raster_wf(out) && out.width == images@[0].width && out.height
            == images@[0].height,
{
    let mut img = match average(images) {
        None => {
            return None;
        },
        Some(a) => a,
    };
    let mut pass: usize = 0;
    while pass < passes
        invariant
            raster_wf(img),
            images@.len() >= 1,
            img.width == images@[0].width,
            img.height == images@[0].height,
        decreases passes - pass,
    {
        img = corner_weight_flatten(&img);
        pass = pass + 1;
    }
    Some(img)
}

} // verus!
