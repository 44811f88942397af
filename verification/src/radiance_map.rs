//! Radiance samples: one input photograph's per-pixel luminance together
//! with its current lighting-direction estimate.
//!
//! Luminance is fixed-point: a brightness in `[0, 1]` is stored as an
//! integer in `[0, SCALE]`.

use vstd::arithmetic::div_mod::{lemma_div_is_ordered, lemma_div_pos_is_pos};
use vstd::prelude::*;

use crate::arith::{lemma_tdiv_shrinks, tdiv, tdiv_i128, SCALE};
use crate::vec3::{camera_axis, camera_axis_s, is_unit, Vec3};

verus! {

/// Largest accepted image width or height.
pub const DIM_LIMIT: usize = 16384;

/// Holds one photograph's brightness data and its estimated lighting
/// direction. `radiance` is row-major, one fixed-point value per pixel.
pub struct RadianceMap {
    pub lighting_direction: Vec3,
    pub width: usize,
    pub height: usize,
    pub radiance: Vec<i64>,
}

/// Well-formedness of one sample: plausible dimensions, one luminance value
/// in `[0, SCALE]` per pixel, and a unit lighting direction.
pub open spec fn radiance_wf(m: RadianceMap) -> bool {
    &&& 1 <= m.width <= DIM_LIMIT
    &&& 1 <= m.height <= DIM_LIMIT
    &&& m.radiance@.len() == m.width * m.height
    &&& forall|i: int| 0 <= i < m.radiance@.len() ==> 0 <= #[trigger] m.radiance@[i] <= SCALE
    &&& is_unit(m.lighting_direction)
}

/// Well-formedness of a whole sample set: at least one sample, all of the
/// same dimensions.
pub open spec fn samples_wf(maps: Seq<RadianceMap>, w: int, h: int) -> bool {
    &&& maps.len() >= 1
    &&& forall|k: int| 0 <= k < maps.len() ==> radiance_wf(#[trigger] maps[k])
    &&& forall|k: int| 0 <= k < maps.len() ==> (#[trigger] maps[k]).width == w && maps[k].height
        == h
}

/// The fixed-point luminance of one 8-bit grayscale value.
pub open spec fn luma_fixed(b: int) -> int {
    (b * SCALE) / 255
}

impl RadianceMap {
    /// Build a radiance sample from an 8-bit grayscale raster, with the
    /// camera axis as the initial lighting direction.
    ///
    /// Returns `None` exactly when the dimensions are out of range or do
    /// not match the raster length.
    pub fn from_luma(width: usize, height: usize, luma: &Vec<u8>) -> (r: Option<RadianceMap>)
        ensures
            (r is None) <==> !(1 <= width <= DIM_LIMIT && 1 <= height <= DIM_LIMIT && luma@.len()
                == width * height),
            r matches Some(m) ==> {
                &&& radiance_wf(m)
                &&& m.width == width
                &&& m.height == height
                &&& m.lighting_direction == camera_axis_s()
                &&& forall|i: int|
                    0 <= i < luma@.len() ==> #[trigger] m.radiance@[i] == luma_fixed(
                        luma@[i] as int,
                    )
            },
    {
        if width < 1 || width > DIM_LIMIT || height < 1 || height > DIM_LIMIT {
            return None;
        }
        proof {
            crate::vec3::lemma_mul_abs_bound(width as int, height as int, 16384, 16384);
        }
        let npix: usize = width * height;
        if luma.len() != npix {
            return None;
        }
        let mut radiance: Vec<i64> = Vec::new();
        let mut i: usize = 0;
        while i < npix
            invariant
                i <= npix,
                npix == luma@.len(),
                radiance@.len() == i,
                forall|j: int|
                    0 <= j < i ==> #[trigger] radiance@[j] == luma_fixed(luma@[j] as int),
                forall|j: int| 0 <= j < i ==> 0 <= #[trigger] radiance@[j] <= SCALE,
            decreases npix - i,
        {
            let b: u8 = luma[i];
            let v: i64 = ((b as i64) * SCALE) / 255;
            proof {
                lemma_div_pos_is_pos((b as int) * SCALE, 255);
                lemma_div_is_ordered((b as int) * SCALE, 255 * (SCALE as int), 255);
            }
            radiance.push(v);
            i = i + 1;
        }
        Some(
            RadianceMap {
                lighting_direction: camera_axis(),
                width,
                height,
                radiance,
            },
        )
    }

    /// The byte a fixed-point luminance is written out as: scaled to
    /// `[0, 256)` and saturated at 255.
    pub open spec fn export_byte(v: int) -> int {
        if v / 256 > 255 {
            255
        } else {
            v / 256
        }
    }

    /// The raster bytes of this sample: each luminance becomes one gray
    /// level, repeated over the three color channels.
    pub fn export_bytes(&self) -> (out: Vec<u8>)
        requires
            radiance_wf(*self),
        ensures
            out@.len() == 3 * self.radiance@.len(),
            forall|i: int|
                0 <= i < self.radiance@.len() ==> #[trigger] out@[3 * i] == Self::export_byte(
                    self.radiance@[i] as int,
                ) && out@[3 * i + 1] == Self::export_byte(self.radiance@[i] as int) && out@[3 * i
                + 2] == Self::export_byte(self.radiance@[i] as int),
    {
        let n = self.radiance.len();
        let mut out: Vec<u8> = Vec::new();
        let mut i: usize = 0;
        while i < n
            invariant
                i <= n,
                n == self.radiance@.len(),
                radiance_wf(*self),
                out@.len() == 3 * i,
                forall|j: int|
                    0 <= j < i ==> #[trigger] out@[3 * j] == Self::export_byte(
                        self.radiance@[j] as int,
                    ) && out@[3 * j + 1] == Self::export_byte(self.radiance@[j] as int) && out@[3
                        * j + 2] == Self::export_byte(self.radiance@[j] as int),
            decreases n - i,
        {
            let v: i64 = self.radiance[i];
            proof {
                lemma_div_pos_is_pos(v as int, 256);
            }
            let q: i64 = ((v as u64) / 256) as i64;
            let b: u8 = if q > 255 {
                255
            } else {
                q as u8
            };
            out.push(b);
            out.push(b);
            out.push(b);
            proof {
                assert(0 <= self.radiance@[i as int] <= SCALE);
                assert(b as int == Self::export_byte(self.radiance@[i as int] as int));
                assert(out@[3 * (i as int)] == b);
                assert(out@[3 * (i as int) + 1] == b);
                assert(out@[3 * (i as int) + 2] == b);
            }
            i = i + 1;
        }
        out
    }
}

/// Total luminance of the first `n` pixels of one sample.
pub open spec fn lum_sum(rs: Seq<i64>, n: int) -> int
    decreases n,
{
    if n <= 0 {
        0
    } else {
        lum_sum(rs, n - 1) + rs[n - 1]
    }
}

/// Total luminance of the first `k` samples.
pub open spec fn total_lum(maps: Seq<RadianceMap>, k: int) -> int
    decreases k,
{
    if k <= 0 {
        0
    } else {
        total_lum(maps, k - 1) + lum_sum(maps[k - 1].radiance@, maps[k - 1].radiance@.len() as int)
    }
}

/// The luminance a pixel gets after balancing: scaled by the ratio of the
/// global average to the sample's own average, saturated into `[0, SCALE]`.
/// A sample with no light at all is left unchanged.
pub open spec fn balanced_value(v: int, total: int, k: int, own: int) -> int {
    if own <= 0 {
        v
    } else {
        let q = tdiv(v * total, k * own);
        if q > SCALE {
            SCALE as int
        } else {
            q
        }
    }
}

/// Rescale each sample's luminance so all samples share the same average
/// brightness; the lighting directions and dimensions are kept.
pub fn balance_radiances(radiance_maps: &Vec<RadianceMap>) -> (out: Vec<RadianceMap>)
    requires
        samples_wf(radiance_maps@, radiance_maps@[0].width as int, radiance_maps@[0].height as int),
        radiance_maps@.len() <= 65536,
    ensures
        out@.len() == radiance_maps@.len(),
        forall|k: int|
            0 <= k < out@.len() ==> {
                let m = #[trigger] radiance_maps@[k];
                let b = out@[k];
                &&& b.width == m.width
                &&& b.height == m.height
                &&& b.lighting_direction == m.lighting_direction
                &&& b.radiance@.len() == m.radiance@.len()
                &&& forall|i: int|
                    0 <= i < m.radiance@.len() ==> #[trigger] b.radiance@[i] == balanced_value(
                        m.radiance@[i] as int,
                        total_lum(radiance_maps@, radiance_maps@.len() as int),
                        radiance_maps@.len() as int,
                        lum_sum(m.radiance@, m.radiance@.len() as int),
                    )
            },
        forall|k: int| 0 <= k < out@.len() ==> radiance_wf(#[trigger] out@[k]),
{
    let kk = radiance_maps.len();
    let ghost gmaps = radiance_maps@;

    // Total luminance over all samples.
    let mut total: i64 = 0;
    let mut k: usize = 0;
    while k < kk
        invariant
            k <= kk,
            kk == gmaps.len() <= 65536,
            gmaps == radiance_maps@,
            samples_wf(gmaps, gmaps[0].width as int, gmaps[0].height as int),
            total == total_lum(gmaps, k as int),
            0 <= total <= (k as int) * 0x1000_0000_0000,
        decreases kk - k,
    {
        let m = &radiance_maps[k];
        let n = m.radiance.len();
        proof {
            crate::vec3::lemma_mul_abs_bound(m.width as int, m.height as int, 16384, 16384);
        }
        let mut s: i64 = 0;
        let mut i: usize = 0;
        while i < n
            invariant
                i <= n,
                n == m.radiance@.len() <= 0x1_0000_0000,
                radiance_wf(*m),
                s == lum_sum(m.radiance@, i as int),
                0 <= s <= (i as int) * 0x1_0000,
            decreases n - i,
        {
            s = s + m.radiance[i];
            i = i + 1;
        }
        total = total + s;
        k = k + 1;
    }

    // Rescale every sample against the global total.
    let mut out: Vec<RadianceMap> = Vec::new();
    let mut k: usize = 0;
    while k < kk
        invariant
            k <= kk,
            kk == gmaps.len() <= 65536,
            gmaps == radiance_maps@,
            samples_wf(gmaps, gmaps[0].width as int, gmaps[0].height as int),
            total == total_lum(gmaps, kk as int),
            0 <= total <= (kk as int) * 0x1000_0000_0000,
            out@.len() == k,
            forall|j: int|
                0 <= j < k ==> {
                    let m = #[trigger] gmaps[j];
                    let b = out@[j];
                    &&& b.width == m.width
                    &&& b.height == m.height
                    &&& b.lighting_direction == m.lighting_direction
                    &&& b.radiance@.len() == m.radiance@.len()
                    &&& forall|i: int|
                        0 <= i < m.radiance@.len() ==> #[trigger] b.radiance@[i]
                            == balanced_value(
                            m.radiance@[i] as int,
                            total_lum(gmaps, gmaps.len() as int),
                            gmaps.len() as int,
                            lum_sum(m.radiance@, m.radiance@.len() as int),
                        )
                },
            forall|j: int| 0 <= j < k ==> radiance_wf(#[trigger] out@[j]),
        decreases kk - k,
    {
        let m = &radiance_maps[k];
        let n = m.radiance.len();
        proof {
            crate::vec3::lemma_mul_abs_bound(m.width as int, m.height as int, 16384, 16384);
        }
        let mut own: i64 = 0;
        let mut i: usize = 0;
        while i < n
            invariant
                i <= n,
                n == m.radiance@.len() <= 0x1_0000_0000,
                radiance_wf(*m),
                own == lum_sum(m.radiance@, i as int),
                0 <= own <= (i as int) * 0x1_0000,
            decreases n - i,
        {
            own = own + m.radiance[i];
            i = i + 1;
        }
        let mut vals: Vec<i64> = Vec::new();
        let mut i: usize = 0;
        while i < n
            invariant
                i <= n,
                n == m.radiance@.len() <= 0x1_0000_0000,
                radiance_wf(*m),
                own == lum_sum(m.radiance@, n as int),
                0 <= own <= 0x1000_0000_0000,
                0 <= total <= (kk as int) * 0x1000_0000_0000,
                1 <= kk <= 65536,
                vals@.len() == i,
                forall|j: int|
                    0 <= j < i ==> #[trigger] vals@[j] == balanced_value(
                        m.radiance@[j] as int,
                        total as int,
                        kk as int,
                        own as int,
                    ),
                forall|j: int| 0 <= j < i ==> 0 <= #[trigger] vals@[j] <= SCALE,
            decreases n - i,
        {
            let v: i64 = m.radiance[i];
            proof {
                assert(0 <= m.radiance@[i as int] <= SCALE);
            }
            let b: i64 = if own <= 0 {
                v
            } else {
                proof {
                    crate::vec3::lemma_mul_abs_bound(
                        v as int,
                        total as int,
                        0x1_0000,
                        0x1000_0000_0000_0000,
                    );
                    crate::vec3::lemma_mul_abs_bound(
                        kk as int,
                        own as int,
                        0x1_0000,
                        0x1000_0000_0000,
                    );
                    assert((kk as int) * (own as int) >= 1 * 1) by (nonlinear_arith)
                        requires
                            kk as int >= 1,
                            own as int >= 1,
                    ;
                    assert((v as int) * (total as int) >= 0) by (nonlinear_arith)
                        requires
                            v as int >= 0,
                            total as int >= 0,
                    ;
                }
                let num: i128 = (v as i128) * (total as i128);
                let den: i128 = (kk as i128) * (own as i128);
                proof {
                    lemma_tdiv_shrinks(num as int, den as int);
                }
                let q: i128 = tdiv_i128(num, den);
                if q > SCALE as i128 {
                    SCALE
                } else {
                    q as i64
                }
            };
            vals.push(b);
            i = i + 1;
        }
        out.push(
            RadianceMap {
                lighting_direction: m.lighting_direction,
                width: m.width,
                height: m.height,
                radiance: vals,
            },
        );
        k = k + 1;
    }
    out
}

} // verus!
