//! The similarity engine: a whole-image, single-window structural
//! similarity (SSIM) score between two canonical images.
//!
//! Both images are resized to their common minimum dimensions, converted
//! to single-channel luma, and compared through the global mean, variance
//! and covariance of luma intensities combined by the standard SSIM
//! formula with stabilizing constants `c1 = (0.01 * 255)^2` and
//! `c2 = (0.03 * 255)^2`. The score is computed in exact fixed-point
//! arithmetic, scaled by 10000: a score of 10000 stands for 1.0.

use vstd::prelude::*;
use vstd::arithmetic::div_mod::{
    lemma_div_by_multiple, lemma_div_is_ordered, lemma_div_is_ordered_by_denominator,
    lemma_div_multiples_vanish, lemma_div_pos_is_pos, lemma_fundamental_div_mod,
    lemma_fundamental_div_mod_converse, lemma_mod_bound,
};

use crate::error::AppError;
use crate::image::{aspect_differs, aspect_ratio_differs, CanonicalImage, MAX_PIXELS};

verus! {

/// What `image::imageops::resize` with the Lanczos3 filter makes of an RGB
/// buffer, for given source and target dimensions.
pub uninterp spec fn resize_of(p: Seq<u8>, w: u32, h: u32, tw: u32, th: u32) -> Seq<u8>;

/// Relies on `ImageBuffer::from_raw`, `DynamicImage::resize_exact` with
/// `FilterType::Lanczos3`, and `ImageBuffer::into_raw`: resampling is a
/// pure function of the pixels and the dimensions, and the result holds
/// exactly `3 * tw * th` bytes.
#[verifier::external_body]
fn resize_rgb(p: &Vec<u8>, w: u32, h: u32, tw: u32, th: u32) -> (r: Vec<u8>)
    requires
        p@.len() == 3 * w * h,
        1 <= w,
        1 <= h,
        1 <= tw,
        1 <= th,
    ensures
        r@ == resize_of(p@, w, h, tw, th),
        r@.len() == 3 * tw * th,
{
    let buf: image::RgbImage = image::ImageBuffer::from_raw(w, h, p.clone()).unwrap();
    let resized = image::DynamicImage::ImageRgb8(buf).resize_exact(
        tw,
        th,
        image::imageops::FilterType::Lanczos3,
    );
    resized.to_rgb8().into_raw()
}

/// What `DynamicImage::to_luma8` makes of an RGB buffer: one luma byte per
/// pixel, each a function of that pixel's three channel bytes alone.
pub uninterp spec fn luma_of(p: Seq<u8>) -> Seq<u8>;

/// Relies on `ImageBuffer::from_raw`, `DynamicImage::to_luma8` and
/// `ImageBuffer::into_raw`: the conversion maps each RGB pixel to its luma
/// value independently, so the result is a function of the pixel bytes,
/// with one byte per pixel.
#[verifier::external_body]
fn rgb_to_luma(p: &Vec<u8>, w: u32, h: u32) -> (r: Vec<u8>)
    requires
        p@.len() == 3 * w * h,
        1 <= w,
        1 <= h,
    ensures
        r@ == luma_of(p@),
        r@.len() == p@.len() / 3,
{
    let buf: image::RgbImage = image::ImageBuffer::from_raw(w, h, p.clone()).unwrap();
    image::DynamicImage::ImageRgb8(buf).to_luma8().into_raw()
}

/// The sum of the bytes of a luma buffer.
pub open spec fn sum_seq(l: Seq<u8>) -> int
    decreases l.len(),
{
    if l.len() == 0 {
        0
    } else {
        sum_seq(l.drop_last()) + l.last()
    }
}

/// The sum of the squared bytes of a luma buffer.
pub open spec fn sum_sq(l: Seq<u8>) -> int
    decreases l.len(),
{
    if l.len() == 0 {
        0
    } else {
        sum_sq(l.drop_last()) + (l.last() as int) * (l.last() as int)
    }
}

/// The sum of the pointwise products of two luma buffers.
pub open spec fn sum_prod(a: Seq<u8>, b: Seq<u8>) -> int
    decreases a.len(),
{
    if a.len() == 0 || b.len() == 0 {
        0
    } else {
        sum_prod(a.drop_last(), b.drop_last()) + (a.last() as int) * (b.last() as int)
    }
}

proof fn lemma_sum_bounds(l: Seq<u8>)
    ensures
        0 <= sum_seq(l) <= 255 * l.len(),
        0 <= sum_sq(l) <= 65025 * l.len(),
    decreases l.len(),
{
    if l.len() > 0 {
        lemma_sum_bounds(l.drop_last());
        assert((l.last() as int) * (l.last() as int) <= 65025) by (nonlinear_arith)
            requires
                l.last() <= 255u8,
        ;
    }
}

proof fn lemma_sum_prod_comm(a: Seq<u8>, b: Seq<u8>)
    ensures
        sum_prod(a, b) == sum_prod(b, a),
    decreases a.len(),
{
    if a.len() > 0 && b.len() > 0 {
        lemma_sum_prod_comm(a.drop_last(), b.drop_last());
        assert((a.last() as int) * (b.last() as int) == (b.last() as int) * (a.last() as int))
            by (nonlinear_arith);
    }
}

proof fn lemma_sum_prod_self(l: Seq<u8>)
    ensures
        sum_prod(l, l) == sum_sq(l),
    decreases l.len(),
{
    if l.len() > 0 {
        lemma_sum_prod_self(l.drop_last());
    }
}

/// For any value v, the spread sum n*v^2 - 2*S*v + Q is a sum of squares.
proof fn lemma_spread(l: Seq<u8>, v: int)
    ensures
        (l.len() as int) * (v * v) - 2 * sum_seq(l) * v + sum_sq(l) >= 0,
    decreases l.len(),
{
    if l.len() == 0 {
        assert((l.len() as int) * (v * v) - 2 * sum_seq(l) * v + sum_sq(l) >= 0)
            by (nonlinear_arith)
            requires
                l.len() as int == 0,
                sum_seq(l) == 0,
                sum_sq(l) == 0,
        ;
    } else {
        lemma_spread(l.drop_last(), v);
        let np = l.drop_last().len() as int;
        let sp = sum_seq(l.drop_last());
        let qp = sum_sq(l.drop_last());
        let u = l.last() as int;
        assert((l.len() as int) * (v * v) - 2 * sum_seq(l) * v + sum_sq(l) >= 0)
            by (nonlinear_arith)
            requires
                np * (v * v) - 2 * sp * v + qp >= 0,
                l.len() as int == np + 1,
                sum_seq(l) == sp + u,
                sum_sq(l) == qp + u * u,
        ;
    }
}

/// The Cauchy-Schwarz bound that makes the variance nonnegative:
/// n * sum(l^2) >= (sum l)^2.
proof fn lemma_cauchy(l: Seq<u8>)
    ensures
        (l.len() as int) * sum_sq(l) >= sum_seq(l) * sum_seq(l),
    decreases l.len(),
{
    if l.len() == 0 {
        assert((l.len() as int) * sum_sq(l) == 0 && sum_seq(l) * sum_seq(l) == 0)
            by (nonlinear_arith)
            requires
                l.len() as int == 0,
                sum_sq(l) == 0,
                sum_seq(l) == 0,
        ;
    } else {
        lemma_cauchy(l.drop_last());
        lemma_spread(l.drop_last(), l.last() as int);
        let np = l.drop_last().len() as int;
        let sp = sum_seq(l.drop_last());
        let qp = sum_sq(l.drop_last());
        let u = l.last() as int;
        assert((np + 1) * (qp + u * u) >= (sp + u) * (sp + u)) by (nonlinear_arith)
            requires
                np * qp >= sp * sp,
                np * (u * u) - 2 * sp * u + qp >= 0,
        ;
        assert(l.len() as int == np + 1 && sum_seq(l) == sp + u && sum_sq(l) == qp + u * u);
        assert((l.len() as int) * sum_sq(l) == (np + 1) * (qp + u * u) && sum_seq(l) * sum_seq(l)
            == (sp + u) * (sp + u)) by (nonlinear_arith)
            requires
                l.len() as int == np + 1,
                sum_seq(l) == sp + u,
                sum_sq(l) == qp + u * u,
        ;
    }
}

/// Floor division ignores an added multiple of the divisor.
proof fn lemma_div_shift_multiple(a: int, k: int, d: int)
    requires
        0 <= a,
        0 < d,
    ensures
        (a + k * d) / d == a / d + k,
{
    lemma_fundamental_div_mod(a, d);
    lemma_mod_bound(a, d);
    assert(a + k * d == (a / d + k) * d + a % d) by (nonlinear_arith)
        requires
            a == d * (a / d) + a % d,
    ;
    lemma_fundamental_div_mod_converse(a + k * d, d, a / d + k, a % d);
}

/// A division whose numerator is bounded by c times the divisor is
/// bounded by c.
proof fn lemma_div_bound_linear(x: int, c: int, n: int)
    requires
        0 <= x,
        x <= c * n,
        0 < n,
        0 <= c,
    ensures
        0 <= x / n <= c,
{
    lemma_div_pos_is_pos(x, n);
    lemma_div_is_ordered(x, c * n, n);
    assert(c * n == n * c) by (nonlinear_arith);
    lemma_div_multiples_vanish(c, n);
}

/// The whole-image single-window SSIM of two luma buffers, in fixed-point
/// arithmetic scaled by 10000.
///
/// With n the common pixel count, S, Q and P the sums of values, squared
/// values and pointwise products: the mean, variance and covariance are
/// scaled by 10000 and rounded down (the covariance through a nonnegative
/// shift), and the SSIM numerator and denominator are combined so that the
/// final score is SSIM * 10000, rounded toward zero for a negative score.
pub open spec fn ssim_scaled(l1: Seq<u8>, l2: Seq<u8>) -> int {
    let n = if l1.len() <= l2.len() {
        l1.len() as int
    } else {
        l2.len() as int
    };
    if n == 0 {
        0
    } else {
        let s1 = sum_seq(l1);
        let s2 = sum_seq(l2);
        let q1 = sum_sq(l1);
        let q2 = sum_sq(l2);
        let pp = sum_prod(l1, l2);
        let m1 = (s1 * 10000) / n;
        let m2 = (s2 * 10000) / n;
        let v1 = ((n * q1 - s1 * s1) * 10000) / (n * n);
        let v2 = ((n * q2 - s2 * s2) * 10000) / (n * n);
        let cs = ((n * pp + 65025 * (n * n) - s1 * s2) * 10000) / (n * n);
        let la = 2 * (m1 * m2) + 650250000;
        let lc = m1 * m1 + m2 * m2 + 650250000;
        let lb = 2 * cs - 1299914775;
        let ld = v1 + v2 + 585225;
        if lb >= 0 {
            ((la * lb) * 10000) / (lc * ld)
        } else {
            -((la * (-lb) * 10000 + (lc * ld) - 1) / (lc * ld))
        }
    }
}

/// SSIM identity: a luma buffer compared with itself scores exactly 1.0
/// (10000 in the scaled form).
pub proof fn lemma_ssim_identity(l: Seq<u8>)
    requires
        1 <= l.len(),
    ensures
        ssim_scaled(l, l) == 10000,
{
    let n = l.len() as int;
    lemma_sum_bounds(l);
    lemma_cauchy(l);
    lemma_sum_prod_self(l);
    let s = sum_seq(l);
    let q = sum_sq(l);
    assert(0 < n * n && n * q <= 65025 * (n * n) && s * s >= 0) by (nonlinear_arith)
        requires
            1 <= n,
            0 <= s,
            q <= 65025 * n,
            0 <= q,
    ;
    let m = (s * 10000) / n;
    let vnum = (n * q - s * s) * 10000;
    assert(vnum >= 0);
    let v = vnum / (n * n);
    lemma_div_pos_is_pos(vnum, n * n);
    // the shifted covariance numerator is the variance numerator plus
    // 650250000 * n^2
    assert((n * q + 65025 * (n * n) - s * s) * 10000 == (n * q - s * s) * 10000 + 650250000 * (n
        * n)) by (nonlinear_arith);
    lemma_div_shift_multiple(vnum, 650250000, n * n);
    let cs = ((n * q + 65025 * (n * n) - s * s) * 10000) / (n * n);
    assert(cs == v + 650250000);
    let la = 2 * (m * m) + 650250000;
    let lc = m * m + m * m + 650250000;
    let ld = v + v + 585225;
    let lb = 2 * cs - 1299914775;
    assert(lb == ld);
    assert(la == lc);
    assert(m * m >= 0) by (nonlinear_arith);
    assert(la >= 1 && ld >= 1);
    let x = la * ld;
    assert(la * ld >= 1) by (nonlinear_arith)
        requires
            la >= 1,
            ld >= 1,
    ;
    lemma_div_by_multiple(10000, x);
    assert((la * lb) * 10000 == 10000 * (la * ld)) by (nonlinear_arith)
        requires
            lb == ld,
    ;
    assert(10000 * x == x * 10000) by (nonlinear_arith);
    assert(((la * lb) * 10000) / (lc * ld) == 10000);
}

/// SSIM symmetry: the score of (a, b) equals the score of (b, a), exactly.
pub proof fn lemma_ssim_symmetric(l1: Seq<u8>, l2: Seq<u8>)
    ensures
        ssim_scaled(l1, l2) == ssim_scaled(l2, l1),
{
    lemma_sum_prod_comm(l1, l2);
    let n = if l1.len() <= l2.len() {
        l1.len() as int
    } else {
        l2.len() as int
    };
    if n != 0 {
        let s1 = sum_seq(l1);
        let s2 = sum_seq(l2);
        let m1 = (s1 * 10000) / n;
        let m2 = (s2 * 10000) / n;
        assert(2 * (m1 * m2) == 2 * (m2 * m1) && m1 * m1 + m2 * m2 == m2 * m2 + m1 * m1 && s1 * s2
            == s2 * s1) by (nonlinear_arith);
    }
}

/// The exact fixed-point SSIM of two equal-length luma buffers.
fn ssim_core(l1: &Vec<u8>, l2: &Vec<u8>) -> (r: i64)
    requires
        l1@.len() == l2@.len(),
        1 <= l1@.len() <= MAX_PIXELS,
    ensures
        r as int == ssim_scaled(l1@, l2@),
{
    let n: u64 = l1.len() as u64;
    let ghost ni: int = n as int;
    let mut s1: u64 = 0;
    let mut s2: u64 = 0;
    let mut q1: u64 = 0;
    let mut q2: u64 = 0;
    let mut pp: u64 = 0;
    let mut i: usize = 0;
    while i < l1.len()
        invariant
            l1@.len() == l2@.len(),
            1 <= l1@.len() <= MAX_PIXELS,
            n == l1@.len(),
            ni == n as int,
            i <= l1@.len(),
            s1 as int == sum_seq(l1@.take(i as int)) && s1 as int <= 255 * (i as int),
            s2 as int == sum_seq(l2@.take(i as int)) && s2 as int <= 255 * (i as int),
            q1 as int == sum_sq(l1@.take(i as int)) && q1 as int <= 65025 * (i as int),
            q2 as int == sum_sq(l2@.take(i as int)) && q2 as int <= 65025 * (i as int),
            pp as int == sum_prod(l1@.take(i as int), l2@.take(i as int)) && pp as int <= 65025 * (
            i as int),
        decreases l1@.len() - i,
    {
        let a = l1[i];
        let b = l2[i];
        proof {
            assert((a as int) * (a as int) <= 65025 && (b as int) * (b as int) <= 65025 && (
            a as int) * (b as int) <= 65025 && 0 <= (a as int) * (b as int)) by (nonlinear_arith)
                requires
                    a <= 255u8,
                    b <= 255u8,
            ;
            assert(l1@.take(i + 1).drop_last() =~= l1@.take(i as int));
            assert(l2@.take(i + 1).drop_last() =~= l2@.take(i as int));
            assert(l1@.take(i + 1).last() == l1@[i as int]);
            assert(l2@.take(i + 1).last() == l2@[i as int]);
        }
        s1 = s1 + a as u64;
        s2 = s2 + b as u64;
        q1 = q1 + (a as u64) * (a as u64);
        q2 = q2 + (b as u64) * (b as u64);
        pp = pp + (a as u64) * (b as u64);
        i = i + 1;
    }
    proof {
        assert(l1@.take(l1@.len() as int) =~= l1@);
        assert(l2@.take(l2@.len() as int) =~= l2@);
        lemma_cauchy(l1@);
        lemma_cauchy(l2@);
    }
    let ghost s1i: int = s1 as int;
    let ghost s2i: int = s2 as int;
    let ghost q1i: int = q1 as int;
    let ghost q2i: int = q2 as int;
    let ghost ppi: int = pp as int;
    proof {
        assert(ni * ni <= 4294967296 * 4294967296 && ni * q1i <= 65025 * (ni * ni) && ni * q2i
            <= 65025 * (ni * ni) && 0 <= ni * ppi && ni * ppi <= 65025 * (ni * ni) && s1i * s2i
            <= 65025 * (ni * ni) && 0 <= s1i * s2i && s1i * s1i <= 65025 * (ni * ni) && s2i * s2i
            <= 65025 * (ni * ni) && 1 <= ni * ni) by (nonlinear_arith)
            requires
                1 <= ni <= 4294967296,
                0 <= s1i <= 255 * ni,
                0 <= s2i <= 255 * ni,
                0 <= q1i <= 65025 * ni,
                0 <= q2i <= 65025 * ni,
                0 <= ppi <= 65025 * ni,
        ;
        assert(ni * q1i >= s1i * s1i && ni * q2i >= s2i * s2i);
    }
    let n1: u128 = n as u128;
    let nn: u128 = n1 * n1;
    let m1v: u128 = ((s1 as u128) * 10000) / n1;
    let m2v: u128 = ((s2 as u128) * 10000) / n1;
    proof {
        lemma_div_bound_linear(s1i * 10000, 2550000, ni);
        lemma_div_bound_linear(s2i * 10000, 2550000, ni);
    }
    let v1num: u128 = n1 * (q1 as u128) - (s1 as u128) * (s1 as u128);
    let v2num: u128 = n1 * (q2 as u128) - (s2 as u128) * (s2 as u128);
    let v1v: u128 = (v1num * 10000) / nn;
    let v2v: u128 = (v2num * 10000) / nn;
    proof {
        lemma_div_bound_linear((ni * q1i - s1i * s1i) * 10000, 650250000, ni * ni);
        lemma_div_bound_linear((ni * q2i - s2i * s2i) * 10000, 650250000, ni * ni);
    }
    let csnum: u128 = n1 * (pp as u128) + 65025 * nn - (s1 as u128) * (s2 as u128);
    let csv: u128 = (csnum * 10000) / nn;
    proof {
        assert((ni * ppi + 65025 * (ni * ni) - s1i * s2i) * 10000 <= 1300500000 * (ni * ni) && 0
            <= (ni * ppi + 65025 * (ni * ni) - s1i * s2i) * 10000) by (nonlinear_arith)
            requires
                0 <= ni * ppi,
                ni * ppi <= 65025 * (ni * ni),
                0 <= s1i * s2i,
                s1i * s2i <= 65025 * (ni * ni),
                0 <= ni * ni,
        ;
        lemma_div_bound_linear((ni * ppi + 65025 * (ni * ni) - s1i * s2i) * 10000, 1300500000, ni
            * ni);
    }
    proof {
        assert(0 <= (m1v as int) * (m2v as int) && (m1v as int) * (m2v as int) <= 6502500000000
            && 0 <= (m1v as int) * (m1v as int) && (m1v as int) * (m1v as int) <= 6502500000000
            && 0 <= (m2v as int) * (m2v as int) && (m2v as int) * (m2v as int) <= 6502500000000)
            by (nonlinear_arith)
            requires
                0 <= m1v as int <= 2550000,
                0 <= m2v as int <= 2550000,
        ;
    }
    let la: u128 = 2 * (m1v * m2v) + 650250000;
    let lc: u128 = m1v * m1v + m2v * m2v + 650250000;
    let ld: u128 = v1v + v2v + 585225;
    proof {
        assert(380542556250000 <= (lc as int) * (ld as int) && (lc as int) * (ld as int)
            <= 16921459381792556250000) by (nonlinear_arith)
            requires
                650250000 <= lc as int <= 13005650250000,
                585225 <= ld as int <= 1301085225,
        ;
    }
    let den: u128 = lc * ld;
    let tb: u128 = 2 * csv;
    if tb >= 1299914775 {
        let bmag: u128 = tb - 1299914775;
        proof {
            assert(0 <= (la as int) * (bmag as int) * 10000 && (la as int) * (bmag as int) * 10000
                <= 169214593817925562500000000) by (nonlinear_arith)
                requires
                    0 <= la as int <= 13005650250000,
                    0 <= bmag as int <= 1301085225,
            ;
        }
        let num: u128 = (la * bmag) * 10000;
        let q: u128 = num / den;
        proof {
            lemma_div_is_ordered_by_denominator(num as int, 380542556250000, den as int);
            lemma_div_is_ordered(num as int, 169214593817925562500000000, 380542556250000);
            lemma_div_pos_is_pos(num as int, den as int);
        }
        q as i64
    } else {
        let bmag: u128 = 1299914775 - tb;
        proof {
            assert(0 <= (la as int) * (bmag as int) * 10000 && (la as int) * (bmag as int) * 10000
                <= 169062369184574437500000000) by (nonlinear_arith)
                requires
                    0 <= la as int <= 13005650250000,
                    0 <= bmag as int <= 1299914775,
            ;
        }
        let num: u128 = (la * bmag) * 10000;
        let qm: u128 = (num + den - 1) / den;
        proof {
            lemma_div_is_ordered_by_denominator(
                (num + den - 1) as int,
                380542556250000,
                den as int,
            );
            lemma_div_is_ordered(
                (num + den - 1) as int,
                169214593817925562500000000,
                380542556250000,
            );
            lemma_div_pos_is_pos((num + den - 1) as int, den as int);
        }
        -(qm as i64)
    }
}

/// The smaller of two dimensions.
pub open spec fn min_u32(a: u32, b: u32) -> u32 {
    if a <= b {
        a
    } else {
        b
    }
}

/// The similarity score of two canonical images: both are resized to the
/// common minimum dimensions, converted to luma, and compared by the
/// fixed-point SSIM.
pub open spec fn score_spec(aw: u32, ah: u32, ap: Seq<u8>, bw: u32, bh: u32, bp: Seq<u8>) -> int {
    let tw = min_u32(aw, bw);
    let th = min_u32(ah, bh);
    ssim_scaled(
        luma_of(resize_of(ap, aw, ah, tw, th)),
        luma_of(resize_of(bp, bw, bh, tw, th)),
    )
}

/// Bring two images to their common minimum dimensions by Lanczos
/// resampling, so that neither side is over- or under-sampled alone.
pub fn normalize_images(img1: &CanonicalImage, img2: &CanonicalImage) -> (r: (
    CanonicalImage,
    CanonicalImage,
))
    requires
        img1.wf(),
        img2.wf(),
    ensures
        r.0.wf(),
        r.1.wf(),
        r.0.width == min_u32(img1.width, img2.width) && r.1.width == r.0.width,
        r.0.height == min_u32(img1.height, img2.height) && r.1.height == r.0.height,
        r.0.pixels@ == resize_of(img1.pixels@, img1.width, img1.height, r.0.width, r.0.height),
        r.1.pixels@ == resize_of(img2.pixels@, img2.width, img2.height, r.0.width, r.0.height),
{
    let tw = if img1.width <= img2.width {
        img1.width
    } else {
        img2.width
    };
    let th = if img1.height <= img2.height {
        img1.height
    } else {
        img2.height
    };
    proof {
        assert((tw as int) * (th as int) <= (img1.width as int) * (img1.height as int) && 1 <= (
        tw as int) * (th as int)) by (nonlinear_arith)
            requires
                1 <= tw as int <= img1.width as int,
                1 <= th as int <= img1.height as int,
        ;
    }
    let p1 = resize_rgb(&img1.pixels, img1.width, img1.height, tw, th);
    let p2 = resize_rgb(&img2.pixels, img2.width, img2.height, tw, th);
    (
        CanonicalImage { width: tw, height: th, pixels: p1 },
        CanonicalImage { width: tw, height: th, pixels: p2 },
    )
}

/// An image never differs from itself in aspect ratio.
proof fn lemma_aspect_self(w: int, h: int)
    ensures
        !aspect_differs(w, h, w, h),
{
    assert(w * h - w * h == 0 && 0 <= h * h) by (nonlinear_arith);
}

/// The similarity score of two canonical images.
///
/// Images whose aspect ratios differ by more than the tolerance are never
/// scored: they get the distinct `DifferentAspectRatio` error, never a
/// number. An image compared with itself scores exactly 10000 (1.0).
pub fn ssim_score(img1: &CanonicalImage, img2: &CanonicalImage) -> (r: Result<i64, AppError>)
    requires
        img1.wf(),
        img2.wf(),
    ensures
        match r {
            Ok(v) => !aspect_differs(
                img1.width as int,
                img1.height as int,
                img2.width as int,
                img2.height as int,
            ) && v as int == score_spec(
                img1.width,
                img1.height,
                img1.pixels@,
                img2.width,
                img2.height,
                img2.pixels@,
            ),
            Err(e) => aspect_differs(
                img1.width as int,
                img1.height as int,
                img2.width as int,
                img2.height as int,
            ) && e == AppError::DifferentAspectRatio,
        },
        img1.width == img2.width && img1.height == img2.height && img1.pixels@ == img2.pixels@
            ==> r == Ok::<i64, AppError>(10000i64),
{
    proof {
        if img1.width == img2.width && img1.height == img2.height {
            lemma_aspect_self(img1.width as int, img1.height as int);
        }
    }
    if aspect_ratio_differs(img1.width, img1.height, img2.width, img2.height) {
        return Err(AppError::DifferentAspectRatio);
    }
    let (n1, n2) = normalize_images(img1, img2);
    proof {
        vstd::arithmetic::div_mod::lemma_div_multiples_vanish(
            (n1.width as int) * (n1.height as int),
            3,
        );
        assert(3 * ((n1.width as int) * (n1.height as int)) == 3 * (n1.width as int) * (
        n1.height as int)) by (nonlinear_arith);
        assert(1 <= (n1.width as int) * (n1.height as int) <= MAX_PIXELS as int)
            by (nonlinear_arith)
            requires
                1 <= n1.width as int,
                1 <= n1.height as int,
                (n1.width as int) * (n1.height as int) <= MAX_PIXELS as int,
        ;
    }
    let l1 = rgb_to_luma(&n1.pixels, n1.width, n1.height);
    let l2 = rgb_to_luma(&n2.pixels, n2.width, n2.height);
    let score = ssim_core(&l1, &l2);
    proof {
        if img1.width == img2.width && img1.height == img2.height && img1.pixels@
            == img2.pixels@ {
            lemma_ssim_identity(l1@);
        }
    }
    Ok(score)
}

/// SSIM symmetry at the image level: comparing (a, b) and comparing
/// (b, a) give the same score, and the same aspect-ratio decision.
pub proof fn lemma_score_symmetric(aw: u32, ah: u32, ap: Seq<u8>, bw: u32, bh: u32, bp: Seq<u8>)
    ensures
        score_spec(aw, ah, ap, bw, bh, bp) == score_spec(bw, bh, bp, aw, ah, ap),
        aspect_differs(aw as int, ah as int, bw as int, bh as int) == aspect_differs(
            bw as int,
            bh as int,
            aw as int,
            ah as int,
        ),
{
    let tw = min_u32(aw, bw);
    let th = min_u32(ah, bh);
    assert(min_u32(bw, aw) == tw && min_u32(bh, ah) == th);
    lemma_ssim_symmetric(
        luma_of(resize_of(ap, aw, ah, tw, th)),
        luma_of(resize_of(bp, bw, bh, tw, th)),
    );
    assert((aw as int) * (bh as int) - (bw as int) * (ah as int) == -((bw as int) * (ah as int) - (
    aw as int) * (bh as int)) && (ah as int) * (bh as int) == (bh as int) * (ah as int))
        by (nonlinear_arith);
}

} // verus!
