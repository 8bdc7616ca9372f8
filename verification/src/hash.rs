//! The content hasher: a deterministic, sample-able hash of canonical
//! pixel data.
//!
//! The sample fraction is given in parts per thousand of each dimension and
//! must lie in (0, 1000]. A fraction below 1000 hashes only the top-left
//! window of `(width * fraction, height * fraction)` pixels, trading a
//! small false-negative risk for bounded cost; 1000 hashes the full
//! canonical RGB buffer.

use vstd::prelude::*;
use vstd::arithmetic::div_mod::lemma_fundamental_div_mod_converse;
use vstd::string::StringSliceAdditionalSpecFns;

use crate::error::AppError;
use crate::image::{
    str_bytes, dims_ok, decoded_rgb_of, orientation_of_bytes, oriented_pixels, oriented_width,
    oriented_height, pixel_byte, CanonicalImage, Image,
};
use crate::paths::{extension_lower, is_heic_ext_bytes, is_heic_path};

verus! {

/// What `xxhash_rust::xxh3::xxh3_64` returns for a byte buffer.
pub uninterp spec fn xxh3_of(bytes: Seq<u8>) -> u64;

/// Relies on `xxhash_rust::xxh3::xxh3_64`: a seedless non-cryptographic
/// 64-bit hash that is a pure function of the byte buffer, identical across
/// runs, processes and machines.
#[verifier::external_body]
fn hash_bytes(bytes: &Vec<u8>) -> (r: u64)
    ensures
        r == xxh3_of(bytes@),
{
    xxhash_rust::xxh3::xxh3_64(bytes)
}

/// A sampled dimension: `dim * permille / 1000`, rounded down.
pub open spec fn sampled_dim(dim: int, permille: int) -> int {
    (dim * permille) / 1000
}

/// The bytes of the top-left `cw` by `ch` window of a `w`-wide RGB buffer,
/// row by row.
pub open spec fn window_bytes(p: Seq<u8>, w: int, cw: int, ch: int) -> Seq<u8> {
    Seq::new(
        (3 * cw * ch) as nat,
        |i: int|
            {
                let pi = i / 3;
                let c = i % 3;
                let x = pi % cw;
                let y = pi / cw;
                pixel_byte(p, w, x, y, c)
            },
    )
}

/// The sampled content hash of an RGB buffer.
pub open spec fn sampled_hash_of(p: Seq<u8>, w: int, h: int, permille: int) -> u64 {
    xxh3_of(window_bytes(p, w, sampled_dim(w, permille), sampled_dim(h, permille)))
}

/// Whether a sample fraction (in parts per thousand) lies in (0, 1].
pub open spec fn fraction_valid(permille: u32) -> bool {
    1 <= permille <= 1000
}

/// The content hash of an image file: decode, orient upright, then hash the
/// sampled window. `None` when the bytes do not decode to usable pixels.
pub open spec fn canonical_hash_of(raw: Seq<u8>, permille: u32) -> Option<u64> {
    match decoded_rgb_of(raw) {
        Some(t) => {
            if dims_ok(t.0, t.1) {
                let o = orientation_of_bytes(raw);
                Some(
                    sampled_hash_of(
                        oriented_pixels(t.2, t.0, t.1, o),
                        oriented_width(t.0, t.1, o),
                        oriented_height(t.0, t.1, o),
                        permille as int,
                    ),
                )
            } else {
                None
            }
        },
        None => None,
    }
}

proof fn lemma_window_index(p: Seq<u8>, w: int, cw: int, ch: int, x: int, y: int, c: int)
    requires
        0 <= x < cw,
        0 <= y < ch,
        0 <= c < 3,
    ensures
        window_bytes(p, w, cw, ch)[3 * (y * cw + x) + c] == pixel_byte(p, w, x, y, c),
{
    assert(0 <= y * cw + x && y * cw + x < cw * ch && 3 * (cw * ch) == 3 * cw * ch)
        by (nonlinear_arith)
        requires
            0 <= x < cw,
            0 <= y < ch,
    ;
    let i = 3 * (y * cw + x) + c;
    assert(0 <= i && i < 3 * cw * ch);
    lemma_fundamental_div_mod_converse(i, 3, y * cw + x, c);
    lemma_fundamental_div_mod_converse(y * cw + x, cw, y, x);
    assert(window_bytes(p, w, cw, ch)[i] == pixel_byte(p, w, x, y, c));
}

impl CanonicalImage {
    /// The sampled content hash of this image.
    ///
    /// Identical canonical pixels always yield the identical hash, whatever
    /// the run, process or machine: the result is a function of the pixel
    /// buffer and the sample fraction alone.
    pub fn hash(&self, sample_permille: u32) -> (r: Result<u64, AppError>)
        requires
            self.wf(),
        ensures
            match r {
                Ok(v) => fraction_valid(sample_permille) && v == sampled_hash_of(
                    self.pixels@,
                    self.width as int,
                    self.height as int,
                    sample_permille as int,
                ),
                Err(e) => !fraction_valid(sample_permille) && e == AppError::InvalidParameter,
            },
    {
        if sample_permille < 1 || sample_permille > 1000 {
            return Err(AppError::InvalidParameter);
        }
        let w = self.width;
        let h = self.height;
        let ghost p: Seq<u8> = self.pixels@;
        proof {
            assert((w as int) * (sample_permille as int) <= 0xffff_ffff * 1000 && (h as int) * (
            sample_permille as int) <= 0xffff_ffff * 1000) by (nonlinear_arith)
                requires
                    w <= 0xffff_ffffu32,
                    h <= 0xffff_ffffu32,
                    sample_permille <= 1000,
            ;
        }
        let cw64: u64 = (w as u64) * (sample_permille as u64) / 1000;
        let ch64: u64 = (h as u64) * (sample_permille as u64) / 1000;
        proof {
            assert(((w as int) * (sample_permille as int)) / 1000 <= w as int && ((h as int) * (
            sample_permille as int)) / 1000 <= h as int) by (nonlinear_arith)
                requires
                    sample_permille <= 1000,
                    0 <= w as int,
                    0 <= h as int,
            ;
        }
        let cw: u32 = cw64 as u32;
        let ch: u32 = ch64 as u32;
        let ghost cwi: int = sampled_dim(w as int, sample_permille as int);
        let ghost chi: int = sampled_dim(h as int, sample_permille as int);
        let ghost win: Seq<u8> = window_bytes(p, w as int, cwi, chi);
        let len = self.pixels.len();
        proof {
            assert(3 * (w as int) * (h as int) == 3 * ((w as int) * (h as int)))
                by (nonlinear_arith);
            assert(3 * (cwi * chi) == 3 * cwi * chi) by (nonlinear_arith);
            assert(win.len() == 3 * (cwi * chi));
        }
        let mut out: Vec<u8> = Vec::new();
        let mut y: u32 = 0;
        while y < ch
            invariant
                self.wf(),
                w == self.width && h == self.height,
                p == self.pixels@ && len == p.len(),
                p.len() == 3 * ((w as int) * (h as int)),
                cw == cwi && ch == chi && cw <= w && ch <= h,
                win == window_bytes(p, w as int, cwi, chi),
                win.len() == 3 * (cwi * chi),
                y <= ch,
                out@.len() == 3 * ((y as int) * (cw as int)),
                forall|i: int| 0 <= i < out@.len() ==> out@[i] == win[i],
            decreases ch - y,
        {
            let mut x: u32 = 0;
            while x < cw
                invariant
                    self.wf(),
                    w == self.width && h == self.height,
                    p == self.pixels@ && len == p.len(),
                    p.len() == 3 * ((w as int) * (h as int)),
                    cw == cwi && ch == chi && cw <= w && ch <= h,
                    win == window_bytes(p, w as int, cwi, chi),
                    win.len() == 3 * (cwi * chi),
                    y < ch,
                    x <= cw,
                    out@.len() == 3 * ((y as int) * (cw as int) + (x as int)),
                    forall|i: int| 0 <= i < out@.len() ==> out@[i] == win[i],
                decreases cw - x,
            {
                proof {
                    assert(0 <= (y as int) * (w as int) + (x as int) && 3 * ((y as int) * (
                    w as int) + (x as int)) + 2 < 3 * ((w as int) * (h as int)))
                        by (nonlinear_arith)
                        requires
                            0 <= x as int && (x as int) < (w as int),
                            0 <= y as int && (y as int) < (h as int),
                    ;
                    assert(0 <= (y as int) * (cw as int) + (x as int) && (y as int) * (cw as int)
                        + (x as int) < (cw as int) * (ch as int)) by (nonlinear_arith)
                        requires
                            0 <= x as int && (x as int) < (cw as int),
                            0 <= y as int && (y as int) < (ch as int),
                    ;
                    lemma_window_index(p, w as int, cwi, chi, x as int, y as int, 0);
                    lemma_window_index(p, w as int, cwi, chi, x as int, y as int, 1);
                    lemma_window_index(p, w as int, cwi, chi, x as int, y as int, 2);
                }
                let pix: usize = (y as usize) * (w as usize) + (x as usize);
                let si: usize = 3 * pix;
                out.push(self.pixels[si]);
                out.push(self.pixels[si + 1]);
                out.push(self.pixels[si + 2]);
                x = x + 1;
            }
            y = y + 1;
            proof {
                assert(3 * (((y as int) - 1) * (cw as int) + (cw as int)) == 3 * ((y as int) * (
                cw as int))) by (nonlinear_arith);
            }
        }
        proof {
            assert(3 * ((chi) * (cwi)) == 3 * (cwi * chi)) by (nonlinear_arith);
            assert(out@ =~= win);
        }
        Ok(hash_bytes(&out))
    }
}

impl Image {
    /// The sampled content hash of the image file whose raw bytes are
    /// handed in: refuse heic, validate the sample fraction, decode and
    /// orient the pixels, then hash the sampled window.
    pub fn hash(&self, raw: &Vec<u8>, sample_permille: u32) -> (r: Result<u64, AppError>)
        ensures
            match r {
                Ok(v) => {
                    &&& !is_heic_path(str_bytes(self.path@))
                    &&& fraction_valid(sample_permille)
                    &&& canonical_hash_of(raw@, sample_permille) == Some(v)
                },
                Err(e) => {
                    if is_heic_path(str_bytes(self.path@)) {
                        e == AppError::UnsupportedFormat
                    } else if !fraction_valid(sample_permille) {
                        e == AppError::InvalidParameter
                    } else {
                        e == AppError::DecodeError && canonical_hash_of(raw@, sample_permille)
                            == None::<u64>
                    }
                },
            },
    {
        let heic = match extension_lower(self.path.as_str()) {
            Some(e) => is_heic_ext_bytes(&e),
            None => false,
        };
        if heic {
            return Err(AppError::UnsupportedFormat);
        }
        if sample_permille < 1 || sample_permille > 1000 {
            return Err(AppError::InvalidParameter);
        }
        match self.image(raw) {
            Ok(img) => img.hash(sample_permille),
            Err(_) => Err(AppError::DecodeError),
        }
    }
}

/// The content hash is deterministic: byte-identical files with the same
/// sample fraction always hash to the same value, on every run and every
/// machine.
pub proof fn lemma_hash_deterministic(raw1: Seq<u8>, raw2: Seq<u8>, sample_permille: u32)
    requires
        raw1 == raw2,
    ensures
        canonical_hash_of(raw1, sample_permille) == canonical_hash_of(raw2, sample_permille),
{
}

} // verus!
