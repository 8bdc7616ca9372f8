//! The image handle and the canonical (orientation-corrected) pixel buffer.
//!
//! An [`Image`] names a file; the caller reads the file and hands the raw
//! bytes to [`Image::image`], which decodes them and applies the rotation
//! or mirroring implied by the embedded orientation tag, yielding a
//! [`CanonicalImage`] whose width, height and pixel layout reflect the
//! upright picture.

use vstd::prelude::*;
use vstd::arithmetic::div_mod::lemma_fundamental_div_mod_converse;
use vstd::string::StringSliceAdditionalSpecFns;
use vstd::utf8::encode_utf8;

use crate::error::AppError;
use crate::paths::{
    bytes_eq, extension_lower, is_heic_path, is_supported_ext_bytes, is_heic_ext_bytes,
    is_valid_image_path, sidecar_bytes, sidecar_of,
};

verus! {

/// The UTF-8 bytes of a string view.
pub open spec fn str_bytes(s: Seq<char>) -> Seq<u8> {
    encode_utf8(s)
}

/// A handle to an image file, identified by its path.
#[derive(Debug)]
pub struct Image {
    pub path: String,
}

/// The orientation stored in an image's metadata. `Unknown` is the safe
/// default when metadata is absent or unparsable: no rotation is applied.
#[derive(Clone, Copy, Debug, PartialEq, Eq, Structural)]
pub enum Orientation {
    Normal,
    MirrorHorizontal,
    Rotated180,
    MirrorVertical,
    MirroredHorizontallyAndRotated270,
    Rotated90,
    MirroredHorizontallyAndRotated90,
    Rotated270,
    Unknown,
}

/// The orientation denoted by the metadata tag values 1 through 8.
pub open spec fn orientation_from_u32(value: u32) -> Orientation {
    if value == 1 {
        Orientation::Normal
    } else if value == 2 {
        Orientation::MirrorHorizontal
    } else if value == 3 {
        Orientation::Rotated180
    } else if value == 4 {
        Orientation::MirrorVertical
    } else if value == 5 {
        Orientation::MirroredHorizontallyAndRotated270
    } else if value == 6 {
        Orientation::Rotated90
    } else if value == 7 {
        Orientation::MirroredHorizontallyAndRotated90
    } else if value == 8 {
        Orientation::Rotated270
    } else {
        Orientation::Unknown
    }
}

impl vstd::std_specs::convert::FromSpecImpl<u32> for Orientation {
    open spec fn obeys_from_spec() -> bool {
        true
    }

    open spec fn from_spec(v: u32) -> Orientation {
        orientation_from_u32(v)
    }
}

impl From<u32> for Orientation {
    fn from(value: u32) -> (r: Self) {
        if value == 1 {
            Orientation::Normal
        } else if value == 2 {
            Orientation::MirrorHorizontal
        } else if value == 3 {
            Orientation::Rotated180
        } else if value == 4 {
            Orientation::MirrorVertical
        } else if value == 5 {
            Orientation::MirroredHorizontallyAndRotated270
        } else if value == 6 {
            Orientation::Rotated90
        } else if value == 7 {
            Orientation::MirroredHorizontallyAndRotated90
        } else if value == 8 {
            Orientation::Rotated270
        } else {
            Orientation::Unknown
        }
    }
}

impl Image {
    /// Create an image handle from a file path. A path whose extension is
    /// `heic` is refused outright.
    pub fn from_path(path: &str) -> (r: Result<Image, AppError>)
        ensures
            match r {
                Ok(img) => !is_heic_path(str_bytes(path@)) && img.path@ == path@,
                Err(e) => is_heic_path(str_bytes(path@)) && e == AppError::UnsupportedFormat,
            },
    {
        let heic = match extension_lower(path) {
            Some(e) => is_heic_ext_bytes(&e),
            None => false,
        };
        if heic {
            Err(AppError::UnsupportedFormat)
        } else {
            Ok(Image { path: path.to_owned() })
        }
    }

    /// The extensions the engine accepts.
    pub fn valid_extensions() -> (r: Vec<&'static str>)
        ensures
            r@.len() == 7,
            r@[0]@ == "png"@,
            r@[1]@ == "jpg"@,
            r@[2]@ == "jpeg"@,
            r@[3]@ == "gif"@,
            r@[4]@ == "bmp"@,
            r@[5]@ == "tiff"@,
            r@[6]@ == "webp"@,
    {
        let r: Vec<&'static str> = vec!["png", "jpg", "jpeg", "gif", "bmp", "tiff", "webp"];
        r
    }

    /// Whether a path names a file the engine will try to decode.
    pub fn is_image_file(path: &str) -> (r: bool)
        ensures
            r == is_valid_image_path(str_bytes(path@)),
    {
        match extension_lower(path) {
            Some(e) => is_supported_ext_bytes(&e),
            None => false,
        }
    }

    /// Whether this image can be processed.
    pub fn is_valid(&self) -> (r: bool)
        ensures
            r == is_valid_image_path(str_bytes(self.path@)),
    {
        Self::is_image_file(self.path.as_str())
    }

    /// Whether the image has a sidecar file (the same path with an `xmp`
    /// extension) in the given file listing.
    pub fn has_sidecar(&self, files: &Vec<String>) -> (r: bool)
        ensures
            r == exists|i: int|
                0 <= i < files@.len() && str_bytes(files@[i]@) == sidecar_of(
                    str_bytes(self.path@),
                ),
    {
        let sc = sidecar_bytes(self.path.as_str());
        let mut j: usize = 0;
        while j < files.len()
            invariant
                j <= files@.len(),
                sc@ == sidecar_of(str_bytes(self.path@)),
                forall|i: int|
                    0 <= i < j ==> str_bytes(files@[i]@) != sidecar_of(str_bytes(self.path@)),
            decreases files@.len() - j,
        {
            if bytes_eq(files[j].as_str().as_bytes(), sc.as_slice()) {
                return true;
            }
            j = j + 1;
        }
        false
    }
}

/// Upper bound on the pixel count of a decodable image, so that the
/// statistics used for similarity scoring fit in machine integers.
pub const MAX_PIXELS: u64 = 4294967296;

/// A decoded pixel buffer with orientation already applied: logically
/// identical images in different rotations compare equal. The buffer holds
/// 3 bytes (RGB) per pixel, row by row.
#[derive(Debug)]
pub struct CanonicalImage {
    pub width: u32,
    pub height: u32,
    pub pixels: Vec<u8>,
}

impl CanonicalImage {
    pub open spec fn wf(&self) -> bool {
        &&& 1 <= self.width
        &&& 1 <= self.height
        &&& self.width * self.height <= MAX_PIXELS
        &&& self.pixels@.len() == 3 * self.width * self.height
    }

    /// The resolution of the upright image.
    pub fn resolution(&self) -> (r: (u32, u32))
        ensures
            r == (self.width, self.height),
    {
        (self.width, self.height)
    }
}

/// What `image::load_from_memory` decodes out of a byte buffer, as an RGB
/// buffer: width, height, and 3 bytes per pixel; `None` when the bytes do
/// not decode.
pub uninterp spec fn decoded_rgb_of(bytes: Seq<u8>) -> Option<(u32, u32, Seq<u8>)>;

/// Relies on `image::load_from_memory` and `DynamicImage::to_rgb8`: decoding
/// is a pure function of the input bytes, and the raw RGB buffer holds
/// exactly `width * height * 3` bytes.
#[verifier::external_body]
fn decode_rgb(bytes: &Vec<u8>) -> (r: Option<(u32, u32, Vec<u8>)>)
    ensures
        match r {
            Some(t) => decoded_rgb_of(bytes@) == Some((t.0, t.1, t.2@)) && t.2@.len() == 3 * t.0
                * t.1,
            None => decoded_rgb_of(bytes@) == None::<(u32, u32, Seq<u8>)>,
        },
{
    match image::load_from_memory(bytes) {
        Ok(img) => {
            let rgb = img.to_rgb8();
            let (w, h) = rgb.dimensions();
            Some((w, h, rgb.into_raw()))
        },
        Err(_) => None,
    }
}

/// The value of the orientation tag in the metadata of an image file, if
/// the file carries one that parses.
pub uninterp spec fn exif_orientation_of(bytes: Seq<u8>) -> Option<u32>;

/// Relies on `exif::Reader::read_from_container`, `Exif::get_field` and
/// `Value::get_uint`: the orientation tag value is a pure function of the
/// input bytes.
#[verifier::external_body]
fn exif_orientation(bytes: &Vec<u8>) -> (r: Option<u32>)
    ensures
        r == exif_orientation_of(bytes@),
{
    let mut cur = std::io::Cursor::new(bytes.as_slice());
    match exif::Reader::new().read_from_container(&mut cur) {
        Ok(data) => match data.get_field(exif::Tag::Orientation, exif::In::PRIMARY) {
            Some(field) => field.value.get_uint(0),
            None => None,
        },
        Err(_) => None,
    }
}

/// The orientation of an image file: the parsed tag, or `Unknown`.
pub open spec fn orientation_of_bytes(raw: Seq<u8>) -> Orientation {
    match exif_orientation_of(raw) {
        Some(v) => orientation_from_u32(v),
        None => Orientation::Unknown,
    }
}

/// Byte `c` of the pixel at column `x`, row `y` of a `w`-wide RGB buffer.
pub open spec fn pixel_byte(p: Seq<u8>, w: int, x: int, y: int, c: int) -> u8 {
    p[3 * (y * w + x) + c]
}

/// Rotation by 90 degrees clockwise: the result is `h` wide and `w` high,
/// and its pixel (x, y) is the source pixel (y, h - 1 - x).
pub open spec fn rotate90_spec(p: Seq<u8>, w: int, h: int) -> Seq<u8> {
    Seq::new(
        (3 * w * h) as nat,
        |i: int|
            {
                let pi = i / 3;
                let c = i % 3;
                let x = pi % h;
                let y = pi / h;
                pixel_byte(p, w, y, h - 1 - x, c)
            },
    )
}

/// Rotation by 180 degrees: same dimensions, pixel (x, y) is the source
/// pixel (w - 1 - x, h - 1 - y).
pub open spec fn rotate180_spec(p: Seq<u8>, w: int, h: int) -> Seq<u8> {
    Seq::new(
        (3 * w * h) as nat,
        |i: int|
            {
                let pi = i / 3;
                let c = i % 3;
                let x = pi % w;
                let y = pi / w;
                pixel_byte(p, w, w - 1 - x, h - 1 - y, c)
            },
    )
}

/// Rotation by 90 degrees counterclockwise: the result is `h` wide and `w`
/// high, and its pixel (x, y) is the source pixel (w - 1 - y, x).
pub open spec fn rotate270_spec(p: Seq<u8>, w: int, h: int) -> Seq<u8> {
    Seq::new(
        (3 * w * h) as nat,
        |i: int|
            {
                let pi = i / 3;
                let c = i % 3;
                let x = pi % h;
                let y = pi / h;
                pixel_byte(p, w, w - 1 - y, x, c)
            },
    )
}

proof fn lemma_rotate90_index(p: Seq<u8>, w: int, h: int, x: int, y: int, c: int)
    requires
        0 <= x < h,
        0 <= y < w,
        0 <= c < 3,
    ensures
        rotate90_spec(p, w, h)[3 * (y * h + x) + c] == pixel_byte(p, w, y, h - 1 - x, c),
{
    assert(0 <= y * h + x && y * h + x < w * h && 3 * (w * h) == 3 * w * h) by (nonlinear_arith)
        requires
            0 <= x < h,
            0 <= y < w,
    ;
    let i = 3 * (y * h + x) + c;
    assert(0 <= i && i < 3 * w * h);
    lemma_fundamental_div_mod_converse(i, 3, y * h + x, c);
    lemma_fundamental_div_mod_converse(y * h + x, h, y, x);
    assert(i / 3 == y * h + x && i % 3 == c);
    assert((y * h + x) / h == y && (y * h + x) % h == x);
    assert(rotate90_spec(p, w, h)[i] == pixel_byte(p, w, y, h - 1 - x, c));
}

proof fn lemma_rotate180_index(p: Seq<u8>, w: int, h: int, x: int, y: int, c: int)
    requires
        0 <= x < w,
        0 <= y < h,
        0 <= c < 3,
    ensures
        rotate180_spec(p, w, h)[3 * (y * w + x) + c] == pixel_byte(p, w, w - 1 - x, h - 1 - y, c),
{
    assert(0 <= y * w + x && y * w + x < w * h && 3 * (w * h) == 3 * w * h) by (nonlinear_arith)
        requires
            0 <= x < w,
            0 <= y < h,
    ;
    let i = 3 * (y * w + x) + c;
    assert(0 <= i && i < 3 * w * h);
    lemma_fundamental_div_mod_converse(i, 3, y * w + x, c);
    lemma_fundamental_div_mod_converse(y * w + x, w, y, x);
    assert(i / 3 == y * w + x && i % 3 == c);
    assert((y * w + x) / w == y && (y * w + x) % w == x);
    assert(rotate180_spec(p, w, h)[i] == pixel_byte(p, w, w - 1 - x, h - 1 - y, c));
}

proof fn lemma_rotate270_index(p: Seq<u8>, w: int, h: int, x: int, y: int, c: int)
    requires
        0 <= x < h,
        0 <= y < w,
        0 <= c < 3,
    ensures
        rotate270_spec(p, w, h)[3 * (y * h + x) + c] == pixel_byte(p, w, w - 1 - y, x, c),
{
    assert(0 <= y * h + x && y * h + x < w * h && 3 * (w * h) == 3 * w * h) by (nonlinear_arith)
        requires
            0 <= x < h,
            0 <= y < w,
    ;
    let i = 3 * (y * h + x) + c;
    assert(0 <= i && i < 3 * w * h);
    lemma_fundamental_div_mod_converse(i, 3, y * h + x, c);
    lemma_fundamental_div_mod_converse(y * h + x, h, y, x);
    assert(i / 3 == y * h + x && i % 3 == c);
    assert((y * h + x) / h == y && (y * h + x) % h == x);
    assert(rotate270_spec(p, w, h)[i] == pixel_byte(p, w, w - 1 - y, x, c));
}

fn rotate90(img: &CanonicalImage) -> (r: CanonicalImage)
    requires
        img.wf(),
    ensures
        r.wf(),
        r.width == img.height,
        r.height == img.width,
        r.pixels@ == rotate90_spec(img.pixels@, img.width as int, img.height as int),
{
    let w = img.width;
    let h = img.height;
    let ghost p: Seq<u8> = img.pixels@;
    let ghost spec_out: Seq<u8> = rotate90_spec(p, w as int, h as int);
    let nw = h;
    let nh = w;
    let len = img.pixels.len();
    proof {
        assert(3 * (w as int) * (h as int) == 3 * ((w as int) * (h as int)) && 1 <= (w as int) * (
        h as int)) by (nonlinear_arith)
            requires
                1 <= w as int,
                1 <= h as int,
        ;
        assert(spec_out.len() == 3 * ((w as int) * (h as int)));
        assert(p.len() == 3 * ((w as int) * (h as int)));
    }
    let mut out: Vec<u8> = Vec::new();
    let mut y: u32 = 0;
    while y < nh
        invariant
            img.wf(),
            w == img.width && h == img.height && nw == h && nh == w,
            p == img.pixels@ && spec_out == rotate90_spec(p, w as int, h as int),
            len == p.len() && p.len() == 3 * ((w as int) * (h as int)),
            spec_out.len() == 3 * ((w as int) * (h as int)),
            y <= nh,
            out@.len() == 3 * ((y as int) * (nw as int)),
            forall|i: int| 0 <= i < out@.len() ==> out@[i] == spec_out[i],
        decreases nh - y,
    {
        let mut x: u32 = 0;
        while x < nw
            invariant
                img.wf(),
                w == img.width && h == img.height && nw == h && nh == w,
                p == img.pixels@ && spec_out == rotate90_spec(p, w as int, h as int),
                len == p.len() && p.len() == 3 * ((w as int) * (h as int)),
                spec_out.len() == 3 * ((w as int) * (h as int)),
                y < nh,
                x <= nw,
                out@.len() == 3 * ((y as int) * (nw as int) + (x as int)),
                forall|i: int| 0 <= i < out@.len() ==> out@[i] == spec_out[i],
            decreases nw - x,
        {
            let xs = y;
            let ys = h - 1 - x;
            proof {
                assert(0 <= (ys as int) * (w as int) + (xs as int) && (ys as int) * (w as int) + (
                xs as int) < (w as int) * (h as int)) by (nonlinear_arith)
                    requires
                        0 <= ys as int <= h as int - 1,
                        0 <= xs as int <= w as int - 1,
                ;
                assert(0 <= (y as int) * (nw as int) + (x as int) && (y as int) * (nw as int) + (
                x as int) < (w as int) * (h as int)) by (nonlinear_arith)
                    requires
                        0 <= x as int && (x as int) < (nw as int),
                        0 <= y as int && (y as int) < (nh as int),
                        nw == h,
                        nh == w,
                ;
            }
            let pix: usize = (ys as usize) * (w as usize) + (xs as usize);
            let si: usize = 3 * pix;
            proof {
                lemma_rotate90_index(p, w as int, h as int, x as int, y as int, 0);
                lemma_rotate90_index(p, w as int, h as int, x as int, y as int, 1);
                lemma_rotate90_index(p, w as int, h as int, x as int, y as int, 2);
            }
            out.push(img.pixels[si]);
            out.push(img.pixels[si + 1]);
            out.push(img.pixels[si + 2]);
            x = x + 1;
        }
        y = y + 1;
        proof {
            assert(3 * (((y as int) - 1) * (nw as int) + (nw as int)) == 3 * ((y as int) * (
            nw as int))) by (nonlinear_arith);
        }
    }
    let r = CanonicalImage { width: nw, height: nh, pixels: out };
    proof {
        assert((nh as int) * (nw as int) == (w as int) * (h as int) && (nw as int) * (nh as int)
            == (w as int) * (h as int) && 3 * ((nh as int) * (nw as int)) == 3 * (nw as int) * (
        nh as int)) by (nonlinear_arith)
            requires
                nw == h,
                nh == w,
        ;
        assert(r.pixels@ =~= spec_out);
    }
    r
}

fn rotate180(img: &CanonicalImage) -> (r: CanonicalImage)
    requires
        img.wf(),
    ensures
        r.wf(),
        r.width == img.width,
        r.height == img.height,
        r.pixels@ == rotate180_spec(img.pixels@, img.width as int, img.height as int),
{
    let w = img.width;
    let h = img.height;
    let ghost p: Seq<u8> = img.pixels@;
    let ghost spec_out: Seq<u8> = rotate180_spec(p, w as int, h as int);
    let nw = w;
    let nh = h;
    let len = img.pixels.len();
    proof {
        assert(3 * (w as int) * (h as int) == 3 * ((w as int) * (h as int)) && 1 <= (w as int) * (
        h as int)) by (nonlinear_arith)
            requires
                1 <= w as int,
                1 <= h as int,
        ;
        assert(spec_out.len() == 3 * ((w as int) * (h as int)));
        assert(p.len() == 3 * ((w as int) * (h as int)));
    }
    let mut out: Vec<u8> = Vec::new();
    let mut y: u32 = 0;
    while y < nh
        invariant
            img.wf(),
            w == img.width && h == img.height && nw == w && nh == h,
            p == img.pixels@ && spec_out == rotate180_spec(p, w as int, h as int),
            len == p.len() && p.len() == 3 * ((w as int) * (h as int)),
            spec_out.len() == 3 * ((w as int) * (h as int)),
            y <= nh,
            out@.len() == 3 * ((y as int) * (nw as int)),
            forall|i: int| 0 <= i < out@.len() ==> out@[i] == spec_out[i],
        decreases nh - y,
    {
        let mut x: u32 = 0;
        while x < nw
            invariant
                img.wf(),
                w == img.width && h == img.height && nw == w && nh == h,
                p == img.pixels@ && spec_out == rotate180_spec(p, w as int, h as int),
                len == p.len() && p.len() == 3 * ((w as int) * (h as int)),
                spec_out.len() == 3 * ((w as int) * (h as int)),
                y < nh,
                x <= nw,
                out@.len() == 3 * ((y as int) * (nw as int) + (x as int)),
                forall|i: int| 0 <= i < out@.len() ==> out@[i] == spec_out[i],
            decreases nw - x,
        {
            let xs = w - 1 - x;
            let ys = h - 1 - y;
            proof {
                assert(0 <= (ys as int) * (w as int) + (xs as int) && (ys as int) * (w as int) + (
                xs as int) < (w as int) * (h as int)) by (nonlinear_arith)
                    requires
                        0 <= ys as int <= h as int - 1,
                        0 <= xs as int <= w as int - 1,
                ;
                assert(0 <= (y as int) * (nw as int) + (x as int) && (y as int) * (nw as int) + (
                x as int) < (w as int) * (h as int)) by (nonlinear_arith)
                    requires
                        0 <= x as int && (x as int) < (nw as int),
                        0 <= y as int && (y as int) < (nh as int),
                        nw == w,
                        nh == h,
                ;
            }
            let pix: usize = (ys as usize) * (w as usize) + (xs as usize);
            let si: usize = 3 * pix;
            proof {
                lemma_rotate180_index(p, w as int, h as int, x as int, y as int, 0);
                lemma_rotate180_index(p, w as int, h as int, x as int, y as int, 1);
                lemma_rotate180_index(p, w as int, h as int, x as int, y as int, 2);
            }
            out.push(img.pixels[si]);
            out.push(img.pixels[si + 1]);
            out.push(img.pixels[si + 2]);
            x = x + 1;
        }
        y = y + 1;
        proof {
            assert(3 * (((y as int) - 1) * (nw as int) + (nw as int)) == 3 * ((y as int) * (
            nw as int))) by (nonlinear_arith);
        }
    }
    let r = CanonicalImage { width: nw, height: nh, pixels: out };
    proof {
        assert((nh as int) * (nw as int) == (w as int) * (h as int) && (nw as int) * (nh as int)
            == (w as int) * (h as int) && 3 * ((nh as int) * (nw as int)) == 3 * (nw as int) * (
        nh as int)) by (nonlinear_arith)
            requires
                nw == w,
                nh == h,
        ;
        assert(r.pixels@ =~= spec_out);
    }
    r
}

fn rotate270(img: &CanonicalImage) -> (r: CanonicalImage)
    requires
        img.wf(),
    ensures
        r.wf(),
        r.width == img.height,
        r.height == img.width,
        r.pixels@ == rotate270_spec(img.pixels@, img.width as int, img.height as int),
{
    let w = img.width;
    let h = img.height;
    let ghost p: Seq<u8> = img.pixels@;
    let ghost spec_out: Seq<u8> = rotate270_spec(p, w as int, h as int);
    let nw = h;
    let nh = w;
    let len = img.pixels.len();
    proof {
        assert(3 * (w as int) * (h as int) == 3 * ((w as int) * (h as int)) && 1 <= (w as int) * (
        h as int)) by (nonlinear_arith)
            requires
                1 <= w as int,
                1 <= h as int,
        ;
        assert(spec_out.len() == 3 * ((w as int) * (h as int)));
        assert(p.len() == 3 * ((w as int) * (h as int)));
    }
    let mut out: Vec<u8> = Vec::new();
    let mut y: u32 = 0;
    while y < nh
        invariant
            img.wf(),
            w == img.width && h == img.height && nw == h && nh == w,
            p == img.pixels@ && spec_out == rotate270_spec(p, w as int, h as int),
            len == p.len() && p.len() == 3 * ((w as int) * (h as int)),
            spec_out.len() == 3 * ((w as int) * (h as int)),
            y <= nh,
            out@.len() == 3 * ((y as int) * (nw as int)),
            forall|i: int| 0 <= i < out@.len() ==> out@[i] == spec_out[i],
        decreases nh - y,
    {
        let mut x: u32 = 0;
        while x < nw
            invariant
                img.wf(),
                w == img.width && h == img.height && nw == h && nh == w,
                p == img.pixels@ && spec_out == rotate270_spec(p, w as int, h as int),
                len == p.len() && p.len() == 3 * ((w as int) * (h as int)),
                spec_out.len() == 3 * ((w as int) * (h as int)),
                y < nh,
                x <= nw,
                out@.len() == 3 * ((y as int) * (nw as int) + (x as int)),
                forall|i: int| 0 <= i < out@.len() ==> out@[i] == spec_out[i],
            decreases nw - x,
        {
            let xs = w - 1 - y;
            let ys = x;
            proof {
                assert(0 <= (ys as int) * (w as int) + (xs as int) && (ys as int) * (w as int) + (
                xs as int) < (w as int) * (h as int)) by (nonlinear_arith)
                    requires
                        0 <= ys as int <= h as int - 1,
                        0 <= xs as int <= w as int - 1,
                ;
                assert(0 <= (y as int) * (nw as int) + (x as int) && (y as int) * (nw as int) + (
                x as int) < (w as int) * (h as int)) by (nonlinear_arith)
                    requires
                        0 <= x as int && (x as int) < (nw as int),
                        0 <= y as int && (y as int) < (nh as int),
                        nw == h,
                        nh == w,
                ;
            }
            let pix: usize = (ys as usize) * (w as usize) + (xs as usize);
            let si: usize = 3 * pix;
            proof {
                lemma_rotate270_index(p, w as int, h as int, x as int, y as int, 0);
                lemma_rotate270_index(p, w as int, h as int, x as int, y as int, 1);
                lemma_rotate270_index(p, w as int, h as int, x as int, y as int, 2);
            }
            out.push(img.pixels[si]);
            out.push(img.pixels[si + 1]);
            out.push(img.pixels[si + 2]);
            x = x + 1;
        }
        y = y + 1;
        proof {
            assert(3 * (((y as int) - 1) * (nw as int) + (nw as int)) == 3 * ((y as int) * (
            nw as int))) by (nonlinear_arith);
        }
    }
    let r = CanonicalImage { width: nw, height: nh, pixels: out };
    proof {
        assert((nh as int) * (nw as int) == (w as int) * (h as int) && (nw as int) * (nh as int)
            == (w as int) * (h as int) && 3 * ((nh as int) * (nw as int)) == 3 * (nw as int) * (
        nh as int)) by (nonlinear_arith)
            requires
                nw == h,
                nh == w,
        ;
        assert(r.pixels@ =~= spec_out);
    }
    r
}

/// Horizontal mirroring: same dimensions, pixel (x, y) is the
/// source pixel (w - 1 - x, y).
pub open spec fn mirror_h_spec(p: Seq<u8>, w: int, h: int) -> Seq<u8> {
    Seq::new(
        (3 * w * h) as nat,
        |i: int|
            {
                let pi = i / 3;
                let c = i % 3;
                let x = pi % w;
                let y = pi / w;
                pixel_byte(p, w, w - 1 - x, y, c)
            },
    )
}

proof fn lemma_mirror_h_index(p: Seq<u8>, w: int, h: int, x: int, y: int, c: int)
    requires
        0 <= x < w,
        0 <= y < h,
        0 <= c < 3,
    ensures
        mirror_h_spec(p, w, h)[3 * (y * w + x) + c] == pixel_byte(p, w, w - 1 - x, y, c),
{
    assert(0 <= y * w + x && y * w + x < w * h && 3 * (w * h) == 3 * w * h)
        by (nonlinear_arith)
        requires
            0 <= x < w,
            0 <= y < h,
            w == w,
    ;
    let i = 3 * (y * w + x) + c;
    assert(0 <= i && i < 3 * w * h);
    lemma_fundamental_div_mod_converse(i, 3, y * w + x, c);
    lemma_fundamental_div_mod_converse(y * w + x, w, y, x);
    assert(mirror_h_spec(p, w, h)[i] == pixel_byte(p, w, w - 1 - x, y, c));
}

fn mirror_h(img: &CanonicalImage) -> (r: CanonicalImage)
    requires
        img.wf(),
    ensures
        r.wf(),
        r.width == img.width,
        r.height == img.height,
        r.pixels@ == mirror_h_spec(img.pixels@, img.width as int, img.height as int),
{
    let w = img.width;
    let h = img.height;
    let ghost p: Seq<u8> = img.pixels@;
    let ghost spec_out: Seq<u8> = mirror_h_spec(p, w as int, h as int);
    let nw = w;
    let nh = h;
    let len = img.pixels.len();
    proof {
        assert(3 * (w as int) * (h as int) == 3 * ((w as int) * (h as int)) && 1 <= (w as int) * (
        h as int)) by (nonlinear_arith)
            requires
                1 <= w as int,
                1 <= h as int,
        ;
        assert(spec_out.len() == 3 * ((w as int) * (h as int)));
        assert(p.len() == 3 * ((w as int) * (h as int)));
    }
    let mut out: Vec<u8> = Vec::new();
    let mut y: u32 = 0;
    while y < nh
        invariant
            img.wf(),
            w == img.width && h == img.height && nw == w && nh == h,
            p == img.pixels@ && spec_out == mirror_h_spec(p, w as int, h as int),
            len == p.len() && p.len() == 3 * ((w as int) * (h as int)),
            spec_out.len() == 3 * ((w as int) * (h as int)),
            y <= nh,
            out@.len() == 3 * ((y as int) * (nw as int)),
            forall|i: int| 0 <= i < out@.len() ==> out@[i] == spec_out[i],
        decreases nh - y,
    {
        let mut x: u32 = 0;
        while x < nw
            invariant
                img.wf(),
                w == img.width && h == img.height && nw == w && nh == h,
                p == img.pixels@ && spec_out == mirror_h_spec(p, w as int, h as int),
                len == p.len() && p.len() == 3 * ((w as int) * (h as int)),
                spec_out.len() == 3 * ((w as int) * (h as int)),
                y < nh,
                x <= nw,
                out@.len() == 3 * ((y as int) * (nw as int) + (x as int)),
                forall|i: int| 0 <= i < out@.len() ==> out@[i] == spec_out[i],
            decreases nw - x,
        {
            let xs = w - 1 - x;
            let ys = y;
            proof {
                assert(0 <= (ys as int) * (w as int) + (xs as int) && 3 * ((ys as int) * (
                w as int) + (xs as int)) + 2 < 3 * ((w as int) * (h as int))) by (nonlinear_arith)
                    requires
                        0 <= ys as int <= h as int - 1,
                        0 <= xs as int <= w as int - 1,
                        w as int >= 1,
                        h as int >= 1,
                ;
                assert(0 <= (y as int) * (nw as int) + (x as int) && (y as int) * (nw as int) + (
                x as int) < (w as int) * (h as int)) by (nonlinear_arith)
                    requires
                        0 <= x as int && (x as int) < (nw as int),
                        0 <= y as int && (y as int) < (nh as int),
                        nw == w,
                        nh == h,
                ;
            }
            let pix: usize = (ys as usize) * (w as usize) + (xs as usize);
            let si: usize = 3 * pix;
            proof {
                lemma_mirror_h_index(p, w as int, h as int, x as int, y as int, 0);
                lemma_mirror_h_index(p, w as int, h as int, x as int, y as int, 1);
                lemma_mirror_h_index(p, w as int, h as int, x as int, y as int, 2);
            }
            out.push(img.pixels[si]);
            out.push(img.pixels[si + 1]);
            out.push(img.pixels[si + 2]);
            x = x + 1;
        }
        y = y + 1;
        proof {
            assert(3 * (((y as int) - 1) * (nw as int) + (nw as int)) == 3 * ((y as int) * (
            nw as int))) by (nonlinear_arith);
        }
    }
    let r = CanonicalImage { width: nw, height: nh, pixels: out };
    proof {
        assert((nh as int) * (nw as int) == (w as int) * (h as int) && (nw as int) * (nh as int)
            == (w as int) * (h as int) && 3 * ((nh as int) * (nw as int)) == 3 * (nw as int) * (
        nh as int)) by (nonlinear_arith)
            requires
                nw == w,
                nh == h,
        ;
        assert(r.pixels@ =~= spec_out);
    }
    r
}

/// Vertical mirroring: same dimensions, pixel (x, y) is the source
/// pixel (x, h - 1 - y).
pub open spec fn mirror_v_spec(p: Seq<u8>, w: int, h: int) -> Seq<u8> {
    Seq::new(
        (3 * w * h) as nat,
        |i: int|
            {
                let pi = i / 3;
                let c = i % 3;
                let x = pi % w;
                let y = pi / w;
                pixel_byte(p, w, x, h - 1 - y, c)
            },
    )
}

proof fn lemma_mirror_v_index(p: Seq<u8>, w: int, h: int, x: int, y: int, c: int)
    requires
        0 <= x < w,
        0 <= y < h,
        0 <= c < 3,
    ensures
        mirror_v_spec(p, w, h)[3 * (y * w + x) + c] == pixel_byte(p, w, x, h - 1 - y, c),
{
    assert(0 <= y * w + x && y * w + x < w * h && 3 * (w * h) == 3 * w * h)
        by (nonlinear_arith)
        requires
            0 <= x < w,
            0 <= y < h,
            w == w,
    ;
    let i = 3 * (y * w + x) + c;
    assert(0 <= i && i < 3 * w * h);
    lemma_fundamental_div_mod_converse(i, 3, y * w + x, c);
    lemma_fundamental_div_mod_converse(y * w + x, w, y, x);
    assert(mirror_v_spec(p, w, h)[i] == pixel_byte(p, w, x, h - 1 - y, c));
}

fn mirror_v(img: &CanonicalImage) -> (r: CanonicalImage)
    requires
        img.wf(),
    ensures
        r.wf(),
        r.width == img.width,
        r.height == img.height,
        r.pixels@ == mirror_v_spec(img.pixels@, img.width as int, img.height as int),
{
    let w = img.width;
    let h = img.height;
    let ghost p: Seq<u8> = img.pixels@;
    let ghost spec_out: Seq<u8> = mirror_v_spec(p, w as int, h as int);
    let nw = w;
    let nh = h;
    let len = img.pixels.len();
    proof {
        assert(3 * (w as int) * (h as int) == 3 * ((w as int) * (h as int)) && 1 <= (w as int) * (
        h as int)) by (nonlinear_arith)
            requires
                1 <= w as int,
                1 <= h as int,
        ;
        assert(spec_out.len() == 3 * ((w as int) * (h as int)));
        assert(p.len() == 3 * ((w as int) * (h as int)));
    }
    let mut out: Vec<u8> = Vec::new();
    let mut y: u32 = 0;
    while y < nh
        invariant
            img.wf(),
            w == img.width && h == img.height && nw == w && nh == h,
            p == img.pixels@ && spec_out == mirror_v_spec(p, w as int, h as int),
            len == p.len() && p.len() == 3 * ((w as int) * (h as int)),
            spec_out.len() == 3 * ((w as int) * (h as int)),
            y <= nh,
            out@.len() == 3 * ((y as int) * (nw as int)),
            forall|i: int| 0 <= i < out@.len() ==> out@[i] == spec_out[i],
        decreases nh - y,
    {
        let mut x: u32 = 0;
        while x < nw
            invariant
                img.wf(),
                w == img.width && h == img.height && nw == w && nh == h,
                p == img.pixels@ && spec_out == mirror_v_spec(p, w as int, h as int),
                len == p.len() && p.len() == 3 * ((w as int) * (h as int)),
                spec_out.len() == 3 * ((w as int) * (h as int)),
                y < nh,
                x <= nw,
                out@.len() == 3 * ((y as int) * (nw as int) + (x as int)),
                forall|i: int| 0 <= i < out@.len() ==> out@[i] == spec_out[i],
            decreases nw - x,
        {
            let xs = x;
            let ys = h - 1 - y;
            proof {
                assert(0 <= (ys as int) * (w as int) + (xs as int) && 3 * ((ys as int) * (
                w as int) + (xs as int)) + 2 < 3 * ((w as int) * (h as int))) by (nonlinear_arith)
                    requires
                        0 <= ys as int <= h as int - 1,
                        0 <= xs as int <= w as int - 1,
                        w as int >= 1,
                        h as int >= 1,
                ;
                assert(0 <= (y as int) * (nw as int) + (x as int) && (y as int) * (nw as int) + (
                x as int) < (w as int) * (h as int)) by (nonlinear_arith)
                    requires
                        0 <= x as int && (x as int) < (nw as int),
                        0 <= y as int && (y as int) < (nh as int),
                        nw == w,
                        nh == h,
                ;
            }
            let pix: usize = (ys as usize) * (w as usize) + (xs as usize);
            let si: usize = 3 * pix;
            proof {
                lemma_mirror_v_index(p, w as int, h as int, x as int, y as int, 0);
                lemma_mirror_v_index(p, w as int, h as int, x as int, y as int, 1);
                lemma_mirror_v_index(p, w as int, h as int, x as int, y as int, 2);
            }
            out.push(img.pixels[si]);
            out.push(img.pixels[si + 1]);
            out.push(img.pixels[si + 2]);
            x = x + 1;
        }
        y = y + 1;
        proof {
            assert(3 * (((y as int) - 1) * (nw as int) + (nw as int)) == 3 * ((y as int) * (
            nw as int))) by (nonlinear_arith);
        }
    }
    let r = CanonicalImage { width: nw, height: nh, pixels: out };
    proof {
        assert((nh as int) * (nw as int) == (w as int) * (h as int) && (nw as int) * (nh as int)
            == (w as int) * (h as int) && 3 * ((nh as int) * (nw as int)) == 3 * (nw as int) * (
        nh as int)) by (nonlinear_arith)
            requires
                nw == w,
                nh == h,
        ;
        assert(r.pixels@ =~= spec_out);
    }
    r
}

/// Horizontal mirroring followed by a 270-degree clockwise rotation
/// amounts to a transposition: the result is `h` wide and `w` high, and
/// its pixel (x, y) is the source pixel (y, x).
pub open spec fn transpose_spec(p: Seq<u8>, w: int, h: int) -> Seq<u8> {
    Seq::new(
        (3 * w * h) as nat,
        |i: int|
            {
                let pi = i / 3;
                let c = i % 3;
                let x = pi % h;
                let y = pi / h;
                pixel_byte(p, w, y, x, c)
            },
    )
}

proof fn lemma_transpose_index(p: Seq<u8>, w: int, h: int, x: int, y: int, c: int)
    requires
        0 <= x < h,
        0 <= y < w,
        0 <= c < 3,
    ensures
        transpose_spec(p, w, h)[3 * (y * h + x) + c] == pixel_byte(p, w, y, x, c),
{
    assert(0 <= y * h + x && y * h + x < w * h && 3 * (w * h) == 3 * w * h)
        by (nonlinear_arith)
        requires
            0 <= x < h,
            0 <= y < w,
            h == h,
    ;
    let i = 3 * (y * h + x) + c;
    assert(0 <= i && i < 3 * w * h);
    lemma_fundamental_div_mod_converse(i, 3, y * h + x, c);
    lemma_fundamental_div_mod_converse(y * h + x, h, y, x);
    assert(transpose_spec(p, w, h)[i] == pixel_byte(p, w, y, x, c));
}

fn transpose(img: &CanonicalImage) -> (r: CanonicalImage)
    requires
        img.wf(),
    ensures
        r.wf(),
        r.width == img.height,
        r.height == img.width,
        r.pixels@ == transpose_spec(img.pixels@, img.width as int, img.height as int),
{
    let w = img.width;
    let h = img.height;
    let ghost p: Seq<u8> = img.pixels@;
    let ghost spec_out: Seq<u8> = transpose_spec(p, w as int, h as int);
    let nw = h;
    let nh = w;
    let len = img.pixels.len();
    proof {
        assert(3 * (w as int) * (h as int) == 3 * ((w as int) * (h as int)) && 1 <= (w as int) * (
        h as int)) by (nonlinear_arith)
            requires
                1 <= w as int,
                1 <= h as int,
        ;
        assert(spec_out.len() == 3 * ((w as int) * (h as int)));
        assert(p.len() == 3 * ((w as int) * (h as int)));
    }
    let mut out: Vec<u8> = Vec::new();
    let mut y: u32 = 0;
    while y < nh
        invariant
            img.wf(),
            w == img.width && h == img.height && nw == h && nh == w,
            p == img.pixels@ && spec_out == transpose_spec(p, w as int, h as int),
            len == p.len() && p.len() == 3 * ((w as int) * (h as int)),
            spec_out.len() == 3 * ((w as int) * (h as int)),
            y <= nh,
            out@.len() == 3 * ((y as int) * (nw as int)),
            forall|i: int| 0 <= i < out@.len() ==> out@[i] == spec_out[i],
        decreases nh - y,
    {
        let mut x: u32 = 0;
        while x < nw
            invariant
                img.wf(),
                w == img.width && h == img.height && nw == h && nh == w,
                p == img.pixels@ && spec_out == transpose_spec(p, w as int, h as int),
                len == p.len() && p.len() == 3 * ((w as int) * (h as int)),
                spec_out.len() == 3 * ((w as int) * (h as int)),
                y < nh,
                x <= nw,
                out@.len() == 3 * ((y as int) * (nw as int) + (x as int)),
                forall|i: int| 0 <= i < out@.len() ==> out@[i] == spec_out[i],
            decreases nw - x,
        {
            let xs = y;
            let ys = x;
            proof {
                assert(0 <= (ys as int) * (w as int) + (xs as int) && 3 * ((ys as int) * (
                w as int) + (xs as int)) + 2 < 3 * ((w as int) * (h as int))) by (nonlinear_arith)
                    requires
                        0 <= ys as int <= h as int - 1,
                        0 <= xs as int <= w as int - 1,
                        w as int >= 1,
                        h as int >= 1,
                ;
                assert(0 <= (y as int) * (nw as int) + (x as int) && (y as int) * (nw as int) + (
                x as int) < (w as int) * (h as int)) by (nonlinear_arith)
                    requires
                        0 <= x as int && (x as int) < (nw as int),
                        0 <= y as int && (y as int) < (nh as int),
                        nw == h,
                        nh == w,
                ;
            }
            let pix: usize = (ys as usize) * (w as usize) + (xs as usize);
            let si: usize = 3 * pix;
            proof {
                lemma_transpose_index(p, w as int, h as int, x as int, y as int, 0);
                lemma_transpose_index(p, w as int, h as int, x as int, y as int, 1);
                lemma_transpose_index(p, w as int, h as int, x as int, y as int, 2);
            }
            out.push(img.pixels[si]);
            out.push(img.pixels[si + 1]);
            out.push(img.pixels[si + 2]);
            x = x + 1;
        }
        y = y + 1;
        proof {
            assert(3 * (((y as int) - 1) * (nw as int) + (nw as int)) == 3 * ((y as int) * (
            nw as int))) by (nonlinear_arith);
        }
    }
    let r = CanonicalImage { width: nw, height: nh, pixels: out };
    proof {
        assert((nh as int) * (nw as int) == (w as int) * (h as int) && (nw as int) * (nh as int)
            == (w as int) * (h as int) && 3 * ((nh as int) * (nw as int)) == 3 * (nw as int) * (
        nh as int)) by (nonlinear_arith)
            requires
                nw == h,
                nh == w,
        ;
        assert(r.pixels@ =~= spec_out);
    }
    r
}

/// Horizontal mirroring followed by a 90-degree clockwise rotation
/// flips across the anti-diagonal: the result is `h` wide and `w` high,
/// and its pixel (x, y) is the source pixel (w - 1 - y, h - 1 - x).
pub open spec fn transverse_spec(p: Seq<u8>, w: int, h: int) -> Seq<u8> {
    Seq::new(
        (3 * w * h) as nat,
        |i: int|
            {
                let pi = i / 3;
                let c = i % 3;
                let x = pi % h;
                let y = pi / h;
                pixel_byte(p, w, w - 1 - y, h - 1 - x, c)
            },
    )
}

proof fn lemma_transverse_index(p: Seq<u8>, w: int, h: int, x: int, y: int, c: int)
    requires
        0 <= x < h,
        0 <= y < w,
        0 <= c < 3,
    ensures
        transverse_spec(p, w, h)[3 * (y * h + x) + c] == pixel_byte(p, w, w - 1 - y, h - 1 - x, c),
{
    assert(0 <= y * h + x && y * h + x < w * h && 3 * (w * h) == 3 * w * h)
        by (nonlinear_arith)
        requires
            0 <= x < h,
            0 <= y < w,
            h == h,
    ;
    let i = 3 * (y * h + x) + c;
    assert(0 <= i && i < 3 * w * h);
    lemma_fundamental_div_mod_converse(i, 3, y * h + x, c);
    lemma_fundamental_div_mod_converse(y * h + x, h, y, x);
    assert(transverse_spec(p, w, h)[i] == pixel_byte(p, w, w - 1 - y, h - 1 - x, c));
}

fn transverse(img: &CanonicalImage) -> (r: CanonicalImage)
    requires
        img.wf(),
    ensures
        r.wf(),
        r.width == img.height,
        r.height == img.width,
        r.pixels@ == transverse_spec(img.pixels@, img.width as int, img.height as int),
{
    let w = img.width;
    let h = img.height;
    let ghost p: Seq<u8> = img.pixels@;
    let ghost spec_out: Seq<u8> = transverse_spec(p, w as int, h as int);
    let nw = h;
    let nh = w;
    let len = img.pixels.len();
    proof {
        assert(3 * (w as int) * (h as int) == 3 * ((w as int) * (h as int)) && 1 <= (w as int) * (
        h as int)) by (nonlinear_arith)
            requires
                1 <= w as int,
                1 <= h as int,
        ;
        assert(spec_out.len() == 3 * ((w as int) * (h as int)));
        assert(p.len() == 3 * ((w as int) * (h as int)));
    }
    let mut out: Vec<u8> = Vec::new();
    let mut y: u32 = 0;
    while y < nh
        invariant
            img.wf(),
            w == img.width && h == img.height && nw == h && nh == w,
            p == img.pixels@ && spec_out == transverse_spec(p, w as int, h as int),
            len == p.len() && p.len() == 3 * ((w as int) * (h as int)),
            spec_out.len() == 3 * ((w as int) * (h as int)),
            y <= nh,
            out@.len() == 3 * ((y as int) * (nw as int)),
            forall|i: int| 0 <= i < out@.len() ==> out@[i] == spec_out[i],
        decreases nh - y,
    {
        let mut x: u32 = 0;
        while x < nw
            invariant
                img.wf(),
                w == img.width && h == img.height && nw == h && nh == w,
                p == img.pixels@ && spec_out == transverse_spec(p, w as int, h as int),
                len == p.len() && p.len() == 3 * ((w as int) * (h as int)),
                spec_out.len() == 3 * ((w as int) * (h as int)),
                y < nh,
                x <= nw,
                out@.len() == 3 * ((y as int) * (nw as int) + (x as int)),
                forall|i: int| 0 <= i < out@.len() ==> out@[i] == spec_out[i],
            decreases nw - x,
        {
            let xs = w - 1 - y;
            let ys = h - 1 - x;
            proof {
                assert(0 <= (ys as int) * (w as int) + (xs as int) && 3 * ((ys as int) * (
                w as int) + (xs as int)) + 2 < 3 * ((w as int) * (h as int))) by (nonlinear_arith)
                    requires
                        0 <= ys as int <= h as int - 1,
                        0 <= xs as int <= w as int - 1,
                        w as int >= 1,
                        h as int >= 1,
                ;
                assert(0 <= (y as int) * (nw as int) + (x as int) && (y as int) * (nw as int) + (
                x as int) < (w as int) * (h as int)) by (nonlinear_arith)
                    requires
                        0 <= x as int && (x as int) < (nw as int),
                        0 <= y as int && (y as int) < (nh as int),
                        nw == h,
                        nh == w,
                ;
            }
            let pix: usize = (ys as usize) * (w as usize) + (xs as usize);
            let si: usize = 3 * pix;
            proof {
                lemma_transverse_index(p, w as int, h as int, x as int, y as int, 0);
                lemma_transverse_index(p, w as int, h as int, x as int, y as int, 1);
                lemma_transverse_index(p, w as int, h as int, x as int, y as int, 2);
            }
            out.push(img.pixels[si]);
            out.push(img.pixels[si + 1]);
            out.push(img.pixels[si + 2]);
            x = x + 1;
        }
        y = y + 1;
        proof {
            assert(3 * (((y as int) - 1) * (nw as int) + (nw as int)) == 3 * ((y as int) * (
            nw as int))) by (nonlinear_arith);
        }
    }
    let r = CanonicalImage { width: nw, height: nh, pixels: out };
    proof {
        assert((nh as int) * (nw as int) == (w as int) * (h as int) && (nw as int) * (nh as int)
            == (w as int) * (h as int) && 3 * ((nh as int) * (nw as int)) == 3 * (nw as int) * (
        nh as int)) by (nonlinear_arith)
            requires
                nw == h,
                nh == w,
        ;
        assert(r.pixels@ =~= spec_out);
    }
    r
}

/// Whether decoded dimensions are usable: at least one pixel each way, and
/// a pixel count the similarity statistics can handle.
pub open spec fn dims_ok(w: u32, h: u32) -> bool {
    1 <= w && 1 <= h && w * h <= MAX_PIXELS
}

/// The width of the upright image: every quarter turn, mirrored or not,
/// swaps the decoded dimensions.
pub open spec fn oriented_width(w: u32, h: u32, o: Orientation) -> int {
    match o {
        Orientation::Rotated90 => h as int,
        Orientation::Rotated270 => h as int,
        Orientation::MirroredHorizontallyAndRotated270 => h as int,
        Orientation::MirroredHorizontallyAndRotated90 => h as int,
        _ => w as int,
    }
}

pub open spec fn oriented_height(w: u32, h: u32, o: Orientation) -> int {
    match o {
        Orientation::Rotated90 => w as int,
        Orientation::Rotated270 => w as int,
        Orientation::MirroredHorizontallyAndRotated270 => w as int,
        Orientation::MirroredHorizontallyAndRotated90 => w as int,
        _ => h as int,
    }
}

/// The pixel buffer of the upright image: the transform the orientation
/// tag implies, applied; `Normal` and `Unknown` leave the buffer alone.
pub open spec fn oriented_pixels(p: Seq<u8>, w: u32, h: u32, o: Orientation) -> Seq<u8> {
    match o {
        Orientation::MirrorHorizontal => mirror_h_spec(p, w as int, h as int),
        Orientation::Rotated180 => rotate180_spec(p, w as int, h as int),
        Orientation::MirrorVertical => mirror_v_spec(p, w as int, h as int),
        Orientation::MirroredHorizontallyAndRotated270 => transpose_spec(p, w as int, h as int),
        Orientation::Rotated90 => rotate90_spec(p, w as int, h as int),
        Orientation::MirroredHorizontallyAndRotated90 => transverse_spec(p, w as int, h as int),
        Orientation::Rotated270 => rotate270_spec(p, w as int, h as int),
        _ => p,
    }
}

impl Image {
    /// The orientation recorded in the metadata of the raw file bytes.
    pub fn orientation(&self, raw: &Vec<u8>) -> (o: Orientation)
        ensures
            o == orientation_of_bytes(raw@),
    {
        match exif_orientation(raw) {
            Some(v) => Orientation::from(v),
            None => Orientation::Unknown,
        }
    }

    /// Decode the raw file bytes and apply the rotation or mirroring
    /// implied by the orientation tag, yielding the upright pixel buffer.
    pub fn image(&self, raw: &Vec<u8>) -> (r: Result<CanonicalImage, AppError>)
        ensures
            match decoded_rgb_of(raw@) {
                Some(t) => {
                    if dims_ok(t.0, t.1) {
                        match r {
                            Ok(img) => {
                                let o = orientation_of_bytes(raw@);
                                &&& img.wf()
                                &&& img.width as int == oriented_width(t.0, t.1, o)
                                &&& img.height as int == oriented_height(t.0, t.1, o)
                                &&& img.pixels@ == oriented_pixels(t.2, t.0, t.1, o)
                            },
                            Err(_) => false,
                        }
                    } else {
                        r == Err::<CanonicalImage, AppError>(AppError::DecodeError)
                    }
                },
                None => r == Err::<CanonicalImage, AppError>(AppError::DecodeError),
            },
    {
        let decoded = decode_rgb(raw);
        match decoded {
            None => Err(AppError::DecodeError),
            Some((w, h, pixels)) => {
                proof {
                    assert((w as int) * (h as int) <= 0xffff_ffff * 0xffff_ffff)
                        by (nonlinear_arith)
                        requires
                            w <= 0xffff_ffffu32,
                            h <= 0xffff_ffffu32,
                    ;
                }
                if w < 1 || h < 1 || (w as u64) * (h as u64) > MAX_PIXELS {
                    return Err(AppError::DecodeError);
                }
                let img0 = CanonicalImage { width: w, height: h, pixels };
                let o = self.orientation(raw);
                let img = match o {
                    Orientation::MirrorHorizontal => mirror_h(&img0),
                    Orientation::Rotated180 => rotate180(&img0),
                    Orientation::MirrorVertical => mirror_v(&img0),
                    Orientation::MirroredHorizontallyAndRotated270 => transpose(&img0),
                    Orientation::Rotated90 => rotate90(&img0),
                    Orientation::MirroredHorizontallyAndRotated90 => transverse(&img0),
                    Orientation::Rotated270 => rotate270(&img0),
                    _ => img0,
                };
                Ok(img)
            },
        }
    }

    /// The resolution of the upright image, from the raw file bytes.
    pub fn resolution(&self, raw: &Vec<u8>) -> (r: Result<(u32, u32), AppError>)
        ensures
            match r {
                Ok(d) => {
                    match decoded_rgb_of(raw@) {
                        Some(t) => {
                            let o = orientation_of_bytes(raw@);
                            &&& dims_ok(t.0, t.1)
                            &&& d.0 as int == oriented_width(t.0, t.1, o)
                            &&& d.1 as int == oriented_height(t.0, t.1, o)
                        },
                        None => false,
                    }
                },
                Err(e) => {
                    &&& e == AppError::DecodeError
                    &&& match decoded_rgb_of(raw@) {
                        Some(t) => !dims_ok(t.0, t.1),
                        None => true,
                    }
                },
            },
    {
        let decoded = decode_rgb(raw);
        match decoded {
            None => Err(AppError::DecodeError),
            Some((w, h, _pixels)) => {
                proof {
                    assert((w as int) * (h as int) <= 0xffff_ffff * 0xffff_ffff)
                        by (nonlinear_arith)
                        requires
                            w <= 0xffff_ffffu32,
                            h <= 0xffff_ffffu32,
                    ;
                }
                if w < 1 || h < 1 || (w as u64) * (h as u64) > MAX_PIXELS {
                    return Err(AppError::DecodeError);
                }
                match self.orientation(raw) {
                    Orientation::Rotated90 => Ok((h, w)),
                    Orientation::Rotated270 => Ok((h, w)),
                    Orientation::MirroredHorizontallyAndRotated270 => Ok((h, w)),
                    Orientation::MirroredHorizontallyAndRotated90 => Ok((h, w)),
                    _ => Ok((w, h)),
                }
            },
        }
    }
}

/// Whether two aspect ratios differ by more than the tolerance of 0.01,
/// decided exactly by cross-multiplication:
/// |w1/h1 - w2/h2| > 1/100  iff  100 * |w1*h2 - w2*h1| > h1*h2.
pub open spec fn aspect_differs(w1: int, h1: int, w2: int, h2: int) -> bool {
    let d = w1 * h2 - w2 * h1;
    let m = if d >= 0 {
        d
    } else {
        -d
    };
    100 * m > h1 * h2
}

/// Exact aspect-ratio comparison of two resolutions.
pub fn aspect_ratio_differs(w1: u32, h1: u32, w2: u32, h2: u32) -> (r: bool)
    requires
        h1 >= 1,
        h2 >= 1,
    ensures
        r == aspect_differs(w1 as int, h1 as int, w2 as int, h2 as int),
{
    proof {
        assert((w1 as int) * (h2 as int) <= 0xffff_ffff * 0xffff_ffff && (w2 as int) * (h1 as int)
            <= 0xffff_ffff * 0xffff_ffff && (h1 as int) * (h2 as int) <= 0xffff_ffff * 0xffff_ffff)
            by (nonlinear_arith)
            requires
                w1 <= 0xffff_ffffu32,
                h2 <= 0xffff_ffffu32,
                w2 <= 0xffff_ffffu32,
                h1 <= 0xffff_ffffu32,
        ;
    }
    let a: u128 = (w1 as u128) * (h2 as u128);
    let b: u128 = (w2 as u128) * (h1 as u128);
    let m: u128 = if a >= b {
        a - b
    } else {
        b - a
    };
    let hh: u128 = (h1 as u128) * (h2 as u128);
    100 * m > hh
}

} // verus!
