//! Tests of the image handle: path validity, sidecar lookup, orientation.

use deduper::error::AppError;
use deduper::image::{Image, Orientation};

fn get_img(img_name: &str) -> Result<Image, AppError> {
    let img_path = format!("test-data/{}", img_name);
    Image::from_path(&img_path)
}

/// A minimal TIFF blob whose only field is the orientation tag.
fn tiff_with_orientation(orientation: u16) -> Vec<u8> {
    let mut b: Vec<u8> = Vec::new();
    b.extend_from_slice(b"II");
    b.extend_from_slice(&42u16.to_le_bytes());
    b.extend_from_slice(&8u32.to_le_bytes());
    b.extend_from_slice(&1u16.to_le_bytes());
    b.extend_from_slice(&0x0112u16.to_le_bytes());
    b.extend_from_slice(&3u16.to_le_bytes());
    b.extend_from_slice(&1u32.to_le_bytes());
    b.extend_from_slice(&orientation.to_le_bytes());
    b.extend_from_slice(&0u16.to_le_bytes());
    b.extend_from_slice(&0u32.to_le_bytes());
    b
}

#[test]
fn test_from_path() {
    let path = String::from("test-data/01/house.jpg");
    let img = Image::from_path(&path).unwrap();
    assert_eq!(img.path, path);
}

#[test]
fn test_from_path_rejects_heic() {
    let r = Image::from_path("test-data/01/photo.HEIC");
    assert!(matches!(r, Err(AppError::UnsupportedFormat)));
}

#[test]
fn test_is_valid() {
    let img = get_img("01/house.jpg").unwrap();
    assert!(img.is_valid());
}

#[test]
fn test_is_valid_rejects_other_files() {
    let img = Image {
        path: String::from("notes.txt"),
    };
    assert!(!img.is_valid());
    let img2 = Image {
        path: String::from("no-extension"),
    };
    assert!(!img2.is_valid());
}

#[test]
fn test_has_sidecar() {
    let img = get_img("01/house.jpg").unwrap();
    let files = vec![
        String::from("test-data/01/house.jpg"),
        String::from("test-data/01/house.xmp"),
    ];
    assert!(img.has_sidecar(&files));
}

#[test]
fn image_test_has_sidecar() {
    let files = vec![
        String::from("test-data/case-1/img.jpg"),
        String::from("test-data/case-1/img.xmp"),
        String::from("test-data/case-1/img-duplicate.jpg"),
    ];
    let img_with = Image::from_path("test-data/case-1/img.jpg").unwrap();
    let img_without = Image::from_path("test-data/case-1/img-duplicate.jpg").unwrap();

    assert!(img_with.has_sidecar(&files));
    assert!(!img_without.has_sidecar(&files));
}

#[test]
fn test_is_image_file() {
    let image_extensions = vec!["png", "jpg", "jpeg", "gif", "bmp", "tiff", "webp"];
    let non_image_extensions = vec!["txt", "pdf", "doc", "docx", "xls", "xlsx", "ppt", "pptx"];

    for ext in image_extensions {
        let file_name = format!("file.{}", ext);
        assert!(Image::is_image_file(&file_name));
    }

    for ext in non_image_extensions {
        let file_name = format!("file.{}", ext);
        assert!(!Image::is_image_file(&file_name));
    }
}

#[test]
fn test_is_image_file_upper_case() {
    assert!(Image::is_image_file("photo.JPG"));
    assert!(Image::is_image_file("photo.Png"));
    assert!(!Image::is_image_file("archive.ZIP"));
}

#[test]
fn test_valid_extensions() {
    let exts = Image::valid_extensions();
    assert_eq!(
        exts,
        vec!["png", "jpg", "jpeg", "gif", "bmp", "tiff", "webp"]
    );
}

#[test]
fn test_orientation() {
    let img_normal = get_img("01/house.jpg").unwrap();
    assert!(matches!(
        img_normal.orientation(&tiff_with_orientation(1)),
        Orientation::Normal
    ));

    let img_90deg = get_img("02/face-right-2.jpg").unwrap();
    assert!(matches!(
        img_90deg.orientation(&tiff_with_orientation(6)),
        Orientation::Rotated90
    ));
}

#[test]
fn test_orientation_defaults_to_unknown() {
    let img = get_img("01/house.jpg").unwrap();
    let junk: Vec<u8> = vec![1, 2, 3, 4, 5];
    assert!(matches!(img.orientation(&junk), Orientation::Unknown));
}

#[test]
fn test_orientation_from_tag_values() {
    assert!(matches!(Orientation::from(1u32), Orientation::Normal));
    assert!(matches!(Orientation::from(2u32), Orientation::MirrorHorizontal));
    assert!(matches!(Orientation::from(3u32), Orientation::Rotated180));
    assert!(matches!(Orientation::from(4u32), Orientation::MirrorVertical));
    assert!(matches!(
        Orientation::from(5u32),
        Orientation::MirroredHorizontallyAndRotated270
    ));
    assert!(matches!(Orientation::from(6u32), Orientation::Rotated90));
    assert!(matches!(
        Orientation::from(7u32),
        Orientation::MirroredHorizontallyAndRotated90
    ));
    assert!(matches!(Orientation::from(8u32), Orientation::Rotated270));
    assert!(matches!(Orientation::from(0u32), Orientation::Unknown));
    assert!(matches!(Orientation::from(9u32), Orientation::Unknown));
}

#[test]
fn test_image_decode_failure() {
    let img = get_img("01/house.jpg").unwrap();
    let junk: Vec<u8> = vec![0, 1, 2, 3];
    assert!(matches!(img.image(&junk), Err(AppError::DecodeError)));
}

#[test]
fn test_resolution_from_bytes() {
    let pixels: Vec<u8> = vec![0; 3 * 8 * 6];
    let img_buf = image::RgbImage::from_raw(8, 6, pixels).unwrap();
    let mut out = std::io::Cursor::new(Vec::new());
    image::DynamicImage::ImageRgb8(img_buf)
        .write_to(&mut out, image::ImageFormat::Png)
        .unwrap();
    let raw = out.into_inner();

    let img = get_img("01/house.jpg").unwrap();
    assert_eq!(img.resolution(&raw).unwrap(), (8, 6));
    let canonical = img.image(&raw).unwrap();
    assert_eq!(canonical.resolution(), (8, 6));
    assert_eq!(canonical.pixels.len(), 3 * 8 * 6);
}

fn png_bytes(w: u32, h: u32, pixels: &[u8]) -> Vec<u8> {
    let img = image::RgbImage::from_raw(w, h, pixels.to_vec()).unwrap();
    let mut out = std::io::Cursor::new(Vec::new());
    image::DynamicImage::ImageRgb8(img)
        .write_to(&mut out, image::ImageFormat::Png)
        .unwrap();
    out.into_inner()
}

fn crc32(data: &[u8]) -> u32 {
    let mut crc: u32 = 0xffff_ffff;
    for &b in data {
        crc ^= b as u32;
        for _ in 0..8 {
            if crc & 1 != 0 {
                crc = (crc >> 1) ^ 0xedb8_8320;
            } else {
                crc >>= 1;
            }
        }
    }
    !crc
}

/// A PNG with an eXIf chunk carrying the given orientation tag, inserted
/// right after the IHDR chunk.
fn png_with_exif_orientation(w: u32, h: u32, pixels: &[u8], orientation: u16) -> Vec<u8> {
    let png = png_bytes(w, h, pixels);
    let tiff = tiff_with_orientation(orientation);
    let mut chunk: Vec<u8> = Vec::new();
    chunk.extend_from_slice(&(tiff.len() as u32).to_be_bytes());
    chunk.extend_from_slice(b"eXIf");
    chunk.extend_from_slice(&tiff);
    let crc = crc32(&chunk[4..]);
    chunk.extend_from_slice(&crc.to_be_bytes());
    // the 8-byte signature plus the 25-byte IHDR chunk end at offset 33
    let mut out = png[..33].to_vec();
    out.extend_from_slice(&chunk);
    out.extend_from_slice(&png[33..]);
    out
}

#[test]
fn test_image_applies_rotation() {
    // 2x2 source, row by row: P00 P10 / P01 P11
    let pixels: Vec<u8> = vec![1, 2, 3, 4, 5, 6, 7, 8, 9, 10, 11, 12];
    let raw = png_with_exif_orientation(2, 2, &pixels, 6);
    let img = get_img("01/house.jpg").unwrap();
    assert!(matches!(img.orientation(&raw), Orientation::Rotated90));
    let canonical = img.image(&raw).unwrap();
    // rotated 90 degrees clockwise: P01 P00 / P11 P10
    assert_eq!(canonical.resolution(), (2, 2));
    assert_eq!(canonical.pixels, vec![7, 8, 9, 1, 2, 3, 10, 11, 12, 4, 5, 6]);
}

#[test]
fn test_image_applies_mirroring() {
    let pixels: Vec<u8> = vec![1, 2, 3, 4, 5, 6, 7, 8, 9, 10, 11, 12];
    let raw = png_with_exif_orientation(2, 2, &pixels, 2);
    let img = get_img("01/house.jpg").unwrap();
    assert!(matches!(img.orientation(&raw), Orientation::MirrorHorizontal));
    let canonical = img.image(&raw).unwrap();
    // mirrored horizontally: P10 P00 / P11 P01
    assert_eq!(canonical.resolution(), (2, 2));
    assert_eq!(canonical.pixels, vec![4, 5, 6, 1, 2, 3, 10, 11, 12, 7, 8, 9]);
}

#[test]
fn test_image_applies_transposition() {
    let pixels: Vec<u8> = vec![1, 2, 3, 4, 5, 6, 7, 8, 9, 10, 11, 12];
    let raw = png_with_exif_orientation(2, 2, &pixels, 5);
    let img = get_img("01/house.jpg").unwrap();
    assert!(matches!(
        img.orientation(&raw),
        Orientation::MirroredHorizontallyAndRotated270
    ));
    let canonical = img.image(&raw).unwrap();
    // transposed: P00 P01 / P10 P11
    assert_eq!(canonical.resolution(), (2, 2));
    assert_eq!(canonical.pixels, vec![1, 2, 3, 7, 8, 9, 4, 5, 6, 10, 11, 12]);
}
