//! Tests of the content hasher: determinism, sampling, parameter checks.

use deduper::error::AppError;
use deduper::image::Image;

fn png_bytes(w: u32, h: u32, pixels: &[u8]) -> Vec<u8> {
    let img = image::RgbImage::from_raw(w, h, pixels.to_vec()).unwrap();
    let mut out = std::io::Cursor::new(Vec::new());
    image::DynamicImage::ImageRgb8(img)
        .write_to(&mut out, image::ImageFormat::Png)
        .unwrap();
    out.into_inner()
}

fn gradient_pixels(w: u32, h: u32) -> Vec<u8> {
    let mut p = Vec::new();
    for y in 0..h {
        for x in 0..w {
            p.push((x * 20 % 256) as u8);
            p.push((y * 30 % 256) as u8);
            p.push(((x + y) * 10 % 256) as u8);
        }
    }
    p
}

#[test]
fn test_hash() {
    let pixels = gradient_pixels(8, 8);
    let raw = png_bytes(8, 8, &pixels);
    let raw_duplicate = raw.clone();
    let other_pixels: Vec<u8> = pixels.iter().map(|b| 255 - b).collect();
    let raw_different = png_bytes(8, 8, &other_pixels);

    let img = Image::from_path("img.png").unwrap();
    assert_eq!(
        img.hash(&raw, 1000).unwrap(),
        img.hash(&raw_duplicate, 1000).unwrap()
    );
    assert_ne!(
        img.hash(&raw, 1000).unwrap(),
        img.hash(&raw_different, 1000).unwrap()
    );
}

#[test]
fn test_hash_deterministic_across_calls() {
    let raw = png_bytes(6, 4, &gradient_pixels(6, 4));
    let img = Image::from_path("a.png").unwrap();
    let first = img.hash(&raw, 700).unwrap();
    let second = img.hash(&raw, 700).unwrap();
    assert_eq!(first, second);
}

#[test]
fn test_hash_full_buffer_value() {
    // with a fraction of 1.0 the full canonical RGB buffer is hashed
    let pixels = gradient_pixels(4, 4);
    let raw = png_bytes(4, 4, &pixels);
    let img = Image::from_path("a.png").unwrap();
    let h = img.hash(&raw, 1000).unwrap();
    assert_eq!(h, xxhash_rust::xxh3::xxh3_64(&pixels));
}

#[test]
fn test_hash_sampled_window_value() {
    // a fraction of 0.5 on a 2x2 image hashes only the top-left pixel
    let pixels: Vec<u8> = vec![10, 20, 30, 40, 50, 60, 70, 80, 90, 100, 110, 120];
    let raw = png_bytes(2, 2, &pixels);
    let img = Image::from_path("a.png").unwrap();
    let h = img.hash(&raw, 500).unwrap();
    assert_eq!(h, xxhash_rust::xxh3::xxh3_64(&pixels[0..3]));
}

#[test]
fn test_hash_invalid_fraction_low() {
    let raw = png_bytes(2, 2, &[0u8; 12]);
    let img = Image::from_path("a.png").unwrap();
    assert!(matches!(img.hash(&raw, 0), Err(AppError::InvalidParameter)));
}

#[test]
fn test_hash_invalid_fraction_high() {
    // a sample fraction of 1.5 is out of (0, 1]
    let raw = png_bytes(2, 2, &[0u8; 12]);
    let img = Image::from_path("a.png").unwrap();
    assert!(matches!(
        img.hash(&raw, 1500),
        Err(AppError::InvalidParameter)
    ));
}

#[test]
fn test_hash_refuses_heic() {
    let raw = png_bytes(2, 2, &[0u8; 12]);
    let img = Image {
        path: String::from("a.heic"),
    };
    assert!(matches!(
        img.hash(&raw, 1000),
        Err(AppError::UnsupportedFormat)
    ));
}

#[test]
fn test_hash_undecodable_bytes() {
    let img = Image::from_path("a.png").unwrap();
    let junk: Vec<u8> = vec![9, 9, 9];
    assert!(matches!(img.hash(&junk, 1000), Err(AppError::DecodeError)));
}
