//! Tests of the similarity engine: identity, symmetry, aspect-ratio guard.

use deduper::error::AppError;
use deduper::image::Image;
use deduper::ssim::{normalize_images, ssim_score};

fn png_bytes(w: u32, h: u32, pixels: &[u8]) -> Vec<u8> {
    let img = image::RgbImage::from_raw(w, h, pixels.to_vec()).unwrap();
    let mut out = std::io::Cursor::new(Vec::new());
    image::DynamicImage::ImageRgb8(img)
        .write_to(&mut out, image::ImageFormat::Png)
        .unwrap();
    out.into_inner()
}

fn gradient_pixels(w: u32, h: u32) -> Vec<u8> {
    let mut p = Vec::new();
    for y in 0..h {
        for x in 0..w {
            p.push((x * 20 % 256) as u8);
            p.push((y * 30 % 256) as u8);
            p.push(((x + y) * 10 % 256) as u8);
        }
    }
    p
}

fn decode(name: &str, raw: &Vec<u8>) -> deduper::image::CanonicalImage {
    Image::from_path(name).unwrap().image(raw).unwrap()
}

#[test]
fn test_ssim_identity() {
    // an image compared with itself scores exactly 1.0 (scaled: 10000)
    let raw = png_bytes(8, 8, &gradient_pixels(8, 8));
    let img = decode("a.png", &raw);
    assert_eq!(ssim_score(&img, &img).unwrap(), 10000);
}

#[test]
fn test_ssim_identity_of_equal_bytes() {
    let raw = png_bytes(8, 8, &gradient_pixels(8, 8));
    let a = decode("a.png", &raw);
    let b = decode("b.png", &raw.clone());
    let score = ssim_score(&a, &b).unwrap();
    assert!((score - 10000).abs() < 100);
}

#[test]
fn test_ssim_symmetry() {
    let raw_a = png_bytes(8, 8, &gradient_pixels(8, 8));
    let inverted: Vec<u8> = gradient_pixels(8, 8).iter().map(|b| 255 - b).collect();
    let raw_b = png_bytes(8, 8, &inverted);
    let a = decode("a.png", &raw_a);
    let b = decode("b.png", &raw_b);
    assert_eq!(ssim_score(&a, &b).unwrap(), ssim_score(&b, &a).unwrap());
}

#[test]
fn test_ssim_dissimilar_scores_below_threshold() {
    let raw_a = png_bytes(8, 8, &gradient_pixels(8, 8));
    let inverted: Vec<u8> = gradient_pixels(8, 8).iter().map(|b| 255 - b).collect();
    let raw_b = png_bytes(8, 8, &inverted);
    let a = decode("a.png", &raw_a);
    let b = decode("b.png", &raw_b);
    assert!(ssim_score(&a, &b).unwrap() < 9500);
}

#[test]
fn test_ssim_aspect_ratio_guard() {
    // ratios 1.0 and 2.0 differ by more than the 0.01 tolerance: the
    // engine answers with the distinct error, never a score
    let a = decode("a.png", &png_bytes(8, 8, &gradient_pixels(8, 8)));
    let b = decode("b.png", &png_bytes(16, 8, &gradient_pixels(16, 8)));
    assert!(matches!(
        ssim_score(&a, &b),
        Err(AppError::DifferentAspectRatio)
    ));
}

#[test]
fn test_ssim_different_aspect_ratio_error() {
    let img1 = decode("house.png", &png_bytes(8, 6, &gradient_pixels(8, 6)));
    let img2 = decode("coffee.png", &png_bytes(8, 8, &gradient_pixels(8, 8)));

    let result = ssim_score(&img1, &img2);

    assert!(result.is_err());
}

#[test]
fn test_normalize_images_to_common_minimum() {
    let a = decode("a.png", &png_bytes(8, 6, &gradient_pixels(8, 6)));
    let b = decode("b.png", &png_bytes(6, 8, &gradient_pixels(6, 8)));
    let (na, nb) = normalize_images(&a, &b);
    assert_eq!(na.resolution(), (6, 6));
    assert_eq!(nb.resolution(), (6, 6));
    assert_eq!(na.pixels.len(), 3 * 6 * 6);
    assert_eq!(nb.pixels.len(), 3 * 6 * 6);
}
