//! Tests of the near-duplicate engine: edge discovery, the union pass,
//! and the duplicate groups.

use deduper::duplicates::{build_groups, create_similarity_index, find_similar_pairs};

fn png_bytes(w: u32, h: u32, pixels: &[u8]) -> Vec<u8> {
    let img = image::RgbImage::from_raw(w, h, pixels.to_vec()).unwrap();
    let mut out = std::io::Cursor::new(Vec::new());
    image::DynamicImage::ImageRgb8(img)
        .write_to(&mut out, image::ImageFormat::Png)
        .unwrap();
    out.into_inner()
}

fn gradient_pixels(w: u32, h: u32) -> Vec<u8> {
    let mut p = Vec::new();
    for y in 0..h {
        for x in 0..w {
            p.push((x * 20 % 256) as u8);
            p.push((y * 30 % 256) as u8);
            p.push(((x + y) * 10 % 256) as u8);
        }
    }
    p
}

fn flat_pixels(w: u32, h: u32, v: u8) -> Vec<u8> {
    vec![v; (3 * w * h) as usize]
}

#[test]
fn test_duplicates() {
    // A and B are byte-identical, C is unrelated: near-duplicate mode
    // yields the group {A, B} and excludes C
    let pixels = gradient_pixels(8, 8);
    let raw_a = png_bytes(8, 8, &pixels);
    let raw_b = raw_a.clone();
    let inverted: Vec<u8> = pixels.iter().map(|b| 255 - b).collect();
    let raw_c = png_bytes(8, 8, &inverted);
    let entries = vec![
        (String::from("vault/A.jpg"), raw_a),
        (String::from("vault/B.jpg"), raw_b),
        (String::from("vault/C.jpg"), raw_c),
    ];

    let index = create_similarity_index(&entries);
    assert_eq!(index.failed, 0);
    assert_eq!(index.groups.len(), 1);
    assert_eq!(
        index.groups[0],
        vec![String::from("vault/A.jpg"), String::from("vault/B.jpg")]
    );
}

#[test]
fn test_heic_in_path_list() {
    // the heic entry fails once and appears in no group
    let pixels = gradient_pixels(8, 8);
    let raw_a = png_bytes(8, 8, &pixels);
    let raw_b = raw_a.clone();
    let entries = vec![
        (String::from("vault/A.jpg"), raw_a),
        (String::from("vault/B.jpg"), raw_b),
        (String::from("vault/x.heic"), vec![1, 2, 3]),
    ];

    let index = create_similarity_index(&entries);
    assert_eq!(index.failed, 1);
    assert_eq!(index.groups.len(), 1);
    for group in &index.groups {
        assert!(!group.contains(&String::from("vault/x.heic")));
    }
}

#[test]
fn test_group_minimality() {
    // two clusters of two, one loner: groups are disjoint, each of at
    // least two members, none a subset of another
    let a = png_bytes(8, 8, &flat_pixels(8, 8, 40));
    let b = a.clone();
    let c = png_bytes(8, 8, &flat_pixels(8, 8, 200));
    let d = c.clone();
    let e = png_bytes(8, 8, &gradient_pixels(8, 8));
    let entries = vec![
        (String::from("vault/a.jpg"), a),
        (String::from("vault/b.jpg"), b),
        (String::from("vault/c.jpg"), c),
        (String::from("vault/d.jpg"), d),
        (String::from("vault/e.jpg"), e),
    ];

    let index = create_similarity_index(&entries);
    for group in &index.groups {
        assert!(group.len() >= 2);
    }
    let mut seen: Vec<&String> = Vec::new();
    for group in &index.groups {
        for member in group {
            assert!(!seen.contains(&member));
            seen.push(member);
        }
    }
    assert!(!seen.contains(&&String::from("vault/e.jpg")));
}

#[test]
fn test_find_similar_pairs_counts_failures() {
    let raw = png_bytes(4, 4, &gradient_pixels(4, 4));
    let entries = vec![
        (String::from("vault/ok.png"), raw),
        (String::from("vault/bad.png"), vec![0, 1, 2]),
        (String::from("vault/worse.heic"), vec![9]),
    ];
    let (edges, failed) = find_similar_pairs(&entries);
    assert_eq!(failed, 2);
    assert!(edges.is_empty());
}

#[test]
fn test_aspect_mismatch_is_no_edge() {
    // incompatible aspect ratios are treated as "not similar", never as a
    // run-aborting error
    let a = png_bytes(8, 8, &flat_pixels(8, 8, 40));
    let b = png_bytes(16, 8, &flat_pixels(16, 8, 40));
    let entries = vec![
        (String::from("vault/a.png"), a),
        (String::from("vault/b.png"), b),
    ];
    let (edges, failed) = find_similar_pairs(&entries);
    assert_eq!(failed, 0);
    assert!(edges.is_empty());
    let index = create_similarity_index(&entries);
    assert!(index.groups.is_empty());
}

#[test]
fn test_build_groups_merges_chains() {
    let edges = vec![(0usize, 1usize), (1, 2), (3, 4)];
    let groups = build_groups(6, &edges);
    assert_eq!(groups.len(), 2);
    assert_eq!(groups[0], vec![0, 1, 2]);
    assert_eq!(groups[1], vec![3, 4]);
}

#[test]
fn test_build_groups_ignores_loners() {
    let edges: Vec<(usize, usize)> = Vec::new();
    let groups = build_groups(4, &edges);
    assert!(groups.is_empty());
}
