//! Tests of the persistent hash cache: codec, reset, incrementality, and
//! the exact-duplicate grouper.

use deduper::error::AppError;
use deduper::store::{decode_hash, encode_hash, get_duplicates, insert_hashes, HashStore};

fn open_store(dir: &str) -> (fjall::Database, HashStore) {
    let db = fjall::Database::create_or_recover(fjall::Config::new(std::path::Path::new(dir)))
        .unwrap();
    let ks = db
        .keyspace("image_hashes", fjall::KeyspaceCreateOptions::default)
        .unwrap();
    (db, HashStore::new(ks))
}

fn png_bytes(w: u32, h: u32, pixels: &[u8]) -> Vec<u8> {
    let img = image::RgbImage::from_raw(w, h, pixels.to_vec()).unwrap();
    let mut out = std::io::Cursor::new(Vec::new());
    image::DynamicImage::ImageRgb8(img)
        .write_to(&mut out, image::ImageFormat::Png)
        .unwrap();
    out.into_inner()
}

fn gradient_pixels(w: u32, h: u32) -> Vec<u8> {
    let mut p = Vec::new();
    for y in 0..h {
        for x in 0..w {
            p.push((x * 20 % 256) as u8);
            p.push((y * 30 % 256) as u8);
            p.push(((x + y) * 10 % 256) as u8);
        }
    }
    p
}

fn vault_items() -> Vec<(String, Vec<u8>)> {
    let pixels = gradient_pixels(8, 8);
    let raw_a = png_bytes(8, 8, &pixels);
    let raw_b = raw_a.clone();
    let inverted: Vec<u8> = pixels.iter().map(|b| 255 - b).collect();
    let raw_c = png_bytes(8, 8, &inverted);
    vec![
        (String::from("vault/A.jpg"), raw_a),
        (String::from("vault/B.jpg"), raw_b),
        (String::from("vault/C.jpg"), raw_c),
    ]
}

#[test]
fn test_hash_codec_exact_bytes() {
    let enc = encode_hash(0x0123456789abcdef);
    assert_eq!(enc, vec![0xef, 0xcd, 0xab, 0x89, 0x67, 0x45, 0x23, 0x01]);
    assert_eq!(decode_hash(&enc), Some(0x0123456789abcdef));
}

#[test]
fn test_hash_codec_rejects_wrong_width() {
    assert_eq!(decode_hash(&vec![1, 2, 3]), None);
    assert_eq!(decode_hash(&vec![0; 9]), None);
}

#[test]
fn test_reset_yields_empty_iteration() {
    let (_db, mut store) = open_store("/tmp/deduper-test-store-reset");
    store
        .insert(&b"vault/A.jpg".to_vec(), &encode_hash(7))
        .unwrap();
    store.clear().unwrap();
    assert!(store.iter_entries().unwrap().is_empty());
}

#[test]
fn test_exact_duplicate_groups() {
    // byte-identical A and B group together; unrelated C stays out
    let (_db, mut store) = open_store("/tmp/deduper-test-store-exact");
    let items = vault_items();
    let report = insert_hashes(&mut store, &items, true, 1000).unwrap();
    assert_eq!(report.failed, 0);
    assert_eq!(report.computed, 3);

    let groups = get_duplicates(&store).unwrap();
    assert_eq!(groups.len(), 1);
    assert_eq!(
        groups[0].1,
        vec![String::from("vault/A.jpg"), String::from("vault/B.jpg")]
    );
}

#[test]
fn test_cache_incrementality() {
    // a second run over the same path set recomputes nothing and leaves
    // identical cache content
    let (_db, mut store) = open_store("/tmp/deduper-test-store-incremental");
    let items = vault_items();
    let first = insert_hashes(&mut store, &items, true, 1000).unwrap();
    assert_eq!(first.computed, 3);
    let before = store.iter_entries().unwrap();

    let second = insert_hashes(&mut store, &items, false, 1000).unwrap();
    assert_eq!(second.computed, 0);
    assert_eq!(second.failed, 0);
    let after = store.iter_entries().unwrap();
    assert_eq!(before, after);
}

#[test]
fn test_invalid_fraction_leaves_cache_untouched() {
    // a sample fraction of 1.5 is refused before the cache is touched
    let (_db, mut store) = open_store("/tmp/deduper-test-store-invalid-fraction");
    let items = vault_items();
    insert_hashes(&mut store, &items, true, 1000).unwrap();
    let before = store.iter_entries().unwrap();

    let r = insert_hashes(&mut store, &items, false, 1500);
    assert!(matches!(r, Err(AppError::InvalidParameter)));
    let after = store.iter_entries().unwrap();
    assert_eq!(before, after);
}

#[test]
fn test_heic_counts_one_failure() {
    // a heic file in the indexed path list increments the failure counter
    // by 1 and appears in no output group
    let (_db, mut store) = open_store("/tmp/deduper-test-store-heic");
    let mut items = vault_items();
    items.push((String::from("vault/x.heic"), vec![1, 2, 3]));
    let report = insert_hashes(&mut store, &items, true, 1000).unwrap();
    assert_eq!(report.failed, 1);
    assert_eq!(report.computed, 3);

    let groups = get_duplicates(&store).unwrap();
    for (_, members) in &groups {
        assert!(!members.contains(&String::from("vault/x.heic")));
    }
}

#[test]
fn test_corrupt_record_is_skipped() {
    // a record whose value does not decode is skipped, not fatal
    let (_db, mut store) = open_store("/tmp/deduper-test-store-corrupt");
    store.clear().unwrap();
    store
        .insert(&b"vault/A.jpg".to_vec(), &encode_hash(42))
        .unwrap();
    store
        .insert(&b"vault/B.jpg".to_vec(), &encode_hash(42))
        .unwrap();
    store
        .insert(&b"vault/broken.jpg".to_vec(), &vec![1, 2, 3])
        .unwrap();
    let groups = get_duplicates(&store).unwrap();
    assert_eq!(groups.len(), 1);
    assert_eq!(groups[0].0, 42);
    assert_eq!(
        groups[0].1,
        vec![String::from("vault/A.jpg"), String::from("vault/B.jpg")]
    );
}

#[test]
fn test_groups_follow_iteration_order() {
    let (_db, mut store) = open_store("/tmp/deduper-test-store-order");
    store.clear().unwrap();
    // inserted out of order; iteration (and so group members) is sorted
    store
        .insert(&b"vault/z.jpg".to_vec(), &encode_hash(9))
        .unwrap();
    store
        .insert(&b"vault/a.jpg".to_vec(), &encode_hash(9))
        .unwrap();
    let groups = get_duplicates(&store).unwrap();
    assert_eq!(groups.len(), 1);
    assert_eq!(
        groups[0].1,
        vec![String::from("vault/a.jpg"), String::from("vault/z.jpg")]
    );
}

#[test]
fn test_overlong_path_counts_as_failure() {
    // a path too long for a store key is counted and skipped, and the
    // store is never consulted for it
    let (_db, mut store) = open_store("/tmp/deduper-test-store-longpath");
    let mut items = vault_items();
    let long_name = format!("vault/{}.jpg", "a".repeat(70000));
    items.push((long_name.clone(), png_bytes(8, 8, &gradient_pixels(8, 8))));
    let report = insert_hashes(&mut store, &items, true, 1000).unwrap();
    assert_eq!(report.failed, 1);
    assert_eq!(report.computed, 3);
    for (key, _) in store.iter_entries().unwrap() {
        assert!(key.len() < 65536);
    }
}
