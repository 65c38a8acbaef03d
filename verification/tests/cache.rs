use tower_cache::cache::{CacheEntry, ContentCache, DecodedImage, ImageMetadata};

fn entry(key: &str, first_byte: u8) -> CacheEntry {
    CacheEntry {
        key: key.to_string(),
        bitmap: DecodedImage {
            width: 1,
            height: 1,
            pixels: vec![first_byte, 2, 3, 4],
        },
        metadata: ImageMetadata {
            width: 1,
            height: 1,
            source_path: key.to_string(),
        },
    }
}

#[test]
fn insert_if_absent_is_idempotent_first_writer_wins() {
    let mut c = ContentCache::new();
    let g = c.current_generation();
    assert!(c.insert_if_absent(entry("/tmp/a.png", 11), g));
    // a second entry under the same key is refused, the first one stays
    assert!(!c.insert_if_absent(entry("/tmp/a.png", 99), g));
    let e = c.get(&"/tmp/a.png".to_string()).expect("entry must be present");
    assert_eq!(e.bitmap.pixels[0], 11);
}

#[test]
fn get_and_contains_on_missing_key() {
    let c = ContentCache::new();
    assert!(!c.contains(&"/tmp/a.png".to_string()));
    assert!(c.get(&"/tmp/a.png".to_string()).is_none());
}

#[test]
fn entries_for_distinct_keys_coexist() {
    let mut c = ContentCache::new();
    let g = c.current_generation();
    assert!(c.insert_if_absent(entry("/tmp/a.png", 1), g));
    assert!(c.insert_if_absent(entry("/tmp/b.png", 2), g));
    assert_eq!(c.get(&"/tmp/a.png".to_string()).unwrap().bitmap.pixels[0], 1);
    assert_eq!(c.get(&"/tmp/b.png".to_string()).unwrap().bitmap.pixels[0], 2);
}

#[test]
fn clear_empties_the_cache_and_advances_the_generation() {
    let mut c = ContentCache::new();
    let g = c.current_generation();
    assert!(c.insert_if_absent(entry("/tmp/a.png", 1), g));
    c.clear();
    assert!(!c.contains(&"/tmp/a.png".to_string()));
    assert_ne!(c.current_generation(), g);
}

#[test]
fn stale_generation_insert_is_refused() {
    let mut c = ContentCache::new();
    let old_generation = c.current_generation();
    c.clear();
    // a decode that started before the clear carries the old generation
    assert!(!c.insert_if_absent(entry("/tmp/a.png", 1), old_generation));
    assert!(!c.contains(&"/tmp/a.png".to_string()));
}
