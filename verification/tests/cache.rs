use std::collections::HashMap;

use docmill::cache::{digest_hex, now_unix, result_key, result_salt, stamp, CachedOcr, OcrCache};

/// The files of a cache, by their paths.
type Files = HashMap<String, String>;

fn get(cache: &OcrCache, files: &Files, key: &str) -> Option<CachedOcr> {
    let path = cache.entry_path(key)?;
    cache.get(files.get(&path)?)
}

fn put(cache: &OcrCache, files: &mut Files, key: &str, entry: &CachedOcr) {
    if let Some((path, body)) = cache.put(key, entry) {
        files.insert(path, body);
    }
}

#[test]
fn key_is_stable_and_input_sensitive() {
    let k = OcrCache::key("ppocr", "en", b"imagebytes");
    assert_eq!(k, OcrCache::key("ppocr", "en", b"imagebytes"));
    assert_eq!(k.len(), 64);
    assert_ne!(k, OcrCache::key("vlm", "en", b"imagebytes"));
    assert_ne!(k, OcrCache::key("ppocr", "ch", b"imagebytes"));
    assert_ne!(k, OcrCache::key("ppocr", "en", b"imagebyteS"));
    assert_ne!(OcrCache::key("a", "bc", b"d"), OcrCache::key("ab", "c", b"d"));
}

#[test]
fn roundtrip_and_shard_layout() {
    let cache = OcrCache::new("/cache".to_string());
    let mut files = Files::new();
    let key = OcrCache::key("vlm", "salt", b"png");
    assert!(get(&cache, &files, &key).is_none());
    let entry = CachedOcr {
        text: "hello\nworld".into(),
        grid: Some("hello   world".into()),
        engine: "vlm".into(),
        created: 1234,
    };
    put(&cache, &mut files, &key, &entry);
    let back = get(&cache, &files, &key).unwrap();
    assert_eq!(back.text, entry.text);
    assert_eq!(back.grid, entry.grid);
    assert_eq!(back.engine, entry.engine);
    assert_eq!(back.created, entry.created);
    let path = format!("/cache/{}/{key}.json", &key[..2]);
    assert!(files.contains_key(&path));
}

#[test]
fn empty_text_roundtrips() {
    let cache = OcrCache::new("/cache".to_string());
    let mut files = Files::new();
    let key = OcrCache::key("ppocr", "", b"logo");
    put(
        &cache,
        &mut files,
        &key,
        &CachedOcr { text: String::new(), grid: None, engine: "ppocr".into(), created: 1 },
    );
    let hit = get(&cache, &files, &key).expect("negative result is cached");
    assert_eq!(hit.text, "");
    assert_eq!(hit.grid, None, "absent grid field reads back as None");
}

#[test]
fn corrupt_entry_is_a_miss() {
    let cache = OcrCache::new("/cache".to_string());
    let mut files = Files::new();
    let key = OcrCache::key("ppocr", "s", b"x");
    files.insert(format!("/cache/{}/{key}.json", &key[..2]), "{not json".to_string());
    assert!(get(&cache, &files, &key).is_none());
}

#[test]
fn disabled_cache_is_a_noop() {
    let cache = OcrCache::disabled();
    let mut files = Files::new();
    let key = OcrCache::key("ppocr", "s", b"x");
    put(
        &cache,
        &mut files,
        &key,
        &CachedOcr { text: "t".into(), grid: None, engine: "ppocr".into(), created: 1 },
    );
    assert!(get(&cache, &files, &key).is_none());
    assert!(files.is_empty());
}

#[test]
fn hashes_are_sha_256() {
    assert_eq!(
        digest_hex(b"abc"),
        "ba7816bf8f01cfea414140de5dae2223b00361a396177a9cb410ff61f20015ad"
    );
    let mut input = Vec::new();
    for field in ["docmill-ocr-2", "1.4.2", "ppocr", "en"] {
        input.extend_from_slice(field.as_bytes());
        input.push(0);
    }
    input.extend_from_slice(b"image");
    assert_eq!(OcrCache::key("ppocr", "en", b"image"), digest_hex(&input));
}

#[test]
fn stored_entries_are_json_objects() {
    let cache = OcrCache::new("c".to_string());
    let key = OcrCache::key("a", "b", b"c");
    let entry = CachedOcr {
        text: "quote \" and\ttab".into(),
        grid: None,
        engine: "vlm".into(),
        created: u64::MAX,
    };
    let (_, body) = cache.put(&key, &entry).unwrap();
    let value: serde_json::Value = serde_json::from_str(&body).unwrap();
    assert_eq!(value["text"].as_str(), Some("quote \" and\ttab"));
    assert_eq!(value["created"].as_u64(), Some(u64::MAX));
    let back = cache.get(&body).unwrap();
    assert_eq!(back.text, "quote \" and\ttab");
    assert_eq!(back.created, u64::MAX);
}

#[test]
fn entries_without_their_fields_are_misses() {
    let cache = OcrCache::new("c".to_string());
    assert!(cache.get("[]").is_none());
    assert!(cache.get("{}").is_none());
    assert!(cache.get("{\"text\":1,\"engine\":\"e\",\"created\":1}").is_none());
    assert!(cache.get("{\"text\":\"t\",\"engine\":\"e\",\"created\":1}").is_some());
}

#[test]
fn default_directory_prefers_xdg() {
    let some = |s: &str| Some(s.to_string());
    assert_eq!(
        OcrCache::default_dir(some("/x"), some("/home/u"), None, None),
        some("/x/docmill")
    );
    assert_eq!(
        OcrCache::default_dir(None, some("/home/u"), None, None),
        some("/home/u/.cache/docmill")
    );
}

#[test]
fn the_media_type_is_part_of_a_result_key() {
    let png = result_key("a", "salt", "image/png", b"same");
    assert_eq!(png, result_key("a", "salt", "image/png", b"same"));
    assert_ne!(png, result_key("a", "salt", "image/jpeg", b"same"));
    assert_eq!(result_salt("s\"", "image/png"), r#"{"engine":"s\"","mimetype":"image/png"}"#);
    assert_ne!(result_salt("a|b", "c"), result_salt("a", "b|c"));
    assert_ne!(png, result_key("a", "other", "image/png", b"same"));
}

#[test]
fn the_clock_is_past_2020() {
    assert!(now_unix() > 1_577_836_800);
}

#[test]
fn a_clock_before_1970_counts_as_its_start() {
    assert_eq!(stamp(Some(1234)), 1234);
    assert_eq!(stamp(None), 0);
}
