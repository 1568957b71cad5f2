use osm_index::cache::{decode, encode, load, store};
use osm_index::config::{Config, Filters, Profiling, Runtime, Server, Storage};
use osm_index::fingerprint::{calculate_source_hash, SourceFacts};
use osm_index::model::{CacheData, Element, FlatTagSets, StringInterner};
use osm_index::preprocessor::{
    from_cache, into_cache, load_or_preprocess, preprocess, LoadedCache,
};
use osm_index::records::{Record, Tag};

fn sample() -> CacheData {
    let mut interner = StringInterner::new();
    interner.get_or_intern("highway");
    interner.get_or_intern("résidentiel");
    let mut tag_sets = FlatTagSets::new();
    tag_sets.push_set(&[(0, 1)]);
    tag_sets.push_set(&[]);
    CacheData {
        elements: vec![
            Element { id: 42, coordinates: [[1, 2], [3, 4]], tag_set_id: 0 },
            Element { id: u64::MAX, coordinates: [[u32::MAX, 0], [0, u32::MAX]], tag_set_id: 1 },
        ],
        tag_sets,
        interner,
        source_hash: 0x0102030405060708,
    }
}

fn same(a: &CacheData, b: &CacheData) {
    assert_eq!(a.elements, b.elements);
    assert_eq!(a.tag_sets.data, b.tag_sets.data);
    assert_eq!(a.tag_sets.offsets, b.tag_sets.offsets);
    assert_eq!(a.tag_sets.lengths, b.tag_sets.lengths);
    assert_eq!(a.interner.pool.as_bytes(), b.interner.pool.as_bytes());
    assert_eq!(a.interner.offsets, b.interner.offsets);
    assert_eq!(a.interner.lengths, b.interner.lengths);
    assert_eq!(a.source_hash, b.source_hash);
}

fn config(primary: &[&str], attribute: &[&str], drop_map: bool) -> Config {
    Config {
        filters: Filters {
            primary_keys: primary.iter().map(|s| s.to_string()).collect(),
            attribute_keys: attribute.iter().map(|s| s.to_string()).collect(),
        },
        storage: Storage { cache_dir: "cache".to_string(), zstd_level: 3 },
        server: Server { host: "127.0.0.1".to_string(), port: 8080 },
        profiling: Profiling { enabled: false, out: "profile.svg".to_string(), frequency: 100 },
        runtime: Runtime { drop_interner_map: drop_map },
    }
}

fn facts() -> SourceFacts {
    SourceFacts { path: "/data/extract.osm.pbf".to_string(), size: 1234, modified: Some((1700000000, 5)) }
}

fn records() -> Vec<Record> {
    vec![
        Record::Node { id: 1, lat: 10, lon: 20, tags: vec![] },
        Record::Node { id: 2, lat: 30, lon: 40, tags: vec![] },
        Record::Way {
            id: 42,
            refs: vec![1, 2, 3],
            tags: vec![
                Tag { key: "highway".to_string(), value: "residential".to_string() },
                Tag { key: "name".to_string(), value: "Main".to_string() },
            ],
        },
    ]
}

#[test]
fn empty_cache_is_seven_zero_counts_and_the_fingerprint() {
    let cache = CacheData {
        elements: vec![],
        tag_sets: FlatTagSets::new(),
        interner: StringInterner::new(),
        source_hash: 0x1122334455667788,
    };
    let bytes = encode(&cache);
    let mut expected = vec![0u8; 56];
    expected.extend_from_slice(&[0x88, 0x77, 0x66, 0x55, 0x44, 0x33, 0x22, 0x11]);
    assert_eq!(bytes, expected);
}

#[test]
fn fields_are_length_prefixed_and_little_endian() {
    let mut interner = StringInterner::new();
    interner.get_or_intern("ab");
    let mut tag_sets = FlatTagSets::new();
    tag_sets.push_set(&[(1, 2)]);
    let cache = CacheData {
        elements: vec![Element { id: 0x0A, coordinates: [[1, 2], [3, 0x01020304]], tag_set_id: 0 }],
        tag_sets,
        interner,
        source_hash: 9,
    };
    let expected: Vec<u8> = vec![
        1, 0, 0, 0, 0, 0, 0, 0, // one element
        0x0A, 0, 0, 0, 0, 0, 0, 0, // id
        1, 0, 0, 0, 2, 0, 0, 0, 3, 0, 0, 0, 4, 3, 2, 1, // coordinates
        0, 0, 0, 0, // tag set id
        1, 0, 0, 0, 0, 0, 0, 0, // one packed pair
        2, 0, 0, 0, 1, 0, 0, 0, // value low, key high
        1, 0, 0, 0, 0, 0, 0, 0, // one offset
        0, 0, 0, 0, //
        1, 0, 0, 0, 0, 0, 0, 0, // one length
        1, 0, 0, 0, //
        2, 0, 0, 0, 0, 0, 0, 0, // pool of two bytes
        b'a', b'b', //
        1, 0, 0, 0, 0, 0, 0, 0, // one string offset
        0, 0, 0, 0, //
        1, 0, 0, 0, 0, 0, 0, 0, // one string length
        2, 0, 0, 0, //
        9, 0, 0, 0, 0, 0, 0, 0, // fingerprint
    ];
    assert_eq!(encode(&cache), expected);
}

#[test]
fn decoding_gives_back_what_was_encoded() {
    let cache = sample();
    let bytes = encode(&cache);
    let back = decode(&bytes).unwrap();
    same(&cache, &back);
    assert_eq!(back.interner.map.len(), 0);
    assert_eq!(back.interner.lookup(1), Some("résidentiel".to_string()));
    assert_eq!(back.tag_sets.resolve(0), Some(vec![(0, 1)]));
    assert_eq!(encode(&back), bytes);
}

#[test]
fn decoding_rejects_what_is_no_sound_cache() {
    let bytes = encode(&sample());
    assert!(decode(&[]).is_none());
    assert!(decode(&bytes[..bytes.len() - 1]).is_none());
    let mut longer = bytes.clone();
    longer.push(0);
    assert!(decode(&longer).is_none());
    // An element count far beyond the bytes that follow.
    let mut wrong_count = bytes.clone();
    wrong_count[7] = 0xFF;
    assert!(decode(&wrong_count).is_none());
    // An element that refers to a tag set that does not exist.
    let mut cache = sample();
    cache.elements[0].tag_set_id = 2;
    assert!(!cache.check_elements());
    assert!(decode(&encode(&cache)).is_none());
    // A tag set that reaches past the data.
    let mut cache = sample();
    cache.tag_sets.lengths[1] = 2;
    assert!(decode(&encode(&cache)).is_none());
    // A string that is not UTF-8.
    let mut cache = sample();
    cache.interner.lengths[1] = 2;
    assert!(decode(&encode(&cache)).is_none());
    // Offsets and lengths of different number.
    let mut cache = sample();
    cache.interner.offsets.push(0);
    assert!(decode(&encode(&cache)).is_none());
}

#[test]
fn store_then_load_gives_the_cache_back() {
    let cache = sample();
    let file = store(&cache, 3).unwrap();
    assert_ne!(file, encode(&cache));
    let back = load(&file, cache.source_hash).unwrap();
    same(&cache, &back);
    for level in [0u32, 1, 19, u32::MAX] {
        let file = store(&cache, level).unwrap();
        same(&cache, &load(&file, cache.source_hash).unwrap());
    }
}

#[test]
fn load_misses_on_another_fingerprint_or_a_damaged_file() {
    let cache = sample();
    let file = store(&cache, 3).unwrap();
    assert!(load(&file, cache.source_hash + 1).is_none());
    assert!(load(&[], cache.source_hash).is_none());
    assert!(load(&encode(&cache), cache.source_hash).is_none());
    assert!(load(&file[..file.len() / 2], cache.source_hash).is_none());
    let not_a_cache = store(
        &CacheData {
            elements: vec![Element { id: 1, coordinates: [[0, 0], [0, 0]], tag_set_id: 5 }],
            tag_sets: FlatTagSets::new(),
            interner: StringInterner::new(),
            source_hash: cache.source_hash,
        },
        3,
    )
    .unwrap();
    assert!(load(&not_a_cache, cache.source_hash).is_none());
}

#[test]
fn cache_hit() {
    let cfg = config(&["highway"], &["name"], true);
    let first = load_or_preprocess(&cfg, &facts(), None, &records()).unwrap();
    assert!(!first.from_cache);
    assert_eq!(first.skipped_segments, 1);
    let file = first.fresh_file.unwrap();
    // The second run sees the file and must not look at the records at all.
    let second = load_or_preprocess(&cfg, &facts(), Some(&file), &vec![]).unwrap();
    assert!(second.from_cache);
    assert!(second.fresh_file.is_none());
    let LoadedCache::Owned { elements: e1, tag_sets: t1, interner: i1 } = first.cache;
    let LoadedCache::Owned { elements: e2, tag_sets: t2, interner: i2 } = second.cache;
    assert_eq!(e1, vec![Element { id: 42, coordinates: [[10, 20], [30, 40]], tag_set_id: 0 }]);
    assert_eq!(e1, e2);
    assert_eq!(t1.data, t2.data);
    assert_eq!(t1.offsets, t2.offsets);
    assert_eq!(t1.lengths, t2.lengths);
    assert_eq!(i1.pool.as_bytes(), i2.pool.as_bytes());
    assert_eq!(i1.offsets, i2.offsets);
    assert_eq!(i1.lengths, i2.lengths);
    assert_eq!(i1.map.len(), 0);
    assert_eq!(i2.map.len(), 0);
    assert_eq!(i2.lookup(3), Some("Main".to_string()));
}

#[test]
fn cache_invalidation() {
    let before = config(&["highway"], &["name"], true);
    let after = config(&["highway", "amenity"], &["name"], true);
    let first = load_or_preprocess(&before, &facts(), None, &records()).unwrap();
    let file = first.fresh_file.unwrap();
    let second = load_or_preprocess(&after, &facts(), Some(&file), &records()).unwrap();
    assert!(!second.from_cache);
    let new_file = second.fresh_file.unwrap();
    assert!(load(&new_file, calculate_source_hash(&after, &facts())).is_some());
    assert!(load(&new_file, calculate_source_hash(&before, &facts())).is_none());
    assert!(load(&file, calculate_source_hash(&after, &facts())).is_none());
    // A changed file invalidates as well.
    let mut touched = facts();
    touched.modified = Some((1700000001, 5));
    let third = load_or_preprocess(&before, &touched, Some(&file), &records()).unwrap();
    assert!(!third.from_cache);
}

#[test]
fn the_map_is_kept_where_the_configuration_says_so() {
    let cfg = config(&["highway"], &["name"], false);
    let first = load_or_preprocess(&cfg, &facts(), None, &records()).unwrap();
    let file = first.fresh_file.unwrap();
    let LoadedCache::Owned { interner, .. } = first.cache;
    assert_eq!(interner.map.len(), 4);
    let second = load_or_preprocess(&cfg, &facts(), Some(&file), &records()).unwrap();
    assert!(second.from_cache);
    let LoadedCache::Owned { mut interner, .. } = second.cache;
    assert_eq!(interner.map.len(), 4);
    assert_eq!(interner.get_or_intern("name"), 2);
}

#[test]
fn a_run_ends_in_data_and_a_cache_file_that_gives_it_back() {
    let cfg = config(&["highway"], &["name"], false);
    let made = preprocess(&records(), &cfg.filters).unwrap();
    let done = into_cache(&cfg, 77, made);
    assert!(!done.from_cache);
    assert_eq!(done.skipped_segments, 1);
    let file = done.fresh_file.unwrap();
    assert!(from_cache(&cfg, 78, &file).is_none());
    assert!(from_cache(&cfg, 77, &file[1..]).is_none());
    let again = from_cache(&cfg, 77, &file).unwrap();
    let LoadedCache::Owned { elements: e1, tag_sets: t1, interner: i1 } = done.cache;
    let LoadedCache::Owned { elements: e2, tag_sets: t2, interner: i2 } = again;
    assert_eq!(e1, e2);
    assert_eq!(t1.data, t2.data);
    assert_eq!(i1.pool.as_bytes(), i2.pool.as_bytes());
    assert_eq!(i1.map.len(), 4);
    assert_eq!(i2.map.len(), 4);
    let dropped = from_cache(&config(&["highway"], &["name"], true), 77, &file).unwrap();
    let LoadedCache::Owned { interner: i3, .. } = dropped;
    assert_eq!(i3.map.len(), 0);
    assert_eq!(i3.lookup(0), Some("highway".to_string()));
}
