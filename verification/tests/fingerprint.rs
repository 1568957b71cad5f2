use osm_index::config::{Config, Filters, Profiling, Runtime, Server, Storage};
use osm_index::fingerprint::{calculate_source_hash, fingerprint_bytes, SourceFacts};

fn config(primary: &[&str], attribute: &[&str]) -> Config {
    Config {
        filters: Filters {
            primary_keys: primary.iter().map(|s| s.to_string()).collect(),
            attribute_keys: attribute.iter().map(|s| s.to_string()).collect(),
        },
        storage: Storage { cache_dir: "cache".to_string(), zstd_level: 3 },
        server: Server { host: "127.0.0.1".to_string(), port: 8080 },
        profiling: Profiling { enabled: false, out: "profile.svg".to_string(), frequency: 100 },
        runtime: Runtime { drop_interner_map: true },
    }
}

fn facts() -> SourceFacts {
    SourceFacts { path: "/data/x.pbf".to_string(), size: 1234, modified: Some((1700000000, 5)) }
}

#[test]
fn hashed_bytes_are_laid_out_field_by_field() {
    let f = SourceFacts { path: "p".to_string(), size: 0x0102, modified: Some((3, 4)) };
    let c = config(&["ab"], &[]);
    let expected: Vec<u8> = vec![
        1, 0, 0, 0, 0, 0, 0, 0, // one primary key
        2, 0, 0, 0, 0, 0, 0, 0, b'a', b'b', //
        0, 0, 0, 0, 0, 0, 0, 0, // no attribute key
        1, 0, 0, 0, 0, 0, 0, 0, b'p', // path
        2, 1, 0, 0, 0, 0, 0, 0, // size
        1, 0, 0, 0, 0, 0, 0, 0, // modification time known
        3, 0, 0, 0, 0, 0, 0, 0, //
        4, 0, 0, 0, 0, 0, 0, 0, //
    ];
    assert_eq!(fingerprint_bytes(&c.filters, &f), expected);
    let unknown = SourceFacts { path: "".to_string(), size: 0, modified: None };
    assert_eq!(fingerprint_bytes(&config(&[], &[]).filters, &unknown), vec![0u8; 40]);
}

#[test]
fn equal_inputs_give_equal_fingerprints() {
    let a = calculate_source_hash(&config(&["highway"], &["name"]), &facts());
    let b = calculate_source_hash(&config(&["highway"], &["name"]), &facts());
    assert_eq!(a, b);
}

#[test]
fn every_input_changes_the_fingerprint() {
    let base_config = config(&["highway", "amenity"], &["name"]);
    let base = calculate_source_hash(&base_config, &facts());
    let base_bytes = fingerprint_bytes(&base_config.filters, &facts());
    let mut others: Vec<(Config, SourceFacts)> = Vec::new();
    others.push((config(&["highway"], &["name"]), facts()));
    others.push((config(&["amenity", "highway"], &["name"]), facts()));
    others.push((config(&["highway", "amenity"], &[]), facts()));
    others.push((config(&["highway", "amenity", "name"], &[]), facts()));
    others.push((config(&["highway"], &["amenity", "name"]), facts()));
    others.push((config(&["highwayamenity"], &["name"]), facts()));
    others.push((config(&["highway", "amenity"], &["Name"]), facts()));
    let mut f = facts();
    f.path = "/data/y.pbf".to_string();
    others.push((config(&["highway", "amenity"], &["name"]), f));
    let mut f = facts();
    f.size = 1235;
    others.push((config(&["highway", "amenity"], &["name"]), f));
    let mut f = facts();
    f.modified = Some((1700000000, 6));
    others.push((config(&["highway", "amenity"], &["name"]), f));
    let mut f = facts();
    f.modified = Some((1700000001, 5));
    others.push((config(&["highway", "amenity"], &["name"]), f));
    let mut f = facts();
    f.modified = None;
    others.push((config(&["highway", "amenity"], &["name"]), f));
    for (c, f) in others.iter() {
        assert_ne!(fingerprint_bytes(&c.filters, f), base_bytes);
        assert_ne!(calculate_source_hash(c, f), base);
    }
}

#[test]
fn unrelated_settings_do_not_change_the_fingerprint() {
    let base = calculate_source_hash(&config(&["highway"], &["name"]), &facts());
    let mut other = config(&["highway"], &["name"]);
    other.storage.cache_dir = "elsewhere".to_string();
    other.storage.zstd_level = 19;
    other.server.host = "0.0.0.0".to_string();
    other.server.port = 1;
    other.profiling.enabled = true;
    other.profiling.out = "x.svg".to_string();
    other.profiling.frequency = 7;
    other.runtime.drop_interner_map = false;
    assert_eq!(calculate_source_hash(&other, &facts()), base);
}
