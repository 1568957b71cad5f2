use osm_index::config::{
    default_drop_interner_map, default_profiling_enabled, default_profiling_freq,
    default_profiling_out, default_zstd_level, Runtime,
};

#[test]
fn defaults_are_as_documented() {
    assert!(default_drop_interner_map());
    assert_eq!(default_zstd_level(), 3);
    assert!(!default_profiling_enabled());
    assert_eq!(default_profiling_out(), "profile.svg".to_string());
    assert_eq!(default_profiling_freq(), 100);
}

#[test]
fn the_map_is_dropped_by_default() {
    assert!(Runtime::default().drop_interner_map);
    assert_eq!(Runtime::default().drop_interner_map, default_drop_interner_map());
}
