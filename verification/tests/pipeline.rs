use osm_index::bitmap::RequiredNodes;
use osm_index::config::Filters;
use osm_index::emit::{Emitter, PipelineError};
use osm_index::fx::{CoordTable, HarvestedPositions};
use osm_index::model::Element;
use osm_index::passes::{emit_segments, harvest, harvest_into, mark_required, selects};
use osm_index::preprocessor::preprocess;
use osm_index::records::{find_tag, has_any_key, pick_from, Record, Tag};

fn tag(key: &str, value: &str) -> Tag {
    Tag { key: key.to_string(), value: value.to_string() }
}

fn filters(primary: &[&str], attribute: &[&str]) -> Filters {
    Filters {
        primary_keys: primary.iter().map(|s| s.to_string()).collect(),
        attribute_keys: attribute.iter().map(|s| s.to_string()).collect(),
    }
}

fn bits(x: f32) -> u32 {
    x.to_bits()
}

fn node(id: u64, lat: f32, lon: f32, tags: Vec<Tag>) -> Record {
    Record::Node { id, lat: bits(lat), lon: bits(lon), tags }
}

fn names(
    out: &osm_index::preprocessor::Preprocessed,
    tag_set_id: u32,
) -> Vec<(String, String)> {
    let pairs = out.tag_sets.resolve(tag_set_id as usize).unwrap();
    pairs
        .iter()
        .map(|(k, v)| (out.interner.lookup(*k).unwrap(), out.interner.lookup(*v).unwrap()))
        .collect()
}

#[test]
fn single_node_single_key() {
    let records = vec![node(1, 48.8, 2.3, vec![tag("amenity", "cafe")])];
    let out = preprocess(&records, &filters(&["amenity"], &[])).unwrap();
    assert_eq!(
        out.elements,
        vec![Element {
            id: 1,
            coordinates: [[bits(48.8), bits(2.3)], [bits(48.8), bits(2.3)]],
            tag_set_id: 0
        }]
    );
    assert_eq!(names(&out, 0), vec![("amenity".to_string(), "cafe".to_string())]);
    assert_eq!(out.skipped_segments, 0);
}

#[test]
fn way_of_three_nodes() {
    let records = vec![
        node(1, 0.0, 0.0, vec![]),
        node(2, 0.0, 0.001, vec![]),
        node(3, 0.0, 0.002, vec![]),
        Record::Way {
            id: 42,
            refs: vec![1, 2, 3],
            tags: vec![tag("highway", "residential"), tag("name", "Main")],
        },
    ];
    let out = preprocess(&records, &filters(&["highway"], &["name"])).unwrap();
    assert_eq!(
        out.elements,
        vec![
            Element {
                id: 42,
                coordinates: [[bits(0.0), bits(0.0)], [bits(0.0), bits(0.001)]],
                tag_set_id: 0
            },
            Element {
                id: 42,
                coordinates: [[bits(0.0), bits(0.001)], [bits(0.0), bits(0.002)]],
                tag_set_id: 0
            },
        ]
    );
    assert_eq!(
        names(&out, 0),
        vec![
            ("highway".to_string(), "residential".to_string()),
            ("name".to_string(), "Main".to_string())
        ]
    );
    assert_eq!(out.skipped_segments, 0);
    assert_eq!(out.tag_sets.offsets.len(), 1);
}

#[test]
fn filter_exclusion() {
    let records = vec![node(5, 1.0, 2.0, vec![tag("name", "Solo")])];
    let out = preprocess(&records, &filters(&["amenity"], &["name"])).unwrap();
    assert_eq!(out.elements, vec![]);
    assert_eq!(out.tag_sets.offsets.len(), 0);
    assert_eq!(out.interner.offsets.len(), 0);
}

#[test]
fn missing_way_node() {
    let records = vec![
        node(1, 10.0, 20.0, vec![]),
        node(2, 10.5, 20.5, vec![]),
        Record::Way { id: 7, refs: vec![1, 2, 9], tags: vec![tag("highway", "path")] },
    ];
    let out = preprocess(&records, &filters(&["highway"], &[])).unwrap();
    assert_eq!(
        out.elements,
        vec![Element {
            id: 7,
            coordinates: [[bits(10.0), bits(20.0)], [bits(10.5), bits(20.5)]],
            tag_set_id: 0
        }]
    );
    assert_eq!(out.skipped_segments, 1);
}

#[test]
fn way_without_any_position_gives_no_element() {
    let records = vec![Record::Way {
        id: 7,
        refs: vec![1, 2, 3, 4],
        tags: vec![tag("highway", "path")],
    }];
    let out = preprocess(&records, &filters(&["highway"], &[])).unwrap();
    assert_eq!(out.elements, vec![]);
    assert_eq!(out.skipped_segments, 3);
    // The tags were interned all the same.
    assert_eq!(names(&out, 0), vec![("highway".to_string(), "path".to_string())]);
}

#[test]
fn nodes_come_before_or_after_the_way_that_needs_them() {
    let records = vec![
        Record::Way { id: 9, refs: vec![2, 1], tags: vec![tag("highway", "x")] },
        node(1, 1.0, 1.5, vec![]),
        node(2, 2.0, 2.5, vec![]),
        node(3, 3.0, 3.5, vec![]),
    ];
    let out = preprocess(&records, &filters(&["highway"], &[])).unwrap();
    assert_eq!(
        out.elements,
        vec![Element {
            id: 9,
            coordinates: [[bits(2.0), bits(2.5)], [bits(1.0), bits(1.5)]],
            tag_set_id: 0
        }]
    );
}

#[test]
fn tags_come_in_configuration_order_not_record_order() {
    let records = vec![
        node(1, 0.0, 0.0, vec![tag("name", "A"), tag("shop", "bakery"), tag("amenity", "cafe")]),
        node(2, 0.0, 0.0, vec![tag("amenity", "cafe"), tag("other", "x"), tag("name", "A")]),
        node(3, 0.0, 0.0, vec![tag("shop", "bakery")]),
    ];
    let out = preprocess(&records, &filters(&["amenity", "shop"], &["name"])).unwrap();
    assert_eq!(out.elements.len(), 3);
    assert_eq!(
        names(&out, out.elements[0].tag_set_id),
        vec![
            ("amenity".to_string(), "cafe".to_string()),
            ("shop".to_string(), "bakery".to_string()),
            ("name".to_string(), "A".to_string())
        ]
    );
    assert_eq!(
        names(&out, out.elements[1].tag_set_id),
        vec![("amenity".to_string(), "cafe".to_string()), ("name".to_string(), "A".to_string())]
    );
    assert_eq!(
        names(&out, out.elements[2].tag_set_id),
        vec![("shop".to_string(), "bakery".to_string())]
    );
    assert_eq!(out.elements[0].tag_set_id, 0);
    assert_eq!(out.elements[1].tag_set_id, 1);
    assert_eq!(out.elements[2].tag_set_id, 2);
    assert_eq!(out.interner.lookup(0), Some("amenity".to_string()));
    assert_eq!(out.interner.lookup(1), Some("cafe".to_string()));
    assert_eq!(out.interner.lookup(2), Some("shop".to_string()));
    assert_eq!(out.interner.lookup(3), Some("bakery".to_string()));
    assert_eq!(out.interner.lookup(4), Some("name".to_string()));
    assert_eq!(out.interner.lookup(5), Some("A".to_string()));
    assert_eq!(out.interner.lookup(6), None);
}

#[test]
fn equal_tags_share_one_tag_set() {
    let records = vec![
        node(1, 0.0, 0.0, vec![tag("amenity", "cafe"), tag("name", "A")]),
        node(2, 1.0, 1.0, vec![tag("name", "A"), tag("amenity", "cafe")]),
        node(3, 2.0, 2.0, vec![tag("amenity", "bar")]),
    ];
    let out = preprocess(&records, &filters(&["amenity"], &["name"])).unwrap();
    assert_eq!(out.elements[0].tag_set_id, 0);
    assert_eq!(out.elements[1].tag_set_id, 0);
    assert_eq!(out.elements[2].tag_set_id, 1);
    assert_eq!(out.tag_sets.offsets, vec![0, 2]);
    assert_eq!(out.tag_sets.lengths, vec![2, 1]);
}

#[test]
fn keys_match_exactly_and_the_first_value_counts() {
    let tags = vec![tag("Amenity", "x"), tag("amenity", "first"), tag("amenity", "second")];
    assert_eq!(find_tag(&tags, &"amenity".to_string()), Some(1));
    assert_eq!(find_tag(&tags, &"amen".to_string()), None);
    assert_eq!(find_tag(&tags, &"amenity ".to_string()), None);
    assert!(has_any_key(&tags, &vec!["zzz".to_string(), "Amenity".to_string()]));
    assert!(!has_any_key(&tags, &vec!["zzz".to_string()]));
    assert!(!has_any_key(&tags, &vec![]));
    let mut picks = vec![];
    pick_from(&tags, &vec!["amenity".to_string(), "none".to_string(), "Amenity".to_string()], &mut picks);
    assert_eq!(picks, vec![1, 0]);
    let records = vec![node(1, 0.0, 0.0, tags)];
    let out = preprocess(&records, &filters(&["amenity"], &[])).unwrap();
    assert_eq!(names(&out, 0), vec![("amenity".to_string(), "first".to_string())]);
}

#[test]
fn pass_one_marks_the_node_itself_or_what_a_way_refers_to() {
    let f = filters(&["highway"], &["name"]);
    let mut required = RequiredNodes::new();
    mark_required(&node(1, 0.0, 0.0, vec![tag("highway", "stop")]), &f, &mut required);
    mark_required(&node(2, 0.0, 0.0, vec![tag("name", "only")]), &f, &mut required);
    mark_required(
        &Record::Way { id: 100, refs: vec![5, 6, 5], tags: vec![tag("highway", "x")] },
        &f,
        &mut required,
    );
    mark_required(
        &Record::Way { id: 101, refs: vec![8, 9], tags: vec![tag("name", "x")] },
        &f,
        &mut required,
    );
    mark_required(&Record::Other, &f, &mut required);
    assert!(required.contains(1));
    assert!(!required.contains(2));
    assert!(required.contains(5));
    assert!(required.contains(6));
    assert!(!required.contains(8));
    assert!(!required.contains(100));
    assert_eq!(required.ids().len(), 3);
    assert!(!required.insert(5));
    assert!(required.insert(u64::MAX));
    assert!(required.contains(u64::MAX));
}

#[test]
fn selection_needs_a_primary_key_on_a_node_or_way() {
    let f = filters(&["highway"], &["name"]);
    assert!(selects(&node(1, 0.0, 0.0, vec![tag("highway", "stop")]), &f));
    assert!(!selects(&node(1, 0.0, 0.0, vec![tag("name", "stop")]), &f));
    assert!(!selects(&node(1, 0.0, 0.0, vec![]), &f));
    assert!(selects(&Record::Way { id: 1, refs: vec![], tags: vec![tag("highway", "x")] }, &f));
    assert!(!selects(&Record::Other, &f));
    assert!(!selects(&node(1, 0.0, 0.0, vec![tag("highway", "stop")]), &filters(&[], &["highway"])));
}

#[test]
fn pass_two_keeps_required_nodes_only() {
    let mut required = RequiredNodes::new();
    required.insert(2);
    required.insert(7);
    let mut collected = HarvestedPositions::new();
    assert_eq!(harvest(&node(1, 1.0, 2.0, vec![]), &required), None);
    assert_eq!(harvest(&node(2, 1.0, 2.0, vec![]), &required), Some((2, (bits(1.0), bits(2.0)))));
    assert_eq!(harvest(&Record::Way { id: 2, refs: vec![], tags: vec![] }, &required), None);
    assert!(!harvest_into(&node(1, 1.0, 2.0, vec![]), &required, &mut collected));
    assert!(harvest_into(&node(2, 1.0, 2.0, vec![]), &required, &mut collected));
    assert!(harvest_into(&node(7, 5.0, 6.0, vec![]), &required, &mut collected));
    assert!(harvest_into(&node(2, 3.0, 4.0, vec![]), &required, &mut collected));
    let coords = collected.freeze();
    assert_eq!(coords.get(1), None);
    assert_eq!(coords.get(2), Some((bits(3.0), bits(4.0))));
    assert_eq!(coords.get(7), Some((bits(5.0), bits(6.0))));
    let empty = HarvestedPositions::new().freeze();
    assert_eq!(empty.get(2), None);
}

#[test]
fn segments_follow_consecutive_pairs() {
    let mut coords = CoordTable::new();
    coords.insert(1, (10, 11));
    coords.insert(2, (20, 21));
    coords.insert(4, (40, 41));
    coords.insert(5, (50, 51));
    let mut out = vec![Element { id: 0, coordinates: [[0, 0], [0, 0]], tag_set_id: 9 }];
    let skipped = emit_segments(77, &vec![1, 2, 3, 4, 5, 1], &coords, 3, &mut out);
    assert_eq!(skipped, 2);
    assert_eq!(
        out,
        vec![
            Element { id: 0, coordinates: [[0, 0], [0, 0]], tag_set_id: 9 },
            Element { id: 77, coordinates: [[10, 11], [20, 21]], tag_set_id: 3 },
            Element { id: 77, coordinates: [[40, 41], [50, 51]], tag_set_id: 3 },
            Element { id: 77, coordinates: [[50, 51], [10, 11]], tag_set_id: 3 },
        ]
    );
    let mut none = vec![];
    assert_eq!(emit_segments(1, &vec![], &coords, 0, &mut none), 0);
    assert_eq!(emit_segments(1, &vec![1], &coords, 0, &mut none), 0);
    assert_eq!(none, vec![]);
}

#[test]
fn emitter_takes_records_one_by_one() {
    let f = filters(&["highway"], &[]);
    let mut coords = CoordTable::new();
    coords.insert(1, (10, 11));
    coords.insert(2, (20, 21));
    let mut emitter = Emitter::new();
    assert_eq!(emitter.emit(&Record::Other, &f, &coords), Ok(0));
    assert_eq!(emitter.emit(&node(3, 0.0, 0.0, vec![tag("x", "y")]), &f, &coords), Ok(0));
    assert_eq!(emitter.elements().len(), 0);
    assert_eq!(
        emitter.emit(
            &Record::Way { id: 8, refs: vec![1, 2, 3], tags: vec![tag("highway", "a")] },
            &f,
            &coords
        ),
        Ok(1)
    );
    assert_eq!(emitter.elements().len(), 1);
    assert_eq!(emitter.interner().len(), 2);
    assert_eq!(emitter.tag_sets().len(), 1);
    let (elements, tag_sets, interner) = emitter.finish();
    assert_eq!(elements, vec![Element { id: 8, coordinates: [[10, 11], [20, 21]], tag_set_id: 0 }]);
    assert_eq!(tag_sets.data, vec![1]);
    assert_eq!(interner.lookup(1), Some("a".to_string()));
}

#[test]
fn tags_beyond_the_pool_limit_stop_the_pass() {
    // One value of 64 MiB, selected under 64 configured keys, would need 4 GiB.
    let big = "x".repeat(1 << 26);
    let f = Filters { primary_keys: vec!["k".to_string(); 64], attribute_keys: vec![] };
    let coords = CoordTable::new();
    let mut emitter = Emitter::new();
    let record =
        Record::Node { id: 1, lat: 0, lon: 0, tags: vec![Tag { key: "k".to_string(), value: big }] };
    assert_eq!(emitter.emit(&record, &f, &coords), Err(PipelineError::IdSpaceExhausted));
    assert_eq!(emitter.elements().len(), 0);
    assert_eq!(emitter.interner().len(), 0);
    assert_eq!(emitter.tag_sets().len(), 0);
    assert_eq!(
        preprocess(&vec![record], &f).err(),
        Some(PipelineError::IdSpaceExhausted)
    );
    let small = Record::Node { id: 2, lat: 0, lon: 0, tags: vec![tag("k", "v")] };
    assert_eq!(emitter.emit(&small, &f, &coords), Ok(0));
    assert_eq!(emitter.elements().len(), 1);
    assert_eq!(emitter.tag_sets().flatten().lengths, vec![64]);
}

#[test]
fn the_error_says_what_ran_out() {
    assert_eq!(
        PipelineError::IdSpaceExhausted.message(),
        "the string or tag-set table has no room left for the tags of a record"
    );
}

#[test]
fn a_key_in_both_lists_is_selected_under_each() {
    let records = vec![node(1, 0.0, 0.0, vec![tag("amenity", "cafe")])];
    let out = preprocess(&records, &filters(&["amenity"], &["amenity"])).unwrap();
    assert_eq!(
        names(&out, 0),
        vec![
            ("amenity".to_string(), "cafe".to_string()),
            ("amenity".to_string(), "cafe".to_string())
        ]
    );
    assert_eq!(out.tag_sets.data, vec![1, 1]);
}

#[test]
fn a_tagged_node_on_a_way_gives_one_element_of_its_own() {
    let records = vec![
        node(1, 1.0, 1.0, vec![tag("highway", "crossing")]),
        node(2, 2.0, 2.0, vec![]),
        Record::Way { id: 50, refs: vec![1, 2], tags: vec![tag("highway", "path")] },
    ];
    let out = preprocess(&records, &filters(&["highway"], &[])).unwrap();
    assert_eq!(
        out.elements,
        vec![
            Element {
                id: 1,
                coordinates: [[bits(1.0), bits(1.0)], [bits(1.0), bits(1.0)]],
                tag_set_id: 0
            },
            Element {
                id: 50,
                coordinates: [[bits(1.0), bits(1.0)], [bits(2.0), bits(2.0)]],
                tag_set_id: 1
            },
        ]
    );
    // An untagged node on the way gives none.
    let ids: Vec<u64> = out.elements.iter().map(|e| e.id).collect();
    assert!(!ids.contains(&2));
}
