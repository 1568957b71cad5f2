use osm_index::api::{
    describe, numbers_equal, rank, resolve_tags, respond, Hit, SegmentStorage, SpatialElement,
    TagSetsHandle,
};
use osm_index::config::Filters;
use osm_index::model::{Element, FlatTagSets, StringInterner};
use osm_index::preprocessor::preprocess;
use osm_index::records::{Record, Tag};
use std::sync::Arc;

fn bits(x: f32) -> u32 {
    x.to_bits()
}

fn stores() -> (FlatTagSets, StringInterner) {
    let mut interner = StringInterner::new();
    interner.get_or_intern("amenity");
    interner.get_or_intern("cafe");
    interner.get_or_intern("name");
    interner.get_or_intern("Main");
    let mut tag_sets = FlatTagSets::new();
    tag_sets.push_set(&[(0, 1)]);
    tag_sets.push_set(&[(0, 1), (2, 3)]);
    tag_sets.push_set(&[(0, 9), (2, 3), (9, 1)]);
    (tag_sets, interner)
}

fn object(id: u64, from: [f32; 2], to: [f32; 2], tag_set_id: u32) -> SpatialElement {
    SpatialElement::new(&Element {
        id,
        coordinates: [[bits(from[0]), bits(from[1])], [bits(to[0]), bits(to[1])]],
        tag_set_id,
    })
}

#[test]
fn numbers_compare_as_floats_do() {
    let cases: [f32; 9] =
        [0.0, -0.0, 1.5, -1.5, f32::INFINITY, f32::NEG_INFINITY, f32::NAN, f32::MIN_POSITIVE, 48.8];
    for a in cases.iter() {
        for b in cases.iter() {
            assert_eq!(numbers_equal(a.to_bits(), b.to_bits()), a == b);
        }
    }
    assert!(numbers_equal(0x0000_0000, 0x8000_0000));
    assert!(!numbers_equal(0x7FC0_0000, 0x7FC0_0000));
    assert!(!numbers_equal(0xFFFF_FFFF, 0xFFFF_FFFF));
    assert!(numbers_equal(0x7F80_0000, 0x7F80_0000));
    assert!(!numbers_equal(0x7F80_0000, 0xFF80_0000));
}

#[test]
fn index_objects_carry_the_element() {
    let e = Element { id: 3, coordinates: [[1, 2], [3, 4]], tag_set_id: 5 };
    let o = SpatialElement::new(&e);
    assert_eq!(o.id, 3);
    assert_eq!(o.tag_set_id, 5);
    assert_eq!(o.endpoints(), ([1, 2], [3, 4]));
    let SegmentStorage::Owned { from, to } = o.storage;
    assert_eq!(from, [1, 2]);
    assert_eq!(to, [3, 4]);
}

#[test]
fn a_node_is_what_has_coinciding_endpoints() {
    let (tag_sets, interner) = stores();
    let node = describe(&object(1, [48.8, 2.3], [48.8, 2.3], 0), &tag_sets, &interner);
    assert_eq!(node.element_type, "node");
    assert_eq!(node.id, 1);
    assert_eq!(f32::from_bits(node.lat1), 48.8);
    assert_eq!(f32::from_bits(node.lon1), 2.3);
    assert_eq!(f32::from_bits(node.lat2), 48.8);
    assert_eq!(f32::from_bits(node.lon2), 2.3);
    let way = describe(&object(2, [48.8, 2.3], [48.8, 2.4], 0), &tag_sets, &interner);
    assert_eq!(way.element_type, "way");
    let way = describe(&object(2, [48.8, 2.3], [48.9, 2.3], 0), &tag_sets, &interner);
    assert_eq!(way.element_type, "way");
    let zero = describe(&object(2, [0.0, -0.0], [-0.0, 0.0], 0), &tag_sets, &interner);
    assert_eq!(zero.element_type, "node");
    let nan = describe(&object(2, [f32::NAN, 1.0], [f32::NAN, 1.0], 0), &tag_sets, &interner);
    assert_eq!(nan.element_type, "way");
}

#[test]
fn tags_are_reconstructed_through_both_stores() {
    let (tag_sets, interner) = stores();
    assert_eq!(
        resolve_tags(&tag_sets, &interner, 0),
        vec![("amenity".to_string(), "cafe".to_string())]
    );
    assert_eq!(
        resolve_tags(&tag_sets, &interner, 1),
        vec![
            ("amenity".to_string(), "cafe".to_string()),
            ("name".to_string(), "Main".to_string())
        ]
    );
    // Pairs with an id that no string has are left out.
    assert_eq!(
        resolve_tags(&tag_sets, &interner, 2),
        vec![("name".to_string(), "Main".to_string())]
    );
    // No such tag set.
    assert_eq!(resolve_tags(&tag_sets, &interner, 3), vec![]);
}

#[test]
fn the_handle_reads_the_shared_store() {
    let (tag_sets, _) = stores();
    let handle = TagSetsHandle(Arc::new(tag_sets));
    let copy = handle.clone();
    assert_eq!(handle.get(0), Some(&[1u64][..]));
    assert_eq!(copy.get(1), Some(&[1u64, (2u64 << 32) | 3][..]));
    assert_eq!(handle.get(3), None);
}

#[test]
fn nearer_hits_come_first() {
    let o = object(0, [0.0, 0.0], [0.0, 0.0], 0);
    let distances: [f32; 7] = [4.0, 0.5, 0.0, 1e-12, 3.0, f32::INFINITY, 0.25];
    let hits: Vec<Hit> = distances
        .iter()
        .enumerate()
        .map(|(i, d)| Hit { element: SpatialElement { id: i as u64, ..o }, distance: d.to_bits() })
        .collect();
    let ranked = rank(hits);
    let ids: Vec<u64> = ranked.iter().map(|h| h.element.id).collect();
    assert_eq!(ids, vec![2, 3, 6, 1, 4, 0, 5]);
    for w in ranked.windows(2) {
        assert!(f32::from_bits(w[0].distance) <= f32::from_bits(w[1].distance));
    }
    assert_eq!(rank(vec![]).len(), 0);
}

#[test]
fn the_response_lists_every_hit_nearest_first() {
    let (tag_sets, interner) = stores();
    let hits = vec![
        Hit { element: object(10, [1.0, 1.0], [2.0, 2.0], 1), distance: bits(0.5) },
        Hit { element: object(11, [1.0, 1.0], [1.0, 1.0], 0), distance: bits(0.1) },
        Hit { element: object(12, [3.0, 3.0], [3.0, 3.0], 7), distance: bits(0.3) },
    ];
    let response = respond(hits, &tag_sets, &interner);
    assert_eq!(response.elements.len(), 3);
    assert_eq!(response.elements[0].id, 11);
    assert_eq!(response.elements[0].element_type, "node");
    assert_eq!(response.elements[0].tags, vec![("amenity".to_string(), "cafe".to_string())]);
    assert_eq!(response.elements[1].id, 12);
    assert_eq!(response.elements[1].tags, vec![]);
    assert_eq!(response.elements[2].id, 10);
    assert_eq!(response.elements[2].element_type, "way");
    assert_eq!(response.elements[2].tags.len(), 2);
    assert_eq!(f32::from_bits(response.elements[2].lat2), 2.0);
}

#[test]
fn single_node_query() {
    let records = vec![Record::Node {
        id: 1,
        lat: bits(48.8),
        lon: bits(2.3),
        tags: vec![Tag { key: "amenity".to_string(), value: "cafe".to_string() }],
    }];
    let filters = Filters { primary_keys: vec!["amenity".to_string()], attribute_keys: vec![] };
    let out = preprocess(&records, &filters).unwrap();
    let hits: Vec<Hit> = out
        .elements
        .iter()
        .map(|e| Hit { element: SpatialElement::new(e), distance: bits(0.0) })
        .collect();
    let response = respond(hits, &out.tag_sets, &out.interner);
    assert_eq!(response.elements.len(), 1);
    let entry = &response.elements[0];
    assert_eq!(entry.id, 1);
    assert_eq!(f32::from_bits(entry.lat1), 48.8);
    assert_eq!(f32::from_bits(entry.lon1), 2.3);
    assert_eq!(f32::from_bits(entry.lat2), 48.8);
    assert_eq!(f32::from_bits(entry.lon2), 2.3);
    assert_eq!(entry.element_type, "node");
    assert_eq!(entry.tags, vec![("amenity".to_string(), "cafe".to_string())]);
}

#[test]
fn way_query() {
    let records = vec![
        Record::Node { id: 1, lat: bits(0.0), lon: bits(0.0), tags: vec![] },
        Record::Node { id: 2, lat: bits(0.0), lon: bits(0.001), tags: vec![] },
        Record::Node { id: 3, lat: bits(0.0), lon: bits(0.002), tags: vec![] },
        Record::Way {
            id: 42,
            refs: vec![1, 2, 3],
            tags: vec![
                Tag { key: "highway".to_string(), value: "residential".to_string() },
                Tag { key: "name".to_string(), value: "Main".to_string() },
            ],
        },
    ];
    let filters =
        Filters { primary_keys: vec!["highway".to_string()], attribute_keys: vec!["name".to_string()] };
    let out = preprocess(&records, &filters).unwrap();
    let hits: Vec<Hit> = out
        .elements
        .iter()
        .enumerate()
        .map(|(i, e)| Hit { element: SpatialElement::new(e), distance: bits(i as f32) })
        .collect();
    let response = respond(hits, &out.tag_sets, &out.interner);
    assert_eq!(response.elements.len(), 2);
    for entry in response.elements.iter() {
        assert_eq!(entry.id, 42);
        assert_eq!(entry.element_type, "way");
        assert_eq!(
            entry.tags,
            vec![
                ("highway".to_string(), "residential".to_string()),
                ("name".to_string(), "Main".to_string())
            ]
        );
    }
    assert_eq!(f32::from_bits(response.elements[0].lon1), 0.0);
    assert_eq!(f32::from_bits(response.elements[0].lon2), 0.001);
    assert_eq!(f32::from_bits(response.elements[1].lon1), 0.001);
    assert_eq!(f32::from_bits(response.elements[1].lon2), 0.002);
}
