use osm_index::model::{pack_pair, unpack_pair, FlatTagSets};
use osm_index::tag_sets::TagSetInterner;

#[test]
fn packing_puts_the_key_high_and_the_value_low() {
    assert_eq!(pack_pair(1, 2), 4294967298);
    assert_eq!(pack_pair(0, 0), 0);
    assert_eq!(pack_pair(u32::MAX, 0), 0xFFFF_FFFF_0000_0000);
    assert_eq!(pack_pair(0, u32::MAX), 0x0000_0000_FFFF_FFFF);
    assert_eq!(unpack_pair(4294967298), (1, 2));
    assert_eq!(unpack_pair(u64::MAX), (u32::MAX, u32::MAX));
    assert_eq!(unpack_pair(pack_pair(77, 99)), (77, 99));
}

#[test]
fn equal_sequences_share_an_id_and_order_matters() {
    let mut table = TagSetInterner::new();
    let a = table.intern(vec![(0, 1), (2, 3)]);
    let b = table.intern(vec![(2, 3), (0, 1)]);
    let c = table.intern(vec![(0, 1), (2, 3)]);
    let d = table.intern(vec![]);
    let e = table.intern(vec![(0, 1)]);
    assert_eq!(a, 0);
    assert_eq!(b, 1);
    assert_eq!(c, 0);
    assert_eq!(d, 2);
    assert_eq!(e, 3);
    assert_eq!(table.len(), 4);
    assert_eq!(table.spare_ids(), u32::MAX - 4);
    assert!(table.has_room_for(10));
}

#[test]
fn flattening_keeps_every_tag_set_under_its_id() {
    let mut table = TagSetInterner::new();
    let sets: Vec<Vec<(u32, u32)>> =
        vec![vec![(0, 1), (2, 3)], vec![], vec![(4, 5)], vec![(2, 3), (0, 1)]];
    let mut ids = Vec::new();
    for s in sets.iter() {
        ids.push(table.intern(s.clone()));
    }
    let flat = table.flatten();
    assert!(flat.check());
    assert_eq!(flat.data, vec![1, (2u64 << 32) | 3, (4u64 << 32) | 5, (2u64 << 32) | 3, 1]);
    assert_eq!(flat.offsets, vec![0, 2, 2, 3]);
    assert_eq!(flat.lengths, vec![2, 0, 1, 2]);
    for (s, id) in sets.iter().zip(ids.iter()) {
        assert_eq!(flat.resolve(*id as usize), Some(s.clone()));
    }
    assert_eq!(flat.resolve(4), None);
}

#[test]
fn get_gives_the_slice_or_nothing() {
    let flat = FlatTagSets { data: vec![10, 20, 30], offsets: vec![0, 1, 2], lengths: vec![1, 2, 5] };
    assert_eq!(flat.get(0), Some(&[10u64][..]));
    assert_eq!(flat.get(1), Some(&[20u64, 30][..]));
    assert_eq!(flat.get(2), None);
    assert_eq!(flat.get(3), None);
    assert!(!flat.check());
    let short = FlatTagSets { data: vec![], offsets: vec![0], lengths: vec![] };
    assert_eq!(short.get(0), None);
    assert!(!short.check());
}

#[test]
fn push_set_appends_packed_pairs() {
    let mut flat = FlatTagSets::new();
    flat.push_set(&[(1, 2)]);
    flat.push_set(&[]);
    flat.push_set(&[(3, 4), (5, 6)]);
    assert_eq!(flat.data, vec![pack_pair(1, 2), pack_pair(3, 4), pack_pair(5, 6)]);
    assert_eq!(flat.offsets, vec![0, 1, 1]);
    assert_eq!(flat.lengths, vec![1, 0, 2]);
    assert_eq!(flat.resolve(2), Some(vec![(3, 4), (5, 6)]));
    let copy = flat.clone();
    assert_eq!(copy.data, flat.data);
    assert_eq!(copy.offsets, flat.offsets);
    assert_eq!(copy.lengths, flat.lengths);
}
