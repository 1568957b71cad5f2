use osm_index::model::{ConcurrentInterner, InternerLike, StringInterner};

fn intern_through_trait<I: InternerLike>(interner: &mut I, s: &str) -> u32 {
    interner.get_or_intern(s)
}

#[test]
fn interning_twice_gives_the_same_id() {
    let mut interner = StringInterner::new();
    let a = interner.get_or_intern("highway");
    let b = interner.get_or_intern("residential");
    let c = interner.get_or_intern("highway");
    assert_eq!(a, 0);
    assert_eq!(b, 1);
    assert_eq!(c, 0);
    assert_eq!(interner.lookup(0), Some("highway".to_string()));
    assert_eq!(interner.lookup(1), Some("residential".to_string()));
    assert_eq!(interner.lookup(2), None);
}

#[test]
fn distinct_strings_get_distinct_ids_and_resolve_back() {
    let words = ["amenity", "cafe", "name", "Main", "", "café", "cafe ", "Cafe"];
    let mut interner = StringInterner::new();
    let mut ids = Vec::new();
    for w in words.iter() {
        ids.push(interner.get_or_intern(w));
    }
    for i in 0..words.len() {
        for j in 0..words.len() {
            if i != j {
                assert_ne!(ids[i], ids[j]);
            }
        }
        assert_eq!(interner.lookup(ids[i]), Some(words[i].to_string()));
        assert_eq!(interner.get_or_intern(words[i]), ids[i]);
    }
    assert_eq!(ids, vec![0, 1, 2, 3, 4, 5, 6, 7]);
}

#[test]
fn pool_holds_the_strings_back_to_back() {
    let mut interner = StringInterner::new();
    interner.get_or_intern("ab");
    interner.get_or_intern("");
    interner.get_or_intern("é");
    interner.get_or_intern("ab");
    assert_eq!(interner.pool.as_bytes(), &[b'a', b'b', 0xC3, 0xA9][..]);
    assert_eq!(interner.offsets, vec![0, 2, 2]);
    assert_eq!(interner.lengths, vec![2, 0, 2]);
    assert_eq!(interner.pool.len(), 4);
}

#[test]
fn lookup_survives_dropping_the_map() {
    let mut interner = StringInterner::new();
    interner.get_or_intern("highway");
    interner.get_or_intern("primary");
    assert_eq!(interner.map.len(), 2);
    interner.drop_map();
    assert_eq!(interner.map.len(), 0);
    assert_eq!(interner.lookup(0), Some("highway".to_string()));
    assert_eq!(interner.lookup(1), Some("primary".to_string()));
    assert_eq!(interner.lookup(7), None);
}

#[test]
fn rebuilt_map_finds_every_string_again() {
    let mut interner = StringInterner::new();
    interner.get_or_intern("a");
    interner.get_or_intern("b");
    interner.get_or_intern("c");
    interner.drop_map();
    interner.rebuild_map();
    assert_eq!(interner.map.len(), 3);
    assert_eq!(interner.get_or_intern("b"), 1);
    assert_eq!(interner.get_or_intern("d"), 3);
    assert_eq!(interner.lookup(3), Some("d".to_string()));
}

#[test]
fn lookup_rejects_what_is_not_text_or_not_in_the_pool() {
    let mut interner = StringInterner::new();
    interner.get_or_intern("é");
    // The second byte of "é" alone is not UTF-8.
    interner.offsets.push(1);
    interner.lengths.push(1);
    // Past the end of the pool.
    interner.offsets.push(1);
    interner.lengths.push(5);
    assert_eq!(interner.lookup(0), Some("é".to_string()));
    assert_eq!(interner.lookup(1), None);
    assert_eq!(interner.lookup(2), None);
    assert!(!interner.check_layout());
}

#[test]
fn a_fresh_interner_has_room() {
    let interner = StringInterner::new();
    assert!(interner.has_room_for("anything"));
    assert!(interner.check_layout());
    let writer = ConcurrentInterner::new();
    assert!(writer.has_room_for("anything"));
    assert_eq!(writer.spare_ids(), u32::MAX);
    assert_eq!(writer.spare_bytes(), u32::MAX);
}

#[test]
fn write_form_counts_ids_and_bytes() {
    let mut writer = ConcurrentInterner::new();
    assert_eq!(writer.get_or_intern("name"), 0);
    assert_eq!(writer.get_or_intern("é"), 1);
    assert_eq!(writer.get_or_intern("name"), 0);
    assert_eq!(writer.len(), 2);
    assert_eq!(writer.spare_ids(), u32::MAX - 2);
    assert_eq!(writer.spare_bytes(), u32::MAX - 6);
}

#[test]
fn write_form_freezes_into_read_form() {
    let mut writer = ConcurrentInterner::new();
    assert_eq!(writer.get_or_intern("name"), 0);
    assert_eq!(writer.get_or_intern("Größe"), 1);
    assert_eq!(writer.get_or_intern("name"), 0);
    let frozen = writer.to_string_interner();
    assert_eq!(frozen.lookup(0), Some("name".to_string()));
    assert_eq!(frozen.lookup(1), Some("Größe".to_string()));
    assert_eq!(frozen.offsets, vec![0, 4]);
    assert_eq!(frozen.lengths, vec![4, 7]);
    let mut again = writer.into_string_interner();
    assert_eq!(again.lookup(1), Some("Größe".to_string()));
    assert_eq!(again.get_or_intern("Größe"), 1);
    assert_eq!(again.get_or_intern("new"), 2);
}

#[test]
fn both_forms_intern_alike_through_the_trait() {
    let mut read_form = StringInterner::new();
    let mut write_form = ConcurrentInterner::new();
    for w in ["x", "y", "x", "z", "y"].iter() {
        let a = intern_through_trait(&mut read_form, w);
        let b = intern_through_trait(&mut write_form, w);
        assert_eq!(a, b);
    }
    assert_eq!(intern_through_trait(&mut write_form, "z"), 2);
}

#[test]
fn a_copy_interns_like_the_one_it_was_made_from() {
    let mut interner = StringInterner::new();
    interner.get_or_intern("a");
    interner.get_or_intern("bc");
    let mut copy = interner.clone();
    assert_eq!(copy.pool.as_bytes(), interner.pool.as_bytes());
    assert_eq!(copy.offsets, interner.offsets);
    assert_eq!(copy.lengths, interner.lengths);
    assert_eq!(copy.map.len(), 2);
    assert_eq!(copy.get_or_intern("bc"), 1);
    assert_eq!(copy.get_or_intern("d"), 2);
    assert_eq!(interner.lookup(2), None);
    interner.drop_map();
    assert_eq!(interner.clone().map.len(), 0);
}

#[test]
fn a_repeated_string_is_found_under_its_first_id() {
    let mut interner = StringInterner::new();
    interner.get_or_intern("x");
    interner.get_or_intern("y");
    // A second entry for "x", as a damaged file might hold it.
    interner.offsets.push(0);
    interner.lengths.push(1);
    interner.rebuild_map();
    assert_eq!(interner.map.len(), 2);
    assert_eq!(interner.lookup(2), Some("x".to_string()));
    assert_eq!(interner.get_or_intern("x"), 0);
    assert_eq!(interner.get_or_intern("y"), 1);
}

#[test]
fn default_interners_are_empty() {
    let read_form = StringInterner::default();
    assert_eq!(read_form.offsets.len(), 0);
    assert_eq!(read_form.pool.len(), 0);
    assert_eq!(read_form.lookup(0), None);
    let write_form = ConcurrentInterner::default();
    assert_eq!(write_form.len(), 0);
}

#[test]
fn a_repeat_call_appends_nothing() {
    let mut interner = StringInterner::new();
    interner.get_or_intern("ab");
    interner.get_or_intern("");
    let before = (
        interner.pool.as_bytes().to_vec(),
        interner.offsets.clone(),
        interner.lengths.clone(),
        interner.map.len(),
    );
    assert_eq!(interner.get_or_intern("ab"), 0);
    assert_eq!(interner.get_or_intern(""), 1);
    let after = (
        interner.pool.as_bytes().to_vec(),
        interner.offsets.clone(),
        interner.lengths.clone(),
        interner.map.len(),
    );
    assert_eq!(before, after);
    // A new string goes to the end of the pool, also an empty one's neighbour.
    assert_eq!(interner.get_or_intern("c"), 2);
    assert_eq!(interner.pool.as_bytes(), b"abc");
    assert_eq!(interner.offsets, vec![0, 2, 2]);
    assert_eq!(interner.lengths, vec![2, 0, 1]);
}

#[test]
fn both_conversions_lay_the_strings_out_alike() {
    let mut writer = ConcurrentInterner::new();
    writer.get_or_intern("ab");
    writer.get_or_intern("c");
    let by_ref = writer.to_string_interner();
    assert_eq!(writer.get_or_intern("ab"), 0);
    assert_eq!(writer.get_or_intern("fresh"), 2);
    let mut writer = ConcurrentInterner::new();
    writer.get_or_intern("ab");
    writer.get_or_intern("c");
    let by_value = writer.into_string_interner();
    for r in [&by_ref, &by_value] {
        assert_eq!(r.pool.as_bytes(), b"abc");
        assert_eq!(r.offsets, vec![0, 2]);
        assert_eq!(r.lengths, vec![2, 1]);
        assert_eq!(r.lookup(0), Some("ab".to_string()));
        assert_eq!(r.lookup(1), Some("c".to_string()));
        assert_eq!(r.lookup(2), None);
        assert_eq!(r.map.len(), 2);
        assert_eq!(r.map.get("ab"), Some(&0));
        assert_eq!(r.map.get("c"), Some(&1));
    }
}
