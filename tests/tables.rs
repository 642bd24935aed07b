use sdl_helper::{PathIndex, SlotTable};

#[test]
fn free_slot_search_is_first_fit() {
    let mut t: SlotTable<u8> = SlotTable::new();
    assert_eq!(t.find_free_slot(), None);
    assert_eq!(t.place(None, 1), 0);
    assert_eq!(t.place(None, 2), 1);
    assert_eq!(t.place(None, 3), 2);
    assert_eq!(t.find_free_slot(), None);
    t.clear(2);
    t.clear(1);
    assert_eq!(t.find_free_slot(), Some(1));
    assert_eq!(t.place(Some(1), 9), 1);
    assert_eq!(t.find_free_slot(), Some(2));
    assert_eq!(t.len(), 3);
}

#[test]
fn get_treats_empty_and_out_of_range_alike() {
    let mut t: SlotTable<u8> = SlotTable::new();
    t.place(None, 5);
    t.place(None, 6);
    assert_eq!(t.get(0), Some(&5));
    assert_eq!(t.get(1), Some(&6));
    assert_eq!(t.get(2), None);
    t.clear(0);
    assert_eq!(t.get(0), None);
    t.clear(10);
    assert_eq!(t.len(), 2);
}

#[test]
fn path_index_insert_lookup_remove() {
    let mut p = PathIndex::new();
    assert_eq!(p.lookup("a.png"), None);
    p.insert("a.png", 3);
    p.insert("b.png", 0);
    assert_eq!(p.lookup("a.png"), Some(3));
    assert_eq!(p.lookup("b.png"), Some(0));
    assert_eq!(p.path_of(3), Some("a.png".to_string()));
    assert_eq!(p.path_of(1), None);
    p.remove("a.png");
    assert_eq!(p.lookup("a.png"), None);
    assert_eq!(p.path_of(3), None);
    assert_eq!(p.lookup("b.png"), Some(0));
    p.remove("missing");
    assert_eq!(p.lookup("b.png"), Some(0));
}

#[test]
fn path_index_insert_replaces_slot() {
    let mut p = PathIndex::new();
    p.insert("a.png", 1);
    p.insert("a.png", 4);
    assert_eq!(p.lookup("a.png"), Some(4));
    assert_eq!(p.path_of(1), None);
    assert_eq!(p.path_of(4), Some("a.png".to_string()));
    p.remove("a.png");
    assert_eq!(p.lookup("a.png"), None);
}
