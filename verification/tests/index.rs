use network::Indexer;

#[test]
fn new_indexer_is_empty() {
    let idx = Indexer::new();
    assert_eq!(idx.len(), 0);
    assert_eq!(idx.get_key(0), None);
}

#[test]
fn keys_come_back_in_insertion_order() {
    let mut idx = Indexer::new();
    idx.add("a".to_string());
    idx.add("b".to_string());
    idx.add("c".to_string());
    assert_eq!(idx.len(), 3);
    assert_eq!(idx.get_key(0), Some("a".to_string()));
    assert_eq!(idx.get_key(1), Some("b".to_string()));
    assert_eq!(idx.get_key(2), Some("c".to_string()));
}

#[test]
fn boundary_position_is_out_of_range() {
    let mut idx = Indexer::new();
    idx.add("a".to_string());
    assert_eq!(idx.get_key(0), Some("a".to_string()));
    assert_eq!(idx.get_key(1), None);
    assert_eq!(idx.get_key(usize::MAX), None);
}

#[test]
fn duplicate_keys_still_gain_positions() {
    let mut idx = Indexer::new();
    idx.add("a".to_string());
    idx.add("a".to_string());
    assert_eq!(idx.len(), 2);
    assert_eq!(idx.get_key(0), Some("a".to_string()));
    assert_eq!(idx.get_key(1), Some("a".to_string()));
}
