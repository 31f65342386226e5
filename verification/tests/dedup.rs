use chunkstore::dedup::{same_bytes, ChunkSet};

#[test]
fn byte_strings_are_the_same_when_every_byte_is() {
    assert!(same_bytes(&vec![], &vec![]));
    assert!(same_bytes(&b"abc".to_vec(), &b"abc".to_vec()));
    assert!(!same_bytes(&b"abc".to_vec(), &b"abd".to_vec()));
    assert!(!same_bytes(&b"abc".to_vec(), &b"ab".to_vec()));
    assert!(!same_bytes(&vec![], &vec![0]));
}

#[test]
fn a_set_holds_what_was_inserted_in_that_order() {
    let mut set = ChunkSet::new();
    assert_eq!(set.len(), 0);
    assert!(!set.contains(&b"x".to_vec()));
    let mut expected = Vec::new();
    for n in 0..500u32 {
        let bytes = format!("chunk {n}").into_bytes();
        assert!(!set.contains(&bytes));
        set.insert(bytes.clone());
        assert!(set.contains(&bytes));
        expected.push(bytes);
    }
    assert_eq!(set.len(), 500);
    for (k, bytes) in expected.iter().enumerate() {
        assert_eq!(set.get(k), bytes);
        assert!(set.contains(bytes));
    }
    assert!(!set.contains(&b"chunk 500".to_vec()));
    assert!(!set.contains(&b"".to_vec()));
    assert_eq!(set.into_vec(), expected);
}

#[test]
fn a_set_is_made_of_a_list_without_repetitions() {
    let list = vec![b"b".to_vec(), b"".to_vec(), b"a".to_vec()];
    let set = ChunkSet::from_vec(list.clone()).expect("no byte string occurs twice");
    assert_eq!(set.len(), 3);
    assert_eq!(set.get(0), b"b");
    assert_eq!(set.get(1), b"");
    assert!(set.contains(&b"a".to_vec()));
    assert!(!set.contains(&b"c".to_vec()));
    assert_eq!(set.into_vec(), list);

    assert!(ChunkSet::from_vec(vec![]).is_some());
    assert!(ChunkSet::from_vec(vec![b"a".to_vec(), b"b".to_vec(), b"a".to_vec()]).is_none());
    assert!(ChunkSet::from_vec(vec![vec![], vec![]]).is_none());
}
