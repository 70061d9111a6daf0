use xfast::TrieNode;
use xfast::Xfast;

fn init() -> Xfast<String> {
    let mut test_trie: Xfast<String> = Xfast::new(31);
    test_trie.insert_key(11, String::from("eleven"));
    test_trie.insert_key(1, String::from("one"));
    test_trie.insert_key(18, String::from("eighteen"));
    test_trie.insert_key(5, String::from("five"));
    test_trie
}

#[test]
fn successor() -> Result<(), String> {
    let test_trie = init();
    if let Some(successor) = test_trie.find_successor(7) {
        if successor.key() == 11 {
            return Ok(());
        }
    }
    Err(String::from("Successor of 7 is wrong"))
}

#[test]
fn none_successor() -> Result<(), String> {
    let test_trie = init();
    if test_trie.find_successor(19).is_none() {
        Ok(())
    } else {
        Err(String::from("Successor of 19 is wrong"))
    }
}

#[test]
fn predecessor() -> Result<(), String> {
    let test_trie = init();
    if let Some(predecessor) = test_trie.find_predecessor(8) {
        if predecessor.key() == 5 {
            return Ok(());
        }
    }
    Err(String::from("Predecessor of 8 is wrong"))
}

#[test]
fn none_predecessor() -> Result<(), String> {
    let test_trie = init();
    if test_trie.find_predecessor(0).is_none() {
        Ok(())
    } else {
        Err(String::from("Predecessor of 1 is wrong"))
    }
}

#[test]
fn find_key_present() -> Result<(), String> {
    let test_trie = init();
    if let Some(value) = test_trie.find_key(11) {
        if value.key() == 11 {
            return Ok(());
        }
    }
    Err(String::from("Key should have been present"))
}

#[test]
fn find_key_not_present() -> Result<(), String> {
    let test_trie = init();
    if test_trie.find_key(7).is_none() {
        return Ok(());
    }
    Err(String::from("Key should not have been present"))
}

#[test]
fn delete_node() -> Result<(), String> {
    let mut test_trie = init();
    test_trie.delete_key(18);
    if test_trie.find_key(18).is_none() {
        Ok(())
    } else {
        Err(String::from("Key should have been deleted"))
    }
}

#[test]
fn successor_after_del() -> Result<(), String> {
    let mut test_trie = init();
    test_trie.delete_key(18);
    if test_trie.find_successor(18).is_none() {
        Ok(())
    } else {
        Err(String::from("Successor of 18 is wrong"))
    }
}

#[test]
fn predecessor_after_del() -> Result<(), String> {
    let mut test_trie = init();
    test_trie.delete_key(18);
    if let Some(predecessor) = test_trie.find_predecessor(18) {
        if predecessor.key() == 11 {
            return Ok(());
        }
    }
    Err(String::from("Successor of 18 is wrong"))
}

#[test]
fn deleting_non_existent() -> Result<(), String> {
    let mut test_trie = init();
    if test_trie.delete_key(19).is_none() {
        Ok(())
    } else {
        Err(String::from("The deleted node didn't exist!!"))
    }
}

fn value_of(t: &Xfast<String>, key: usize) -> Option<String> {
    t.find_key(key).map(|n| n.value.clone().unwrap())
}

#[test]
fn queries_on_four_keys() {
    let t = init();
    assert_eq!(t.len(), 4);
    let s = t.find_successor(7).unwrap();
    assert_eq!(s.key(), 11);
    assert_eq!(s.value.as_deref(), Some("eleven"));
    let p = t.find_predecessor(8).unwrap();
    assert_eq!(p.key(), 5);
    assert_eq!(p.value.as_deref(), Some("five"));
    assert_eq!(value_of(&t, 11).as_deref(), Some("eleven"));
    assert!(t.find_key(7).is_none());
}

#[test]
fn queries_after_deleting_eighteen() {
    let mut t = init();
    let removed = t.delete_key(18).unwrap();
    assert_eq!(removed.key(), 18);
    assert_eq!(removed.value.as_deref(), Some("eighteen"));
    assert!(t.find_key(18).is_none());
    assert_eq!(t.len(), 3);
    assert!(t.find_successor(18).is_none());
    assert_eq!(t.find_predecessor(18).unwrap().key(), 11);
    assert_eq!(t.find_predecessor(18).unwrap().value.as_deref(), Some("eleven"));
}

#[test]
fn delete_absent_changes_nothing() {
    let mut t = init();
    assert!(t.delete_key(19).is_none());
    assert_eq!(t.len(), 4);
    for k in 0..32usize {
        assert_eq!(value_of(&t, k), value_of(&init(), k));
        assert_eq!(t.find_successor(k).map(|n| n.key()), init().find_successor(k).map(|n| n.key()));
        assert_eq!(t.find_predecessor(k).map(|n| n.key()), init().find_predecessor(k).map(|n| n.key()));
    }
}

#[test]
fn find_after_inserts_distinct() {
    let mut t: Xfast<usize> = Xfast::new(8);
    let keys = [200usize, 3, 77, 0, 255, 128, 64, 9];
    for &k in keys.iter() {
        t.insert_key(k, k * 10);
    }
    for k in 0..256usize {
        match t.find_key(k) {
            Some(n) => {
                assert!(keys.contains(&k));
                assert_eq!(n.value, Some(k * 10));
            }
            None => assert!(!keys.contains(&k)),
        }
    }
}

#[test]
fn reinsert_keeps_one_entry_with_latest_value() {
    let mut t = init();
    t.insert_key(5, String::from("FIVE"));
    assert_eq!(t.len(), 4);
    assert_eq!(value_of(&t, 5).as_deref(), Some("FIVE"));
    assert_eq!(t.find_successor(2).unwrap().key(), 5);
    assert_eq!(t.find_predecessor(10).unwrap().key(), 5);
    let keys: Vec<usize> = t.chain_keys();
    assert_eq!(keys, vec![1, 5, 11, 18]);
}

#[test]
fn count_follows_inserts_and_deletes() {
    let mut t: Xfast<u32> = Xfast::new(6);
    assert_eq!(t.len(), 0);
    t.insert_key(10, 1);
    t.insert_key(20, 2);
    t.insert_key(10, 3);
    assert_eq!(t.len(), 2);
    assert!(t.delete_key(10).is_some());
    assert!(t.delete_key(10).is_none());
    assert_eq!(t.len(), 1);
    assert!(t.delete_key(20).is_some());
    assert_eq!(t.len(), 0);
}

#[test]
fn iteration_is_ascending_and_complete() {
    let mut t: Xfast<u8> = Xfast::new(5);
    for &k in [17usize, 2, 31, 0, 9].iter() {
        t.insert_key(k, k as u8);
    }
    let mut it = t.iter();
    let mut seen = Vec::new();
    while let Some((k, n)) = it.next() {
        assert_eq!(n.key(), *k);
        assert_eq!(n.value, Some(*k as u8));
        seen.push(*k);
    }
    assert_eq!(seen, vec![0, 2, 9, 17, 31]);
    assert!(it.next().is_none());
}

#[test]
fn chain_links_neighbours() {
    let t = init();
    let n5 = t.find_key(5).unwrap();
    assert_eq!(n5.prev_key(), Some(1));
    assert_eq!(n5.next_key(), Some(11));
    let n1 = t.find_key(1).unwrap();
    assert_eq!(n1.prev_key(), None);
    let n18 = t.find_key(18).unwrap();
    assert_eq!(n18.next_key(), None);
}

#[test]
fn iter_mut_replaces_values() {
    let mut t = init();
    {
        let mut it = t.iter_mut();
        while let Some(k) = it.next() {
            if k % 2 == 1 {
                it.set_value(String::from("updated_odd"));
            }
        }
    }
    assert_eq!(value_of(&t, 1).as_deref(), Some("updated_odd"));
    assert_eq!(value_of(&t, 5).as_deref(), Some("updated_odd"));
    assert_eq!(value_of(&t, 11).as_deref(), Some("updated_odd"));
    assert_eq!(value_of(&t, 18).as_deref(), Some("eighteen"));
    assert_eq!(t.len(), 4);
}

#[test]
fn stored_keys_are_their_own_neighbours() {
    let t = init();
    for &k in [1usize, 5, 11, 18].iter() {
        assert_eq!(t.find_successor(k).unwrap().key(), k);
        assert_eq!(t.find_predecessor(k).unwrap().key(), k);
    }
}

#[test]
fn boundaries() {
    let t = init();
    assert!(t.find_predecessor(0).is_none());
    assert!(t.find_successor(19).is_none());
    assert_eq!(t.find_successor(0).unwrap().key(), 1);
    assert_eq!(t.find_predecessor(1usize << 30).unwrap().key(), 18);
}

#[test]
fn delete_lands_on_former_neighbours() {
    let mut t = init();
    t.delete_key(11);
    assert_eq!(t.find_successor(11).unwrap().key(), 18);
    assert_eq!(t.find_predecessor(11).unwrap().key(), 5);
    assert_eq!(t.find_key(5).unwrap().next_key(), Some(18));
    assert_eq!(t.find_key(18).unwrap().prev_key(), Some(5));
    t.delete_key(1);
    assert_eq!(t.find_key(5).unwrap().prev_key(), None);
    assert!(t.find_predecessor(4).is_none());
}

#[test]
fn empty_trie_has_no_answers() {
    let t: Xfast<String> = Xfast::new(4);
    assert_eq!(t.len(), 0);
    assert!(t.find_key(3).is_none());
    assert!(t.find_successor(0).is_none());
    assert!(t.find_predecessor(15).is_none());
    assert!(t.chain_keys().is_empty());
}

#[test]
fn delete_everything_then_reuse() {
    let mut t: Xfast<i32> = Xfast::new(3);
    for k in 0..8usize {
        t.insert_key(k, k as i32);
    }
    assert_eq!(t.len(), 8);
    for k in [3usize, 0, 7, 4, 1, 6, 2, 5].iter() {
        assert_eq!(t.delete_key(*k).unwrap().value, Some(*k as i32));
    }
    assert_eq!(t.len(), 0);
    assert!(t.find_successor(0).is_none());
    t.insert_key(6, -6);
    assert_eq!(t.find_predecessor(7).unwrap().key(), 6);
    assert_eq!(t.find_successor(0).unwrap().key(), 6);
}

#[test]
fn one_bit_universe() {
    let mut t: Xfast<char> = Xfast::new(1);
    t.insert_key(1, 'b');
    assert!(t.find_predecessor(0).is_none());
    assert_eq!(t.find_successor(0).unwrap().key(), 1);
    t.insert_key(0, 'a');
    assert_eq!(t.find_predecessor(1).unwrap().value, Some('b'));
    assert_eq!(t.chain_keys(), vec![0, 1]);
}

#[test]
fn widest_universe_extremes() {
    let bits = (usize::BITS - 1) as usize;
    let top = (1usize << bits) - 1;
    let mut t: Xfast<u8> = Xfast::new(bits);
    t.insert_key(top, 1);
    t.insert_key(0, 2);
    assert_eq!(t.find_successor(1).unwrap().key(), top);
    assert_eq!(t.find_predecessor(top - 1).unwrap().key(), 0);
    assert_eq!(t.len(), 2);
}

#[test]
fn leaf_constructor() {
    let n = TrieNode::new(42, "v", 7);
    assert_eq!(n.key(), 42);
    assert_eq!(n.level(), 7);
    assert_eq!(n.value, Some("v"));
    assert_eq!(n.prev_key(), None);
    assert_eq!(n.next_key(), None);
}
