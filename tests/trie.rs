use xfast::Xfast;

fn init() -> Xfast<String> {
    let mut test_trie: Xfast<String> = Xfast::new(31);
    test_trie.insert_key(11, String::from("eleven"));
    test_trie.insert_key(1, String::from("one"));
    test_trie.insert_key(18, String::from("eighteen"));
    test_trie.insert_key(5, String::from("five"));
    test_trie
}

fn successor_key(trie: &Xfast<String>, key: usize) -> Option<usize> {
    trie.find_successor(key).map(|n| n.key)
}

fn predecessor_key(trie: &Xfast<String>, key: usize) -> Option<usize> {
    trie.find_predecessor(key).map(|n| n.key)
}

#[test]
fn successor() -> Result<(), String> {
    let test_trie = init();
    if let Some(successor) = test_trie.find_successor(7) {
        if successor.key == 11 {
            return Ok(());
        }
    }
    Err(String::from("Successor of 7 is wrong"))
}

#[test]
fn none_successor() -> Result<(), String> {
    let test_trie = init();
    if test_trie.find_successor(19).is_none() {
        Ok(())
    } else {
        Err(String::from("Successor of 19 is wrong"))
    }
}

#[test]
fn predecessor() -> Result<(), String> {
    let test_trie = init();
    if let Some(predecessor) = test_trie.find_predecessor(8) {
        if predecessor.key == 5 {
            return Ok(());
        }
    }
    Err(String::from("Predecessor of 8 is wrong"))
}

#[test]
fn none_predecessor() -> Result<(), String> {
    let test_trie = init();
    if test_trie.find_predecessor(0).is_none() {
        Ok(())
    } else {
        Err(String::from("Predecessor of 1 is wrong"))
    }
}

#[test]
fn find_key_present() -> Result<(), String> {
    let test_trie = init();
    if let Some(value) = test_trie.find_key(11) {
        if value.key == 11 {
            return Ok(());
        }
    }
    Err(String::from("Key should have been present"))
}

#[test]
fn find_key_not_present() -> Result<(), String> {
    let test_trie = init();
    if test_trie.find_key(7).is_none() {
        return Ok(());
    }
    Err(String::from("Key should not have been present"))
}

#[test]
fn delete_node() -> Result<(), String> {
    let mut test_trie = init();
    test_trie.delete_key(18);
    if test_trie.find_key(18).is_none() {
        Ok(())
    } else {
        Err(String::from("Key should have been deleted"))
    }
}

#[test]
fn successor_after_del() -> Result<(), String> {
    let mut test_trie = init();
    test_trie.delete_key(18);
    if test_trie.find_successor(18).is_none() {
        Ok(())
    } else {
        Err(String::from("Successor of 18 is wrong"))
    }
}

#[test]
fn predecessor_after_del() -> Result<(), String> {
    let mut test_trie = init();
    test_trie.delete_key(18);
    if let Some(predecessor) = test_trie.find_predecessor(18) {
        if predecessor.key == 11 {
            return Ok(());
        }
    }
    Err(String::from("Successor of 18 is wrong"))
}

#[test]
fn deleting_non_existent() -> Result<(), String> {
    let mut test_trie = init();
    if test_trie.delete_key(19).is_none() {
        Ok(())
    } else {
        Err(String::from("The deleted node didn't exist!!"))
    }
}

#[test]
fn width_is_bits_of_range() {
    assert_eq!(Xfast::<String>::new(31).nr_levels(), 5);
    assert_eq!(Xfast::<String>::new(32).nr_levels(), 6);
    assert_eq!(Xfast::<String>::new(1).nr_levels(), 1);
    assert_eq!(Xfast::<String>::new(0).nr_levels(), 1);
    assert_eq!(Xfast::<String>::new(usize::MAX).nr_levels(), usize::BITS as usize);
    assert_eq!(Xfast::<String>::new(31).range(), 31);
}

#[test]
fn find_matches_stored_keys() {
    let test_trie = init();
    for k in 0..=31usize {
        let stored = k == 1 || k == 5 || k == 11 || k == 18;
        assert_eq!(test_trie.find_key(k).is_some(), stored, "key {}", k);
    }
    let leaf = test_trie.find_key(5).unwrap();
    assert_eq!(leaf.key, 5);
    assert_eq!(leaf.value, Some(String::from("five")));
    assert_eq!(leaf.level, 5);
}

#[test]
fn successor_and_predecessor_of_every_probe() {
    let test_trie = init();
    let keys = [1usize, 5, 11, 18];
    for q in 0..=40usize {
        let succ = keys.iter().copied().find(|&k| k >= q);
        let pred = keys.iter().copied().rev().find(|&k| k <= q);
        assert_eq!(successor_key(&test_trie, q), succ, "successor of {}", q);
        assert_eq!(predecessor_key(&test_trie, q), pred, "predecessor of {}", q);
    }
}

#[test]
fn query_of_stored_key_is_itself() {
    let test_trie = init();
    assert_eq!(successor_key(&test_trie, 11), Some(11));
    assert_eq!(predecessor_key(&test_trie, 11), Some(11));
}

#[test]
fn keys_past_the_range() {
    let test_trie = init();
    assert_eq!(successor_key(&test_trie, 32), None);
    assert_eq!(predecessor_key(&test_trie, 32), Some(18));
    assert_eq!(predecessor_key(&test_trie, usize::MAX), Some(18));
    assert!(test_trie.find_key(100).is_none());
}

#[test]
fn empty_trie_answers_nothing() {
    let test_trie: Xfast<String> = Xfast::new(31);
    assert!(test_trie.find_key(0).is_none());
    assert!(test_trie.find_successor(0).is_none());
    assert!(test_trie.find_predecessor(31).is_none());
    assert!(test_trie.find_predecessor(100).is_none());
    let mut it = test_trie.iter();
    assert!(it.next().is_none());
}

#[test]
fn insert_then_delete_restores_answers() {
    let mut test_trie = init();
    let before: Vec<(Option<usize>, Option<usize>)> = (0..=31)
        .map(|q| (successor_key(&test_trie, q), predecessor_key(&test_trie, q)))
        .collect();
    test_trie.insert_key(7, String::from("seven"));
    assert_eq!(successor_key(&test_trie, 6), Some(7));
    assert_eq!(predecessor_key(&test_trie, 10), Some(7));
    assert_eq!(test_trie.delete_key(7), Some(String::from("seven")));
    let after: Vec<(Option<usize>, Option<usize>)> = (0..=31)
        .map(|q| (successor_key(&test_trie, q), predecessor_key(&test_trie, q)))
        .collect();
    assert_eq!(before, after);
    assert!(test_trie.find_key(7).is_none());
}

#[test]
fn delete_returns_value() {
    let mut test_trie = init();
    assert_eq!(test_trie.delete_key(11), Some(String::from("eleven")));
    assert_eq!(test_trie.delete_key(11), None);
    assert_eq!(successor_key(&test_trie, 6), Some(18));
    assert_eq!(predecessor_key(&test_trie, 17), Some(5));
}

#[test]
fn reinsert_replaces_value() {
    let mut test_trie = init();
    test_trie.insert_key(5, String::from("FIVE"));
    assert_eq!(test_trie.find_key(5).unwrap().value, Some(String::from("FIVE")));
    assert_eq!(successor_key(&test_trie, 2), Some(5));
    assert_eq!(predecessor_key(&test_trie, 10), Some(5));
    assert_eq!(test_trie.delete_key(5), Some(String::from("FIVE")));
    assert!(test_trie.find_key(5).is_none());
}

#[test]
fn leaf_list_walks_in_order() {
    let test_trie = init();
    let mut up = Vec::new();
    let mut cur = test_trie.find_successor(0);
    while let Some(n) = cur {
        up.push(n.key);
        cur = n.right.and_then(|k| test_trie.find_key(k));
    }
    assert_eq!(up, vec![1, 5, 11, 18]);
    let mut down = Vec::new();
    let mut cur = test_trie.find_predecessor(31);
    while let Some(n) = cur {
        down.push(n.key);
        cur = n.left.and_then(|k| test_trie.find_key(k));
    }
    assert_eq!(down, vec![18, 11, 5, 1]);
}

#[test]
fn iteration_is_ordered() {
    let test_trie = init();
    let mut it = test_trie.iter();
    let mut seen = Vec::new();
    while let Some((k, n)) = it.next() {
        assert_eq!(n.key, *k);
        seen.push((*k, n.value.clone().unwrap()));
    }
    assert_eq!(
        seen,
        vec![
            (1, String::from("one")),
            (5, String::from("five")),
            (11, String::from("eleven")),
            (18, String::from("eighteen")),
        ]
    );
}

#[test]
fn delete_everything_then_reuse() {
    let mut test_trie = init();
    for k in [18usize, 1, 11, 5] {
        assert!(test_trie.delete_key(k).is_some());
    }
    assert!(test_trie.find_successor(0).is_none());
    assert!(test_trie.find_predecessor(31).is_none());
    test_trie.insert_key(31, String::from("last"));
    test_trie.insert_key(0, String::from("first"));
    assert_eq!(successor_key(&test_trie, 1), Some(31));
    assert_eq!(predecessor_key(&test_trie, 30), Some(0));
}

#[test]
fn single_key_universe() {
    let mut test_trie: Xfast<u8> = Xfast::new(0);
    assert!(test_trie.find_key(0).is_none());
    test_trie.insert_key(0, 9);
    assert_eq!(test_trie.find_key(0).unwrap().value, Some(9));
    assert_eq!(test_trie.find_successor(0).unwrap().key, 0);
    assert!(test_trie.find_successor(1).is_none());
    assert_eq!(test_trie.find_predecessor(5).unwrap().key, 0);
    assert_eq!(test_trie.delete_key(0), Some(9));
    assert!(test_trie.find_predecessor(5).is_none());
}

#[test]
fn full_width_keys() {
    let mut test_trie: Xfast<u8> = Xfast::new(usize::MAX);
    test_trie.insert_key(usize::MAX, 1);
    test_trie.insert_key(0, 2);
    test_trie.insert_key(1usize << 63, 3);
    assert_eq!(test_trie.find_successor(1).unwrap().key, 1usize << 63);
    assert_eq!(test_trie.find_successor((1usize << 63) + 1).unwrap().key, usize::MAX);
    assert_eq!(test_trie.find_predecessor(usize::MAX - 1).unwrap().key, 1usize << 63);
    assert_eq!(test_trie.find_predecessor((1usize << 63) - 1).unwrap().key, 0);
    assert_eq!(test_trie.delete_key(1usize << 63), Some(3));
    assert_eq!(test_trie.find_successor(1).unwrap().key, usize::MAX);
}

#[test]
fn node_constructors() {
    let leaf = xfast::TrieNode::new(4, "v", 3);
    assert_eq!(leaf.key, 4);
    assert_eq!(leaf.value, Some("v"));
    assert_eq!(leaf.level, 3);
    assert!(leaf.left.is_none() && leaf.right.is_none());
    assert!(leaf.is_desc_left && leaf.is_desc_right);
    let inner: xfast::TrieNode<u8> = xfast::TrieNode::new_internal(2);
    assert_eq!(inner.key, 0);
    assert!(inner.value.is_none());
    assert_eq!(inner.level, 2);
    assert!(inner.is_desc_left && inner.is_desc_right);
}

#[test]
fn leaves_carry_both_flags() {
    let test_trie = init();
    let mut it = test_trie.iter();
    let mut count = 0;
    while let Some((_, n)) = it.next() {
        assert!(n.is_desc_left && n.is_desc_right);
        count += 1;
    }
    assert_eq!(count, 4);
}
