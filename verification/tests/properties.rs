use prefix_tree::PrefixTree;

/// Checks that no node below the root is structurally empty: every
/// reachable non-root node holds a value or has subtrees.
fn dead_branch_free(node: &PrefixTree<char, i32>, is_root: bool) -> bool {
    if !is_root && node.value.is_none() && node.subtrees.is_empty() {
        return false;
    }
    for (_, child) in &node.subtrees {
        if !dead_branch_free(child, false) {
            return false;
        }
    }
    true
}

#[test]
fn insert_then_get_exact_round_trip() {
    let mut t: PrefixTree<char, i32> = PrefixTree::new();
    assert_eq!(t.insert(&['k', 'e', 'y'], 41), None);
    assert_eq!(t.get_exact_match(&['k', 'e', 'y']), Some(&41));
}

#[test]
fn overwrite_returns_previous_and_stores_new() {
    let mut t: PrefixTree<char, i32> = PrefixTree::new();
    assert_eq!(t.insert(&['k'], 1), None);
    assert_eq!(t.insert(&['k'], 2), Some(1));
    assert_eq!(t.get_exact_match(&['k']), Some(&2));
}

#[test]
fn removal_round_trip() {
    let mut t: PrefixTree<char, i32> = PrefixTree::new();
    t.insert(&['x', 'y'], 7);
    assert_eq!(t.remove_exact_match(&['x', 'y']), Some(7));
    assert_eq!(t.get_exact_match(&['x', 'y']), None);
}

#[test]
fn no_dead_branches_after_mixed_operations() {
    let mut t: PrefixTree<char, i32> = PrefixTree::new();
    t.insert(&[], 0);
    t.insert(&['a'], 1);
    t.insert(&['a', 'b'], 2);
    t.insert(&['a', 'b', 'c'], 3);
    t.insert(&['a', 'b', 'd'], 4);
    t.insert(&['x', 'y', 'z'], 5);
    assert!(dead_branch_free(&t, true));

    t.remove_exact_match(&['a', 'b']);
    assert!(dead_branch_free(&t, true));
    t.remove_exact_match(&['a', 'b', 'c']);
    assert!(dead_branch_free(&t, true));
    t.remove_exact_match(&['a', 'b', 'd']);
    assert!(dead_branch_free(&t, true));
    t.remove_exact_match(&['n', 'o']);
    assert!(dead_branch_free(&t, true));
    // The root still holds a value here, so this removes it after
    // consuming zero elements.
    assert_eq!(t.remove_by_shortest_prefix(&['x', 'y', 'z', 'w']), Some(0));
    assert!(dead_branch_free(&t, true));
    t.remove_exact_match(&[]);
    assert!(dead_branch_free(&t, true));
    t.remove_exact_match(&['a']);
    assert!(dead_branch_free(&t, true));
    assert_eq!(t.remove_by_shortest_prefix(&['x', 'y', 'z', 'w']), Some(5));
    assert!(dead_branch_free(&t, true));
    assert_eq!(t, PrefixTree { value: None, subtrees: vec![] });
}

#[test]
fn shortest_prefix_precedence() {
    let mut t: PrefixTree<char, i32> = PrefixTree::new();
    t.insert(&['a'], 1);
    t.insert(&['a', 'b'], 2);
    assert_eq!(t.get_by_shortest_prefix(&['a', 'b', 'c']), Some(&1));
    assert_eq!(t.get_exact_match(&['a', 'b']), Some(&2));
    assert_eq!(t.get_by_shortest_prefix(&['b']), None);
}

#[test]
fn partial_consumption() {
    let mut t: PrefixTree<char, i32> = PrefixTree::new();
    t.insert(&['a'], 1);
    t.insert(&['a', 'b'], 2);
    let query = ['a', 'b', 'c'];
    let consumed = t.shortest_prefix_len(&query).unwrap();
    assert_eq!(consumed, 1);
    assert_eq!(&query[consumed..], ['b', 'c']);
}

#[test]
fn pruning_after_deep_removal() {
    let mut t: PrefixTree<char, i32> = PrefixTree::new();
    t.insert(&['a', 'b', 'c'], 3);
    assert_eq!(t.remove_exact_match(&['a', 'b', 'c']), Some(3));
    assert_eq!(t, PrefixTree { value: None, subtrees: vec![] });

    let mut t: PrefixTree<char, i32> = PrefixTree::new();
    t.insert(&['a'], 1);
    t.insert(&['a', 'b', 'c'], 3);
    assert_eq!(t.remove_exact_match(&['a', 'b', 'c']), Some(3));
    assert_eq!(
        t,
        PrefixTree {
            value: None,
            subtrees: vec![('a', PrefixTree { value: Some(1), subtrees: vec![] })],
        }
    );
}

#[test]
fn failed_removal_is_noop() {
    let mut t: PrefixTree<char, i32> = PrefixTree::new();
    t.insert(&['a', 'b'], 2);
    t.insert(&['c'], 3);
    let mut untouched: PrefixTree<char, i32> = PrefixTree::new();
    untouched.insert(&['a', 'b'], 2);
    untouched.insert(&['c'], 3);

    assert_eq!(t.remove_exact_match(&['z', 'z']), None);
    assert_eq!(t, untouched);
    assert_eq!(t.remove_exact_match(&['a']), None);
    assert_eq!(t, untouched);
    assert_eq!(t.remove_by_shortest_prefix(&['z']), None);
    assert_eq!(t, untouched);
}

#[test]
fn root_value_wins_shortest_prefix_removal() {
    let mut t: PrefixTree<char, i32> = PrefixTree::new();
    t.insert(&[], 7);
    t.insert(&['a'], 1);
    let query = ['a', 'b'];
    assert_eq!(t.shortest_prefix_len(&query), Some(0));
    assert_eq!(t.remove_by_shortest_prefix(&query), Some(7));
    assert_eq!(t.get_exact_match(&[]), None);
    assert_eq!(t.get_exact_match(&['a']), Some(&1));
}

#[test]
fn mutable_exact_match_updates_value() {
    let mut t: PrefixTree<char, i32> = PrefixTree::new();
    t.insert(&['a', 'b'], 5);
    assert!(t.get_exact_match_mut(&['a']).is_none());
    assert!(t.get_exact_match_mut(&['a', 'b', 'c']).is_none());
    if let Some(v) = t.get_exact_match_mut(&['a', 'b']) {
        assert_eq!(*v, 5);
        *v = 9;
    } else {
        panic!("value expected at the inserted sequence");
    }
    assert_eq!(t.get_exact_match(&['a', 'b']), Some(&9));
}

#[test]
fn mutable_shortest_prefix_updates_value() {
    let mut t: PrefixTree<char, i32> = PrefixTree::new();
    t.insert(&['a'], 1);
    assert!(t.get_by_shortest_prefix_mut(&['b', 'a']).is_none());
    if let Some(v) = t.get_by_shortest_prefix_mut(&['a', 'x']) {
        assert_eq!(*v, 1);
        *v = 4;
    } else {
        panic!("value expected at the shortest stored prefix");
    }
    assert_eq!(t.get_exact_match(&['a']), Some(&4));
}

#[test]
fn exact_match_requires_full_consumption() {
    let mut t: PrefixTree<char, i32> = PrefixTree::new();
    t.insert(&['a', 'b'], 2);
    assert_eq!(t.get_exact_match(&['a']), None);
    assert_eq!(t.get_exact_match(&['a', 'b', 'c']), None);
    assert_eq!(t.get_exact_match(&['a', 'b']), Some(&2));
}

#[test]
fn empty_sequence_is_the_root_key() {
    let mut t: PrefixTree<char, i32> = PrefixTree::new();
    assert_eq!(t.get_exact_match(&[]), None);
    assert_eq!(t.insert(&[], 3), None);
    assert_eq!(t.get_exact_match(&[]), Some(&3));
    assert_eq!(t.get_by_shortest_prefix(&['q']), Some(&3));
    assert_eq!(t.get_by_shortest_prefix(&[]), Some(&3));
}

#[test]
fn integer_keys() {
    let mut t: PrefixTree<u64, i32> = PrefixTree::new();
    t.insert(&[10, 20], 1);
    t.insert(&[10, 21], 2);
    assert_eq!(t.get_exact_match(&[10, 20]), Some(&1));
    assert_eq!(t.get_exact_match(&[10, 21]), Some(&2));
    assert_eq!(t.remove_exact_match(&[10, 20]), Some(1));
    assert_eq!(t.get_exact_match(&[10, 20]), None);
    assert_eq!(t.get_exact_match(&[10, 21]), Some(&2));
}

#[test]
fn default_is_empty() {
    let t: PrefixTree<char, i32> = PrefixTree::default();
    assert_eq!(t, PrefixTree::new());
    assert_eq!(t.get_by_shortest_prefix(&['a']), None);
}
