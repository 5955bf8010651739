use prefix_tree::PrefixTree;

#[test]
fn deletion() {
    let mut tree: PrefixTree<char, i32> = PrefixTree::new();

    tree.insert(&[], 1);
    tree.insert(&['a'], 2);
    tree.insert(&['a', 'b', 'c'], 3);

    tree.remove_exact_match(&['a']);

    assert_eq!(
        tree,
        PrefixTree {
            value: Some(1),
            subtrees: vec![(
                'a',
                PrefixTree {
                    value: None,
                    subtrees: vec![(
                        'b',
                        PrefixTree {
                            value: None,
                            subtrees: vec![(
                                'c',
                                PrefixTree { value: Some(3), subtrees: vec![] },
                            )],
                        },
                    )],
                },
            )],
        }
    );

    let query = ['a', 'b', 'c'];
    // The root itself holds a value, so the shortest-prefix walk consumes
    // zero elements and the whole query is left over.
    assert_eq!(tree.shortest_prefix_len(&query), Some(0));

    tree.remove_by_shortest_prefix(&query);

    assert_eq!(
        tree,
        PrefixTree {
            value: None,
            subtrees: vec![(
                'a',
                PrefixTree {
                    value: None,
                    subtrees: vec![(
                        'b',
                        PrefixTree {
                            value: None,
                            subtrees: vec![(
                                'c',
                                PrefixTree { value: Some(3), subtrees: vec![] },
                            )],
                        },
                    )],
                },
            )],
        }
    );

    assert_eq!(&query[0..], ['a', 'b', 'c']);
}
