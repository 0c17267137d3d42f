use simcluster::combinations::combinations;

#[test]
fn test_combinations() {
    let vec = vec![1, 2, 3, 4, 5];
    let combs: Vec<(&i32, &i32)> = combinations(&vec).collect();

    assert_eq!(
        combs,
        vec![
            (&1, &2),
            (&1, &3),
            (&1, &4),
            (&1, &5),
            (&2, &3),
            (&2, &4),
            (&2, &5),
            (&3, &4),
            (&3, &5),
            (&4, &5),
        ]
    )
}

#[test]
fn pair_count_of_six_positions() {
    let vec = vec!['a', 'b', 'c', 'd', 'e', 'f'];
    let pairs = combinations(&vec).index_pairs();
    assert_eq!(pairs.len(), 15);
    for w in pairs.windows(2) {
        assert!(w[0] < w[1]);
    }
    for &(i, j) in &pairs {
        assert!(i < j && j < 6);
    }
}

#[test]
fn no_pairs_below_two_positions() {
    let empty: Vec<u8> = vec![];
    assert!(combinations(&empty).index_pairs().is_empty());
    let one = vec![7u8];
    assert!(combinations(&one).index_pairs().is_empty());
}

#[test]
fn generator_ends_and_stays_ended() {
    let vec = vec![1, 2];
    let mut it = combinations(&vec);
    assert_eq!(it.next(), Some((&1, &2)));
    assert_eq!(it.next(), None);
    assert_eq!(it.next(), None);
    assert_eq!(it.next_index_pair(), None);
}
