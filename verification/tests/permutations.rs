use intcode::Permutator;

#[test]
fn test_permutations() {
    let expected = vec![
        vec![0, 1, 2, 3],
        vec![1, 0, 2, 3],
        vec![2, 0, 1, 3],
        vec![0, 2, 1, 3],
        vec![1, 2, 0, 3],
        vec![2, 1, 0, 3],
        vec![3, 1, 0, 2],
        vec![1, 3, 0, 2],
        vec![0, 3, 1, 2],
        vec![3, 0, 1, 2],
        vec![1, 0, 3, 2],
        vec![0, 1, 3, 2],
        vec![0, 2, 3, 1],
        vec![2, 0, 3, 1],
        vec![3, 0, 2, 1],
        vec![0, 3, 2, 1],
        vec![2, 3, 0, 1],
        vec![3, 2, 0, 1],
        vec![3, 2, 1, 0],
        vec![2, 3, 1, 0],
        vec![1, 3, 2, 0],
        vec![3, 1, 2, 0],
        vec![2, 1, 3, 0],
        vec![1, 2, 3, 0],
    ];
    let mut p = Permutator::new(&vec![0, 1, 2, 3]);
    let mut count = 0;
    while let Some(pp) = p.next() {
        assert_eq!(pp, expected[count]);
        count += 1;
    }
    assert_eq!(count, 24);
}

#[test]
fn test_permutations_single() {
    let mut p = Permutator::new(&[7i64]);
    assert_eq!(p.next(), Some(vec![7]));
    assert_eq!(p.next(), None);
}

#[test]
fn test_permutations_empty() {
    let mut p: Permutator<i64> = Permutator::new(&[]);
    assert_eq!(p.next(), Some(vec![]));
    assert_eq!(p.next(), None);
}
