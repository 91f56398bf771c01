use libtrees::utils::split_at;

#[test]
fn test_split_at() {
    let mut vec: Vec<u64> = vec![];
    assert!(split_at(&mut vec, 0) == Vec::<u64>::new());
    assert!(vec == Vec::<u64>::new());

    let mut vec: Vec<u64> = vec![0];
    assert!(split_at(&mut vec, 0) == vec![0]);
    assert!(vec == Vec::<u64>::new());

    let mut vec: Vec<u64> = vec![1, 2, 3, 4, 5];
    let expected = vec.clone();
    let rest = split_at(&mut vec, 0);
    assert!(rest == expected);
    assert!(vec == Vec::<u64>::new());
}

#[test]
fn split_at_keeps_the_low_part() {
    let mut vec: Vec<u64> = vec![1, 2, 3, 4, 5];
    let rest = split_at(&mut vec, 2);
    assert_eq!(vec, vec![1, 2]);
    assert_eq!(rest, vec![3, 4, 5]);
}
