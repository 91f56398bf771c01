use libtrees::algorithm::{bsearch_idx, bsearch_idx_ord};

#[test]
fn test_bsearch_idx() {
    //              0 1 2 3 4  5  6
    let example: Vec<u64> = vec![1, 3, 4, 6, 8, 10, 20];
    assert!(bsearch_idx(&example, &1) == 0);
    assert!(bsearch_idx(&example, &4) == 2);

    assert!(bsearch_idx(&example, &5) == 3);
    assert!(bsearch_idx(&example, &6) == 3);

    assert!(bsearch_idx(&example, &12) == 6);

    assert!(bsearch_idx(&[], &1) == 0);
    assert!(bsearch_idx(&[20], &10) == 0);
    assert!(bsearch_idx(&[20], &20) == 0);
    assert!(bsearch_idx(&[20], &30) == 1);
}

#[test]
fn bsearch_idx_past_the_end_and_duplicates() {
    assert_eq!(bsearch_idx(&[1, 2, 2, 2, 5], &2), 1);
    assert_eq!(bsearch_idx(&[1, 2, 2, 2, 5], &6), 5);
    assert_eq!(bsearch_idx(&[1, 2, 2, 2, 5], &0), 0);
}

#[test]
fn bsearch_idx_ord_finds_first_greater() {
    let example: Vec<u64> = vec![1, 3, 4, 6, 8, 10, 20];
    assert_eq!(bsearch_idx_ord(&example, &1), 1);
    assert_eq!(bsearch_idx_ord(&example, &5), 3);
    assert_eq!(bsearch_idx_ord(&example, &6), 4);
    assert_eq!(bsearch_idx_ord(&example, &20), 7);
    assert_eq!(bsearch_idx_ord(&example, &0), 0);
    assert_eq!(bsearch_idx_ord(&[], &3), 0);
}
