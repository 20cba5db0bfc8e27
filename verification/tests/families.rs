use xrd_core::families::{get_unique_families, is_permutation};

/// The multiplicity reported for `key`, if that family was reported.
fn count_for(fams: &Vec<(Vec<i32>, usize)>, key: &[i32]) -> Option<usize> {
    for (k, n) in fams.iter() {
        if k.as_slice() == key {
            return Some(*n);
        }
    }
    None
}

#[test]
fn permutation_sign_and_order() {
    assert!(is_permutation(&vec![1, -2, 3], &vec![3, 2, -1]));
    assert!(is_permutation(&vec![0, 0, 2], &vec![2, 0, 0]));
    assert!(!is_permutation(&vec![1, -2, 3], &vec![1, 2, 2]));
}

#[test]
fn permutation_arity_mismatch() {
    assert!(!is_permutation(&vec![1, 2], &vec![1, 2, 3]));
    assert!(!is_permutation(&vec![1, 2, 3], &vec![1, 2]));
}

#[test]
fn permutation_empty() {
    assert!(is_permutation(&Vec::new(), &Vec::new()));
}

#[test]
fn permutation_duplicates_matter() {
    assert!(!is_permutation(&vec![1, 1, 2], &vec![1, 2, 2]));
    assert!(is_permutation(&vec![1, 1, 2], &vec![-1, 2, 1]));
}

#[test]
fn families_example() {
    // two of the three triples belong to one family
    let fams = get_unique_families(&vec![vec![1, 1, 1], vec![1, -1, 1], vec![2, 0, 0]]);
    assert_eq!(fams.len(), 2);
    assert_eq!(count_for(&fams, &[1, 1, 1]), Some(2));
    assert_eq!(count_for(&fams, &[2, 0, 0]), Some(1));
}

#[test]
fn families_empty_input() {
    let fams = get_unique_families(&Vec::new());
    assert!(fams.is_empty());
}

#[test]
fn families_multiplicity_conservation() {
    let input = vec![
        vec![1, 0, 0],
        vec![0, 1, 0],
        vec![0, 0, -1],
        vec![1, 1, 0],
        vec![2, 0, 0],
        vec![0, -1, -1],
        vec![1, 0, 0],
    ];
    let fams = get_unique_families(&input);
    let total: usize = fams.iter().map(|(_, n)| *n).sum();
    assert_eq!(total, input.len());
}

#[test]
fn families_permutation_closure() {
    // every sign/order permutation of (1, 2, 3) lands in one family
    let input = vec![vec![1, 2, 3], vec![3, -2, 1], vec![-1, -2, -3], vec![2, 1, 3]];
    let fams = get_unique_families(&input);
    assert_eq!(fams.len(), 1);
    // the reported key is the numerically greatest member
    assert_eq!(fams[0].0, vec![3, -2, 1]);
    assert_eq!(fams[0].1, 4);
}

#[test]
fn families_key_is_greatest_member() {
    let fams = get_unique_families(&vec![vec![1, -1, 1], vec![1, 1, -1]]);
    assert_eq!(fams.len(), 1);
    assert_eq!(fams[0].0, vec![1, 1, -1]);
    assert_eq!(fams[0].1, 2);
}

#[test]
fn families_first_seen_order() {
    let fams = get_unique_families(&vec![vec![2, 0, 0], vec![1, 1, 1], vec![0, 0, 2]]);
    assert_eq!(fams.len(), 2);
    assert_eq!(fams[0].0, vec![2, 0, 0]);
    assert_eq!(fams[0].1, 2);
    assert_eq!(fams[1].0, vec![1, 1, 1]);
    assert_eq!(fams[1].1, 1);
}

#[test]
fn families_mixed_arity() {
    // lists of different arity are never equivalent
    let fams = get_unique_families(&vec![vec![1, 2], vec![2, 1], vec![1, 2, 0]]);
    assert_eq!(fams.len(), 2);
    assert_eq!(count_for(&fams, &[2, 1]), Some(2));
    assert_eq!(count_for(&fams, &[1, 2, 0]), Some(1));
}
