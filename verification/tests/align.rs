use xrd_core::align::all_equal;

#[test]
fn aligned_lengths() {
    assert!(all_equal(&vec![4, 4, 4, 4]));
}

#[test]
fn misaligned_lengths() {
    assert!(!all_equal(&vec![4, 4, 3]));
}

#[test]
fn no_lengths() {
    assert!(all_equal(&Vec::new()));
}

#[test]
fn one_length() {
    assert!(all_equal(&vec![7]));
}
