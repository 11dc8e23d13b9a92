use eggshell::testutils::errors::Error;
use eggshell::testutils::utils::assert_vecs_equal;
use eggshell::testutils::utils::decimal_string;
use eggshell::testutils::utils::vecs_equal;

#[test]
fn vecs_equal_compares_lengths_and_items() {
    assert!(vecs_equal(&vec![1, 2, 3], &vec![1, 2, 3]));
    assert!(!vecs_equal(&vec![1, 2, 3], &vec![1, 2]));
    assert!(!vecs_equal(&vec![1, 2, 3], &vec![1, 5, 3]));
    assert!(vecs_equal::<u8>(&vec![], &vec![]));
    assert!(vecs_equal(&vec!["a".to_string()], &vec!["a".to_string()]));
}

#[test]
fn assert_vecs_equal_reports_differing_lengths() {
    assert_eq!(assert_vecs_equal(&vec![1, 2, 3], &vec![1, 2, 3]), Ok(()));
    assert_eq!(
        assert_vecs_equal(&vec![0; 12], &vec![0; 3]),
        Err(Error::TestCaseFailedAssertionVecsEqual("a.len() != b.len(); 12 != 3".to_string()))
    );
}

#[test]
fn assert_vecs_equal_reports_the_first_difference() {
    assert_eq!(
        assert_vecs_equal(&vec![7, 8, 9, 10], &vec![7, 0, 9, 0]),
        Err(Error::TestCaseFailedAssertionVecsEqual("a[1] != b[1]; 8 != 0, ".to_string()))
    );
    assert_eq!(
        assert_vecs_equal(&vec!["x".to_string()], &vec!["y".to_string()]),
        Err(Error::TestCaseFailedAssertionVecsEqual("a[0] != b[0]; \"x\" != \"y\", ".to_string()))
    );
}

#[test]
fn decimal_string_writes_numbers_as_std_does() {
    for n in [0usize, 7, 10, 99, 100, 12345, usize::MAX] {
        assert_eq!(decimal_string(n), format!("{}", n));
    }
}
