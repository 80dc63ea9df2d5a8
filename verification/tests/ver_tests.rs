use sabpak::ver::{cmp, version_greater, version_parts_of};
use std::cmp::Ordering;

#[test]
fn cmp_equal_versions() {
    assert_eq!(cmp("1.0", "1.0"), Ordering::Equal);
    assert_eq!(cmp("5.5", "5.5"), Ordering::Equal);
}

#[test]
fn cmp_last_segment_decides() {
    assert_eq!(cmp("1.0.0", "1.0.1"), Ordering::Less);
    assert_eq!(cmp("1.0.1", "1.0.0"), Ordering::Greater);
    assert_eq!(cmp("0.0.1", "0.0.2"), Ordering::Less);
    assert_eq!(cmp("2.2.2", "2.2.1"), Ordering::Greater);
}

#[test]
fn cmp_is_numeric_not_textual() {
    assert_eq!(cmp("1.2", "1.10"), Ordering::Less);
    assert_eq!(cmp("1.10", "1.2"), Ordering::Greater);
    assert_eq!(cmp("10", "9"), Ordering::Greater);
    assert_eq!(cmp("100", "99"), Ordering::Greater);
    assert_eq!(cmp("3.14.15", "3.14.9"), Ordering::Greater);
    assert_eq!(cmp("3.14.9", "3.14.15"), Ordering::Less);
}

#[test]
fn cmp_first_segment_decides() {
    assert_eq!(cmp("2.0", "1.9"), Ordering::Greater);
    assert_eq!(cmp("0.9", "1.0"), Ordering::Less);
    assert_eq!(cmp("0", "1"), Ordering::Less);
}

#[test]
fn cmp_missing_segments_count_as_zero() {
    assert_eq!(cmp("1.2.3", "1.2"), Ordering::Greater);
    assert_eq!(cmp("1.2", "1.2.3"), Ordering::Less);
    assert_eq!(cmp("1.0.0.0", "1.0.0"), Ordering::Equal);
    assert_eq!(cmp("1", "1.0.0"), Ordering::Equal);
    assert_eq!(cmp("1.0.0", ""), Ordering::Greater);
}

#[test]
fn cmp_non_numeric_segments_count_as_zero() {
    assert_eq!(cmp("1.2.beta", "1.2"), Ordering::Equal);
    assert_eq!(cmp("1.x.2", "1.0.2"), Ordering::Equal);
    assert_eq!(cmp("1.x.2", "1.2"), Ordering::Less);
    assert_eq!(cmp("1.0.0-beta1", "1.0"), Ordering::Equal);
    assert_eq!(version_parts_of("1.x.2"), vec![1, 0, 2]);
}

#[test]
fn parts_accept_signs_and_reject_overflow() {
    assert_eq!(version_parts_of("+3.-2.007"), vec![3, -2, 7]);
    assert_eq!(version_parts_of("9223372036854775807"), vec![i64::MAX]);
    assert_eq!(version_parts_of("-9223372036854775808"), vec![i64::MIN]);
    assert_eq!(version_parts_of("9223372036854775808.1"), vec![0, 1]);
    assert_eq!(version_parts_of("+.-. .1_0"), vec![0, 0, 0, 0]);
    assert_eq!(cmp("-1", "0"), Ordering::Less);
}

#[test]
fn cmp_laws_on_examples() {
    // reflexive, antisymmetric, transitive, trailing zero
    for v in ["1.2.3", "0.9", "", "10.0.1"] {
        assert_eq!(cmp(v, v), Ordering::Equal);
        assert_eq!(cmp(&format!("{v}.0"), v), Ordering::Equal);
    }
    assert_eq!(cmp("1.2", "1.10"), cmp("1.10", "1.2").reverse());
    assert_eq!(cmp("1.2", "1.10"), Ordering::Less);
    assert_eq!(cmp("1.10", "2.0"), Ordering::Less);
    assert_eq!(cmp("1.2", "2.0"), Ordering::Less);
}

#[test]
fn version_greater_is_strict() {
    assert!(version_greater("1.10", "1.9"));
    assert!(!version_greater("1.0", "1"));
    assert!(!version_greater("1.0", "1.1"));
}
