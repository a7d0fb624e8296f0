use abi_watch::matching::{diff_score, is_fuzzy_match, DiffScore, THRESHOLD_DIVISOR};

fn code(len: usize) -> Vec<u8> {
    (0..len).map(|i| (i % 251) as u8).collect()
}

fn with_tail_changed(base: &[u8], tail: usize) -> Vec<u8> {
    let mut changed = base.to_vec();
    let n = changed.len();
    for b in changed[n - tail..].iter_mut() {
        *b = !*b;
    }
    changed
}

#[test]
fn diff_score_counts_over_the_shorter_length() {
    assert_eq!(diff_score(&[1, 2, 3, 4], &[1, 9, 3, 9]), DiffScore { differing: 2, compared: 4 });
    assert_eq!(diff_score(&[1, 2, 3, 4, 5, 6], &[1, 2, 0]), DiffScore { differing: 1, compared: 3 });
    assert_eq!(diff_score(&[], &[1, 2]), DiffScore { differing: 0, compared: 0 });
    assert_eq!(diff_score(&[7], &[7]), DiffScore { differing: 0, compared: 1 });
}

#[test]
fn threshold_is_one_fifth() {
    assert_eq!(THRESHOLD_DIVISOR, 5);
    assert!(DiffScore { differing: 0, compared: 1 }.under_threshold());
    assert!(DiffScore { differing: 1, compared: 6 }.under_threshold());
    assert!(!DiffScore { differing: 1, compared: 5 }.under_threshold());
    assert!(DiffScore { differing: 19, compared: 100 }.under_threshold());
    assert!(!DiffScore { differing: 20, compared: 100 }.under_threshold());
    assert!(!DiffScore { differing: 0, compared: 0 }.under_threshold());
    assert!(DiffScore { differing: usize::MAX / 5 - 1, compared: usize::MAX }.under_threshold());
    assert!(!DiffScore { differing: usize::MAX, compared: usize::MAX }.under_threshold());
}

#[test]
fn short_metadata_tail_still_matches() {
    let deployed = code(100);
    assert!(is_fuzzy_match(&deployed, &deployed));
    assert!(is_fuzzy_match(&deployed, &with_tail_changed(&deployed, 10)));
    assert!(is_fuzzy_match(&deployed, &with_tail_changed(&deployed, 19)));
    assert!(!is_fuzzy_match(&deployed, &with_tail_changed(&deployed, 20)));
    assert!(!is_fuzzy_match(&deployed, &with_tail_changed(&deployed, 53)));
}

#[test]
fn unrelated_code_does_not_match() {
    let a = code(100);
    let b: Vec<u8> = a.iter().map(|x| x.wrapping_add(1)).collect();
    assert_eq!(diff_score(&a, &b), DiffScore { differing: 100, compared: 100 });
    assert!(!is_fuzzy_match(&a, &b));
    let c: Vec<u8> = a.iter().rev().map(|x| x ^ 0x5a).collect();
    assert!(!is_fuzzy_match(&a, &c[..97]));
}

#[test]
fn appended_arguments_are_ignored() {
    let compiled = code(64);
    let mut deployed = compiled.clone();
    deployed.extend_from_slice(&[0xde, 0xad, 0xbe, 0xef]);
    assert!(is_fuzzy_match(&compiled, &deployed));
    assert!(is_fuzzy_match(&deployed, &compiled));
}

#[test]
fn nothing_matches_empty_code() {
    assert!(!is_fuzzy_match(&[], &[]));
    assert!(!is_fuzzy_match(&[], &[1, 2, 3]));
    assert!(!is_fuzzy_match(&[1, 2, 3], &[]));
}
