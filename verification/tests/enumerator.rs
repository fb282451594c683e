use reccak::permutation::permutations;

#[test]
fn enumerator_yields_every_candidate_once() {
    let mut iter = permutations(b"ab", 2);
    let mut seen: Vec<Vec<u8>> = Vec::new();
    while let Some(candidate) = iter.next() {
        seen.push(candidate);
    }
    // exactly 2^2 candidates, in ascending mixed-radix order with position 0
    // the least-significant digit, each exactly once
    assert_eq!(
        seen,
        vec![b"aa".to_vec(), b"ba".to_vec(), b"ab".to_vec(), b"bb".to_vec()]
    );
    // exhaustion is stable
    assert_eq!(iter.next(), None);
    assert_eq!(iter.next(), None);
}

#[test]
fn enumerator_counts_the_whole_space() {
    let mut iter = permutations(b"xyz", 3);
    let mut count = 0usize;
    let mut distinct: Vec<Vec<u8>> = Vec::new();
    while let Some(candidate) = iter.next() {
        assert_eq!(candidate.len(), 3);
        assert!(!distinct.contains(&candidate), "duplicate candidate");
        distinct.push(candidate);
        count += 1;
    }
    assert_eq!(count, 27);
}

#[test]
fn enumerator_emits_all_zero_candidate_first() {
    let mut iter = permutations(b"qwerty", 4);
    assert_eq!(iter.next(), Some(b"qqqq".to_vec()));
}

#[test]
fn enumerator_position_zero_is_least_significant() {
    let mut iter = permutations(b"abc", 2);
    let expected = [
        b"aa", b"ba", b"ca", b"ab", b"bb", b"cb", b"ac", b"bc", b"cc",
    ];
    for want in expected {
        assert_eq!(iter.next(), Some(want.to_vec()));
    }
    assert_eq!(iter.next(), None);
}

#[test]
fn enumerator_keeps_duplicate_alphabet_entries() {
    let mut iter = permutations(b"aa", 1);
    assert_eq!(iter.next(), Some(b"a".to_vec()));
    assert_eq!(iter.next(), Some(b"a".to_vec()));
    assert_eq!(iter.next(), None);
}

#[test]
fn forked_cursor_matches_fresh_cursor() {
    // forking at position p and skipping k more yields the same candidate as
    // a fresh enumerator skipped p + k times
    let mut base = permutations(b"abc", 3);
    base.skip(5);
    let mut forked = base.fork();
    forked.skip(4);
    let mut fresh = permutations(b"abc", 3);
    fresh.skip(9);
    assert_eq!(forked.next(), fresh.next());
}

#[test]
fn fork_is_independent_of_the_original() {
    let mut base = permutations(b"ab", 2);
    base.skip(1);
    let mut forked = base.fork();
    // advancing the fork does not move the original
    assert_eq!(forked.next(), Some(b"ba".to_vec()));
    assert_eq!(forked.next(), Some(b"ab".to_vec()));
    assert_eq!(base.next(), Some(b"ba".to_vec()));
}

#[test]
fn skip_past_the_end_exhausts() {
    let mut iter = permutations(b"ab", 2);
    iter.skip(100);
    assert_eq!(iter.next(), None);
}
