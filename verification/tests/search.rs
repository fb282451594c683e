use reccak::hash;
use reccak::permutation::permutations;
use reccak::search::chunk_size;
use reccak::search::digest_eq;
use reccak::search::reverse_hash;
use reccak::search::search_range;
use reccak::search::space_size;
use reccak::search::worker_ranges;

/// The symbol set the reference search draws candidates from.
const CHARS: &[u8] =
    b"qwertyuiopasdfghjklzxcvbnmQWERTYUIOPASDFGHJKLZXCVBNM1234567890!@#%^-_=+([{<)]}>";

#[test]
fn search_finds_a_planted_candidate() {
    let target = hash(b"ba");
    let found = search_range(b"ab", 2, 0, 4, &target).expect("match exists in the space");
    assert_eq!(hash(&found), target);
    assert_eq!(found, b"ba".to_vec());
}

#[test]
fn search_misses_when_no_candidate_matches() {
    // the space over a one-letter alphabet holds only "a"
    let target = hash(b"b");
    assert_eq!(search_range(b"a", 1, 0, 1, &target), None);
}

#[test]
fn search_sees_only_its_own_range() {
    // "bb" sits at position 3; a range that stops before it finds nothing
    let target = hash(b"bb");
    assert_eq!(search_range(b"ab", 2, 0, 3, &target), None);
    assert_eq!(
        search_range(b"ab", 2, 3, 1, &target),
        Some(b"bb".to_vec())
    );
}

#[test]
fn chunked_workers_cover_a_planted_candidate() {
    // split the space as the coordinator would and let each chunk search
    // sequentially: exactly the chunks that hold a match report one
    let target = hash(b"cb");
    let ranges = worker_ranges(3, 2, 3);
    assert_eq!(ranges.len(), 3);
    let mut found = Vec::new();
    for (start, count) in ranges {
        if let Some(candidate) = search_range(b"abc", 2, start, count, &target) {
            assert_eq!(hash(&candidate), target);
            found.push(candidate);
        }
    }
    assert_eq!(found, vec![b"cb".to_vec()]);
}

#[test]
fn reverse_hash_walks_from_the_cursor() {
    let target = hash(b"ab");
    let mut iter = permutations(b"ab", 2);
    let found = reverse_hash(&mut iter, 4, &target).expect("match exists");
    assert_eq!(found, b"ab".to_vec());
    // the enumerator rests just past the match
    assert_eq!(iter.next(), Some(b"bb".to_vec()));
}

#[test]
fn space_and_chunk_sizes_are_exact() {
    assert_eq!(space_size(79, 2), 6241);
    assert_eq!(space_size(2, 10), 1024);
    assert_eq!(chunk_size(79, 2, 4), 1560);
    let ranges = worker_ranges(79, 2, 4);
    assert_eq!(
        ranges,
        vec![(0, 1560), (1560, 1560), (3120, 1560), (4680, 1560)]
    );
    // the remainder of the space, 6241 - 4 * 1560 = 1 candidate, is assigned
    // to no worker
    assert_eq!(6241 - 4 * 1560, 1);
}

#[test]
fn digest_eq_compares_lane_wise() {
    let a = hash(b"abc");
    let b = hash(b"abc");
    let c = hash(b"abd");
    assert!(digest_eq(&a, &b));
    assert!(!digest_eq(&a, &c));
    assert!(!digest_eq(&a, &vec![]));
}

#[test]
fn end_to_end_search_scenario() {
    // the reference symbol set, candidate length 2, and a published target
    // digest: the search must terminate with a matching 2-byte candidate
    let target: Vec<u16> = vec![0xCFEA, 0xCDDA, 0xA7B4, 0x9BC7, 0x435C, 0x2564, 0x10DF, 0x11ED];
    let total = space_size(CHARS.len(), 2);
    let found = search_range(CHARS, 2, 0, total, &target).expect("search must terminate with a match");
    assert_eq!(found.len(), 2);
    assert_eq!(hash(&found), target);
}
