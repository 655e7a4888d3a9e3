use static_hash_set::{get_with_offset, BloomFilter, Buffer, CompressedHashSet, Data, HashSet};

fn corpus(words: &[&str]) -> (Vec<Vec<u8>>, usize) {
    let keys: Vec<Vec<u8>> = words.iter().map(|w| w.as_bytes().to_vec()).collect();
    let total = keys.iter().map(|k| k.len()).sum();
    (keys, total)
}

fn build(words: &[&str], tries: usize) -> Option<HashSet> {
    let (keys, total) = corpus(words);
    HashSet::new(&keys, keys.len(), total, tries)
}

#[test]
fn members_are_found() {
    let set = build(&["apple", "banana", "cherry"], 10).expect("build");
    for k in ["apple", "banana", "cherry"] {
        assert!(set.contains(k.as_bytes()));
    }
}

#[test]
fn non_members_are_rejected() {
    let set = build(&["apple", "banana", "cherry"], 10).expect("build");
    for k in ["durian", "kiwi", "", "appl", "apples", "banan"] {
        assert!(!set.contains(k.as_bytes()));
    }
}

#[test]
fn compression_keeps_answers() {
    let set = build(&["apple", "banana", "cherry"], 10).expect("build");
    let queries = ["apple", "banana", "cherry", "durian", "kiwi"];
    let before: Vec<bool> = queries.iter().map(|k| set.contains(k.as_bytes())).collect();
    let compressed: CompressedHashSet = set.compress();
    let after: Vec<bool> = queries.iter().map(|k| compressed.contains(k.as_bytes())).collect();
    assert_eq!(before, after);
    assert_eq!(after, vec![true, true, true, false, false]);
}

#[test]
fn compressed_set_of_repetitive_keys() {
    let words: Vec<String> = (0..500).map(|i| format!("key-{:05}-aaaaaaaaaaaaaaaa", i)).collect();
    let refs: Vec<&str> = words.iter().map(|w| w.as_str()).collect();
    let set = build(&refs, 10).expect("build").compress();
    for w in &words {
        assert!(set.contains(w.as_bytes()));
    }
    assert!(!set.contains(b"key-00500-aaaaaaaaaaaaaaaa"));
}

#[test]
fn zero_tries_is_exhausted() {
    assert!(build(&["apple", "banana", "cherry"], 0).is_none());
    assert!(build(&["x"], 0).is_none());
}

#[test]
fn duplicate_keys_exhaust_every_trial() {
    assert!(build(&["same", "same"], 20).is_none());
}

#[test]
fn empty_build_has_no_members() {
    let set = build(&[], 1).expect("build");
    assert!(!set.contains(b""));
    assert!(!set.contains(b"apple"));
    let compressed = set.compress();
    assert!(!compressed.contains(b""));
    assert!(!compressed.contains(b"apple"));
}

#[test]
fn empty_key_is_a_member_when_given() {
    let set = build(&["", "a"], 10).expect("build");
    assert!(set.contains(b""));
    assert!(set.contains(b"a"));
    assert!(!set.contains(b"b"));
}

#[test]
fn large_random_build_succeeds_in_few_tries() {
    let mut state: u64 = 42;
    let keys: Vec<Vec<u8>> = (0..100_000)
        .map(|_| wyhash::wyrng(&mut state).to_le_bytes().to_vec())
        .collect();
    let total = keys.iter().map(|k| k.len()).sum();
    let set = HashSet::new(&keys, keys.len(), total, 5).expect("build");
    for k in keys.iter().step_by(997) {
        assert!(set.contains(k));
    }
    assert!(!set.contains(b"not a key"));
}

#[test]
fn records_are_packed_in_order() {
    let (keys, total) = corpus(&["ab", "c"]);
    let data = Data::new(&keys, 2, total);
    assert_eq!(data.as_bytes().len(), 19);
    assert_eq!(data.iter(), vec![0, 10]);
    assert_eq!(data.get(0), Some(&b"ab"[..]));
    assert_eq!(data.get(10), Some(&b"c"[..]));
    assert_eq!(data.get(11), None);
    assert_eq!(data.get(19), None);
    assert_eq!(&data.as_bytes()[..8], &[2, 0, 0, 0, 0, 0, 0, 0]);
}

#[test]
fn record_decoding() {
    let buf = [2u8, 0, 0, 0, 0, 0, 0, 0, b'h', b'i', 7];
    assert_eq!(get_with_offset(&buf, 0), Some(&b"hi"[..]));
    assert_eq!(get_with_offset(&buf[..9], 0), None);
    assert_eq!(get_with_offset(&buf, 4), None);
    assert_eq!(get_with_offset(&buf, usize::MAX), None);
    assert_eq!(get_with_offset(&[], 0), None);
    let empty_record = [0u8; 8];
    assert_eq!(get_with_offset(&empty_record, 0), Some(&b""[..]));
}

#[test]
fn buffer_is_zeroed_and_writable() {
    let mut buf = Buffer::new(6);
    assert_eq!(buf.len(), 6);
    assert_eq!(buf.as_slice(), &[0u8; 6]);
    buf.write_at(2, &[9, 8]);
    assert_eq!(buf.as_slice(), &[0, 0, 9, 8, 0, 0]);
}

#[test]
fn filtered_set_answers_like_the_plain_one() {
    let words: Vec<String> = (0..2000).map(|i| format!("member-{}", i)).collect();
    let refs: Vec<&str> = words.iter().map(|w| w.as_str()).collect();
    let plain = build(&refs, 10).expect("build");
    let filtered = build(&refs, 10).expect("build").with_filter();
    for w in &words {
        assert!(filtered.contains(w.as_bytes()));
    }
    for i in 0..20_000 {
        let q = format!("stranger-{}", i);
        assert!(!filtered.contains(q.as_bytes()));
        assert_eq!(filtered.contains(q.as_bytes()), plain.contains(q.as_bytes()));
    }
    let compressed = filtered.compress();
    assert!(compressed.contains(b"member-1999"));
    assert!(!compressed.contains(b"member-2000"));
}

#[test]
fn filter_never_forgets_an_insert() {
    let mut f = BloomFilter::new(100);
    assert!(!f.might_contain(12345));
    let mut state: u64 = 7;
    let hashes: Vec<u64> = (0..100).map(|_| wyhash::wyrng(&mut state)).collect();
    for &h in &hashes {
        f.insert(h);
    }
    for &h in &hashes {
        assert!(f.might_contain(h));
    }
}

#[test]
fn filter_rejects_most_strangers() {
    let mut f = BloomFilter::new(1000);
    let mut state: u64 = 1;
    for _ in 0..1000 {
        f.insert(wyhash::wyrng(&mut state));
    }
    let accepted = (0..10_000).filter(|_| f.might_contain(wyhash::wyrng(&mut state))).count();
    assert!(accepted < 5_000);
}
