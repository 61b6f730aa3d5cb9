use kmerge::merge_iterator::MergeIterator;
use kmerge::source::{Entry, MemIterator, StorageIterator};

fn entry(k: &[u8], v: &[u8]) -> Entry {
    Entry { key: k.to_vec(), value: v.to_vec() }
}

fn mem(pairs: &[(&[u8], &[u8])]) -> Box<MemIterator> {
    let entries: Vec<Entry> = pairs.iter().map(|(k, v)| entry(k, v)).collect();
    Box::new(MemIterator::new(entries))
}

fn drain<I: StorageIterator>(it: &mut MergeIterator<I>) -> Vec<(Vec<u8>, Vec<u8>)> {
    let mut out: Vec<(Vec<u8>, Vec<u8>)> = Vec::new();
    while it.is_valid() {
        out.push((it.key(), it.value()));
        it.next().unwrap();
    }
    out
}

fn kv(k: &[u8], v: &[u8]) -> (Vec<u8>, Vec<u8>) {
    (k.to_vec(), v.to_vec())
}

#[test]
fn disjoint_sources_merge_to_sorted_union() {
    let s0 = mem(&[(b"1", b"a"), (b"3", b"c")]);
    let s1 = mem(&[(b"2", b"z")]);
    let s2 = mem(&[(b"0", b"q"), (b"4", b"r")]);
    let mut m = MergeIterator::create(vec![s0, s1, s2]);
    let out = drain(&mut m);
    assert_eq!(out.len(), 5);
    assert_eq!(
        out,
        vec![
            kv(b"0", b"q"),
            kv(b"1", b"a"),
            kv(b"2", b"z"),
            kv(b"3", b"c"),
            kv(b"4", b"r"),
        ]
    );
}

#[test]
fn shared_key_lower_index_wins() {
    let s0 = mem(&[(b"1", b"a"), (b"3", b"c")]);
    let s1 = mem(&[(b"1", b"b"), (b"2", b"z")]);
    let mut m = MergeIterator::create(vec![s0, s1]);
    let out = drain(&mut m);
    assert_eq!(out, vec![kv(b"1", b"a"), kv(b"2", b"z"), kv(b"3", b"c")]);
}

#[test]
fn swapping_source_order_changes_winner() {
    let s = mem(&[(b"1", b"b")]);
    let t = mem(&[(b"1", b"a")]);
    let mut m = MergeIterator::create(vec![s, t]);
    assert_eq!(drain(&mut m), vec![kv(b"1", b"b")]);

    let s = mem(&[(b"1", b"b")]);
    let t = mem(&[(b"1", b"a")]);
    let mut m = MergeIterator::create(vec![t, s]);
    assert_eq!(drain(&mut m), vec![kv(b"1", b"a")]);
}

#[test]
fn three_sources_same_key_yield_one_entry() {
    let s0 = mem(&[(b"k", b"v0")]);
    let s1 = mem(&[(b"k", b"v1")]);
    let s2 = mem(&[(b"k", b"v2")]);
    let mut m = MergeIterator::create(vec![s0, s1, s2]);
    assert_eq!(drain(&mut m), vec![kv(b"k", b"v0")]);
}

#[test]
fn zero_sources_is_immediately_invalid() {
    let mut m: MergeIterator<MemIterator> = MergeIterator::create(Vec::new());
    assert!(!m.is_valid());
    assert_eq!(m.key(), Vec::<u8>::new());
    assert_eq!(m.value(), Vec::<u8>::new());
    assert!(m.next().is_ok());
    assert!(!m.is_valid());
}

#[test]
fn all_exhausted_sources_is_immediately_invalid() {
    let s0 = mem(&[]);
    let s1 = mem(&[]);
    let mut m = MergeIterator::create(vec![s0, s1]);
    assert!(!m.is_valid());
    assert!(m.next().is_ok());
    assert!(!m.is_valid());
}

#[test]
fn exhausted_operator_stays_invalid() {
    let s0 = mem(&[(b"1", b"a")]);
    let mut m = MergeIterator::create(vec![s0]);
    assert!(m.is_valid());
    m.next().unwrap();
    assert!(!m.is_valid());
    assert!(!m.is_valid());
    assert!(m.next().is_ok());
    assert!(!m.is_valid());
    assert_eq!(m.key(), Vec::<u8>::new());
    assert_eq!(m.value(), Vec::<u8>::new());
}

#[test]
fn failing_shadowed_duplicate_surfaces_error() {
    let s0 = mem(&[(b"1", b"a"), (b"3", b"c")]);
    let entries = vec![entry(b"1", b"b")];
    let s1 = Box::new(MemIterator::new_failing(entries, 0));
    let mut m = MergeIterator::create(vec![s0, s1]);
    assert!(m.is_valid());
    assert_eq!(m.key(), b"1".to_vec());
    assert_eq!(m.value(), b"a".to_vec());
    let r = m.next();
    assert!(r.is_err());
    assert!(!m.is_valid());
    assert_eq!(m.key(), Vec::<u8>::new());
}

#[test]
fn failing_head_surfaces_error() {
    let entries = vec![entry(b"1", b"a")];
    let s0 = Box::new(MemIterator::new_failing(entries, 0));
    let s1 = mem(&[(b"2", b"b")]);
    let mut m = MergeIterator::create(vec![s0, s1]);
    assert!(m.is_valid());
    assert_eq!(m.key(), b"1".to_vec());
    let r = m.next();
    assert!(r.is_err());
    assert!(!m.is_valid());
    assert!(m.next().is_ok());
    assert!(!m.is_valid());
}

#[test]
fn overlapping_sources_output_is_strictly_ascending() {
    let s0 = mem(&[(b"b", b"0b"), (b"d", b"0d"), (b"f", b"0f")]);
    let s1 = mem(&[(b"a", b"1a"), (b"d", b"1d"), (b"e", b"1e")]);
    let s2 = mem(&[(b"b", b"2b"), (b"e", b"2e"), (b"g", b"2g")]);
    let mut m = MergeIterator::create(vec![s0, s1, s2]);
    let out = drain(&mut m);
    for w in out.windows(2) {
        assert!(w[0].0 < w[1].0);
    }
    assert_eq!(
        out,
        vec![
            kv(b"a", b"1a"),
            kv(b"b", b"0b"),
            kv(b"d", b"0d"),
            kv(b"e", b"1e"),
            kv(b"f", b"0f"),
            kv(b"g", b"2g"),
        ]
    );
}

#[test]
fn single_source_passes_through() {
    let s0 = mem(&[(b"x", b"1"), (b"y", b"2"), (b"z", b"3")]);
    let mut m = MergeIterator::create(vec![s0]);
    let out = drain(&mut m);
    assert_eq!(out, vec![kv(b"x", b"1"), kv(b"y", b"2"), kv(b"z", b"3")]);
}

#[test]
fn multi_byte_keys_sort_lexicographically() {
    let s0 = mem(&[(b"ab", b"1"), (b"b", b"2")]);
    let s1 = mem(&[(b"a", b"3"), (b"ba", b"4")]);
    let mut m = MergeIterator::create(vec![s0, s1]);
    let out = drain(&mut m);
    assert_eq!(
        out,
        vec![kv(b"a", b"3"), kv(b"ab", b"1"), kv(b"b", b"2"), kv(b"ba", b"4")]
    );
}

#[test]
fn merge_of_merges_composes() {
    let inner_a = {
        let s0 = mem(&[(b"1", b"a0"), (b"4", b"a4")]);
        let s1 = mem(&[(b"2", b"b2")]);
        MergeIterator::create(vec![s0, s1])
    };
    let inner_b = {
        let s0 = mem(&[(b"1", b"c1"), (b"3", b"c3")]);
        MergeIterator::create(vec![s0])
    };
    let mut outer = MergeIterator::create(vec![Box::new(inner_a), Box::new(inner_b)]);
    let out = drain(&mut outer);
    assert_eq!(
        out,
        vec![kv(b"1", b"a0"), kv(b"2", b"b2"), kv(b"3", b"c3"), kv(b"4", b"a4")]
    );
}

#[test]
fn exhausted_sources_among_live_ones_are_discarded() {
    let s0 = mem(&[]);
    let s1 = mem(&[(b"1", b"a")]);
    let s2 = mem(&[]);
    let s3 = mem(&[(b"0", b"z")]);
    let mut m = MergeIterator::create(vec![s0, s1, s2, s3]);
    let out = drain(&mut m);
    assert_eq!(out, vec![kv(b"0", b"z"), kv(b"1", b"a")]);
}

#[test]
fn mem_iterator_reports_its_entries() {
    let it = MemIterator::new(vec![entry(b"k1", b"v1"), entry(b"k2", b"v2")]);
    assert!(it.is_valid());
    assert_eq!(it.key(), b"k1".to_vec());
    assert_eq!(it.value(), b"v1".to_vec());
    let mut it = it;
    it.next().unwrap();
    assert_eq!(it.key(), b"k2".to_vec());
    it.next().unwrap();
    assert!(!it.is_valid());
    assert_eq!(it.key(), Vec::<u8>::new());
    assert_eq!(it.value(), Vec::<u8>::new());
    assert!(it.next().is_ok());
    assert!(!it.is_valid());
}

#[test]
fn mem_iterator_failure_exhausts_it() {
    let mut it = MemIterator::new_failing(vec![entry(b"a", b"1"), entry(b"b", b"2")], 1);
    assert!(it.next().is_ok());
    assert_eq!(it.key(), b"b".to_vec());
    assert!(it.next().is_err());
    assert!(!it.is_valid());
}
