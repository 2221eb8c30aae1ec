use merge_cursor::merge::MergeIterator;
use merge_cursor::order::{key_compare, KeyOrdering, Record};
use merge_cursor::source::{RecordIterator, StorageIterator};

fn rec(key: &[u8], value: &[u8]) -> Record {
    Record { key: key.to_vec(), value: value.to_vec() }
}

fn source(records: Vec<Record>) -> Box<RecordIterator> {
    Box::new(RecordIterator::new(records))
}

fn drain(mut cursor: MergeIterator<RecordIterator>) -> Vec<(Vec<u8>, Vec<u8>)> {
    let mut out = Vec::new();
    while cursor.is_valid() {
        out.push((cursor.key(), cursor.value()));
        cursor.next().unwrap();
    }
    out
}

#[test]
fn key_compare_is_lexicographic() {
    assert!(matches!(key_compare(&b"abc".to_vec(), &b"abd".to_vec()), KeyOrdering::Less));
    assert!(matches!(key_compare(&b"abd".to_vec(), &b"abc".to_vec()), KeyOrdering::Greater));
    assert!(matches!(key_compare(&b"abc".to_vec(), &b"abc".to_vec()), KeyOrdering::Equal));
    assert!(matches!(key_compare(&b"ab".to_vec(), &b"abc".to_vec()), KeyOrdering::Less));
    assert!(matches!(key_compare(&b"".to_vec(), &b"a".to_vec()), KeyOrdering::Less));
    assert!(matches!(key_compare(&b"".to_vec(), &b"".to_vec()), KeyOrdering::Equal));
}

#[test]
fn zero_sources_start_invalid() {
    let cursor = MergeIterator::<RecordIterator>::create(Vec::new());
    assert!(!cursor.is_valid());
    assert_eq!(cursor.key(), Vec::<u8>::new());
    assert_eq!(cursor.value(), Vec::<u8>::new());
}

#[test]
fn three_empty_sources_start_invalid() {
    let cursor = MergeIterator::create(vec![
        source(vec![]),
        source(vec![]),
        source(vec![]),
    ]);
    assert!(!cursor.is_valid());
    assert_eq!(cursor.key(), b"".to_vec());
    assert_eq!(cursor.value(), b"".to_vec());
}

#[test]
fn single_source_passthrough() {
    let cursor = MergeIterator::create(vec![source(vec![
        rec(b"a", b"1"),
        rec(b"b", b"2"),
        rec(b"c", b"3"),
    ])]);
    let out = drain(cursor);
    assert_eq!(
        out,
        vec![
            (b"a".to_vec(), b"1".to_vec()),
            (b"b".to_vec(), b"2".to_vec()),
            (b"c".to_vec(), b"3".to_vec()),
        ]
    );
}

#[test]
fn earlier_source_shadows_equal_key() {
    // Source A (priority 0) holds (b,2); source B (priority 1) holds
    // (a,1), (b,1), (c,1). B's (b,1) is shadowed by A's (b,2).
    let a = source(vec![rec(b"b", b"2")]);
    let b = source(vec![rec(b"a", b"1"), rec(b"b", b"1"), rec(b"c", b"1")]);
    let out = drain(MergeIterator::create(vec![a, b]));
    assert_eq!(
        out,
        vec![
            (b"a".to_vec(), b"1".to_vec()),
            (b"b".to_vec(), b"2".to_vec()),
            (b"c".to_vec(), b"1".to_vec()),
        ]
    );
}

#[test]
fn duplicate_key_emitted_once_with_lowest_priority_value() {
    let a = source(vec![rec(b"k", b"newest")]);
    let b = source(vec![rec(b"k", b"older")]);
    let c = source(vec![rec(b"k", b"oldest")]);
    let out = drain(MergeIterator::create(vec![a, b, c]));
    assert_eq!(out, vec![(b"k".to_vec(), b"newest".to_vec())]);
}

#[test]
fn interleaved_sources_merge_in_order() {
    let a = source(vec![rec(b"b", b"a1"), rec(b"d", b"a2"), rec(b"f", b"a3")]);
    let b = source(vec![rec(b"a", b"b1"), rec(b"c", b"b2"), rec(b"e", b"b3")]);
    let out = drain(MergeIterator::create(vec![a, b]));
    let keys: Vec<Vec<u8>> = out.iter().map(|(k, _)| k.clone()).collect();
    assert_eq!(
        keys,
        vec![
            b"a".to_vec(),
            b"b".to_vec(),
            b"c".to_vec(),
            b"d".to_vec(),
            b"e".to_vec(),
            b"f".to_vec(),
        ]
    );
    for w in keys.windows(2) {
        assert!(w[0] < w[1]);
    }
}

#[test]
fn shadowed_run_is_skipped_entirely() {
    // B holds two records under the shadowed key; both are skipped while A's
    // record under that key is exposed.
    let a = source(vec![rec(b"b", b"2")]);
    let b = source(vec![rec(b"b", b"x"), rec(b"b", b"y"), rec(b"c", b"1")]);
    let out = drain(MergeIterator::create(vec![a, b]));
    assert_eq!(
        out,
        vec![(b"b".to_vec(), b"2".to_vec()), (b"c".to_vec(), b"1".to_vec())]
    );
}

#[test]
fn exhaustion_visits_every_key_once_then_stays_invalid() {
    let a = source(vec![rec(b"a", b"0"), rec(b"c", b"0")]);
    let b = source(vec![rec(b"b", b"1"), rec(b"c", b"1")]);
    let c = source(vec![rec(b"d", b"2")]);
    let mut cursor = MergeIterator::create(vec![a, b, c]);
    let mut keys: Vec<Vec<u8>> = Vec::new();
    while cursor.is_valid() {
        keys.push(cursor.key());
        cursor.next().unwrap();
    }
    assert_eq!(
        keys,
        vec![b"a".to_vec(), b"b".to_vec(), b"c".to_vec(), b"d".to_vec()]
    );
    assert!(!cursor.is_valid());
    assert!(!cursor.is_valid());
    assert_eq!(cursor.key(), b"".to_vec());
    assert_eq!(cursor.value(), b"".to_vec());
}

#[test]
fn invalid_sources_are_discarded_at_construction() {
    let empty = source(vec![]);
    let live = source(vec![rec(b"x", b"1")]);
    let out = drain(MergeIterator::create(vec![empty, live]));
    assert_eq!(out, vec![(b"x".to_vec(), b"1".to_vec())]);
}

#[test]
fn merge_cursors_compose() {
    // A merge cursor is itself a source, so two tiers can be layered.
    let lower = MergeIterator::create(vec![
        source(vec![rec(b"a", b"low-a"), rec(b"c", b"low-c")]),
        source(vec![rec(b"b", b"low-b")]),
    ]);
    let upper = MergeIterator::create(vec![
        source(vec![rec(b"a", b"up-a")]),
        source(vec![rec(b"d", b"up-d")]),
    ]);
    // The upper tier is listed first, so its (a, up-a) shadows the lower's.
    let mut cursor = MergeIterator::create(vec![Box::new(upper), Box::new(lower)]);
    let mut out = Vec::new();
    while cursor.is_valid() {
        out.push((cursor.key(), cursor.value()));
        cursor.next().unwrap();
    }
    assert_eq!(
        out,
        vec![
            (b"a".to_vec(), b"up-a".to_vec()),
            (b"b".to_vec(), b"low-b".to_vec()),
            (b"c".to_vec(), b"low-c".to_vec()),
            (b"d".to_vec(), b"up-d".to_vec()),
        ]
    );
}

#[test]
fn record_iterator_walks_its_records() {
    let mut it = RecordIterator::new(vec![rec(b"k1", b"v1"), rec(b"k2", b"v2")]);
    assert!(it.is_valid());
    assert_eq!(it.key(), b"k1".to_vec());
    assert_eq!(it.value(), b"v1".to_vec());
    it.next().unwrap();
    assert!(it.is_valid());
    assert_eq!(it.key(), b"k2".to_vec());
    assert_eq!(it.value(), b"v2".to_vec());
    it.next().unwrap();
    assert!(!it.is_valid());
}

#[test]
fn prefix_keys_order_before_longer_keys() {
    // A key that is a strict prefix of another sorts first.
    let a = source(vec![rec(b"ab", b"1")]);
    let b = source(vec![rec(b"a", b"2"), rec(b"abc", b"3")]);
    let out = drain(MergeIterator::create(vec![a, b]));
    assert_eq!(
        out,
        vec![
            (b"a".to_vec(), b"2".to_vec()),
            (b"ab".to_vec(), b"1".to_vec()),
            (b"abc".to_vec(), b"3".to_vec()),
        ]
    );
}

#[test]
fn empty_key_orders_first() {
    let a = source(vec![rec(b"", b"root")]);
    let b = source(vec![rec(b"a", b"1")]);
    let out = drain(MergeIterator::create(vec![b, a]));
    assert_eq!(
        out,
        vec![(b"".to_vec(), b"root".to_vec()), (b"a".to_vec(), b"1".to_vec())]
    );
}
