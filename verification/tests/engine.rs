use kvs::engine::kvs::{new_offset, KvStore, REDUNDANT_SIZE_LIMIT};
use kvs::engine::KvsEngine;
use kvs::err::KvsError;

fn s(text: &str) -> String {
    text.to_string()
}

#[test]
fn set_then_get_returns_the_value() {
    let mut store = KvStore::open(Vec::new()).unwrap();
    store.set(s("a"), s("1")).unwrap();
    assert_eq!(store.get(s("a")).unwrap(), Some(s("1")));
}

#[test]
fn get_of_a_key_never_set_is_none() {
    let store = KvStore::open(Vec::new()).unwrap();
    assert_eq!(store.get(s("a")).unwrap(), None);
}

#[test]
fn overwrite_then_remove_leaves_nothing() {
    let mut store = KvStore::open(Vec::new()).unwrap();
    store.set(s("a"), s("1")).unwrap();
    store.set(s("a"), s("2")).unwrap();
    assert_eq!(store.get(s("a")).unwrap(), Some(s("2")));
    store.remove(s("a")).unwrap();
    assert_eq!(store.get(s("a")).unwrap(), None);
}

#[test]
fn remove_of_a_missing_key_is_key_not_found() {
    let mut store = KvStore::open(Vec::new()).unwrap();
    assert!(matches!(store.remove(s("a")), Err(KvsError::KeyNotFound)));
    assert!(store.log().is_empty());
    store.set(s("a"), s("1")).unwrap();
    store.remove(s("a")).unwrap();
    let before = store.log().clone();
    assert!(matches!(store.remove(s("a")), Err(KvsError::KeyNotFound)));
    assert_eq!(store.log(), &before);
}

#[test]
fn the_log_is_the_records_one_after_the_other() {
    let mut store = KvStore::open(Vec::new()).unwrap();
    store.set(s("k"), s("v")).unwrap();
    store.remove(s("k")).unwrap();
    let want = "{\"Set\":{\"key\":\"k\",\"value\":\"v\"}}{\"Rm\":{\"key\":\"k\"}}";
    assert_eq!(String::from_utf8(store.log().clone()).unwrap(), want);
}

#[test]
fn reopen_yields_the_same_bindings() {
    let mut store = KvStore::open(Vec::new()).unwrap();
    store.set(s("k"), s("v")).unwrap();
    store.set(s("gone"), s("x")).unwrap();
    store.set(s("k2"), s("line\nbreak \"quoted\" \\ \u{1F600} é")).unwrap();
    store.remove(s("gone")).unwrap();
    let image = store.log().clone();
    drop(store);
    let again = KvStore::open(image).unwrap();
    assert_eq!(again.get(s("k")).unwrap(), Some(s("v")));
    assert_eq!(again.get(s("gone")).unwrap(), None);
    assert_eq!(
        again.get(s("k2")).unwrap(),
        Some(s("line\nbreak \"quoted\" \\ \u{1F600} é"))
    );
}

#[test]
fn redundant_size_counts_dead_records() {
    let mut store = KvStore::open(Vec::new()).unwrap();
    store.set(s("a"), s("1")).unwrap();
    let one = store.log().len();
    assert_eq!(store.redundant_size(), 0);
    store.set(s("a"), s("2")).unwrap();
    assert_eq!(store.redundant_size(), one);
    store.remove(s("a")).unwrap();
    assert_eq!(store.redundant_size(), store.log().len());
    let again = KvStore::open(store.log().clone()).unwrap();
    assert_eq!(again.redundant_size(), store.redundant_size());
}

#[test]
fn open_accepts_white_space_between_records() {
    let image = b" {\"Set\" : { \"key\":\"a\", \"value\" :\"1\"} }\n{\"Rm\":{\"key\":\"b\"}}\n".to_vec();
    let store = KvStore::open(image.clone()).unwrap();
    assert_eq!(store.get(s("a")).unwrap(), Some(s("1")));
    assert_eq!(store.log(), &image);
}

#[test]
fn open_cuts_a_truncated_last_record() {
    let whole = "{\"Set\":{\"key\":\"a\",\"value\":\"1\"}}";
    let mut image = whole.as_bytes().to_vec();
    image.extend_from_slice(b"{\"Set\":{\"key\":\"b\",\"val");
    let mut store = KvStore::open(image).unwrap();
    assert_eq!(store.log().as_slice(), whole.as_bytes());
    assert_eq!(store.flushed(), whole.len());
    assert_eq!(store.get(s("a")).unwrap(), Some(s("1")));
    assert_eq!(store.get(s("b")).unwrap(), None);
    store.set(s("b"), s("2")).unwrap();
    assert_eq!(store.get(s("b")).unwrap(), Some(s("2")));
}

#[test]
fn open_refuses_a_malformed_record() {
    let image = b"{\"Set\":{\"key\":\"a\",\"value\":\"1\"}}{\"Other\":{}}".to_vec();
    assert!(matches!(KvStore::open(image), Err(KvsError::Codec)));
    assert!(matches!(KvStore::open(b"garbage".to_vec()), Err(KvsError::Codec)));
}

#[test]
fn compaction_keeps_the_bindings_and_drops_the_dead_records() {
    let mut store = KvStore::open(Vec::new()).unwrap();
    store.set(s("a"), s("1")).unwrap();
    store.set(s("b"), s("1")).unwrap();
    store.set(s("a"), s("2")).unwrap();
    store.set(s("c"), s("3")).unwrap();
    store.remove(s("b")).unwrap();
    assert!(store.redundant_size() > 0);
    store.compact();
    assert_eq!(store.redundant_size(), 0);
    assert_eq!(store.flushed(), 0);
    assert_eq!(store.get(s("a")).unwrap(), Some(s("2")));
    assert_eq!(store.get(s("b")).unwrap(), None);
    assert_eq!(store.get(s("c")).unwrap(), Some(s("3")));
    let want = "{\"Set\":{\"key\":\"a\",\"value\":\"2\"}}{\"Set\":{\"key\":\"c\",\"value\":\"3\"}}";
    assert_eq!(String::from_utf8(store.log().clone()).unwrap(), want);
    let again = store.log().clone();
    store.compact();
    assert_eq!(store.log(), &again);
}

#[test]
fn churn_on_one_key_triggers_compaction() {
    let mut store = KvStore::open(Vec::new()).unwrap();
    let value = "x".repeat(100 * 1024);
    let mut compacted = false;
    let mut last = String::new();
    for round in 0..40 {
        last = format!("{}{}", round, value);
        store.set(s("churn"), last.clone()).unwrap();
        assert!(store.redundant_size() <= REDUNDANT_SIZE_LIMIT);
        if store.flushed() == 0 {
            compacted = true;
        }
        store.mark_flushed();
    }
    assert!(compacted);
    assert_eq!(store.get(s("churn")).unwrap(), Some(last));
    assert!(store.log().len() <= REDUNDANT_SIZE_LIMIT + 2 * (value.len() + 64));
    assert!(!store.needs_compaction());
}

#[test]
fn flushed_marks_the_part_that_did_not_change() {
    let mut store = KvStore::open(Vec::new()).unwrap();
    store.set(s("a"), s("1")).unwrap();
    assert_eq!(store.flushed(), 0);
    store.mark_flushed();
    let before = store.log().len();
    assert_eq!(store.flushed(), before);
    store.set(s("b"), s("2")).unwrap();
    assert_eq!(store.flushed(), before);
    assert!(store.log().len() > before);
}

#[test]
fn offset_len_is_end_minus_start() {
    let offset = new_offset(3, 10);
    assert_eq!(offset.len(), 7);
    assert_eq!(offset.start, 3);
    assert_eq!(offset.end, 10);
    assert_eq!(new_offset(5, 5).len(), 0);
}

#[test]
fn len_counts_the_live_keys() {
    let mut store = KvStore::open(Vec::new()).unwrap();
    assert_eq!(store.len(), 0);
    store.set(s("a"), s("1")).unwrap();
    store.set(s("b"), s("2")).unwrap();
    store.set(s("a"), s("3")).unwrap();
    assert_eq!(store.len(), 2);
    store.remove(s("a")).unwrap();
    assert_eq!(store.len(), 1);
    store.compact();
    assert_eq!(store.len(), 1);
}

#[test]
fn an_empty_log_and_a_log_of_white_space_open_empty() {
    let store = KvStore::open(Vec::new()).unwrap();
    assert_eq!(store.len(), 0);
    assert_eq!(store.redundant_size(), 0);
    let store = KvStore::open(b" \n\t\r".to_vec()).unwrap();
    assert_eq!(store.len(), 0);
    assert_eq!(store.log().len(), 4);
    assert!(!store.needs_compaction());
}

#[test]
fn keys_do_not_interfere() {
    let mut both = KvStore::open(Vec::new()).unwrap();
    let mut only_a = KvStore::open(Vec::new()).unwrap();
    let mut only_b = KvStore::open(Vec::new()).unwrap();
    both.set(s("a"), s("1")).unwrap();
    only_a.set(s("a"), s("1")).unwrap();
    both.set(s("b"), s("x")).unwrap();
    only_b.set(s("b"), s("x")).unwrap();
    both.remove(s("a")).unwrap();
    only_a.remove(s("a")).unwrap();
    both.set(s("b"), s("y")).unwrap();
    only_b.set(s("b"), s("y")).unwrap();
    both.set(s("a"), s("2")).unwrap();
    only_a.set(s("a"), s("2")).unwrap();
    assert_eq!(both.get(s("a")).unwrap(), only_a.get(s("a")).unwrap());
    assert_eq!(both.get(s("b")).unwrap(), only_b.get(s("b")).unwrap());
    assert_eq!(both.get(s("a")).unwrap(), Some(s("2")));
    assert_eq!(both.get(s("b")).unwrap(), Some(s("y")));
}

#[test]
fn reopening_after_compaction_yields_the_same_bindings() {
    let mut store = KvStore::open(Vec::new()).unwrap();
    for round in 0..20 {
        store.set(format!("key{}", round % 5), format!("value{}", round)).unwrap();
    }
    store.remove(s("key0")).unwrap();
    store.compact();
    let again = KvStore::open(store.log().clone()).unwrap();
    assert_eq!(again.len(), 4);
    assert_eq!(again.redundant_size(), 0);
    assert_eq!(again.get(s("key0")).unwrap(), None);
    for k in 1..5 {
        assert_eq!(
            again.get(format!("key{}", k)).unwrap(),
            Some(format!("value{}", 15 + k))
        );
    }
}

#[test]
fn compaction_runs_when_the_limit_is_exceeded_and_not_before() {
    let mut store = KvStore::open(Vec::new()).unwrap();
    let first = "x".repeat(REDUNDANT_SIZE_LIMIT - 30);
    store.set(s("k"), first).unwrap();
    assert_eq!(store.log().len(), REDUNDANT_SIZE_LIMIT);
    store.mark_flushed();
    store.set(s("k"), s("y")).unwrap();
    assert_eq!(store.redundant_size(), REDUNDANT_SIZE_LIMIT);
    assert!(!store.needs_compaction());
    assert_eq!(store.flushed(), REDUNDANT_SIZE_LIMIT);
    assert_eq!(store.log().len(), REDUNDANT_SIZE_LIMIT + 31);
    store.set(s("k"), s("z")).unwrap();
    assert_eq!(store.redundant_size(), 0);
    assert_eq!(store.flushed(), 0);
    assert_eq!(store.log().len(), 31);
    assert_eq!(store.get(s("k")).unwrap(), Some(s("z")));
}
