use kvs::selection::{select_engine, SelectionError, StorageEngine};

fn some(name: &str) -> Option<String> {
    Some(name.to_string())
}

#[test]
fn engines_have_their_names() {
    assert_eq!(StorageEngine::Kvs.to_str(), "kvs");
    assert_eq!(StorageEngine::Sled.to_str(), "sled");
}

#[test]
fn names_give_their_engines() {
    assert_eq!(StorageEngine::try_from_string("kvs"), Ok(StorageEngine::Kvs));
    assert_eq!(StorageEngine::try_from_string("sled"), Ok(StorageEngine::Sled));
    assert_eq!(StorageEngine::try_from_string("Kvs"), Err(SelectionError::InvalidName));
    assert_eq!(StorageEngine::try_from_string(""), Err(SelectionError::InvalidName));
    assert_eq!(StorageEngine::try_from_string("kvs\n"), Err(SelectionError::InvalidName));
}

#[test]
fn with_nothing_noted_the_request_decides() {
    assert_eq!(select_engine(None, None), Ok(StorageEngine::Kvs));
    assert_eq!(select_engine(some("sled"), None), Ok(StorageEngine::Sled));
    assert_eq!(select_engine(some("kvs"), None), Ok(StorageEngine::Kvs));
    assert_eq!(select_engine(some("rocks"), None), Err(SelectionError::InvalidName));
}

#[test]
fn a_noted_engine_is_kept() {
    assert_eq!(select_engine(None, some("sled")), Ok(StorageEngine::Sled));
    assert_eq!(select_engine(some("sled"), some("sled")), Ok(StorageEngine::Sled));
    assert_eq!(select_engine(some("kvs"), some("kvs")), Ok(StorageEngine::Kvs));
}

#[test]
fn another_engine_than_the_noted_one_is_refused() {
    assert_eq!(select_engine(some("kvs"), some("sled")), Err(SelectionError::Mismatch));
    assert_eq!(select_engine(some("sled"), some("kvs")), Err(SelectionError::Mismatch));
    assert_eq!(select_engine(some("rocks"), some("kvs")), Err(SelectionError::Mismatch));
    assert_eq!(select_engine(some("kvs"), some("rocks")), Err(SelectionError::InvalidName));
    assert_eq!(select_engine(None, some("rocks")), Err(SelectionError::InvalidName));
}
