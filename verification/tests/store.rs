use datastore::{
    Filter, FilterOp, FilterTy, FlushError, FlushPlan, JsonFileDatastore, OpenErrorKind, Order,
    Query,
};
use std::io::{Read, Seek, SeekFrom, Write};
use std::path::{Path, PathBuf};
use tempfile::NamedTempFile;

/// Reads what the temporary file holds.
fn read_all(file: &mut NamedTempFile) -> Vec<u8> {
    let mut bytes = Vec::new();
    file.seek(SeekFrom::Start(0)).unwrap();
    file.read_to_end(&mut bytes).unwrap();
    bytes
}

/// Carries a flush out: a temporary file in the plan's directory takes the place of
/// `destination`. Returns what `destination` holds afterwards.
fn write_plan(plan: &FlushPlan, destination: &Path) -> Vec<u8> {
    let mut temporary = NamedTempFile::new_in(&plan.directory).unwrap();
    temporary.write_all(&plan.bytes).unwrap();
    temporary.as_file().sync_data().unwrap();
    let mut written = temporary.persist(destination).unwrap();
    let mut bytes = Vec::new();
    written.seek(SeekFrom::Start(0)).unwrap();
    written.read_to_end(&mut bytes).unwrap();
    bytes
}

fn open_text(text: &[u8]) -> Result<JsonFileDatastore, datastore::OpenError> {
    JsonFileDatastore::new(PathBuf::from("/tmp/store.json"), Some(text))
}

#[test]
fn open_and_flush() {
    let mut temp_file = NamedTempFile::new().unwrap();
    let contents = read_all(&mut temp_file);
    let datastore =
        JsonFileDatastore::new(temp_file.path().to_path_buf(), Some(&contents)).unwrap();
    let plan = datastore.flush().unwrap();
    write_plan(&plan, temp_file.path());
}

#[test]
fn values_store_and_reload() {
    let mut temp_file = NamedTempFile::new().unwrap();
    let contents = read_all(&mut temp_file);

    let mut datastore =
        JsonFileDatastore::new(temp_file.path().to_path_buf(), Some(&contents)).unwrap();
    datastore.put("foo".into(), vec![1, 2, 3]);
    datastore.put("bar".into(), vec![0, 255, 127]);
    let plan = datastore.flush().unwrap();
    let written = write_plan(&plan, temp_file.path());
    drop(datastore);

    let reload = JsonFileDatastore::new(temp_file.path().to_path_buf(), Some(&written)).unwrap();
    assert_eq!(reload.get("bar").unwrap(), &[0, 255, 127]);
    assert_eq!(reload.get("foo").unwrap(), &[1, 2, 3]);
}

#[test]
fn query_basic() {
    let mut temp_file = NamedTempFile::new().unwrap();
    let contents = read_all(&mut temp_file);

    let mut datastore =
        JsonFileDatastore::new(temp_file.path().to_path_buf(), Some(&contents)).unwrap();
    datastore.put("foo1".into(), vec![6, 7, 8]);
    datastore.put("foo2".into(), vec![6, 7, 8]);
    datastore.put("foo3".into(), vec![7, 8, 9]);
    datastore.put("foo4".into(), vec![10, 11, 12]);
    datastore.put("foo5".into(), vec![13, 14, 15]);
    datastore.put("bar1".into(), vec![0, 255, 127]);
    let plan = datastore.flush().unwrap();
    write_plan(&plan, temp_file.path());

    let query = datastore.query(&Query {
        prefix: "fo".into(),
        filters: vec![Filter {
            ty: FilterTy::ValueCompare(vec![6, 7, 8]),
            operation: FilterOp::NotEqual,
        }],
        orders: vec![Order::ByKeyDesc],
        skip: 1,
        limit: u64::max_value(),
        keys_only: false,
    });

    assert_eq!(query.len(), 2);
    assert_eq!(query[0].0, "foo4");
    assert_eq!(query[0].1, &[10, 11, 12]);
    assert_eq!(query[1].0, "foo3");
    assert_eq!(query[1].1, &[7, 8, 9]);
}

#[test]
fn missing_file_gives_empty_store() {
    let mut store = JsonFileDatastore::new(PathBuf::from("/nowhere/store.json"), None).unwrap();
    assert!(!store.has("a"));
    assert_eq!(store.get("a"), None);
    assert_eq!(store.path(), &PathBuf::from("/nowhere/store.json"));
    store.put("a".into(), vec![1]);
    assert_eq!(store.get("a"), Some(vec![1]));
}

#[test]
fn empty_file_gives_empty_store() {
    let mut store = open_text(b"").unwrap();
    assert!(!store.has("a"));
    assert!(store.query(&everything()).is_empty());
    store.put("a".into(), vec![]);
    assert!(store.has("a"));
}

#[test]
fn null_gives_empty_store() {
    let mut store = open_text(b"null").unwrap();
    assert!(store.query(&everything()).is_empty());
    store.put("k".into(), vec![9]);
    assert_eq!(store.get("k"), Some(vec![9]));
    let spaced = open_text(b"  null\n").unwrap();
    assert!(spaced.query(&everything()).is_empty());
}

#[test]
fn empty_object_gives_empty_store() {
    let store = open_text(b"{}").unwrap();
    assert!(store.query(&everything()).is_empty());
}

#[test]
fn object_members_become_entries() {
    let store = open_text(b"{\"b\":[1,2],\"a\":[],\"c\":[255]}").unwrap();
    assert_eq!(store.get("a"), Some(vec![]));
    assert_eq!(store.get("b"), Some(vec![1, 2]));
    assert_eq!(store.get("c"), Some(vec![255]));
    assert_eq!(store.get("d"), None);
    assert_eq!(store.query(&everything()).len(), 3);
}

#[test]
fn repeated_member_keeps_the_last_value() {
    let store = open_text(b"{\"a\":[1],\"a\":[2]}").unwrap();
    assert_eq!(store.get("a"), Some(vec![2]));
    assert_eq!(store.query(&everything()).len(), 1);
}

#[test]
fn array_is_refused() {
    let error = open_text(b"[1,2,3]").unwrap_err();
    assert_eq!(error.kind(), OpenErrorKind::NotAnObject);
}

#[test]
fn string_is_refused() {
    let error = open_text(b"\"text\"").unwrap_err();
    assert_eq!(error.kind(), OpenErrorKind::NotAnObject);
}

#[test]
fn number_and_boolean_are_refused() {
    assert_eq!(open_text(b"12").unwrap_err().kind(), OpenErrorKind::NotAnObject);
    assert_eq!(open_text(b"true").unwrap_err().kind(), OpenErrorKind::NotAnObject);
}

#[test]
fn one_bad_value_refuses_the_whole_file() {
    let error = open_text(b"{\"a\":[1,2],\"b\":\"no bytes\",\"c\":[3]}").unwrap_err();
    assert_eq!(error.kind(), OpenErrorKind::Value);
    let error = open_text(b"{\"a\":[1,256]}").unwrap_err();
    assert_eq!(error.kind(), OpenErrorKind::Value);
    let error = open_text(b"{\"a\":null}").unwrap_err();
    assert_eq!(error.kind(), OpenErrorKind::Value);
}

#[test]
fn text_that_is_not_json_is_refused() {
    assert_eq!(open_text(b"{\"a\":").unwrap_err().kind(), OpenErrorKind::Syntax);
    assert_eq!(open_text(b"not json").unwrap_err().kind(), OpenErrorKind::Syntax);
    assert_eq!(open_text(b" ").unwrap_err().kind(), OpenErrorKind::Syntax);
    assert_eq!(open_text(b"{} {}").unwrap_err().kind(), OpenErrorKind::Syntax);
}

#[test]
fn put_overwrites() {
    let mut store = open_text(b"").unwrap();
    store.put("a".into(), vec![1]);
    store.put("b".into(), vec![2]);
    store.put("a".into(), vec![3]);
    assert_eq!(store.get("a"), Some(vec![3]));
    assert_eq!(store.get("b"), Some(vec![2]));
    let all = store.query(&everything());
    assert_eq!(all, vec![("a".to_string(), vec![3]), ("b".to_string(), vec![2])]);
}

#[test]
fn put_all_then_get_each() {
    let pairs: Vec<(String, Vec<u8>)> = vec![
        ("".into(), vec![0]),
        ("a".into(), vec![]),
        ("ab".into(), vec![1, 2, 3]),
        ("\u{e9}t\u{e9}".into(), vec![255]),
        ("b".into(), vec![7; 40]),
    ];
    let mut store = open_text(b"").unwrap();
    for (key, value) in &pairs {
        store.put(key.clone(), value.clone());
    }
    for (key, value) in &pairs {
        assert!(store.has(key));
        assert_eq!(store.get(key).as_ref(), Some(value));
    }
}

#[test]
fn get_returns_a_copy() {
    let mut store = open_text(b"{\"a\":[1]}").unwrap();
    let mut copy = store.get("a").unwrap();
    copy.push(2);
    assert_eq!(store.get("a"), Some(vec![1]));
    store.put("a".into(), vec![5]);
    assert_eq!(copy, vec![1, 2]);
}

#[test]
fn delete_absent_key_changes_nothing() {
    let mut store = open_text(b"{\"a\":[1],\"b\":[2]}").unwrap();
    let before = store.query(&everything());
    assert!(!store.delete("c"));
    assert_eq!(store.query(&everything()), before);
    assert_eq!(store.get("a"), Some(vec![1]));
    assert_eq!(store.get("b"), Some(vec![2]));
}

#[test]
fn delete_present_key_removes_it() {
    let mut store = open_text(b"{\"a\":[1],\"b\":[2],\"c\":[3]}").unwrap();
    assert!(store.delete("b"));
    assert!(!store.has("b"));
    assert_eq!(store.get("b"), None);
    assert_eq!(store.get("a"), Some(vec![1]));
    assert_eq!(store.get("c"), Some(vec![3]));
    assert!(!store.delete("b"));
    assert_eq!(store.query(&everything()).len(), 2);
}

#[test]
fn flush_writes_one_object_with_sorted_keys() {
    let mut store = open_text(b"").unwrap();
    store.put("foo".into(), vec![1, 2, 3]);
    store.put("bar".into(), vec![0, 255, 127]);
    let plan = store.flush().unwrap();
    assert_eq!(plan.bytes, b"{\"bar\":[0,255,127],\"foo\":[1,2,3]}".to_vec());
    assert_eq!(plan.directory, PathBuf::from("/tmp"));
}

#[test]
fn flush_of_empty_store_writes_empty_object() {
    let store = open_text(b"").unwrap();
    assert_eq!(store.flush().unwrap().bytes, b"{}".to_vec());
    let store = open_text(b"null").unwrap();
    assert_eq!(store.flush().unwrap().bytes, b"{}".to_vec());
}

#[test]
fn flush_leaves_the_store_as_it_is() {
    let mut store = open_text(b"{\"a\":[1]}").unwrap();
    store.put("b".into(), vec![2]);
    let before = store.query(&everything());
    let first = store.flush().unwrap();
    let second = store.flush().unwrap();
    assert_eq!(first.bytes, second.bytes);
    assert_eq!(store.query(&everything()), before);
}

#[test]
fn flush_without_parent_directory_fails() {
    let store = JsonFileDatastore::new(PathBuf::from("/"), None).unwrap();
    assert!(matches!(store.flush(), Err(FlushError::NoParent)));
    let store = JsonFileDatastore::new(PathBuf::from(""), None).unwrap();
    assert!(matches!(store.flush(), Err(FlushError::NoParent)));
}

#[test]
fn flush_into_uses_the_given_directory() {
    let mut store = JsonFileDatastore::new(PathBuf::from("/"), None).unwrap();
    store.put("k".into(), vec![1]);
    assert!(matches!(store.flush_into(None), Err(FlushError::NoParent)));
    let plan = store.flush_into(Some(PathBuf::from("/somewhere"))).unwrap();
    assert_eq!(plan.directory, PathBuf::from("/somewhere"));
    assert_eq!(plan.bytes, b"{\"k\":[1]}".to_vec());
}

#[test]
fn flush_names_the_directory_of_the_path() {
    let store = JsonFileDatastore::new(PathBuf::from("/a/b/store.json"), None).unwrap();
    assert_eq!(store.flush().unwrap().directory, PathBuf::from("/a/b"));
    let store = JsonFileDatastore::new(PathBuf::from("store.json"), None).unwrap();
    assert_eq!(store.flush().unwrap().directory, PathBuf::from(""));
}

#[test]
fn failed_write_leaves_the_file_untouched() {
    let mut temp_file = NamedTempFile::new().unwrap();
    temp_file.write_all(b"{\"old\":[1]}").unwrap();
    let contents = read_all(&mut temp_file);
    let mut store =
        JsonFileDatastore::new(temp_file.path().to_path_buf(), Some(&contents)).unwrap();
    store.put("new".into(), vec![2]);
    let plan = store.flush().unwrap();
    let missing = plan.directory.join("no-such-directory-for-this-store");
    assert!(NamedTempFile::new_in(&missing).is_err());
    assert_eq!(read_all(&mut temp_file), b"{\"old\":[1]}".to_vec());
    assert_eq!(store.get("new"), Some(vec![2]));
}

#[test]
fn round_trip_through_a_file() {
    let mut temp_file = NamedTempFile::new().unwrap();
    let pairs: Vec<(String, Vec<u8>)> = vec![
        ("zeta".into(), vec![]),
        ("alpha".into(), vec![0, 1, 2, 253, 254, 255]),
        ("with \"quotes\" and \\ and \n".into(), vec![34, 92]),
        ("\u{1F600} \u{4e2d}".into(), vec![1]),
        ("".into(), vec![42]),
    ];
    let contents = read_all(&mut temp_file);
    let mut store =
        JsonFileDatastore::new(temp_file.path().to_path_buf(), Some(&contents)).unwrap();
    for (key, value) in &pairs {
        store.put(key.clone(), value.clone());
    }
    let plan = store.flush().unwrap();
    let written = write_plan(&plan, temp_file.path());
    assert_eq!(written, plan.bytes);
    let reload = JsonFileDatastore::new(temp_file.path().to_path_buf(), Some(&written)).unwrap();
    for (key, value) in &pairs {
        assert_eq!(reload.get(key).as_ref(), Some(value));
    }
    assert_eq!(reload.query(&everything()).len(), pairs.len());
    assert_eq!(reload.flush().unwrap().bytes, written);
}

fn everything() -> Query {
    Query {
        prefix: String::new(),
        filters: vec![],
        orders: vec![],
        skip: 0,
        limit: u64::MAX,
        keys_only: false,
    }
}
