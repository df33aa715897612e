use datastore::codec::{decode_document, decode_members, decode_text, encode_entries, Document};
use datastore::entries::{find_key, put_into, remove_from, same_text, value_of};
use datastore::query::{copy_bytes, copy_entry};
use datastore::OpenErrorKind;
use serde_json::Value;

fn bytes_value(bytes: &[u8]) -> Value {
    Value::Array(bytes.iter().map(|b| Value::from(*b)).collect())
}

fn entry(key: &str, value: &[u8]) -> (String, Vec<u8>) {
    (key.to_string(), value.to_vec())
}

#[test]
fn null_document_has_no_entries() {
    assert!(decode_document(Document::Null).unwrap().is_empty());
}

#[test]
fn other_document_is_refused() {
    let error = decode_document(Document::Other).unwrap_err();
    assert_eq!(error.kind(), OpenErrorKind::NotAnObject);
}

#[test]
fn object_document_gives_its_members() {
    let document = Document::Object(vec![
        ("b".to_string(), bytes_value(&[1, 2])),
        ("a".to_string(), bytes_value(&[])),
    ]);
    assert_eq!(decode_document(document).unwrap(), vec![entry("b", &[1, 2]), entry("a", &[])]);
}

#[test]
fn object_document_with_a_bad_member_is_refused() {
    let document = Document::Object(vec![
        ("a".to_string(), bytes_value(&[1])),
        ("b".to_string(), Value::from("text")),
    ]);
    assert_eq!(decode_document(document).unwrap_err().kind(), OpenErrorKind::Value);
    let document = Document::Object(vec![("a".to_string(), Value::from(300))]);
    assert_eq!(decode_document(document).unwrap_err().kind(), OpenErrorKind::Value);
}

#[test]
fn members_with_one_key_keep_the_last_value_in_the_first_place() {
    let members = vec![
        ("a".to_string(), bytes_value(&[1])),
        ("b".to_string(), bytes_value(&[2])),
        ("a".to_string(), bytes_value(&[3])),
    ];
    assert_eq!(decode_members(members).unwrap(), vec![entry("a", &[3]), entry("b", &[2])]);
    assert!(decode_members(vec![]).unwrap().is_empty());
    assert!(decode_members(vec![("a".to_string(), Value::Null)]).is_err());
}

#[test]
fn text_is_decoded_by_shape() {
    assert!(decode_text(b"").unwrap().is_empty());
    assert!(decode_text(b"null").unwrap().is_empty());
    assert!(decode_text(b"{}").unwrap().is_empty());
    assert_eq!(decode_text(b"{\"k\":[1,2,3]}").unwrap(), vec![entry("k", &[1, 2, 3])]);
    assert_eq!(decode_text(b"[]").unwrap_err().kind(), OpenErrorKind::NotAnObject);
    assert_eq!(decode_text(b"{\"k\":1}").unwrap_err().kind(), OpenErrorKind::Value);
    assert_eq!(decode_text(b"{").unwrap_err().kind(), OpenErrorKind::Syntax);
}

#[test]
fn members_come_out_sorted_by_key() {
    let entries = decode_text(b"{\"b\":[2],\"c\":[3],\"a\":[1]}").unwrap();
    assert_eq!(entries, vec![entry("a", &[1]), entry("b", &[2]), entry("c", &[3])]);
}

#[test]
fn entries_are_written_as_one_object() {
    assert_eq!(encode_entries(&vec![]).unwrap(), b"{}".to_vec());
    let entries = vec![entry("b", &[255]), entry("a", &[]), entry("c \"x\"", &[1, 2])];
    assert_eq!(
        encode_entries(&entries).unwrap(),
        b"{\"a\":[],\"b\":[255],\"c \\\"x\\\"\":[1,2]}".to_vec()
    );
}

#[test]
fn written_entries_read_back() {
    let entries = vec![entry("a", &[0, 128, 255]), entry("b", &[]), entry("", &[7])];
    let text = encode_entries(&entries).unwrap();
    let mut read = decode_text(&text).unwrap();
    read.sort();
    let mut expected = entries.clone();
    expected.sort();
    assert_eq!(read, expected);
}

#[test]
fn texts_are_equal_when_their_characters_are() {
    assert!(same_text("", ""));
    assert!(same_text("abc", "abc"));
    assert!(!same_text("abc", "abd"));
    assert!(!same_text("abc", "ab"));
    assert!(same_text("\u{e9}", "\u{e9}"));
    assert!(!same_text("\u{e9}", "e"));
}

#[test]
fn entry_vector_operations() {
    let mut entries: Vec<(String, Vec<u8>)> = Vec::new();
    assert_eq!(find_key(&entries, "a"), None);
    put_into(&mut entries, "a".into(), vec![1]);
    put_into(&mut entries, "b".into(), vec![2]);
    put_into(&mut entries, "c".into(), vec![3]);
    assert_eq!(find_key(&entries, "a"), Some(0));
    assert_eq!(find_key(&entries, "c"), Some(2));
    assert_eq!(find_key(&entries, "d"), None);
    put_into(&mut entries, "b".into(), vec![9]);
    assert_eq!(entries, vec![entry("a", &[1]), entry("b", &[9]), entry("c", &[3])]);
    assert_eq!(value_of(&entries, "b"), Some(&vec![9]));
    assert_eq!(value_of(&entries, "z"), None);
    assert_eq!(remove_from(&mut entries, "a"), Some(vec![1]));
    assert_eq!(remove_from(&mut entries, "a"), None);
    assert_eq!(entries, vec![entry("b", &[9]), entry("c", &[3])]);
}

#[test]
fn copies_are_equal_to_what_they_copy() {
    assert_eq!(copy_bytes(&vec![]), Vec::<u8>::new());
    assert_eq!(copy_bytes(&vec![1, 2, 3]), vec![1, 2, 3]);
    assert_eq!(copy_entry(&entry("k", &[4, 5])), entry("k", &[4, 5]));
}
