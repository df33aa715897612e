//! The JSON side of the store: what `serde_json` reads and writes for it.

use crate::entries::{
    entries_view, entry_map, has_key, lemma_put_entry, lemma_take_first, position, put_entry,
    put_into, unique_keys, Entry,
};
use vstd::prelude::*;

verus! {

#[verifier::external_type_specification]
#[verifier::external_body]
pub struct ExJsonValue(serde_json::Value);

#[verifier::external_type_specification]
#[verifier::external_body]
pub struct ExJsonError(serde_json::Error);

#[verifier::external_type_specification]
#[verifier::external_body]
#[verifier::reject_recursive_types(K)]
#[verifier::reject_recursive_types(V)]
pub struct ExJsonMap<K, V>(serde_json::Map<K, V>);

/// The top level of a parsed JSON text, as far as the store tells shapes apart.
pub enum Document {
    /// The literal `null`.
    Null,
    /// An object, with its members in the order in which `serde_json` hands them out.
    Object(Vec<(String, serde_json::Value)>),
    /// A boolean, a number, a string or an array.
    Other,
}

/// The mathematical value of a [`Document`].
pub enum DocumentView {
    Null,
    Object(Seq<(Seq<char>, serde_json::Value)>),
    Other,
}

/// The members of a parsed object, each key by its characters.
pub open spec fn members_view(members: Seq<(String, serde_json::Value)>) -> Seq<
    (Seq<char>, serde_json::Value),
> {
    Seq::new(members.len(), |i: int| (members[i].0@, members[i].1))
}

impl View for Document {
    type V = DocumentView;

    open spec fn view(&self) -> DocumentView {
        match self {
            Document::Null => DocumentView::Null,
            Document::Object(members) => DocumentView::Object(members_view(members@)),
            Document::Other => DocumentView::Other,
        }
    }
}

/// What `serde_json::from_slice` makes of a text: `None` where it reports an error.
pub uninterp spec fn json_document(text: Seq<u8>) -> Option<DocumentView>;

/// What `serde_json::from_value` makes of a JSON value read as a byte string:
/// `None` where it reports an error.
pub uninterp spec fn json_value_bytes(value: serde_json::Value) -> Option<Seq<u8>>;

/// Parses `text` with `serde_json::from_slice` and tells the variants of the value
/// apart; the members of an object are moved out in the order of its iterator.
/// Trusted: the result is `json_document` of the text, which names what the parser
/// returns and claims only that it depends on the text alone.
#[verifier::external_body]
pub(crate) fn parse_document(text: &[u8]) -> (r: Result<Document, serde_json::Error>)
    ensures
        match r {
            Ok(d) => json_document(text@) == Some(d@),
            Err(_) => json_document(text@).is_none(),
        },
{
    match serde_json::from_slice::<serde_json::Value>(text) {
        Ok(serde_json::Value::Null) => Ok(Document::Null),
        Ok(serde_json::Value::Object(m)) => Ok(Document::Object(m.into_iter().collect())),
        Ok(serde_json::Value::Bool(_)) => Ok(Document::Other),
        Ok(serde_json::Value::Number(_)) => Ok(Document::Other),
        Ok(serde_json::Value::String(_)) => Ok(Document::Other),
        Ok(serde_json::Value::Array(_)) => Ok(Document::Other),
        Err(e) => Err(e),
    }
}

/// Reads a JSON value as a byte string with `serde_json::from_value`. Trusted: the
/// result is `json_value_bytes` of the value.
#[verifier::external_body]
pub(crate) fn decode_value(value: serde_json::Value) -> (r: Result<Vec<u8>, serde_json::Error>)
    ensures
        match r {
            Ok(bytes) => json_value_bytes(value) == Some(bytes@),
            Err(_) => json_value_bytes(value).is_none(),
        },
{
    serde_json::from_value::<Vec<u8>>(value)
}

/// The JSON value that `serde_json::to_value` makes of a byte string.
pub uninterp spec fn json_bytes_value(bytes: Seq<u8>) -> serde_json::Value;

/// The members that a `serde_json::Map` holds, each key by its characters.
pub uninterp spec fn json_object_members(object: serde_json::Map<String, serde_json::Value>) -> Map<
    Seq<char>,
    serde_json::Value,
>;

/// The text that `serde_json::to_vec` writes for an object with the given members:
/// `None` where it reports an error.
pub uninterp spec fn json_object_text(members: Map<Seq<char>, serde_json::Value>) -> Option<
    Seq<u8>,
>;

/// Turns a byte string into a JSON value with `serde_json::to_value`. Trusted: the
/// call succeeds, and its result is `json_bytes_value` of the bytes. It succeeds
/// because the serializer that builds a value accepts every sequence and every `u8`:
/// it reports an error only for numbers and keys that a byte string does not hold.
#[verifier::external_body]
pub(crate) fn encode_value(bytes: &Vec<u8>) -> (r: Result<serde_json::Value, serde_json::Error>)
    ensures
        match r {
            Ok(value) => value == json_bytes_value(bytes@),
            Err(_) => false,
        },
{
    serde_json::to_value(bytes)
}

/// Makes an object with `serde_json::Map::new`. Trusted: it has no members.
#[verifier::external_body]
pub(crate) fn new_object() -> (r: serde_json::Map<String, serde_json::Value>)
    ensures
        json_object_members(r) =~= Map::empty(),
{
    serde_json::Map::new()
}

/// Stores a member with `serde_json::Map::insert`. Trusted: afterwards the object holds
/// `value` under `key` and is otherwise as before; the value that the key had is
/// returned.
#[verifier::external_body]
pub(crate) fn object_insert(
    object: &mut serde_json::Map<String, serde_json::Value>,
    key: String,
    value: serde_json::Value,
) -> (r: Option<serde_json::Value>)
    ensures
        json_object_members(*final(object)) == json_object_members(*old(object)).insert(
            key@,
            value,
        ),
        r == if json_object_members(*old(object)).contains_key(key@) {
            Some(json_object_members(*old(object))[key@])
        } else {
            None
        },
{
    object.insert(key, value)
}

/// Writes an object as JSON text with `serde_json::to_vec`. Trusted: the result is
/// `json_object_text` of the object's members. This holds while `serde_json` is built
/// without its feature `preserve_order`, as it is here: the object then keeps its
/// members sorted by key, so what is written depends on the members alone and not on
/// the order in which they were stored.
#[verifier::external_body]
pub(crate) fn encode_object(object: &serde_json::Map<String, serde_json::Value>) -> (r: Result<
    Vec<u8>,
    serde_json::Error,
>)
    ensures
        match r {
            Ok(text) => json_object_text(json_object_members(*object)) == Some(text@),
            Err(_) => json_object_text(json_object_members(*object)).is_none(),
        },
{
    serde_json::to_vec(object)
}

/// Why a text is not the image of a store.
#[derive(Clone, Copy, Debug, PartialEq, Eq, Structural)]
pub enum OpenErrorKind {
    /// The text is not JSON.
    Syntax,
    /// The text is JSON, but neither `null` nor an object.
    NotAnObject,
    /// A member of the object does not hold a byte string.
    Value,
}

/// The error of opening a store, with what `serde_json` reported where it was the one
/// to refuse.
#[derive(Debug)]
pub enum OpenError {
    /// The text is not JSON.
    Syntax(serde_json::Error),
    /// The text is JSON, but neither `null` nor an object.
    NotAnObject,
    /// A member of the object does not hold a byte string.
    Value(serde_json::Error),
}

impl OpenError {
    /// The kind of the error, without what `serde_json` reported.
    pub open spec fn spec_kind(&self) -> OpenErrorKind {
        match self {
            OpenError::Syntax(_) => OpenErrorKind::Syntax,
            OpenError::NotAnObject => OpenErrorKind::NotAnObject,
            OpenError::Value(_) => OpenErrorKind::Value,
        }
    }

    /// The kind of the error, without what `serde_json` reported.
    #[verifier::when_used_as_spec(spec_kind)]
    pub fn kind(&self) -> (r: OpenErrorKind)
        ensures
            r == self.spec_kind(),
    {
        match self {
            OpenError::Syntax(_) => OpenErrorKind::Syntax,
            OpenError::NotAnObject => OpenErrorKind::NotAnObject,
            OpenError::Value(_) => OpenErrorKind::Value,
        }
    }
}

/// The entries that the members of an object give, each member stored in turn under
/// its key: `None` where a member does not hold a byte string.
pub open spec fn decoded_members(members: Seq<(Seq<char>, serde_json::Value)>) -> Option<
    Seq<Entry>,
>
    decreases members.len(),
{
    if members.len() == 0 {
        Some(Seq::empty())
    } else {
        match (decoded_members(members.drop_last()), json_value_bytes(members.last().1)) {
            (Some(entries), Some(bytes)) => Some(put_entry(entries, members.last().0, bytes)),
            _ => None,
        }
    }
}

/// The outcome of reading an image that holds the given entries.
pub open spec fn loaded(entries: Seq<Entry>) -> Result<Seq<Entry>, OpenErrorKind> {
    Ok(entries)
}

/// The outcome of reading an image that is refused for the given reason.
pub open spec fn refused(kind: OpenErrorKind) -> Result<Seq<Entry>, OpenErrorKind> {
    Err(kind)
}

/// What a parsed document gives: no entries for `null`, the decoded members for an
/// object, and an error for every other shape.
pub open spec fn document_entries(document: DocumentView) -> Result<Seq<Entry>, OpenErrorKind> {
    match document {
        DocumentView::Null => Ok(Seq::empty()),
        DocumentView::Other => Err(OpenErrorKind::NotAnObject),
        DocumentView::Object(members) => match decoded_members(members) {
            Some(entries) => Ok(entries),
            None => Err(OpenErrorKind::Value),
        },
    }
}

/// What a text gives as the image of a store: no entries where it is empty, else what
/// the document gives that it parses to.
pub open spec fn text_entries(text: Seq<u8>) -> Result<Seq<Entry>, OpenErrorKind> {
    if text.len() == 0 {
        Ok(Seq::empty())
    } else {
        match json_document(text) {
            None => Err(OpenErrorKind::Syntax),
            Some(document) => document_entries(document),
        }
    }
}

/// The members of the object that stands for a mapping.
pub open spec fn object_of(m: Map<Seq<char>, Seq<u8>>) -> Map<Seq<char>, serde_json::Value> {
    Map::new(|key: Seq<char>| m.contains_key(key), |key: Seq<char>| json_bytes_value(m[key]))
}

/// The JSON text of a mapping: `None` where the object cannot be written.
pub open spec fn map_text(m: Map<Seq<char>, Seq<u8>>) -> Option<Seq<u8>> {
    json_object_text(object_of(m))
}

/// Decodes the members of an object one by one and stores each under its key. One
/// member that does not hold a byte string fails the whole.
pub fn decode_members(members: Vec<(String, serde_json::Value)>) -> (r: Result<
    Vec<(String, Vec<u8>)>,
    serde_json::Error,
>)
    ensures
        match r {
            Ok(entries) => decoded_members(members_view(members@)) == Some(
                entries_view(entries@),
            ) && unique_keys(entries_view(entries@)),
            Err(_) => decoded_members(members_view(members@)).is_none(),
        },
{
    let ghost all = members_view(members@);
    let mut rest = members;
    let mut entries: Vec<(String, Vec<u8>)> = Vec::new();
    assert(all.subrange(0, 0) =~= Seq::empty());
    while rest.len() > 0
        invariant
            all == members_view(members@),
            rest.len() <= all.len(),
            members_view(rest@) == all.subrange(all.len() - rest.len(), all.len() as int),
            decoded_members(all.subrange(0, all.len() - rest.len())) == Some(
                entries_view(entries@),
            ),
            unique_keys(entries_view(entries@)),
        decreases rest.len(),
    {
        let ghost done = all.len() - rest.len();
        let ghost rest_before = members_view(rest@);
        let member = rest.remove(0);
        proof {
            assert(members_view(rest@) =~= rest_before.drop_first());
            lemma_take_first(all, rest_before, members_view(rest@));
        }
        match decode_value(member.1) {
            Ok(bytes) => {
                put_into(&mut entries, member.0, bytes);
            },
            Err(e) => {
                proof {
                    lemma_decoded_members_fail(all, done + 1);
                }
                return Err(e);
            },
        }
    }
    assert(all.subrange(0, all.len() as int) =~= all);
    Ok(entries)
}

/// Where the first `n` members cannot be decoded, the whole cannot.
proof fn lemma_decoded_members_fail(members: Seq<(Seq<char>, serde_json::Value)>, n: int)
    requires
        0 <= n <= members.len(),
        decoded_members(members.subrange(0, n)).is_none(),
    ensures
        decoded_members(members).is_none(),
    decreases members.len() - n,
{
    if n < members.len() {
        assert(members.subrange(0, n + 1).drop_last() =~= members.subrange(0, n));
        lemma_decoded_members_fail(members, n + 1);
    } else {
        assert(members.subrange(0, n) =~= members);
    }
}

/// Gives the entries of a parsed document: none for `null`, the decoded members of an
/// object, and an error for any other shape.
pub fn decode_document(document: Document) -> (r: Result<Vec<(String, Vec<u8>)>, OpenError>)
    ensures
        match r {
            Ok(entries) => document_entries(document@) == loaded(entries_view(entries@)) && unique_keys(entries_view(entries@)),
            Err(e) => document_entries(document@) == refused(e.kind()),
        },
{
    match document {
        Document::Null => {
            let entries: Vec<(String, Vec<u8>)> = Vec::new();
            assert(entries_view(entries@) =~= Seq::empty());
            Ok(entries)
        },
        Document::Other => Err(OpenError::NotAnObject),
        Document::Object(members) => match decode_members(members) {
            Ok(entries) => Ok(entries),
            Err(e) => Err(OpenError::Value(e)),
        },
    }
}

/// Reads the image of a store. An empty text and the text `null` give no entries; an
/// object gives its members; anything else is refused, and so is an object with one
/// member that does not hold a byte string.
pub fn decode_text(text: &[u8]) -> (r: Result<Vec<(String, Vec<u8>)>, OpenError>)
    ensures
        match r {
            Ok(entries) => text_entries(text@) == loaded(entries_view(entries@)) && unique_keys(entries_view(entries@)),
            Err(e) => text_entries(text@) == refused(e.kind()),
        },
{
    if text.len() == 0 {
        let entries: Vec<(String, Vec<u8>)> = Vec::new();
        assert(entries_view(entries@) =~= Seq::empty());
        return Ok(entries);
    }
    match parse_document(text) {
        Ok(document) => decode_document(document),
        Err(e) => Err(OpenError::Syntax(e)),
    }
}

/// Writes the entries as the text of one JSON object, a member for each entry.
pub fn encode_entries(entries: &Vec<(String, Vec<u8>)>) -> (r: Result<Vec<u8>, serde_json::Error>)
    requires
        unique_keys(entries_view(entries@)),
    ensures
        match r {
            Ok(text) => map_text(entry_map(entries_view(entries@))) == Some(text@),
            Err(_) => map_text(entry_map(entries_view(entries@))).is_none(),
        },
{
    let ghost all = entries_view(entries@);
    let mut object = new_object();
    let mut i: usize = 0;
    proof {
        assert(all.subrange(0, 0) =~= Seq::<Entry>::empty());
        assert(object_of(entry_map(all.subrange(0, 0))) =~= Map::empty());
    }
    while i < entries.len()
        invariant
            i <= entries.len(),
            all == entries_view(entries@),
            unique_keys(all),
            json_object_members(object) == object_of(entry_map(all.subrange(0, i as int))),
        decreases entries.len() - i,
    {
        let ghost before = all.subrange(0, i as int);
        let ghost after = all.subrange(0, i + 1);
        let ghost e = all[i as int];
        proof {
            assert(after =~= before.push(e));
            if has_key(before, e.0) {
                let p = position(before, e.0);
                assert(before[p].0 == e.0);
                assert(all[p].0 != all[i as int].0);
            }
            lemma_put_entry(before, e.0, e.1);
            assert(object_of(entry_map(after)) =~= object_of(entry_map(before)).insert(
                e.0,
                json_bytes_value(e.1),
            ));
        }
        match encode_value(&entries[i].1) {
            Ok(value) => {
                object_insert(&mut object, entries[i].0.clone(), value);
            },
            Err(e) => {
                return Err(e);
            },
        }
        i += 1;
    }
    assert(all.subrange(0, entries.len() as int) =~= all);
    encode_object(&object)
}

} // verus!
