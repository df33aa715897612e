//! The store: a mapping from keys to byte strings that is kept in memory, read from
//! the text of one JSON object and written back as one.

use crate::codec::{
    decode_text, encode_entries, loaded, map_text, refused, text_entries, OpenError,
};
use crate::entries::{
    entries_view, entry_map, lemma_no_entries, lemma_put_entry, lemma_remove_entry, put_entry,
    put_into, remove_entry, remove_from, unique_keys, value_of, Entry,
};
use crate::query::{copy_bytes, evaluate, naive_apply_query, Query};
use std::path::PathBuf;
use vstd::prelude::*;

verus! {

#[verifier::external_type_specification]
#[verifier::external_body]
pub struct ExPathBuf(std::path::PathBuf);

/// A store whose whole content is the text of one JSON file.
///
/// The store itself touches no file. It is made from what was read at its path, and
/// [`JsonFileDatastore::flush`] hands out what is to be written there.
#[derive(Debug)]
pub struct JsonFileDatastore {
    path: PathBuf,
    content: Vec<(String, Vec<u8>)>,
}

/// What a flush has to write, and where.
#[derive(Debug)]
pub struct FlushPlan {
    /// The directory of the store's file. The text is first written to a temporary
    /// file in it, which then takes the place of the store's file.
    pub directory: PathBuf,
    /// The text of the store's file.
    pub bytes: Vec<u8>,
}

/// Why a flush cannot be made.
#[derive(Debug)]
pub enum FlushError {
    /// The path of the store has no parent directory.
    NoParent,
    /// `serde_json` could not write the object that holds the content.
    Encode(serde_json::Error),
}

/// What `Path::parent` gives for a path: the path without its last component, and
/// `None` where the path ends in a root or is empty.
pub uninterp spec fn path_parent(path: PathBuf) -> Option<PathBuf>;

/// Finds the directory of a path with `Path::parent`. Trusted: the result is
/// `path_parent` of the path. The method only reads the components of the path and
/// asks nothing of the file system, so its result depends on the path alone.
#[verifier::external_body]
pub(crate) fn parent_of(path: &PathBuf) -> (r: Option<PathBuf>)
    ensures
        r == path_parent(*path),
{
    match path.parent() {
        Some(parent) => Some(parent.to_path_buf()),
        None => None,
    }
}

impl View for JsonFileDatastore {
    type V = Map<Seq<char>, Seq<u8>>;

    /// The mapping that the store holds.
    open spec fn view(&self) -> Map<Seq<char>, Seq<u8>> {
        entry_map(self.entries())
    }
}

impl JsonFileDatastore {
    /// The entries of the store, in the order in which a query without sort criteria
    /// returns them.
    pub closed spec fn entries(&self) -> Seq<Entry> {
        entries_view(self.content@)
    }

    /// The path that the store was opened at.
    pub closed spec fn location(&self) -> PathBuf {
        self.path
    }

    /// The store holds no more entries than a vector can.
    pub proof fn lemma_entries_fit(&self)
        ensures
            self.entries().len() <= usize::MAX,
    {
        assert(self.content@.len() == self.content.len());
    }

    /// The invariant of the store: no two entries have the same key.
    pub open spec fn wf(&self) -> bool {
        unique_keys(self.entries())
    }

    /// Opens the store at `path`, where `contents` is what the file at that path holds,
    /// and `None` where there is no such file.
    ///
    /// Without a file the store is empty, and so it is for an empty file and for the
    /// text `null`. A JSON object gives an entry for each member. Every other text is
    /// refused, and so is an object with a member that does not hold a byte string:
    /// no part of such a file is loaded.
    pub fn new(path: PathBuf, contents: Option<&[u8]>) -> (r: Result<JsonFileDatastore, OpenError>)
        ensures
            match r {
                Ok(store) => {
                    &&& store.wf()
                    &&& store.location() == path
                    &&& match contents {
                        None => store.entries() == Seq::<Entry>::empty() && store@
                            =~= Map::empty(),
                        Some(text) => text_entries(text@) == loaded(store.entries()),
                    }
                },
                Err(e) => match contents {
                    None => false,
                    Some(text) => text_entries(text@) == refused(e.kind()),
                },
            },
    {
        match contents {
            None => {
                let content: Vec<(String, Vec<u8>)> = Vec::new();
                proof {
                    assert(entries_view(content@) =~= Seq::empty());
                    lemma_no_entries();
                }
                Ok(JsonFileDatastore { path, content })
            },
            Some(text) => match decode_text(text) {
                Ok(content) => Ok(JsonFileDatastore { path, content }),
                Err(e) => Err(e),
            },
        }
    }

    /// The path that the store was opened at.
    pub fn path(&self) -> (r: &PathBuf)
        ensures
            *r == self.location(),
    {
        &self.path
    }

    /// Stores `value` under `key`, in place of the value that the key had if it had one.
    pub fn put(&mut self, key: String, value: Vec<u8>)
        requires
            old(self).wf(),
        ensures
            final(self).wf(),
            final(self)@ == old(self)@.insert(key@, value@),
            final(self).entries() == put_entry(old(self).entries(), key@, value@),
            final(self).location() == old(self).location(),
    {
        proof {
            lemma_put_entry(self.entries(), key@, value@);
        }
        put_into(&mut self.content, key, value);
    }

    /// A copy of the value stored under `key`, where there is one.
    pub fn get(&self, key: &str) -> (r: Option<Vec<u8>>)
        requires
            self.wf(),
        ensures
            match r {
                Some(value) => self@.contains_key(key@) && value@ == self@[key@],
                None => !self@.contains_key(key@),
            },
    {
        match value_of(&self.content, key) {
            Some(value) => Some(copy_bytes(value)),
            None => None,
        }
    }

    /// Whether a value is stored under `key`.
    pub fn has(&self, key: &str) -> (r: bool)
        requires
            self.wf(),
        ensures
            r == self@.contains_key(key@),
    {
        value_of(&self.content, key).is_some()
    }

    /// Removes the entry of `key`, and tells whether there was one.
    pub fn delete(&mut self, key: &str) -> (r: bool)
        requires
            old(self).wf(),
        ensures
            final(self).wf(),
            r == old(self)@.contains_key(key@),
            final(self)@ == old(self)@.remove(key@),
            final(self).entries() == remove_entry(old(self).entries(), key@),
            final(self).location() == old(self).location(),
    {
        proof {
            lemma_remove_entry(self.entries(), key@);
        }
        remove_from(&mut self.content, key).is_some()
    }

    /// Answers a query over the entries that the store holds at this moment. The
    /// answer is a copy: it does not change with the store.
    pub fn query(&self, query: &Query) -> (r: Vec<(String, Vec<u8>)>)
        ensures
            entries_view(r@) == evaluate(self.entries(), query@),
    {
        naive_apply_query(&self.content, query)
    }

    /// Prepares a flush into the directory `parent` of the store's path, `None` where
    /// the path has none: gives the text of a JSON object that holds the whole content.
    pub fn flush_into(&self, parent: Option<PathBuf>) -> (r: Result<FlushPlan, FlushError>)
        requires
            self.wf(),
        ensures
            match r {
                Ok(plan) => parent == Some(plan.directory) && map_text(self@) == Some(
                    plan.bytes@,
                ),
                Err(FlushError::NoParent) => parent.is_none(),
                Err(FlushError::Encode(_)) => parent.is_some() && map_text(self@).is_none(),
            },
    {
        match parent {
            None => Err(FlushError::NoParent),
            Some(directory) => match encode_entries(&self.content) {
                Ok(bytes) => Ok(FlushPlan { directory, bytes }),
                Err(e) => Err(FlushError::Encode(e)),
            },
        }
    }

    /// Prepares a flush: names the directory of the store's path, in which the
    /// temporary file is to be made, and gives the text of a JSON object that holds
    /// the whole content. It fails where the path has no parent directory. The store
    /// is left as it is; the caller writes the text and puts it in place of the file.
    pub fn flush(&self) -> (r: Result<FlushPlan, FlushError>)
        requires
            self.wf(),
        ensures
            match r {
                Ok(plan) => path_parent(self.location()) == Some(plan.directory) && map_text(
                    self@,
                ) == Some(plan.bytes@),
                Err(FlushError::NoParent) => path_parent(self.location()).is_none(),
                Err(FlushError::Encode(_)) => path_parent(self.location()).is_some()
                    && map_text(self@).is_none(),
            },
    {
        self.flush_into(parent_of(&self.path))
    }
}

} // verus!
