//! The vault file: where the memory items are kept.
use vstd::prelude::*;

use crate::domain::{items_view, MemoryItem};

verus! {

/// JSON-on-disk store of all memory items.
pub struct JsonFileStore {
    path: String,
}

impl JsonFileStore {
    /// A store for the file at `path`.
    pub fn new(path: String) -> (store: JsonFileStore)
        ensures
            store.path()@ == path@,
    {
        JsonFileStore { path }
    }

    /// The file's path.
    pub closed spec fn path(&self) -> String {
        self.path
    }

    /// The file's path.
    pub fn file_path(&self) -> (p: &String)
        ensures
            p@ == self.path()@,
    {
        &self.path
    }

    /// The items to use, given what the file held: the stored ones, or none
    /// when there is no file yet.
    pub fn load(&self, stored: Option<Vec<MemoryItem>>) -> (items: Vec<MemoryItem>)
        ensures
            match stored {
                Some(v) => items_view(items@) == items_view(v@),
                None => items@.len() == 0,
            },
    {
        match stored {
            Some(v) => v,
            None => Vec::new(),
        }
    }
}

} // verus!
