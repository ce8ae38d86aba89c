use vstd::prelude::*;
use crate::util::spec_hash;

verus! {

/// What a resource is looked up by: its hash, or the bytes of its path.
pub enum Key {
    Hash(u32),
    Path(Seq<u8>),
}

/// What a table holds: sizes by hash, and sizes by path.
pub struct TableModel {
    pub hashes: Map<u32, u32>,
    pub names: Map<Seq<u8>, u32>,
}

impl TableModel {
    /// The table that holds nothing.
    pub open spec fn empty() -> TableModel {
        TableModel { hashes: Map::empty(), names: Map::empty() }
    }

    /// The hash under which `key` is looked up in the hash sub-table.
    pub open spec fn hash_of(key: Key) -> u32 {
        match key {
            Key::Hash(hash) => hash,
            Key::Path(path) => spec_hash(path),
        }
    }

    /// Whether `key` is answered from the name sub-table.
    pub open spec fn named(self, key: Key) -> bool {
        key matches Key::Path(path) && self.names.contains_key(path)
    }

    /// The size held for `key`: for a path the size by that path, or else
    /// the size by its hash; for a hash the size by that hash.
    pub open spec fn lookup(self, key: Key) -> Option<u32> {
        if self.named(key) {
            Some(self.names[key->Path_0])
        } else if self.hashes.contains_key(Self::hash_of(key)) {
            Some(self.hashes[Self::hash_of(key)])
        } else {
            None
        }
    }

    /// The table after `value` is set for `key`: a path that has a size by
    /// name keeps it by name; any other key gets it by hash.
    pub open spec fn set(self, key: Key, value: u32) -> TableModel {
        if self.named(key) {
            TableModel { names: self.names.insert(key->Path_0, value), ..self }
        } else {
            TableModel { hashes: self.hashes.insert(Self::hash_of(key), value), ..self }
        }
    }

    /// The table after the size of `key` is removed: the size by name
    /// where a path has one, the size by hash otherwise.
    pub open spec fn remove(self, key: Key) -> TableModel {
        if self.named(key) {
            TableModel { names: self.names.remove(key->Path_0), ..self }
        } else {
            TableModel { hashes: self.hashes.remove(Self::hash_of(key)), ..self }
        }
    }

    /// A path that has no size by name is answered by the size of its
    /// hash.
    pub proof fn lemma_lookup_falls_back(self, path: Seq<u8>, value: u32)
        requires
            !self.names.contains_key(path),
            self.hashes.contains_key(spec_hash(path)),
            self.hashes[spec_hash(path)] == value,
        ensures
            self.lookup(Key::Path(path)) == Some(value),
    {
    }

    /// A path that has a size by name is answered by it, whatever the
    /// hash sub-table holds.
    pub proof fn lemma_lookup_prefers_name(self, path: Seq<u8>)
        requires
            self.names.contains_key(path),
        ensures
            self.lookup(Key::Path(path)) == Some(self.names[path]),
    {
    }

    /// A path that has no size by name and whose hash has none has no
    /// answer.
    pub proof fn lemma_lookup_absent(self, path: Seq<u8>)
        requires
            !self.names.contains_key(path),
            !self.hashes.contains_key(spec_hash(path)),
        ensures
            self.lookup(Key::Path(path)) is None,
    {
    }

    /// What was set for a key is what is held for it.
    pub proof fn lemma_lookup_after_set(self, key: Key, value: u32)
        ensures
            self.set(key, value).lookup(key) == Some(value),
    {
    }

    /// What was removed for a hash is no longer held for it.
    pub proof fn lemma_lookup_after_remove(self, hash: u32)
        ensures
            self.remove(Key::Hash(hash)).lookup(Key::Hash(hash)) is None,
    {
    }
}

} // verus!
