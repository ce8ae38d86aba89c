use vstd::prelude::*;
use std::collections::BTreeMap;
use vstd::std_specs::btree::increasing_seq;
use vstd::std_specs::convert::IntoSpec;
use vstd::std_specs::iter::IteratorSpec;
use vstd::string::StringSliceAdditionalSpecFns;
use crate::bin::HashEntry;
use crate::bin::NameEntry;
use crate::bin::TableEntry;
use crate::names::names_listing;
use crate::order::lex_less;
use crate::index::path_str;
use crate::index::TableIndex;
use crate::listing::ascending;
use crate::listing::hashes_ascending;
use crate::listing::lemma_listing_is_ascending;
use crate::listing::lists;
use crate::model::Key;
use crate::model::TableModel;
use crate::names::names_ascending;
use crate::names::NameTable;
use crate::util::hash_name;

verus! {

/// An owned, editable table: sizes by hash and sizes by name, both kept
/// in canonical order.
#[derive(Debug, PartialEq)]
pub struct ResourceSizeTable {
    pub crc_table: BTreeMap<u32, u32>,
    pub name_table: NameTable,
}

impl View for ResourceSizeTable {
    type V = TableModel;

    open spec fn view(&self) -> TableModel {
        TableModel { hashes: self.crc_table@, names: self.name_table@ }
    }
}

/// The table after the sizes of `pairs` are set one after the other.
pub open spec fn set_all<N: IntoSpec<TableIndex<'static>>>(
    table: TableModel,
    pairs: Seq<(N, u32)>,
) -> TableModel
    decreases pairs.len(),
{
    if pairs.len() == 0 {
        table
    } else {
        set_all(table, pairs.drop_last()).set(pairs.last().0.into_spec().key(), pairs.last().1)
    }
}

/// The records of a table in canonical order: the sizes by hash in
/// ascending order of the hashes, then the sizes by name in ascending order
/// of the names.
pub open spec fn entries_of(table: TableModel) -> Seq<TableEntry> {
    ascending(table.hashes).map_values(|entry: HashEntry| TableEntry::Hash(entry))
        + names_listing(table.names).map_values(|entry: NameEntry| TableEntry::Name(entry))
}

/// `first` may stand before `second` in canonical order: a hash record
/// before one with a greater hash or before a name record, a name record
/// before one with a greater name.
pub open spec fn stands_before(first: TableEntry, second: TableEntry) -> bool {
    match (first, second) {
        (TableEntry::Hash(a), TableEntry::Hash(b)) => a.hash < b.hash,
        (TableEntry::Hash(_), TableEntry::Name(_)) => true,
        (TableEntry::Name(a), TableEntry::Name(b)) => lex_less(a.name@, b.name@),
        (TableEntry::Name(_), TableEntry::Hash(_)) => false,
    }
}

/// The records are in canonical order, and the names among them are
/// well-formed.
pub open spec fn in_canonical_order(entries: Seq<TableEntry>) -> bool {
    &&& forall|i: int, j: int|
        0 <= i < j < entries.len() ==> stands_before(#[trigger] entries[i], #[trigger] entries[j])
    &&& forall|i: int|
        0 <= i < entries.len() ==> (#[trigger] entries[i] matches TableEntry::Name(named)
            ==> named.name.wf())
}

/// The records of a table whose names have a listing are in canonical
/// order: whatever was set in whatever order, the hashes ascend strictly,
/// and after them the names ascend strictly.
pub proof fn lemma_entries_order(table: TableModel)
    requires
        names_ascending(names_listing(table.names)),
    ensures
        in_canonical_order(entries_of(table)),
{
    let hashes = ascending(table.hashes);
    let names = names_listing(table.names);
    let entries = entries_of(table);
    crate::listing::lemma_ascending_lists(table.hashes);
    assert forall|i: int, j: int| 0 <= i < j < entries.len() implies stands_before(
        #[trigger] entries[i],
        #[trigger] entries[j],
    ) by {
        if j < hashes.len() {
            assert(hashes[i].hash < hashes[j].hash);
        } else if i >= hashes.len() {
            assert(lex_less(names[i - hashes.len()].name@, names[j - hashes.len()].name@));
        }
    }
    assert forall|i: int| 0 <= i < entries.len() implies (#[trigger] entries[i]
        matches TableEntry::Name(named) ==> named.name.wf()) by {
        if i >= hashes.len() {
            assert(names[i - hashes.len()].name.wf());
        }
    }
}

impl ResourceSizeTable {
    /// The name sub-table is in canonical order.
    pub open spec fn wf(&self) -> bool {
        self.name_table.wf()
    }

    /// An empty table.
    pub fn new() -> (table: ResourceSizeTable)
        ensures
            table@ == TableModel::empty(),
            table.name_table.spec_entries() == Seq::<NameEntry>::empty(),
            table.wf(),
    {
        let table = ResourceSizeTable { crc_table: BTreeMap::new(), name_table: NameTable::new() };
        proof {
            assert(table.name_table@ =~= Map::<Seq<u8>, u32>::empty());
        }
        table
    }

    /// The number of sizes held, by hash and by name together.
    pub fn len(&self) -> (n: usize)
        requires
            self@.hashes.len() + self.name_table.spec_entries().len() <= usize::MAX,
        ensures
            n == self@.hashes.len() + self.name_table.spec_entries().len(),
    {
        broadcast use vstd::std_specs::btree::group_btree_axioms;

        self.crc_table.len() + self.name_table.len()
    }

    /// Whether the table holds no size.
    pub fn is_empty(&self) -> (b: bool)
        ensures
            b == (self@.hashes.is_empty() && self.name_table.spec_entries().len() == 0),
    {
        self.crc_table.is_empty() && self.name_table.is_empty()
    }

    /// The size held by hash for `hash`.
    pub fn get_hash(&self, hash: u32) -> (r: Option<u32>)
        ensures
            r == self@.lookup(Key::Hash(hash)),
    {
        broadcast use vstd::std_specs::btree::group_btree_axioms;

        match self.crc_table.get(&hash) {
            Some(value) => Some(*value),
            None => None,
        }
    }

    /// The size held for `needle`: for a path the size by name, or else
    /// the size by its hash; for a hash the size by hash.
    pub fn get_index(&self, needle: &TableIndex<'_>) -> (r: Option<u32>)
        ensures
            r == self@.lookup(needle.key()),
    {
        match needle {
            TableIndex::HashIndex(hash) => self.get_hash(*hash),
            TableIndex::StringIndex(path) => {
                let path = path_str(path);
                match self.name_table.get(path.as_bytes()) {
                    Some(value) => Some(value),
                    None => self.get_hash(hash_name(path)),
                }
            },
        }
    }

    /// Sets the size for `needle`, and returns the size held for it
    /// before. A path that has a size by name keeps it by name; a path
    /// that has none gets its size by hash.
    pub fn set_index(&mut self, needle: &TableIndex<'_>, value: u32) -> (r: Option<u32>)
        ensures
            final(self)@ == old(self)@.set(needle.key(), value),
            r == old(self)@.lookup(needle.key()),
            final(self).wf(),
            final(self).name_table.spec_entries().len() == old(self).name_table.spec_entries().len(),
    {
        broadcast use vstd::std_specs::btree::group_btree_axioms;

        proof {
            use_type_invariant(&self.name_table);
            self.name_table.lemma_wf();
        }
        let hash = match needle {
            TableIndex::HashIndex(hash) => *hash,
            TableIndex::StringIndex(path) => {
                let path = path_str(path);
                match self.name_table.replace(path.as_bytes(), value) {
                    Some(before) => {
                        return Some(before);
                    },
                    None => {},
                }
                hash_name(path)
            },
        };
        self.crc_table.insert(hash, value)
    }

    /// Removes the size for `needle`, and returns it: for a path the size
    /// by name, or else the size by its hash; for a hash the size by hash.
    pub fn remove_index(&mut self, needle: &TableIndex<'_>) -> (r: Option<u32>)
        ensures
            final(self)@ == old(self)@.remove(needle.key()),
            r == old(self)@.lookup(needle.key()),
            final(self).wf(),
            final(self).name_table.spec_entries().len() == old(self).name_table.spec_entries().len()
                - if old(self)@.named(needle.key()) {
                1int
            } else {
                0int
            },
    {
        broadcast use vstd::std_specs::btree::group_btree_axioms;

        proof {
            use_type_invariant(&self.name_table);
            self.name_table.lemma_wf();
        }
        let hash = match needle {
            TableIndex::HashIndex(hash) => *hash,
            TableIndex::StringIndex(path) => {
                let path = path_str(path);
                match self.name_table.remove(path.as_bytes()) {
                    Some(before) => {
                        return Some(before);
                    },
                    None => {},
                }
                proof {
                    assert(self.name_table@ =~= old(self).name_table@);
                }
                hash_name(path)
            },
        };
        self.crc_table.remove(&hash)
    }

    /// The place of the size held for `needle`, to be changed there: for
    /// a path the size by name, or else the size by its hash; for a hash
    /// the size by hash.
    pub fn get_mut_index(&mut self, needle: &TableIndex<'_>) -> (r: Option<&mut u32>)
        ensures
            match old(self)@.lookup(needle.key()) {
                Some(value) => r is Some && *r->Some_0 == value && final(self)@ == old(self)@.set(
                    needle.key(),
                    *final(r->Some_0),
                ),
                None => r is None && final(self)@ == old(self)@,
            },
            final(self).wf(),
            final(self).name_table.spec_entries().len() == old(self).name_table.spec_entries().len(),
    {
        proof {
            use_type_invariant(&self.name_table);
            self.name_table.lemma_wf();
        }
        match needle {
            TableIndex::HashIndex(hash) => hash_slot(&mut self.crc_table, *hash),
            TableIndex::StringIndex(path) => {
                let path = path_str(path);
                if self.name_table.contains_key(path.as_bytes()) {
                    self.name_table.get_mut(path.as_bytes())
                } else {
                    hash_slot(&mut self.crc_table, hash_name(path))
                }
            },
        }
    }

    /// The place of the size held for `needle`, to be changed there.
    pub fn get_mut<'i, I: Into<TableIndex<'i>>>(&mut self, needle: I) -> (r: Option<&mut u32>)
        ensures
            I::obeys_into_spec() ==> match old(self)@.lookup(needle.into_spec().key()) {
                Some(value) => r is Some && *r->Some_0 == value && final(self)@ == old(self)@.set(
                    needle.into_spec().key(),
                    *final(r->Some_0),
                ),
                None => r is None && final(self)@ == old(self)@,
            },
            final(self).wf(),
            final(self).name_table.spec_entries().len() == old(self).name_table.spec_entries().len(),
    {
        let index: TableIndex<'i> = needle.into();
        self.get_mut_index(&index)
    }

    /// Whether a size is held for `needle`.
    pub fn contains<'i, I: Into<TableIndex<'i>>>(&self, needle: I) -> (r: bool)
        ensures
            I::obeys_into_spec() ==> r == (self@.lookup(needle.into_spec().key()) is Some),
    {
        let index: TableIndex<'i> = needle.into();
        self.get_index(&index).is_some()
    }

    /// The size held for `needle`.
    pub fn get<'i, I: Into<TableIndex<'i>>>(&self, needle: I) -> (r: Option<u32>)
        ensures
            I::obeys_into_spec() ==> r == self@.lookup(needle.into_spec().key()),
    {
        let index: TableIndex<'i> = needle.into();
        self.get_index(&index)
    }

    /// Sets the size for `res`, and returns the size held for it before.
    pub fn set<'i, I: Into<TableIndex<'i>>>(&mut self, res: I, value: u32) -> (r: Option<u32>)
        ensures
            I::obeys_into_spec() ==> final(self)@ == old(self)@.set(res.into_spec().key(), value),
            I::obeys_into_spec() ==> r == old(self)@.lookup(res.into_spec().key()),
            final(self).wf(),
            final(self).name_table.spec_entries().len() == old(self).name_table.spec_entries().len(),
    {
        let index: TableIndex<'i> = res.into();
        self.set_index(&index, value)
    }

    /// Removes the size for `res`, and returns it.
    pub fn remove<'i, I: Into<TableIndex<'i>>>(&mut self, res: I) -> (r: Option<u32>)
        ensures
            I::obeys_into_spec() ==> final(self)@ == old(self)@.remove(res.into_spec().key()),
            I::obeys_into_spec() ==> r == old(self)@.lookup(res.into_spec().key()),
            final(self).wf(),
            I::obeys_into_spec() ==> final(self).name_table.spec_entries().len() == old(
                self,
            ).name_table.spec_entries().len() - if old(self)@.named(res.into_spec().key()) {
                1int
            } else {
                0int
            },
    {
        let index: TableIndex<'i> = res.into();
        self.remove_index(&index)
    }

    /// Sets the sizes that `iter` yields, one after the other.
    pub fn extend<'i, N: Into<TableIndex<'i>>, I: Iterator<Item = (N, u32)>>(&mut self, iter: I)
        requires
            iter.obeys_prophetic_iter_laws(),
            iter.decrease() is Some,
        ensures
            N::obeys_into_spec() ==> final(self)@ == set_all(old(self)@, iter.remaining()),
            final(self).wf(),
            final(self).name_table.spec_entries().len() == old(self).name_table.spec_entries().len(),
    {
        proof {
            use_type_invariant(&self.name_table);
            self.name_table.lemma_wf();
        }
        let mut iter = iter;
        let ghost all = iter.remaining();
        let ghost mut done: int = 0;
        loop
            invariant
                self.wf(),
                self.name_table.spec_entries().len() == old(self).name_table.spec_entries().len(),
                iter.obeys_prophetic_iter_laws(),
                iter.decrease() is Some,
                0 <= done <= all.len(),
                iter.remaining() == all.skip(done),
                N::obeys_into_spec() ==> self@ == set_all(old(self)@, all.take(done)),
            ensures
                N::obeys_into_spec() ==> self@ == set_all(old(self)@, all),
                self.wf(),
                self.name_table.spec_entries().len() == old(self).name_table.spec_entries().len(),
            decreases iter.decrease()->0,
        {
            match iter.next() {
                Some((key, value)) => {
                    proof {
                        assert(all.take(done + 1).drop_last() =~= all.take(done));
                        assert(all.take(done + 1).last() == all[done]);
                        assert(all.skip(done).drop_first() =~= all.skip(done + 1));
                        assert(all.skip(done)[0] == all[done]);
                    }
                    self.set(key, value);
                    proof {
                        done = done + 1;
                    }
                },
                None => {
                    proof {
                        assert(all.take(done) =~= all);
                    }
                    break ;
                },
            }
        }
    }

    /// The sizes by hash, in strictly ascending order of the hashes.
    pub fn hash_entries(&self) -> (entries: Vec<HashEntry>)
        ensures
            entries@ == ascending(self@.hashes),
            hashes_ascending(entries@),
            lists(entries@, self@.hashes),
    {
        broadcast use vstd::std_specs::btree::group_btree_axioms;

        let mut entries: Vec<HashEntry> = Vec::new();
        let it = self.crc_table.iter();
        let ghost all = it.remaining();
        let ghost keys = all.map_values(|kv: (&u32, &u32)| *kv.0);
        proof {
            assert(increasing_seq(keys));
            crate::listing::lemma_increasing(keys);
            assert forall|i: int, j: int| 0 <= i < j < all.len() implies *all[i].0 < *all[j].0 by {
                assert(keys[i] == *all[i].0);
                assert(keys[j] == *all[j].0);
            }
        }
        for kv in iter: it
            invariant
                iter.seq() == all,
                entries@.len() == iter.index(),
                forall|i: int|
                    0 <= i < entries@.len() ==> entries@[i] == (HashEntry {
                        hash: *all[i].0,
                        value: *all[i].1,
                    }),
        {
            let (hash, value) = kv;
            entries.push(HashEntry { hash: *hash, value: *value });
        }
        proof {
            let map = self.crc_table@;
            assert forall|hash: u32| #[trigger] map.contains_key(hash) implies exists|i: int|
                0 <= i < entries@.len() && (#[trigger] entries@[i]).hash == hash by {
                assert(all.contains((&hash, &map[hash])));
                let i = choose|i: int| 0 <= i < all.len() && all[i] == (&hash, &map[hash]);
                assert(entries@[i].hash == hash);
            }
            assert(lists(entries@, map));
            lemma_listing_is_ascending(entries@, map);
        }
        entries
    }

    /// Every record of the table in canonical order: the sizes by hash in
    /// strictly ascending order of the hashes, then the sizes by name in
    /// strictly ascending order of the names.
    pub fn entries(&self) -> (entries: Vec<TableEntry>)
        ensures
            entries@ == entries_of(self@),
            in_canonical_order(entries@),
    {
        let hashes = self.hash_entries();
        let names = self.name_entries();
        let ghost all = entries_of(self@);
        proof {
            crate::names::lemma_names_listing(names@);
            lemma_entries_order(self@);
            assert(all.len() == hashes@.len() + names@.len());
        }
        let mut entries: Vec<TableEntry> = Vec::new();
        let mut i: usize = 0;
        while i < hashes.len()
            invariant
                i <= hashes@.len(),
                all.len() == hashes@.len() + names@.len(),
                forall|k: int| 0 <= k < hashes@.len() ==> all[k] == TableEntry::Hash(hashes@[k]),
                entries@ == all.take(i as int),
            decreases hashes@.len() - i,
        {
            entries.push(TableEntry::Hash(hashes[i]));
            proof {
                assert(entries@ =~= all.take(i + 1));
            }
            i += 1;
        }
        let mut j: usize = 0;
        while j < names.len()
            invariant
                j <= names@.len(),
                i == hashes@.len(),
                all.len() == hashes@.len() + names@.len(),
                forall|k: int|
                    0 <= k < names@.len() ==> all[hashes@.len() + k] == TableEntry::Name(
                        names@[k],
                    ),
                entries@ == all.take(i + j),
            decreases names@.len() - j,
        {
            entries.push(TableEntry::Name(names[j]));
            proof {
                assert(entries@ =~= all.take(i + j + 1));
            }
            j += 1;
        }
        proof {
            assert(all.take(i + j) =~= all);
        }
        entries
    }

    /// The sizes by name, in strictly ascending order of the names.
    pub fn name_entries(&self) -> (entries: Vec<NameEntry>)
        ensures
            entries@ == self.name_table.spec_entries(),
            names_ascending(entries@),
    {
        self.name_table.entries()
    }
}

/// The place of the size that `map` holds for `hash`, from
/// `BTreeMap::get_mut`: none where the map has no such key, and otherwise a
/// reference to the value of that key, through which only that value
/// changes.
#[verifier::external_body]
fn hash_slot<'a>(map: &'a mut BTreeMap<u32, u32>, hash: u32) -> (r: Option<&'a mut u32>)
    ensures
        match r {
            Some(slot) => old(map)@.contains_key(hash) && *slot == old(map)@[hash] && final(map)@
                == old(map)@.insert(hash, *final(slot)),
            None => !old(map)@.contains_key(hash) && final(map)@ == old(map)@,
        },
{
    map.get_mut(&hash)
}

impl Default for ResourceSizeTable {
    fn default() -> (table: ResourceSizeTable)
        ensures
            table@ == TableModel::empty(),
            table.name_table.spec_entries() == Seq::<NameEntry>::empty(),
    {
        ResourceSizeTable::new()
    }
}

impl Clone for ResourceSizeTable {
    fn clone(&self) -> (table: ResourceSizeTable)
        ensures
            table@ == self@,
            table.name_table.spec_entries() == self.name_table.spec_entries(),
    {
        ResourceSizeTable {
            crc_table: self.crc_table.clone(),
            name_table: self.name_table.clone(),
        }
    }
}

} // verus!
