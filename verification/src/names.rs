use vstd::prelude::*;
use crate::bin::NameEntry;
use crate::order::lemma_lex_asymmetric;
use crate::order::lemma_lex_irreflexive;
use crate::order::lemma_lex_total;
use crate::order::lemma_lex_transitive;
use crate::order::lex_less;
use crate::order::Position;
use crate::util::Name;

verus! {

/// The names are well-formed and in strictly ascending order.
pub open spec fn names_ascending(entries: Seq<NameEntry>) -> bool {
    &&& forall|i: int| 0 <= i < entries.len() ==> (#[trigger] entries[i]).name.wf()
    &&& forall|i: int, j: int|
        0 <= i < j < entries.len() ==> lex_less(
            (#[trigger] entries[i]).name@,
            (#[trigger] entries[j]).name@,
        )
}

/// Some record has the name `name`.
pub open spec fn has_name(entries: Seq<NameEntry>, name: Seq<u8>) -> bool {
    exists|i: int| 0 <= i < entries.len() && (#[trigger] entries[i]).name@ == name
}

/// The index of a record with the name `name`.
pub open spec fn index_of(entries: Seq<NameEntry>, name: Seq<u8>) -> int {
    choose|i: int| 0 <= i < entries.len() && (#[trigger] entries[i]).name@ == name
}

/// The sizes by name.
pub open spec fn names_map(entries: Seq<NameEntry>) -> Map<Seq<u8>, u32> {
    Map::new(
        |name: Seq<u8>| has_name(entries, name),
        |name: Seq<u8>| entries[index_of(entries, name)].value,
    )
}

/// In ascending records a name stands at one index only.
pub proof fn lemma_index_of(entries: Seq<NameEntry>, i: int)
    requires
        names_ascending(entries),
        0 <= i < entries.len(),
    ensures
        has_name(entries, entries[i].name@),
        index_of(entries, entries[i].name@) == i,
        names_map(entries).contains_key(entries[i].name@),
        names_map(entries)[entries[i].name@] == entries[i].value,
{
    let name = entries[i].name@;
    let k = index_of(entries, name);
    lemma_lex_irreflexive(name);
    if k < i {
        assert(lex_less(entries[k].name@, entries[i].name@));
    } else if i < k {
        assert(lex_less(entries[i].name@, entries[k].name@));
    }
}

/// A name between two neighbours, or beyond the ends, is not in the
/// records.
pub proof fn lemma_absent(entries: Seq<NameEntry>, at: int, name: Seq<u8>)
    requires
        names_ascending(entries),
        0 <= at <= entries.len(),
        forall|i: int| 0 <= i < at ==> lex_less((#[trigger] entries[i]).name@, name),
        forall|i: int| at <= i < entries.len() ==> lex_less(name, (#[trigger] entries[i]).name@),
    ensures
        !has_name(entries, name),
        !names_map(entries).contains_key(name),
{
    lemma_lex_irreflexive(name);
}

/// Putting a new name in its place keeps the order and adds it to the map.
pub proof fn lemma_insert(entries: Seq<NameEntry>, at: int, entry: NameEntry)
    requires
        names_ascending(entries),
        entry.name.wf(),
        0 <= at <= entries.len(),
        forall|i: int| 0 <= i < at ==> lex_less((#[trigger] entries[i]).name@, entry.name@),
        forall|i: int|
            at <= i < entries.len() ==> lex_less(entry.name@, (#[trigger] entries[i]).name@),
    ensures
        names_ascending(entries.insert(at, entry)),
        names_map(entries.insert(at, entry)) == names_map(entries).insert(
            entry.name@,
            entry.value,
        ),
{
    let after = entries.insert(at, entry);
    assert forall|i: int, j: int| 0 <= i < j < after.len() implies lex_less(
        (#[trigger] after[i]).name@,
        (#[trigger] after[j]).name@,
    ) by {
        let a = if i < at { i } else { i - 1 };
        let b = if j < at { j } else { j - 1 };
        if i != at && j != at {
            assert(after[i] == entries[a]);
            assert(after[j] == entries[b]);
        } else if i == at {
            assert(after[j] == entries[b]);
        } else {
            assert(after[i] == entries[a]);
        }
    }
    assert(names_ascending(after));
    lemma_absent(entries, at, entry.name@);
    assert forall|name: Seq<u8>| has_name(after, name) <==> (name == entry.name@ || has_name(
        entries,
        name,
    )) by {
        if has_name(after, name) {
            let i = index_of(after, name);
            if i != at {
                let a = if i < at { i } else { i - 1 };
                assert(after[i] == entries[a]);
            }
        }
        if name == entry.name@ {
            assert(after[at].name@ == name);
        }
        if has_name(entries, name) {
            let a = index_of(entries, name);
            let i = if a < at { a } else { a + 1 };
            assert(after[i] == entries[a]);
        }
    }
    assert forall|name: Seq<u8>| has_name(after, name) implies #[trigger] names_map(after)[name]
        == names_map(entries).insert(entry.name@, entry.value)[name] by {
        let i = index_of(after, name);
        lemma_index_of(after, i);
        if i != at {
            let a = if i < at { i } else { i - 1 };
            assert(after[i] == entries[a]);
            lemma_index_of(entries, a);
        }
    }
    assert(names_map(after) =~= names_map(entries).insert(entry.name@, entry.value));
}

/// Changing the size of a record keeps the order and changes the map at
/// its name.
pub proof fn lemma_update(entries: Seq<NameEntry>, at: int, value: u32)
    requires
        names_ascending(entries),
        0 <= at < entries.len(),
    ensures
        names_ascending(entries.update(at, NameEntry { name: entries[at].name, value })),
        names_map(entries.update(at, NameEntry { name: entries[at].name, value })) == names_map(
            entries,
        ).insert(entries[at].name@, value),
{
    let entry = NameEntry { name: entries[at].name, value };
    let after = entries.update(at, entry);
    assert forall|i: int| 0 <= i < after.len() implies (#[trigger] after[i]).name
        == entries[i].name by {}
    assert forall|i: int, j: int| 0 <= i < j < after.len() implies lex_less(
        (#[trigger] after[i]).name@,
        (#[trigger] after[j]).name@,
    ) by {
        assert(after[i].name == entries[i].name);
        assert(after[j].name == entries[j].name);
    }
    assert(names_ascending(after));
    lemma_index_of(entries, at);
    assert forall|name: Seq<u8>| has_name(after, name) <==> has_name(entries, name) by {
        if has_name(after, name) {
            let i = index_of(after, name);
            assert(entries[i].name@ == name);
        }
        if has_name(entries, name) {
            let i = index_of(entries, name);
            assert(after[i].name@ == name);
        }
    }
    assert forall|name: Seq<u8>| has_name(after, name) implies #[trigger] names_map(after)[name]
        == names_map(entries).insert(entries[at].name@, value)[name] by {
        let i = index_of(after, name);
        lemma_index_of(after, i);
        lemma_index_of(entries, i);
    }
    assert(names_map(after) =~= names_map(entries).insert(entries[at].name@, value));
}

/// Taking a record out keeps the order and takes its name out of the map.
pub proof fn lemma_remove(entries: Seq<NameEntry>, at: int)
    requires
        names_ascending(entries),
        0 <= at < entries.len(),
    ensures
        names_ascending(entries.remove(at)),
        names_map(entries.remove(at)) == names_map(entries).remove(entries[at].name@),
{
    let after = entries.remove(at);
    let gone = entries[at].name@;
    assert forall|i: int| 0 <= i < after.len() implies #[trigger] after[i] == entries[if i < at {
        i
    } else {
        i + 1
    }] by {}
    assert forall|i: int, j: int| 0 <= i < j < after.len() implies lex_less(
        (#[trigger] after[i]).name@,
        (#[trigger] after[j]).name@,
    ) by {
        let a = if i < at { i } else { i + 1 };
        let b = if j < at { j } else { j + 1 };
        assert(after[i] == entries[a]);
        assert(after[j] == entries[b]);
    }
    assert forall|i: int| 0 <= i < after.len() implies (#[trigger] after[i]).name.wf() by {
        let a = if i < at { i } else { i + 1 };
        assert(after[i] == entries[a]);
    }
    assert(names_ascending(after));
    lemma_index_of(entries, at);
    assert forall|name: Seq<u8>| has_name(after, name) <==> (name != gone && has_name(
        entries,
        name,
    )) by {
        if has_name(after, name) {
            let i = index_of(after, name);
            let a = if i < at { i } else { i + 1 };
            assert(after[i] == entries[a]);
            lemma_index_of(entries, a);
        }
        if name != gone && has_name(entries, name) {
            let a = index_of(entries, name);
            let i = if a < at { a } else { a - 1 };
            assert(after[i] == entries[a]);
        }
    }
    assert forall|name: Seq<u8>| has_name(after, name) implies #[trigger] names_map(after)[name]
        == names_map(entries)[name] by {
        let i = index_of(after, name);
        lemma_index_of(after, i);
        let a = if i < at { i } else { i + 1 };
        assert(after[i] == entries[a]);
        lemma_index_of(entries, a);
    }
    assert(names_map(after) =~= names_map(entries).remove(gone));
}

/// Ascending records with the same map are the same records.
pub proof fn lemma_names_unique(a: Seq<NameEntry>, b: Seq<NameEntry>)
    requires
        names_ascending(a),
        names_ascending(b),
        names_map(a) == names_map(b),
    ensures
        a == b,
    decreases a.len(),
{
    if a.len() == 0 {
        if b.len() > 0 {
            lemma_index_of(b, 0);
            assert(has_name(a, b[0].name@));
        }
        assert(a =~= b);
    } else {
        let xi = a.len() - 1;
        let x = a[xi];
        lemma_index_of(a, xi);
        assert(has_name(b, x.name@));
        let bi = index_of(b, x.name@);
        let yi = b.len() - 1;
        let y = b[yi];
        lemma_index_of(b, yi);
        assert(has_name(a, y.name@));
        let ai = index_of(a, y.name@);
        assert(x.name@ == y.name@) by {
            if ai < xi {
                assert(lex_less(a[ai].name@, a[xi].name@));
                if bi < yi {
                    assert(lex_less(b[bi].name@, b[yi].name@));
                    lemma_lex_asymmetric(x.name@, y.name@);
                }
            }
        }
        x.name.lemma_view_injective(y.name);
        lemma_index_of(b, bi);
        assert(x == y);
        lemma_remove(a, xi);
        lemma_remove(b, yi);
        assert(a.remove(xi) =~= a.drop_last());
        assert(b.remove(yi) =~= b.drop_last());
        lemma_names_unique(a.drop_last(), b.drop_last());
        assert(a =~= a.drop_last().push(x));
        assert(b =~= b.drop_last().push(y));
    }
}

/// The records of a map of names, in ascending order.
pub open spec fn names_listing(map: Map<Seq<u8>, u32>) -> Seq<NameEntry> {
    choose|entries: Seq<NameEntry>| names_ascending(entries) && names_map(entries) == map
}

/// Ascending records are the listing of their map.
pub proof fn lemma_names_listing(entries: Seq<NameEntry>)
    requires
        names_ascending(entries),
    ensures
        names_listing(names_map(entries)) == entries,
{
    lemma_names_unique(names_listing(names_map(entries)), entries);
}

/// The name sub-table of an owned table: its names in strictly ascending
/// order, each with its size.
#[derive(Debug, PartialEq)]
pub struct NameTable {
    names: Vec<Name>,
    sizes: Vec<u32>,
}

/// The records made of names and their sizes.
pub open spec fn zip(names: Seq<Name>, sizes: Seq<u32>) -> Seq<NameEntry> {
    Seq::new(names.len(), |i: int| NameEntry { name: names[i], value: sizes[i] })
}

impl View for NameTable {
    type V = Map<Seq<u8>, u32>;

    /// The sizes by name.
    open spec fn view(&self) -> Map<Seq<u8>, u32> {
        names_map(self.spec_entries())
    }
}

impl NameTable {
    /// The records in the order in which they are kept.
    pub closed spec fn spec_entries(&self) -> Seq<NameEntry> {
        zip(self.names@, self.sizes@)
    }

    /// The records are in canonical order.
    pub open spec fn wf(&self) -> bool {
        names_ascending(self.spec_entries())
    }

    /// What holds of every sub-table: as many sizes as names, and the
    /// names well-formed and in strictly ascending order.
    #[verifier::type_invariant]
    pub closed spec fn inv(&self) -> bool {
        &&& self.names@.len() == self.sizes@.len()
        &&& forall|i: int| 0 <= i < self.names@.len() ==> (#[trigger] self.names@[i]).wf()
        &&& forall|i: int, j: int|
            0 <= i < j < self.names@.len() ==> lex_less(
                (#[trigger] self.names@[i])@,
                (#[trigger] self.names@[j])@,
            )
    }

    /// What holds of every sub-table makes its records well-formed.
    pub proof fn lemma_wf(&self)
        requires
            self.inv(),
        ensures
            self.wf(),
    {
        self.lemma_inv();
    }

    /// What the invariant says of the records.
    proof fn lemma_inv(&self)
        requires
            self.inv(),
        ensures
            self.wf(),
            self.spec_entries().len() == self.names@.len(),
            self.spec_entries().len() == self.sizes@.len(),
    {
        let entries = self.spec_entries();
        assert forall|i: int, j: int| 0 <= i < j < entries.len() implies lex_less(
            (#[trigger] entries[i]).name@,
            (#[trigger] entries[j]).name@,
        ) by {
            assert(lex_less(self.names@[i]@, self.names@[j]@));
        }
        assert forall|i: int| 0 <= i < entries.len() implies (#[trigger] entries[i]).name.wf() by {
            assert(self.names@[i].wf());
        }
    }

    /// Names and sizes that make ascending records keep the invariant.
    proof fn lemma_made(names: Seq<Name>, sizes: Seq<u32>)
        requires
            names.len() == sizes.len(),
            names_ascending(zip(names, sizes)),
        ensures
            forall|i: int| 0 <= i < names.len() ==> (#[trigger] names[i]).wf(),
            forall|i: int, j: int|
                0 <= i < j < names.len() ==> lex_less(
                    (#[trigger] names[i])@,
                    (#[trigger] names[j])@,
                ),
    {
        let entries = zip(names, sizes);
        assert forall|i: int| 0 <= i < names.len() implies (#[trigger] names[i]).wf() by {
            assert(entries[i].name.wf());
        }
        assert forall|i: int, j: int| 0 <= i < j < names.len() implies lex_less(
            (#[trigger] names[i])@,
            (#[trigger] names[j])@,
        ) by {
            assert(lex_less(entries[i].name@, entries[j].name@));
        }
    }

    /// The records of a well-formed sub-table are the listing of its
    /// sizes by name: what it holds says in which order it holds it.
    pub proof fn lemma_entries(&self)
        requires
            self.wf(),
        ensures
            self.spec_entries() == names_listing(self@),
    {
        lemma_names_listing(self.spec_entries());
    }

    /// An empty sub-table.
    pub fn new() -> (table: NameTable)
        ensures
            table.spec_entries() == Seq::<NameEntry>::empty(),
            table.wf(),
    {
        let table = NameTable { names: Vec::new(), sizes: Vec::new() };
        proof {
            assert(table.spec_entries() =~= Seq::<NameEntry>::empty());
        }
        table
    }

    /// Moves names and sizes out, to be put back once they are changed.
    fn take_parts(&mut self) -> (parts: (Vec<Name>, Vec<u32>))
        ensures
            zip(parts.0@, parts.1@) == old(self).spec_entries(),
            parts.0@.len() == parts.1@.len(),
            names_ascending(zip(parts.0@, parts.1@)),
    {
        proof {
            use_type_invariant(&*self);
            self.lemma_inv();
        }
        let mut taken = NameTable::new();
        core::mem::swap(self, &mut taken);
        (taken.names, taken.sizes)
    }

    /// The number of records.
    pub fn len(&self) -> (n: usize)
        ensures
            n == self.spec_entries().len(),
            self.wf(),
    {
        proof {
            use_type_invariant(self);
            self.lemma_inv();
        }
        self.names.len()
    }

    /// Whether the sub-table has no records.
    pub fn is_empty(&self) -> (b: bool)
        ensures
            b == (self.spec_entries().len() == 0),
    {
        self.len() == 0
    }

    /// The record with index `index`.
    pub fn entry(&self, index: usize) -> (entry: NameEntry)
        requires
            index < self.spec_entries().len(),
        ensures
            entry == self.spec_entries()[index as int],
            entry.name.wf(),
    {
        proof {
            use_type_invariant(self);
            self.lemma_inv();
        }
        NameEntry { name: self.names[index], value: self.sizes[index] }
    }

    /// The records, in strictly ascending order of their names.
    pub fn entries(&self) -> (entries: Vec<NameEntry>)
        ensures
            entries@ == self.spec_entries(),
            names_ascending(entries@),
    {
        let mut entries: Vec<NameEntry> = Vec::new();
        let size = self.len();
        let mut i: usize = 0;
        while i < size
            invariant
                i <= size == self.spec_entries().len(),
                entries@ == self.spec_entries().take(i as int),
            decreases size - i,
        {
            entries.push(self.entry(i));
            proof {
                assert(entries@ =~= self.spec_entries().take(i + 1));
            }
            i += 1;
        }
        proof {
            assert(entries@ =~= self.spec_entries());
        }
        entries
    }

    /// Looks for `path` by binary search: the index of its record, or the
    /// index at which a record of it would stand.
    pub fn search(&self, path: &[u8]) -> (r: Result<usize, usize>)
        ensures
            self.wf(),
            match r {
                Ok(at) => at < self.spec_entries().len() && self.spec_entries()[at as int].name@
                    == path@,
                Err(at) => {
                    &&& at <= self.spec_entries().len()
                    &&& forall|i: int|
                        0 <= i < at ==> lex_less(
                            (#[trigger] self.spec_entries()[i]).name@,
                            path@,
                        )
                    &&& forall|i: int|
                        at <= i < self.spec_entries().len() ==> lex_less(
                            path@,
                            (#[trigger] self.spec_entries()[i]).name@,
                        )
                },
            },
    {
        proof {
            use_type_invariant(self);
            self.lemma_inv();
        }
        let ghost entries = self.spec_entries();
        let mut start: usize = 0;
        let mut end: usize = self.names.len();
        while start < end
            invariant
                start <= end <= entries.len(),
                entries == self.spec_entries(),
                entries.len() == self.names@.len(),
                names_ascending(entries),
                forall|i: int| 0 <= i < start ==> lex_less((#[trigger] entries[i]).name@, path@),
                forall|i: int|
                    end <= i < entries.len() ==> lex_less(path@, (#[trigger] entries[i]).name@),
            decreases end - start,
        {
            let mid: usize = start + (end - start) / 2;
            let ghost probe = entries[mid as int].name@;
            proof {
                assert(entries[mid as int].name == self.names@[mid as int]);
            }
            match self.names[mid].compare(path) {
                Position::Before => {
                    proof {
                        assert forall|i: int| 0 <= i < mid + 1 implies lex_less(
                            (#[trigger] entries[i]).name@,
                            path@,
                        ) by {
                            if i < mid {
                                lemma_lex_transitive(entries[i].name@, probe, path@);
                            }
                        }
                    }
                    start = mid + 1;
                },
                Position::After => {
                    proof {
                        lemma_lex_total(probe, path@);
                        assert forall|i: int| mid <= i < entries.len() implies lex_less(
                            path@,
                            (#[trigger] entries[i]).name@,
                        ) by {
                            if i > mid {
                                lemma_lex_transitive(path@, probe, entries[i].name@);
                            }
                        }
                    }
                    end = mid;
                },
                Position::Same => {
                    return Ok(mid);
                },
            }
        }
        Err(start)
    }

    /// The size kept for `path`.
    pub fn get(&self, path: &[u8]) -> (r: Option<u32>)
        ensures
            r == if self@.contains_key(path@) {
                Some(self@[path@])
            } else {
                None
            },
    {
        match self.search(path) {
            Ok(at) => {
                proof {
                    lemma_index_of(self.spec_entries(), at as int);
                }
                Some(self.entry(at).value)
            },
            Err(at) => {
                proof {
                    lemma_absent(self.spec_entries(), at as int, path@);
                }
                None
            },
        }
    }

    /// Whether a size is kept for `path`.
    pub fn contains_key(&self, path: &[u8]) -> (r: bool)
        ensures
            r == self@.contains_key(path@),
    {
        self.get(path).is_some()
    }

    /// The place of the size kept for `path`, to be changed there.
    pub fn get_mut(&mut self, path: &[u8]) -> (r: Option<&mut u32>)
        ensures
            match r {
                Some(slot) => old(self)@.contains_key(path@) && *slot == old(self)@[path@]
                    && final(self)@ == old(self)@.insert(path@, *final(slot)),
                None => !old(self)@.contains_key(path@) && final(self).spec_entries() == old(
                    self,
                ).spec_entries(),
            },
            final(self).spec_entries().len() == old(self).spec_entries().len(),
            final(self).wf(),
    {
        match self.search(path) {
            Ok(at) => {
                proof {
                    use_type_invariant(&*self);
                    self.lemma_inv();
                    let before = self.spec_entries();
                    lemma_index_of(before, at as int);
                    assert forall|value: u32|
                        #![trigger self.sizes@.update(at as int, value)]
                        zip(self.names@, self.sizes@.update(at as int, value)) == before.update(
                            at as int,
                            NameEntry { name: before[at as int].name, value },
                        ) && names_ascending(zip(self.names@, self.sizes@.update(at as int, value)))
                            && names_map(zip(self.names@, self.sizes@.update(at as int, value)))
                            == names_map(before).insert(path@, value) by {
                        lemma_update(before, at as int, value);
                        assert(zip(self.names@, self.sizes@.update(at as int, value))
                            =~= before.update(
                            at as int,
                            NameEntry { name: before[at as int].name, value },
                        ));
                    }
                }
                Some(&mut self.sizes[at])
            },
            Err(at) => {
                proof {
                    lemma_absent(self.spec_entries(), at as int, path@);
                }
                None
            },
        }
    }

    /// Puts `names` and `sizes` in place of what the table held.
    fn put_parts(&mut self, names: Vec<Name>, sizes: Vec<u32>)
        requires
            names@.len() == sizes@.len(),
            names_ascending(zip(names@, sizes@)),
        ensures
            final(self).spec_entries() == zip(names@, sizes@),
            final(self).wf(),
    {
        proof {
            NameTable::lemma_made(names@, sizes@);
        }
        *self = NameTable { names, sizes };
    }

    /// Keeps `value` for `name`, and returns the size kept for it before.
    pub fn insert(&mut self, name: Name, value: u32) -> (r: Option<u32>)
        ensures
            final(self)@ == old(self)@.insert(name@, value),
            final(self).wf(),
            r == if old(self)@.contains_key(name@) {
                Some(old(self)@[name@])
            } else {
                None
            },
            final(self).spec_entries().len() == old(self).spec_entries().len() + if r is Some {
                0int
            } else {
                1int
            },
    {
        let found = self.search(name.as_bytes());
        let ghost before = self.spec_entries();
        let (mut names, mut sizes) = self.take_parts();
        match found {
            Ok(at) => {
                let previous = sizes[at];
                proof {
                    lemma_index_of(before, at as int);
                    lemma_update(before, at as int, value);
                    assert(zip(names@, sizes@.update(at as int, value)) =~= before.update(
                        at as int,
                        NameEntry { name: before[at as int].name, value },
                    ));
                }
                sizes[at] = value;
                self.put_parts(names, sizes);
                Some(previous)
            },
            Err(at) => {
                proof {
                    lemma_absent(before, at as int, name@);
                    lemma_insert(before, at as int, NameEntry { name, value });
                    assert(zip(names@.insert(at as int, name), sizes@.insert(at as int, value))
                        =~= before.insert(at as int, NameEntry { name, value }));
                }
                names.insert(at, name);
                sizes.insert(at, value);
                self.put_parts(names, sizes);
                None
            },
        }
    }

    /// Keeps `value` for `path` if a size is kept for it already, and
    /// returns that size; changes nothing otherwise.
    pub fn replace(&mut self, path: &[u8], value: u32) -> (r: Option<u32>)
        ensures
            final(self).wf(),
            old(self)@.contains_key(path@) ==> r == Some(old(self)@[path@]) && final(self)@
                == old(self)@.insert(path@, value),
            !old(self)@.contains_key(path@) ==> r is None && final(self).spec_entries() == old(
                self,
            ).spec_entries(),
            final(self).spec_entries().len() == old(self).spec_entries().len(),
    {
        match self.get_mut(path) {
            Some(slot) => {
                let previous = *slot;
                *slot = value;
                Some(previous)
            },
            None => None,
        }
    }

    /// Drops the size kept for `path`, and returns it.
    pub fn remove(&mut self, path: &[u8]) -> (r: Option<u32>)
        ensures
            final(self).wf(),
            final(self)@ == old(self)@.remove(path@),
            r == if old(self)@.contains_key(path@) {
                Some(old(self)@[path@])
            } else {
                None
            },
            r is None ==> final(self).spec_entries() == old(self).spec_entries(),
            final(self).spec_entries().len() == old(self).spec_entries().len() - if r is Some {
                1int
            } else {
                0int
            },
    {
        match self.search(path) {
            Ok(at) => {
                let ghost before = self.spec_entries();
                let (mut names, mut sizes) = self.take_parts();
                proof {
                    lemma_index_of(before, at as int);
                    lemma_remove(before, at as int);
                    assert(zip(names@.remove(at as int), sizes@.remove(at as int))
                        =~= before.remove(at as int));
                }
                let _ = names.remove(at);
                let previous = sizes.remove(at);
                self.put_parts(names, sizes);
                Some(previous)
            },
            Err(at) => {
                proof {
                    lemma_absent(self.spec_entries(), at as int, path@);
                    assert(self@.remove(path@) =~= self@);
                }
                None
            },
        }
    }
}

impl Clone for NameTable {
    fn clone(&self) -> (table: NameTable)
        ensures
            table.spec_entries() == self.spec_entries(),
    {
        let mut names: Vec<Name> = Vec::new();
        let mut sizes: Vec<u32> = Vec::new();
        let size = self.len();
        let mut i: usize = 0;
        while i < size
            invariant
                i <= size == self.spec_entries().len(),
                self.wf(),
                names@.len() == i,
                sizes@.len() == i,
                zip(names@, sizes@) == self.spec_entries().take(i as int),
            decreases size - i,
        {
            let entry = self.entry(i);
            names.push(entry.name);
            sizes.push(entry.value);
            proof {
                assert(zip(names@, sizes@) =~= self.spec_entries().take(i + 1));
            }
            i += 1;
        }
        proof {
            assert(self.spec_entries().take(i as int) =~= self.spec_entries());
            NameTable::lemma_made(names@, sizes@);
        }
        NameTable { names, sizes }
    }
}

impl Default for NameTable {
    fn default() -> (table: NameTable)
        ensures
            table.spec_entries() == Seq::<NameEntry>::empty(),
    {
        NameTable::new()
    }
}

} // verus!
