use vstd::prelude::*;
use vstd::std_specs::cmp::PartialEqSpecImpl;
use crate::error::Error;
use crate::util::copy_into;
use crate::util::le_bytes;
use crate::util::le_u32;
use crate::util::read_stored;
use crate::util::splice;
use crate::util::write_u32;
use crate::util::Name;
use crate::util::hash_name;
use crate::util::spec_hash;
use crate::order::Position;
use crate::order::lex_less;
use crate::order::position;
use vstd::string::StringSliceAdditionalSpecFns;
use vstd::std_specs::convert::IntoSpec;
use crate::model::Key;
use crate::index::path_str;
use crate::index::TableIndex;
use crate::util::NAME_SIZE;

verus! {

/// The six bytes every table starts with: `RESTBL`.
pub const MAGIC: [u8; 6] = [0x52, 0x45, 0x53, 0x54, 0x42, 0x4c];

/// The byte length of the magic and the header fields.
pub const HEADER_SIZE: usize = 22;

/// The byte length of a hash record.
pub const HASH_ENTRY_SIZE: usize = 8;

/// The byte length of a name record.
pub const NAME_ENTRY_SIZE: usize = 164;

/// The magic as a sequence.
pub open spec fn magic() -> Seq<u8> {
    seq![0x52u8, 0x45u8, 0x53u8, 0x54u8, 0x42u8, 0x4cu8]
}

/// The four header fields that follow the magic.
#[derive(Debug, Clone, Copy)]
pub struct Header {
    pub version: u32,
    pub string_block_size: u32,
    pub crc_table_count: u32,
    pub name_table_count: u32,
}

/// The 22 bytes of a header: the magic, then the four fields.
pub open spec fn header_bytes(header: Header) -> Seq<u8> {
    magic() + le_bytes(header.version) + le_bytes(header.string_block_size) + le_bytes(
        header.crc_table_count,
    ) + le_bytes(header.name_table_count)
}

/// The first six bytes of a file.
pub open spec fn first_six(data: Seq<u8>) -> [u8; 6]
    recommends
        data.len() >= 6,
{
    [data[0], data[1], data[2], data[3], data[4], data[5]]
}

/// What the start of a file decodes to.
pub open spec fn parse_header(data: Seq<u8>) -> Result<Header, Error> {
    if data.len() < HEADER_SIZE {
        Err(Error::InsufficientData(data.len() as usize, "0x16 bytes for header"))
    } else if data.take(6) != magic() {
        Err(Error::InvalidMagic(first_six(data)))
    } else {
        Ok(
            Header {
                version: le_u32(data.subrange(6, 10)),
                string_block_size: le_u32(data.subrange(10, 14)),
                crc_table_count: le_u32(data.subrange(14, 18)),
                name_table_count: le_u32(data.subrange(18, 22)),
            },
        )
    }
}

impl Header {
    /// The version of the format.
    pub fn version(&self) -> (v: u32)
        ensures
            v == self.version,
    {
        self.version
    }

    /// The byte length of a name field.
    pub fn string_block_size(&self) -> (v: u32)
        ensures
            v == self.string_block_size,
    {
        self.string_block_size
    }

    /// The number of hash records.
    pub fn crc_table_count(&self) -> (v: u32)
        ensures
            v == self.crc_table_count,
    {
        self.crc_table_count
    }

    /// The number of name records.
    pub fn name_table_count(&self) -> (v: u32)
        ensures
            v == self.name_table_count,
    {
        self.name_table_count
    }

    /// Decodes the header at the start of `data`.
    pub fn read(data: &[u8]) -> (r: Result<Header, Error>)
        ensures
            r == parse_header(data@),
    {
        if data.len() < HEADER_SIZE {
            return Err(Error::InsufficientData(data.len(), "0x16 bytes for header"));
        }
        let found: [u8; 6] = [data[0], data[1], data[2], data[3], data[4], data[5]];
        proof {
            assert(found =~= first_six(data@));
            assert(MAGIC@ =~= magic());
        }
        let mut i: usize = 0;
        while i < 6
            invariant
                i <= 6,
                data@.len() >= HEADER_SIZE,
                found == first_six(data@),
                MAGIC@ == magic(),
                forall|k: int| 0 <= k < i ==> data@[k] == magic()[k],
            decreases 6 - i,
        {
            if data[i] != MAGIC[i] {
                proof {
                    assert(data@.take(6)[i as int] != magic()[i as int]);
                }
                return Err(Error::InvalidMagic(found));
            }
            i += 1;
        }
        proof {
            assert(data@.take(6) =~= magic());
        }
        let version = read_stored(data, 6);
        let string_block_size = read_stored(data, 10);
        let crc_table_count = read_stored(data, 14);
        let name_table_count = read_stored(data, 18);
        Ok(Header { version, string_block_size, crc_table_count, name_table_count })
    }

    /// Encodes the header over the first 22 bytes of `buffer`.
    pub fn write(self, buffer: &mut [u8])
        requires
            old(buffer)@.len() >= HEADER_SIZE,
        ensures
            final(buffer)@ == splice(old(buffer)@, 0, header_bytes(self)),
    {
        copy_into(buffer, 0, MAGIC.as_slice());
        write_u32(buffer, 6, self.version);
        write_u32(buffer, 10, self.string_block_size);
        write_u32(buffer, 14, self.crc_table_count);
        write_u32(buffer, 18, self.name_table_count);
        proof {
            assert(MAGIC@ =~= magic());
            assert(buffer@ =~= splice(old(buffer)@, 0, header_bytes(self)));
        }
    }
}

/// A record of the hash sub-table: the CRC-32 of a path, and its size.
#[derive(Debug, Clone, Copy, PartialEq, Eq, Structural)]
pub struct HashEntry {
    pub hash: u32,
    pub value: u32,
}

/// The 8 bytes of a hash record.
pub open spec fn hash_entry_bytes(entry: HashEntry) -> Seq<u8> {
    le_bytes(entry.hash) + le_bytes(entry.value)
}

/// What the start of a buffer decodes to as a hash record.
pub open spec fn parse_hash_entry(data: Seq<u8>) -> Result<HashEntry, Error> {
    if data.len() < HASH_ENTRY_SIZE {
        Err(Error::InsufficientData(data.len() as usize, "8 bytes for HashEntry"))
    } else {
        Ok(HashEntry { hash: le_u32(data.subrange(0, 4)), value: le_u32(data.subrange(4, 8)) })
    }
}

impl HashEntry {
    /// Decodes the hash record at the start of `buffer`.
    pub fn read(buffer: &[u8]) -> (r: Result<HashEntry, Error>)
        ensures
            r == parse_hash_entry(buffer@),
    {
        if buffer.len() < HASH_ENTRY_SIZE {
            Err(Error::InsufficientData(buffer.len(), "8 bytes for HashEntry"))
        } else {
            let hash = read_stored(buffer, 0);
            let value = read_stored(buffer, 4);
            Ok(HashEntry { hash, value })
        }
    }

    /// Encodes the record over the first 8 bytes of `buffer`.
    pub fn write(self, buffer: &mut [u8])
        requires
            old(buffer)@.len() >= HASH_ENTRY_SIZE,
        ensures
            final(buffer)@ == splice(old(buffer)@, 0, hash_entry_bytes(self)),
    {
        write_u32(buffer, 0, self.hash);
        write_u32(buffer, 4, self.value);
        proof {
            assert(buffer@ =~= splice(old(buffer)@, 0, hash_entry_bytes(self)));
        }
    }

    /// The hash of the path.
    /// The hash of the path.
    pub fn hash(&self) -> (h: u32)
        ensures
            h == self.hash,
    {
        self.hash
    }

    /// The size of the resource.
    pub fn value(&self) -> (v: u32)
        ensures
            v == self.value,
    {
        self.value
    }
}

/// A record of the name sub-table: a path, and its size.
#[derive(Debug, Clone, Copy)]
pub struct NameEntry {
    pub name: Name,
    pub value: u32,
}

/// The 164 bytes of a name record.
pub open spec fn name_entry_bytes(entry: NameEntry) -> Seq<u8> {
    entry.name.field() + le_bytes(entry.value)
}

/// What the start of a buffer decodes to as a name record.
pub open spec fn parse_name_entry(data: Seq<u8>) -> Result<NameEntry, Error> {
    if data.len() < NAME_ENTRY_SIZE {
        Err(Error::InsufficientData(data.len() as usize, "0x4a bytes for NameEntry"))
    } else {
        match Name::decode(data.take(NAME_SIZE as int)) {
            Ok(name) => Ok(NameEntry { name, value: le_u32(data.subrange(160, 164)) }),
            Err(e) => Err(e),
        }
    }
}

impl NameEntry {
    /// Decodes the name record at the start of `buffer`.
    pub fn read(buffer: &[u8]) -> (r: Result<NameEntry, Error>)
        ensures
            r == parse_name_entry(buffer@),
            r matches Ok(entry) ==> entry.name.wf(),
    {
        if buffer.len() < NAME_ENTRY_SIZE {
            Err(Error::InsufficientData(buffer.len(), "0x4a bytes for NameEntry"))
        } else {
            let field = vstd::slice::slice_subrange(buffer, 0, NAME_SIZE);
            proof {
                assert(field@ =~= buffer@.take(NAME_SIZE as int));
            }
            match Name::from_bytes(field) {
                Ok(name) => {
                    let value = read_stored(buffer, NAME_SIZE);
                    Ok(NameEntry { name, value })
                },
                Err(e) => Err(e),
            }
        }
    }

    /// Encodes the record over the first 164 bytes of `buffer`.
    pub fn write(self, buffer: &mut [u8])
        requires
            old(buffer)@.len() >= NAME_ENTRY_SIZE,
        ensures
            final(buffer)@ == splice(old(buffer)@, 0, name_entry_bytes(self)),
    {
        let field = self.name.as_field();
        copy_into(buffer, 0, field);
        write_u32(buffer, NAME_SIZE, self.value);
        proof {
            assert(buffer@ =~= splice(old(buffer)@, 0, name_entry_bytes(self)));
        }
    }

    /// The path.
    pub fn name(&self) -> (n: Name)
        ensures
            n == self.name,
    {
        self.name
    }

    /// The size of the resource.
    pub fn value(&self) -> (v: u32)
        ensures
            v == self.value,
    {
        self.value
    }
}

impl PartialEq for NameEntry {
    fn eq(&self, other: &NameEntry) -> (r: bool) {
        self.name == other.name && self.value == other.value
    }
}

impl PartialEqSpecImpl for NameEntry {
    open spec fn obeys_eq_spec() -> bool {
        true
    }

    open spec fn eq_spec(&self, other: &NameEntry) -> bool {
        self.name@ == other.name@ && self.value == other.value
    }
}

impl Eq for NameEntry {

}

/// A record of either sub-table.
#[derive(Debug, Copy, Clone)]
pub enum TableEntry {
    Hash(HashEntry),
    Name(NameEntry),
}

impl PartialEq for TableEntry {
    fn eq(&self, other: &TableEntry) -> (r: bool) {
        match (self, other) {
            (TableEntry::Hash(a), TableEntry::Hash(b)) => a.hash == b.hash && a.value == b.value,
            (TableEntry::Name(a), TableEntry::Name(b)) => a == b,
            _ => false,
        }
    }
}

impl PartialEqSpecImpl for TableEntry {
    open spec fn obeys_eq_spec() -> bool {
        true
    }

    open spec fn eq_spec(&self, other: &TableEntry) -> bool {
        match (*self, *other) {
            (TableEntry::Hash(a), TableEntry::Hash(b)) => a == b,
            (TableEntry::Name(a), TableEntry::Name(b)) => a.name@ == b.name@ && a.value
                == b.value,
            _ => false,
        }
    }
}

impl Eq for TableEntry {

}

impl TableEntry {
    /// The size that the record holds.
    pub open spec fn spec_value(self) -> u32 {
        match self {
            TableEntry::Hash(entry) => entry.value,
            TableEntry::Name(entry) => entry.value,
        }
    }

    /// The size that the record holds.
    pub fn value(&self) -> (v: u32)
        ensures
            v == self.spec_value(),
    {
        match self {
            TableEntry::Hash(entry) => entry.value,
            TableEntry::Name(entry) => entry.value,
        }
    }
}

/// The size of a record, if there is a record.
pub open spec fn value_of(entry: Option<TableEntry>) -> Option<u32> {
    match entry {
        Some(entry) => Some(entry.spec_value()),
        None => None,
    }
}

/// The byte length of a table with the record counts of `header`.
pub open spec fn table_size(header: Header) -> int {
    HEADER_SIZE + HASH_ENTRY_SIZE * header.crc_table_count + NAME_ENTRY_SIZE
        * header.name_table_count
}

/// What a file decodes to: its header, if the file is long enough for the
/// records that the header announces.
pub open spec fn parse_table(data: Seq<u8>) -> Result<Header, Error> {
    match parse_header(data) {
        Err(e) => Err(e),
        Ok(header) => if data.len() < table_size(header) {
            Err(Error::InvalidTableSize(data.len() as usize, table_size(header) as u64))
        } else {
            Ok(header)
        },
    }
}

/// The hash record with index `i`.
pub open spec fn hash_entry_at(data: Seq<u8>, i: int) -> HashEntry {
    let at = HEADER_SIZE + HASH_ENTRY_SIZE * i;
    HashEntry { hash: le_u32(data.subrange(at, at + 4)), value: le_u32(data.subrange(at + 4, at + 8)) }
}

/// Where the name sub-table starts.
pub open spec fn names_start(header: Header) -> int {
    HEADER_SIZE + HASH_ENTRY_SIZE * header.crc_table_count
}

/// What the name record with index `j` decodes to.
pub open spec fn name_entry_at(data: Seq<u8>, header: Header, j: int) -> Result<NameEntry, Error> {
    let at = names_start(header) + NAME_ENTRY_SIZE * j;
    parse_name_entry(data.subrange(at, at + NAME_ENTRY_SIZE))
}

/// The number of name records from index `from` on up to the first that
/// does not decode, added to `from`.
pub open spec fn decodable_from(data: Seq<u8>, header: Header, from: int) -> int
    decreases header.name_table_count - from,
{
    if from >= header.name_table_count || name_entry_at(data, header, from) is Err {
        from
    } else {
        decodable_from(data, header, from + 1)
    }
}

/// Only one count has all name records before it decode and the record at
/// it, if there is one, fail.
pub proof fn lemma_decodable_is(data: Seq<u8>, header: Header, from: int, count: int)
    requires
        0 <= from <= count <= header.name_table_count,
        forall|j: int| from <= j < count ==> name_entry_at(data, header, j) is Ok,
        count < header.name_table_count ==> name_entry_at(data, header, count) is Err,
    ensures
        decodable_from(data, header, from) == count,
    decreases count - from,
{
    if from < count {
        lemma_decodable_is(data, header, from + 1, count);
    }
}

/// All name records before the count decode, and the record at it, if
/// there is one, fails.
pub proof fn lemma_decodable(data: Seq<u8>, header: Header, from: int)
    requires
        0 <= from <= header.name_table_count,
    ensures
        from <= decodable_from(data, header, from) <= header.name_table_count,
        forall|j: int|
            from <= j < decodable_from(data, header, from) ==> name_entry_at(data, header, j)
                is Ok,
        decodable_from(data, header, from) < header.name_table_count ==> name_entry_at(
            data,
            header,
            decodable_from(data, header, from),
        ) is Err,
    decreases header.name_table_count - from,
{
    if from < header.name_table_count && name_entry_at(data, header, from) is Ok {
        lemma_decodable(data, header, from + 1);
    }
}

/// A read-only view of a table in a byte buffer, checked once when it is
/// made and never copied.
pub struct ResTblReader<'a> {
    data: &'a [u8],
    header: Header,
}

impl<'a> ResTblReader<'a> {
    /// The bytes of the file.
    pub closed spec fn bytes(&self) -> Seq<u8> {
        self.data@
    }

    /// The header that was read.
    pub closed spec fn spec_header(&self) -> Header {
        self.header
    }

    /// The header is the one that the bytes hold, and the bytes hold all
    /// the records that it announces.
    pub open spec fn wf(&self) -> bool {
        parse_table(self.bytes()) == Ok::<Header, Error>(self.spec_header())
    }

    /// What holds of every reader: it is well-formed.
    #[verifier::type_invariant]
    pub closed spec fn inv(&self) -> bool {
        self.wf()
    }

    /// What holds of every reader makes it well-formed, and its buffer,
    /// which holds every record, is no longer than a slice can be.
    pub proof fn lemma_wf(&self)
        requires
            self.inv(),
        ensures
            self.wf(),
            table_size(self.spec_header()) <= self.bytes().len() <= usize::MAX,
    {
        vstd::slice::axiom_spec_len(self.data);
    }

    /// The number of hash records.
    pub open spec fn hash_count(&self) -> int {
        self.spec_header().crc_table_count as int
    }

    /// The number of name records.
    pub open spec fn name_count(&self) -> int {
        self.spec_header().name_table_count as int
    }

    /// The hash record with index `i`.
    pub open spec fn hash_at(&self, i: int) -> HashEntry {
        hash_entry_at(self.bytes(), i)
    }

    /// What the name record with index `j` decodes to.
    pub open spec fn name_at(&self, j: int) -> Result<NameEntry, Error> {
        name_entry_at(self.bytes(), self.spec_header(), j)
    }

    /// The number of name records before the first that does not decode.
    pub open spec fn decodable(&self) -> int {
        decodable_from(self.bytes(), self.spec_header(), 0)
    }

    /// The records that iteration yields: every hash record, then the name
    /// records up to the first that does not decode.
    pub open spec fn entries(&self) -> Seq<TableEntry> {
        Seq::new(
            (self.hash_count() + self.decodable()) as nat,
            |i: int|
                if i < self.hash_count() {
                    TableEntry::Hash(self.hash_at(i))
                } else {
                    TableEntry::Name(self.name_at(i - self.hash_count())->Ok_0)
                },
        )
    }

    /// The hash records are in strictly ascending order of their hashes.
    pub open spec fn hashes_sorted(&self) -> bool {
        forall|i: int, j: int|
            0 <= i < j < self.hash_count() ==> self.hash_at(i).hash < self.hash_at(j).hash
    }

    /// Every name record decodes, and they are in strictly ascending order
    /// of their names.
    pub open spec fn names_sorted(&self) -> bool {
        &&& forall|j: int| 0 <= j < self.name_count() ==> self.name_at(j) is Ok
        &&& forall|i: int, j: int|
            0 <= i < j < self.name_count() ==> lex_less(
                self.name_at(i)->Ok_0.name@,
                self.name_at(j)->Ok_0.name@,
            )
    }

    /// Some hash record has the hash `hash`.
    pub open spec fn has_hash(&self, hash: u32) -> bool {
        exists|i: int| 0 <= i < self.hash_count() && self.hash_at(i).hash == hash
    }

    /// A hash record with the hash `hash`, where there is one.
    pub open spec fn hash_entry(&self, hash: u32) -> Option<HashEntry> {
        if self.has_hash(hash) {
            Some(
                self.hash_at(
                    choose|i: int| 0 <= i < self.hash_count() && self.hash_at(i).hash == hash,
                ),
            )
        } else {
            None
        }
    }

    /// Some name record decodes to the name `name`.
    pub open spec fn has_name(&self, name: Seq<u8>) -> bool {
        exists|j: int|
            0 <= j < self.name_count() && self.name_at(j) is Ok && self.name_at(j)->Ok_0.name@
                == name
    }

    /// A name record with the name `name`, where there is one.
    pub open spec fn name_entry(&self, name: Seq<u8>) -> Option<NameEntry> {
        if self.has_name(name) {
            Some(
                self.name_at(
                    choose|j: int|
                        0 <= j < self.name_count() && self.name_at(j) is Ok && self.name_at(
                            j,
                        )->Ok_0.name@ == name,
                )->Ok_0,
            )
        } else {
            None
        }
    }

    /// What a binary search for `hash` among the hash records from `start`
    /// up to `end` finds, whatever their order.
    pub open spec fn search_hashes(&self, hash: u32, start: int, end: int) -> Option<HashEntry>
        decreases end - start,
    {
        if start >= end {
            None
        } else {
            let mid = start + (end - start) / 2;
            let entry = self.hash_at(mid);
            if entry.hash < hash {
                self.search_hashes(hash, mid + 1, end)
            } else if entry.hash > hash {
                self.search_hashes(hash, start, mid)
            } else {
                Some(entry)
            }
        }
    }

    /// What a binary search for `name` among the name records from `start`
    /// up to `end` finds, whatever their order: a record that does not
    /// decode ends the search.
    pub open spec fn search_names(&self, name: Seq<u8>, start: int, end: int) -> Option<NameEntry>
        decreases end - start,
    {
        if start >= end {
            None
        } else {
            let mid = start + (end - start) / 2;
            match self.name_at(mid) {
                Err(_) => None,
                Ok(entry) => match position(entry.name@, name) {
                    Position::Before => self.search_names(name, mid + 1, end),
                    Position::After => self.search_names(name, start, mid),
                    Position::Same => Some(entry),
                },
            }
        }
    }

    /// Checks the header and the length of `data` and makes a reader of it.
    pub fn new(data: &'a [u8]) -> (r: Result<ResTblReader<'a>, Error>)
        ensures
            match parse_table(data@) {
                Ok(header) => r is Ok && r->Ok_0.bytes() == data@ && r->Ok_0.spec_header()
                    == header && r->Ok_0.wf(),
                Err(e) => r is Err && r->Err_0 == e,
            },
    {
        let header = match Header::read(data) {
            Ok(header) => header,
            Err(e) => { return Err(e); },
        };
        let expected: u64 = 22 + 8 * (header.crc_table_count as u64) + 164
            * (header.name_table_count as u64);
        if (data.len() as u64) < expected {
            Err(Error::InvalidTableSize(data.len(), expected))
        } else {
            Ok(ResTblReader { data, header })
        }
    }

    /// The header of the file.
    pub fn header(&self) -> (h: &Header)
        ensures
            *h == self.spec_header(),
            self.wf(),
    {
        proof {
            use_type_invariant(self);
        }
        &self.header
    }

    /// The number of records, hash and name records together.
    pub fn len(&self) -> (n: usize)
        ensures
            n == self.hash_count() + self.name_count(),
    {
        proof {
            use_type_invariant(self);
            self.lemma_wf();
        }
        self.header.crc_table_count as usize + self.header.name_table_count as usize
    }

    /// Whether the table has no records.
    pub fn is_empty(&self) -> (b: bool)
        ensures
            b == (self.hash_count() + self.name_count() == 0),
    {
        self.len() == 0
    }

    /// Where the name sub-table starts.
    pub fn name_table_offset(&self) -> (at: usize)
        ensures
            at == names_start(self.spec_header()),
    {
        proof {
            use_type_invariant(self);
            self.lemma_wf();
        }
        HEADER_SIZE + self.header.crc_table_count as usize * HASH_ENTRY_SIZE
    }

    /// `index`, if it is the index of a hash record.
    pub fn hash_table_index(&self, index: usize) -> (r: Option<usize>)
        ensures
            r == if index < self.hash_count() {
                Some(index)
            } else {
                None
            },
    {
        if index < self.header.crc_table_count as usize {
            Some(index)
        } else {
            None
        }
    }

    /// Decodes the hash record with index `index`.
    pub fn parse_hash_entry(&self, index: usize) -> (entry: HashEntry)
        requires
            index < self.hash_count(),
        ensures
            entry == self.hash_at(index as int),
    {
        proof {
            use_type_invariant(self);
            self.lemma_wf();
        }
        let start: usize = HEADER_SIZE + index * HASH_ENTRY_SIZE;
        let hash = read_stored(self.data, start);
        let value = read_stored(self.data, start + 4);
        HashEntry { hash, value }
    }

    /// Decodes the name record with index `index`.
    pub fn parse_name_entry(&self, index: usize) -> (r: Result<NameEntry, Error>)
        requires
            index < self.name_count(),
        ensures
            r == self.name_at(index as int),
            r matches Ok(entry) ==> entry.name.wf(),
    {
        proof {
            use_type_invariant(self);
            self.lemma_wf();
        }
        let start: usize = self.name_table_offset() + index * NAME_ENTRY_SIZE;
        let end: usize = start + NAME_ENTRY_SIZE;
        NameEntry::read(vstd::slice::slice_subrange(self.data, start, end))
    }

    /// Looks for the hash record of `hash` by binary search.
    pub fn find_hash_entry(&self, hash: u32) -> (r: Option<HashEntry>)
        ensures
            r == self.search_hashes(hash, 0, self.hash_count()),
            r matches Some(entry) ==> entry.hash == hash && exists|i: int|
                0 <= i < self.hash_count() && self.hash_at(i) == entry,
            self.hashes_sorted() ==> r == self.hash_entry(hash),
    {
        proof {
            if self.hashes_sorted() {
                self.lemma_search_hashes(hash, 0, self.hash_count());
            }
        }
        let mut start: usize = 0;
        let mut end: usize = self.header.crc_table_count as usize;
        while start < end
            invariant
                start <= end <= self.hash_count(),
                self.search_hashes(hash, start as int, end as int) == self.search_hashes(
                    hash,
                    0,
                    self.hash_count(),
                ),
            decreases end - start,
        {
            let mid: usize = start + (end - start) / 2;
            let entry = self.parse_hash_entry(mid);
            if entry.hash < hash {
                start = mid + 1;
            } else if entry.hash > hash {
                end = mid;
            } else {
                return Some(entry);
            }
        }
        None
    }

    /// Looks for the name record of `name` by binary search. A record that
    /// does not decode ends the search.
    pub fn find_name_entry(&self, name: &str) -> (r: Option<NameEntry>)
        ensures
            r == self.search_names(name.spec_bytes(), 0, self.name_count()),
            r matches Some(entry) ==> entry.name@ == name.spec_bytes() && entry.name.wf()
                && exists|j: int|
                0 <= j < self.name_count() && self.name_at(j) == Ok::<NameEntry, Error>(entry),
            self.names_sorted() ==> r == self.name_entry(name.spec_bytes()),
    {
        let path = name.as_bytes();
        proof {
            if self.names_sorted() {
                self.lemma_search_names(path@, 0, self.name_count());
            }
        }
        let mut start: usize = 0;
        let mut end: usize = self.header.name_table_count as usize;
        while start < end
            invariant
                start <= end <= self.name_count(),
                path@ == name.spec_bytes(),
                self.search_names(path@, start as int, end as int) == self.search_names(
                    path@,
                    0,
                    self.name_count(),
                ),
            decreases end - start,
        {
            let mid: usize = start + (end - start) / 2;
            let entry = match self.parse_name_entry(mid) {
                Ok(entry) => entry,
                Err(_) => {
                    return None;
                },
            };
            match entry.name.compare(path) {
                Position::Before => {
                    start = mid + 1;
                },
                Position::After => {
                    end = mid;
                },
                Position::Same => {
                    proof {
                        crate::order::lemma_lex_irreflexive(path@);
                    }
                    return Some(entry);
                },
            }
        }
        None
    }

    /// Both sub-tables are in canonical order and every name decodes.
    pub open spec fn sorted(&self) -> bool {
        self.hashes_sorted() && self.names_sorted()
    }

    /// `entry` is a record of the table that `key` may be answered with: a
    /// name record with the path of `key`, or a hash record with its hash.
    pub open spec fn holds(&self, key: Key, entry: TableEntry) -> bool {
        match entry {
            TableEntry::Hash(found) => {
                &&& exists|i: int| 0 <= i < self.hash_count() && self.hash_at(i) == found
                &&& match key {
                    Key::Hash(hash) => found.hash == hash,
                    Key::Path(path) => found.hash == spec_hash(path),
                }
            },
            TableEntry::Name(found) => {
                &&& exists|j: int|
                    0 <= j < self.name_count() && self.name_at(j) == Ok::<NameEntry, Error>(found)
                &&& key == Key::Path(found.name@)
            },
        }
    }

    /// The record that answers `key` in a sorted table: for a path the name
    /// record of that path, or else the hash record of its hash; for a hash
    /// the hash record of that hash.
    pub open spec fn lookup_entry(&self, key: Key) -> Option<TableEntry> {
        match key {
            Key::Hash(hash) => match self.hash_entry(hash) {
                Some(entry) => Some(TableEntry::Hash(entry)),
                None => None,
            },
            Key::Path(path) => match self.name_entry(path) {
                Some(entry) => Some(TableEntry::Name(entry)),
                None => match self.hash_entry(spec_hash(path)) {
                    Some(entry) => Some(TableEntry::Hash(entry)),
                    None => None,
                },
            },
        }
    }

    /// The size that answers `key` in a sorted table.
    pub open spec fn lookup(&self, key: Key) -> Option<u32> {
        value_of(self.lookup_entry(key))
    }

    /// What the searches find for `key`, whatever the order of the
    /// records: for a path what the search among the names finds, or else
    /// what the search for its hash finds; for a hash what the search for
    /// it finds.
    pub open spec fn find(&self, key: Key) -> Option<TableEntry> {
        match key {
            Key::Hash(hash) => match self.search_hashes(hash, 0, self.hash_count()) {
                Some(entry) => Some(TableEntry::Hash(entry)),
                None => None,
            },
            Key::Path(path) => match self.search_names(path, 0, self.name_count()) {
                Some(entry) => Some(TableEntry::Name(entry)),
                None => match self.search_hashes(spec_hash(path), 0, self.hash_count()) {
                    Some(entry) => Some(TableEntry::Hash(entry)),
                    None => None,
                },
            },
        }
    }

    /// What a search for `key` returns: what the searches find, which is
    /// only ever a record that the table holds for the key, and in a sorted
    /// table the record that answers it.
    pub open spec fn answers(&self, key: Key, found: Option<TableEntry>) -> bool {
        &&& found == self.find(key)
        &&& found matches Some(entry) ==> self.holds(key, entry)
        &&& self.sorted() ==> found == self.lookup_entry(key)
    }

    /// Looks for the record of `needle`: for a path first among the names,
    /// then by its hash; for a hash among the hashes only.
    pub fn find_entry(&self, needle: &TableIndex<'_>) -> (r: Option<TableEntry>)
        ensures
            self.answers(needle.key(), r),
    {
        match needle {
            TableIndex::HashIndex(hash) => match self.find_hash_entry(*hash) {
                Some(entry) => Some(TableEntry::Hash(entry)),
                None => None,
            },
            TableIndex::StringIndex(path) => {
                let path = path_str(path);
                match self.find_name_entry(path) {
                    Some(entry) => Some(TableEntry::Name(entry)),
                    None => match self.find_hash_entry(hash_name(path)) {
                        Some(entry) => Some(TableEntry::Hash(entry)),
                        None => None,
                    },
                }
            },
        }
    }

    /// Whether the table holds a record for `needle`.
    pub fn contains<'i, I: Into<TableIndex<'i>>>(&self, needle: I) -> (r: bool)
        ensures
            I::obeys_into_spec() ==> r == (self.find(needle.into_spec().key()) is Some)
                && self.answers(needle.into_spec().key(), self.find(needle.into_spec().key())),
            I::obeys_into_spec() && self.sorted() ==> r == (self.lookup(
                needle.into_spec().key(),
            ) is Some),
    {
        let index: TableIndex<'i> = needle.into();
        self.find_entry(&index).is_some()
    }

    /// The size that the table holds for `needle`.
    pub fn get<'i, I: Into<TableIndex<'i>>>(&self, needle: I) -> (r: Option<u32>)
        ensures
            I::obeys_into_spec() ==> r == value_of(self.find(needle.into_spec().key()))
                && self.answers(needle.into_spec().key(), self.find(needle.into_spec().key())),
            I::obeys_into_spec() && self.sorted() ==> r == self.lookup(needle.into_spec().key()),
    {
        let index: TableIndex<'i> = needle.into();
        match self.find_entry(&index) {
            Some(entry) => Some(entry.value()),
            None => None,
        }
    }

    /// The record that the table holds for `needle`.
    pub fn get_entry<'i, I: Into<TableIndex<'i>>>(&self, needle: I) -> (r: Option<TableEntry>)
        ensures
            I::obeys_into_spec() ==> self.answers(needle.into_spec().key(), r),
    {
        let index: TableIndex<'i> = needle.into();
        self.find_entry(&index)
    }

    /// An iterator over the records, from the first hash record on.
    pub fn iter(&self) -> (it: ResTblIterator<'_>)
        ensures
            it.table() == self,
            it.position() == 0,
    {
        proof {
            use_type_invariant(self);
            lemma_decodable(self.bytes(), self.spec_header(), 0);
        }
        ResTblIterator { table: self, index: 0 }
    }

    /// Among sorted hash records the binary search finds the record of a
    /// hash exactly when there is one.
    pub proof fn lemma_search_hashes(&self, hash: u32, start: int, end: int)
        requires
            self.hashes_sorted(),
            0 <= start <= end <= self.hash_count(),
            forall|i: int| 0 <= i < start ==> self.hash_at(i).hash < hash,
            forall|i: int| end <= i < self.hash_count() ==> self.hash_at(i).hash > hash,
        ensures
            self.search_hashes(hash, start, end) == self.hash_entry(hash),
        decreases end - start,
    {
        if start < end {
            let mid = start + (end - start) / 2;
            let entry = self.hash_at(mid);
            if entry.hash < hash {
                assert forall|i: int| 0 <= i < mid + 1 implies self.hash_at(i).hash < hash by {
                    if i < mid {
                        assert(self.hash_at(i).hash < self.hash_at(mid).hash);
                    }
                }
                self.lemma_search_hashes(hash, mid + 1, end);
            } else if entry.hash > hash {
                assert forall|i: int| mid <= i < self.hash_count() implies self.hash_at(i).hash
                    > hash by {
                    if i > mid {
                        assert(self.hash_at(mid).hash < self.hash_at(i).hash);
                    }
                }
                self.lemma_search_hashes(hash, start, mid);
            } else {
                assert(self.has_hash(hash));
                let found = choose|i: int| 0 <= i < self.hash_count() && self.hash_at(i).hash == hash;
                if found < mid {
                    assert(self.hash_at(found).hash < self.hash_at(mid).hash);
                } else if mid < found {
                    assert(self.hash_at(mid).hash < self.hash_at(found).hash);
                }
            }
        } else {
            if self.has_hash(hash) {
                let found = choose|i: int| 0 <= i < self.hash_count() && self.hash_at(i).hash == hash;
                assert(found < start || found >= end);
            }
        }
    }

    /// Among sorted name records the binary search finds the record of a
    /// name exactly when there is one.
    pub proof fn lemma_search_names(&self, name: Seq<u8>, start: int, end: int)
        requires
            self.names_sorted(),
            0 <= start <= end <= self.name_count(),
            forall|j: int| 0 <= j < start ==> lex_less(self.name_at(j)->Ok_0.name@, name),
            forall|j: int|
                end <= j < self.name_count() ==> lex_less(name, self.name_at(j)->Ok_0.name@),
        ensures
            self.search_names(name, start, end) == self.name_entry(name),
        decreases end - start,
    {
        if start < end {
            let mid = start + (end - start) / 2;
            assert(self.name_at(mid) is Ok);
            let entry = self.name_at(mid)->Ok_0;
            match position(entry.name@, name) {
                Position::Before => {
                    assert forall|j: int| 0 <= j < mid + 1 implies lex_less(
                        self.name_at(j)->Ok_0.name@,
                        name,
                    ) by {
                        if j < mid {
                            crate::order::lemma_lex_transitive(
                                self.name_at(j)->Ok_0.name@,
                                entry.name@,
                                name,
                            );
                        }
                    }
                    self.lemma_search_names(name, mid + 1, end);
                },
                Position::After => {
                    crate::order::lemma_lex_total(entry.name@, name);
                    assert forall|j: int| mid <= j < self.name_count() implies lex_less(
                        name,
                        self.name_at(j)->Ok_0.name@,
                    ) by {
                        if j > mid {
                            crate::order::lemma_lex_transitive(
                                name,
                                entry.name@,
                                self.name_at(j)->Ok_0.name@,
                            );
                        }
                    }
                    self.lemma_search_names(name, start, mid);
                },
                Position::Same => {
                    self.lemma_name_unique(mid);
                },
            }
        } else {
            if self.has_name(name) {
                let found = choose|j: int|
                    0 <= j < self.name_count() && self.name_at(j) is Ok && self.name_at(
                        j,
                    )->Ok_0.name@ == name;
                crate::order::lemma_lex_irreflexive(name);
            }
        }
    }

    /// In a sorted table the searches find the record that answers a key.
    pub proof fn lemma_find_sorted(&self, key: Key)
        requires
            self.wf(),
            self.sorted(),
        ensures
            self.find(key) == self.lookup_entry(key),
    {
        match key {
            Key::Hash(hash) => {
                self.lemma_search_hashes(hash, 0, self.hash_count());
            },
            Key::Path(path) => {
                self.lemma_search_names(path, 0, self.name_count());
                self.lemma_search_hashes(spec_hash(path), 0, self.hash_count());
            },
        }
    }

    /// In a sorted name sub-table only one record has a given name.
    pub proof fn lemma_name_unique(&self, j: int)
        requires
            self.names_sorted(),
            0 <= j < self.name_count(),
        ensures
            self.name_entry(self.name_at(j)->Ok_0.name@) == Some(self.name_at(j)->Ok_0),
    {
        let name = self.name_at(j)->Ok_0.name@;
        assert(self.has_name(name));
        let k = choose|k: int|
            0 <= k < self.name_count() && self.name_at(k) is Ok && self.name_at(k)->Ok_0.name@
                == name;
        crate::order::lemma_lex_irreflexive(name);
        if k < j {
            assert(lex_less(self.name_at(k)->Ok_0.name@, self.name_at(j)->Ok_0.name@));
        } else if j < k {
            assert(lex_less(self.name_at(j)->Ok_0.name@, self.name_at(k)->Ok_0.name@));
        }
    }
}

/// Walks the records of a reader: the hash records, then the name records
/// up to the first that does not decode.
pub struct ResTblIterator<'a> {
    table: &'a ResTblReader<'a>,
    index: usize,
}

impl<'a> ResTblIterator<'a> {
    /// The reader whose records are walked.
    pub closed spec fn table(&self) -> &'a ResTblReader<'a> {
        self.table
    }

    /// The number of records yielded so far.
    pub closed spec fn position(&self) -> int {
        self.index as int
    }

    /// The reader is well-formed, and no more records were yielded than
    /// there are to yield.
    /// The reader is well-formed, and no more records were yielded than
    /// there are to yield.
    #[verifier::type_invariant]
    spec fn inv(&self) -> bool {
        &&& self.table.wf()
        &&& 0 <= self.index <= self.table.entries().len()
    }

    /// The next record, or none when the records are exhausted or the next
    /// name record does not decode.
    pub fn next(&mut self) -> (r: Option<TableEntry>)
        ensures
            final(self).table() == old(self).table(),
            old(self).position() <= old(self).table().entries().len(),
            r == if old(self).position() < old(self).table().entries().len() {
                Some(old(self).table().entries()[old(self).position()])
            } else {
                None
            },
            final(self).position() == old(self).position() + if r is Some {
                1int
            } else {
                0int
            },
            r matches Some(TableEntry::Name(entry)) ==> entry.name.wf(),
    {
        proof {
            use_type_invariant(&*self);
            lemma_decodable(self.table.bytes(), self.table.spec_header(), 0);
        }
        let hashes: usize = self.table.header.crc_table_count as usize;
        let names: usize = self.table.header.name_table_count as usize;
        proof {
            use_type_invariant(self.table);
            self.table.lemma_wf();
        }
        if let Some(index) = self.table.hash_table_index(self.index) {
            let entry = self.table.parse_hash_entry(index);
            self.index += 1;
            Some(TableEntry::Hash(entry))
        } else if self.index - hashes < names {
            match self.table.parse_name_entry(self.index - hashes) {
                Ok(entry) => {
                    self.index += 1;
                    Some(TableEntry::Name(entry))
                },
                Err(_) => None,
            }
        } else {
            None
        }
    }
}

} // verus!
