use vstd::prelude::*;
use std::collections::BTreeMap;
use crate::bin::decodable_from;
use crate::bin::hash_entry_at;
use crate::bin::hash_entry_bytes;
use crate::bin::header_bytes;
use crate::bin::lemma_decodable;
use crate::bin::name_entry_at;
use crate::bin::name_entry_bytes;
use crate::bin::parse_table;
use crate::bin::HashEntry;
use crate::bin::Header;
use crate::bin::NameEntry;
use crate::bin::ResTblReader;
use crate::bin::TableEntry;
use crate::error::Error;
use crate::listing::ascending;
use crate::model::TableModel;
use crate::names::lemma_names_listing;
use crate::names::names_listing;
use crate::names::NameTable;
use crate::table::ResourceSizeTable;
use crate::bin::names_start;
use crate::bin::parse_header;
use crate::bin::parse_name_entry;
use crate::bin::table_size;
use crate::bin::magic;
use crate::listing::hashes_ascending;
use crate::listing::lemma_listing_is_ascending;
use crate::listing::lists;
use crate::names::lemma_insert;
use crate::names::names_ascending;
use crate::names::names_map;
use crate::order::lex_less;
use crate::util::le_bytes;
use crate::util::lemma_le_decode_encode;
use crate::util::lemma_le_encode_decode;
use crate::util::name_prefix;
use crate::util::padded;
use crate::util::Name;

verus! {

/// The sizes by hash that the first `n` hash records give: where a hash
/// occurs more than once, its last record counts.
pub open spec fn hashes_upto(data: Seq<u8>, n: int) -> Map<u32, u32>
    decreases n,
{
    if n <= 0 {
        Map::empty()
    } else {
        let entry = hash_entry_at(data, n - 1);
        hashes_upto(data, n - 1).insert(entry.hash, entry.value)
    }
}

/// The sizes by name that the first `n` name records give: where a name
/// occurs more than once, its last record counts.
pub open spec fn names_upto(data: Seq<u8>, header: Header, n: int) -> Map<Seq<u8>, u32>
    decreases n,
{
    if n <= 0 {
        Map::empty()
    } else {
        let entry = name_entry_at(data, header, n - 1)->Ok_0;
        names_upto(data, header, n - 1).insert(entry.name@, entry.value)
    }
}

/// What the records of a file hold: every hash record, and the name
/// records up to the first that does not decode.
pub open spec fn decode_records(data: Seq<u8>, header: Header) -> TableModel {
    TableModel {
        hashes: hashes_upto(data, header.crc_table_count as int),
        names: names_upto(data, header, decodable_from(data, header, 0)),
    }
}

/// What a file decodes to.
pub open spec fn decode(data: Seq<u8>) -> Result<TableModel, Error> {
    match parse_table(data) {
        Ok(header) => Ok(decode_records(data, header)),
        Err(e) => Err(e),
    }
}

/// The hash records one after the other.
pub open spec fn hash_records(entries: Seq<HashEntry>) -> Seq<u8>
    decreases entries.len(),
{
    if entries.len() == 0 {
        Seq::empty()
    } else {
        hash_records(entries.drop_last()) + hash_entry_bytes(entries.last())
    }
}

/// The name records one after the other.
pub open spec fn name_records(entries: Seq<NameEntry>) -> Seq<u8>
    decreases entries.len(),
{
    if entries.len() == 0 {
        Seq::empty()
    } else {
        name_records(entries.drop_last()) + name_entry_bytes(entries.last())
    }
}

/// The header of a file with these records.
pub open spec fn header_of(hashes: Seq<HashEntry>, names: Seq<NameEntry>) -> Header {
    Header {
        version: 1,
        string_block_size: 160,
        crc_table_count: hashes.len() as u32,
        name_table_count: names.len() as u32,
    }
}

/// The file with these records: the header, the hash records, the name
/// records.
pub open spec fn encode_records(hashes: Seq<HashEntry>, names: Seq<NameEntry>) -> Seq<u8> {
    header_bytes(header_of(hashes, names)) + hash_records(hashes) + name_records(names)
}

/// What a table encodes to: its records in canonical order.
pub open spec fn encode(table: TableModel) -> Seq<u8> {
    encode_records(ascending(table.hashes), names_listing(table.names))
}

/// The first `n` hash records of a file.
pub open spec fn hash_seq(data: Seq<u8>, n: int) -> Seq<HashEntry> {
    Seq::new(n as nat, |i: int| hash_entry_at(data, i))
}

/// The first `n` name records of a file, which decode.
pub open spec fn name_seq(data: Seq<u8>, header: Header, n: int) -> Seq<NameEntry> {
    Seq::new(n as nat, |j: int| name_entry_at(data, header, j)->Ok_0)
}

/// The name field of the name record with index `j`.
pub open spec fn name_field_at(data: Seq<u8>, header: Header, j: int) -> Seq<u8> {
    let at = names_start(header) + 164 * j;
    data.subrange(at, at + 160)
}

/// A file in canonical form: it is exactly as long as its header says, it
/// has version 1 and name fields of 160 bytes, its hash records are in
/// strictly ascending order, and its name records decode, are in strictly
/// ascending order and hold only zero bytes after the name.
pub open spec fn canonical(data: Seq<u8>) -> bool {
    &&& parse_table(data) is Ok
    &&& {
        let header = parse_table(data)->Ok_0;
        &&& data.len() == table_size(header)
        &&& header.version == 1
        &&& header.string_block_size == 160
        &&& hashes_ascending(hash_seq(data, header.crc_table_count as int))
        &&& forall|j: int|
            0 <= j < header.name_table_count ==> (#[trigger] name_entry_at(data, header, j))
                is Ok
        &&& forall|i: int, j: int|
            0 <= i < j < header.name_table_count ==> lex_less(
                (#[trigger] name_entry_at(data, header, i))->Ok_0.name@,
                (#[trigger] name_entry_at(data, header, j))->Ok_0.name@,
            )
        &&& forall|j: int|
            0 <= j < header.name_table_count ==> #[trigger] name_field_at(data, header, j)
                == padded(name_prefix(name_field_at(data, header, j)))
    }
}

/// Ascending hash records are the listing of the sizes that they give.
proof fn lemma_hashes_upto(data: Seq<u8>, n: int)
    requires
        0 <= n,
        hashes_ascending(hash_seq(data, n)),
    ensures
        lists(hash_seq(data, n), hashes_upto(data, n)),
    decreases n,
{
    if n > 0 {
        let now = hash_seq(data, n);
        let before = hash_seq(data, n - 1);
        let entry = hash_entry_at(data, n - 1);
        assert forall|i: int, j: int| 0 <= i < j < before.len() implies (
        #[trigger] before[i]).hash < (#[trigger] before[j]).hash by {
            assert(before[i] == now[i]);
            assert(before[j] == now[j]);
        }
        lemma_hashes_upto(data, n - 1);
        let old_map = hashes_upto(data, n - 1);
        let map = hashes_upto(data, n);
        assert(now[n - 1] == entry);
        assert forall|i: int| 0 <= i < now.len() implies map.contains_key((#[trigger] now[i]).hash)
            && map[now[i].hash] == now[i].value by {
            if i < n - 1 {
                assert(before[i] == now[i]);
                assert(now[i].hash < now[n - 1].hash);
            }
        }
        assert forall|hash: u32| #[trigger] map.contains_key(hash) implies exists|i: int|
            0 <= i < now.len() && (#[trigger] now[i]).hash == hash by {
            if hash == entry.hash {
                assert(now[n - 1].hash == hash);
            } else {
                assert(old_map.contains_key(hash));
                let i = choose|i: int| 0 <= i < before.len() && (#[trigger] before[i]).hash == hash;
                assert(now[i] == before[i]);
            }
        }
    }
}

/// Ascending name records are well-formed records of the sizes that they
/// give.
proof fn lemma_names_upto(data: Seq<u8>, header: Header, n: int)
    requires
        0 <= n <= header.name_table_count,
        forall|j: int| 0 <= j < n ==> (#[trigger] name_entry_at(data, header, j)) is Ok,
        forall|i: int, j: int|
            0 <= i < j < n ==> lex_less(
                (#[trigger] name_entry_at(data, header, i))->Ok_0.name@,
                (#[trigger] name_entry_at(data, header, j))->Ok_0.name@,
            ),
    ensures
        names_ascending(name_seq(data, header, n)),
        names_map(name_seq(data, header, n)) == names_upto(data, header, n),
    decreases n,
{
    if n <= 0 {
        assert(names_map(name_seq(data, header, n)) =~= Map::<Seq<u8>, u32>::empty());
    } else {
        lemma_names_upto(data, header, n - 1);
        let before = name_seq(data, header, n - 1);
        let now = name_seq(data, header, n);
        let entry = name_entry_at(data, header, n - 1)->Ok_0;
        lemma_name_entry_wf(data, header, n - 1);
        assert forall|i: int| 0 <= i < n - 1 implies lex_less(
            (#[trigger] before[i]).name@,
            entry.name@,
        ) by {
            assert(before[i] == name_entry_at(data, header, i)->Ok_0);
        }
        lemma_insert(before, n - 1, entry);
        assert(now =~= before.insert(n - 1, entry));
    }
}

/// A name record that decodes holds a well-formed name: the one that its
/// field spells.
pub proof fn lemma_name_entry_wf(data: Seq<u8>, header: Header, j: int)
    requires
        name_entry_at(data, header, j) is Ok,
    ensures
        name_entry_at(data, header, j)->Ok_0.name.wf(),
{
    let at = names_start(header) + 164 * j;
    let record = data.subrange(at, at + 164);
    Name::lemma_decode(record.take(160));
}

/// The header that a file decodes to encodes to the first 22 bytes of the
/// file.
proof fn lemma_header_bytes(data: Seq<u8>)
    requires
        parse_header(data) is Ok,
    ensures
        header_bytes(parse_header(data)->Ok_0) == data.take(22),
{
    lemma_le_encode_decode(data.subrange(6, 10));
    lemma_le_encode_decode(data.subrange(10, 14));
    lemma_le_encode_decode(data.subrange(14, 18));
    lemma_le_encode_decode(data.subrange(18, 22));
    assert(magic() == data.take(6));
    assert(header_bytes(parse_header(data)->Ok_0) =~= data.take(22));
}

/// The hash records of a file encode to the bytes that they were read
/// from.
proof fn lemma_hash_records(data: Seq<u8>, n: int)
    requires
        0 <= n,
        22 + 8 * n <= data.len(),
    ensures
        hash_records(hash_seq(data, n)) == data.subrange(22, 22 + 8 * n),
    decreases n,
{
    if n <= 0 {
        assert(hash_records(hash_seq(data, n)) =~= data.subrange(22, 22 + 8 * n));
    } else {
        lemma_hash_records(data, n - 1);
        let now = hash_seq(data, n);
        assert(now.drop_last() =~= hash_seq(data, n - 1));
        let at = 22 + 8 * (n - 1);
        lemma_le_encode_decode(data.subrange(at, at + 4));
        lemma_le_encode_decode(data.subrange(at + 4, at + 8));
        assert(hash_entry_bytes(now.last()) =~= data.subrange(at, at + 8));
        assert(hash_records(now) =~= data.subrange(22, 22 + 8 * n));
    }
}

/// Name records with zero bytes after the names encode to the bytes that
/// they were read from.
proof fn lemma_name_records(data: Seq<u8>, header: Header, n: int)
    requires
        0 <= n <= header.name_table_count,
        names_start(header) + 164 * n <= data.len(),
        forall|j: int| 0 <= j < n ==> (#[trigger] name_entry_at(data, header, j)) is Ok,
        forall|j: int|
            0 <= j < n ==> #[trigger] name_field_at(data, header, j) == padded(
                name_prefix(name_field_at(data, header, j)),
            ),
    ensures
        name_records(name_seq(data, header, n)) == data.subrange(
            names_start(header),
            names_start(header) + 164 * n,
        ),
    decreases n,
{
    let start = names_start(header);
    if n <= 0 {
        assert(name_records(name_seq(data, header, n)) =~= data.subrange(start, start + 164 * n));
    } else {
        lemma_name_records(data, header, n - 1);
        let now = name_seq(data, header, n);
        assert(now.drop_last() =~= name_seq(data, header, n - 1));
        let at = start + 164 * (n - 1);
        let record = data.subrange(at, at + 164);
        let entry = name_entry_at(data, header, n - 1)->Ok_0;
        assert(now.last() == entry);
        assert(record.take(160) =~= name_field_at(data, header, n - 1));
        Name::lemma_decode(record.take(160));
        assert(entry.name.field() == name_field_at(data, header, n - 1));
        lemma_le_encode_decode(record.subrange(160, 164));
        assert(name_entry_bytes(entry) =~= record);
        assert(name_records(now) =~= data.subrange(start, start + 164 * n));
    }
}

/// A canonical file decodes to a table that encodes to that very file.
pub proof fn lemma_round_trip(data: Seq<u8>)
    requires
        canonical(data),
    ensures
        decode(data) is Ok,
        encode(decode(data)->Ok_0) == data,
{
    let header = parse_table(data)->Ok_0;
    let hashes = header.crc_table_count as int;
    let names = header.name_table_count as int;
    let table = decode(data)->Ok_0;
    lemma_hashes_upto(data, hashes);
    lemma_listing_is_ascending(hash_seq(data, hashes), table.hashes);
    crate::bin::lemma_decodable_is(data, header, 0, names);
    lemma_names_upto(data, header, names);
    lemma_names_listing(name_seq(data, header, names));
    lemma_header_bytes(data);
    lemma_hash_records(data, hashes);
    lemma_name_records(data, header, names);
    assert(header_of(hash_seq(data, hashes), name_seq(data, header, names)) == header);
    assert(encode(table) =~= data);
}

/// Where a hash record stands among the encoded hash records.
proof fn lemma_hash_record_at(entries: Seq<HashEntry>, i: int)
    requires
        0 <= i < entries.len(),
    ensures
        hash_records(entries).len() == 8 * entries.len(),
        hash_records(entries).subrange(8 * i, 8 * i + 8) == hash_entry_bytes(entries[i]),
    decreases entries.len(),
{
    let before = entries.drop_last();
    lemma_hash_records_len(before);
    if i < before.len() {
        lemma_hash_record_at(before, i);
        assert(hash_records(entries).subrange(8 * i, 8 * i + 8) =~= hash_records(
            before,
        ).subrange(8 * i, 8 * i + 8));
    } else {
        assert(hash_records(entries).subrange(8 * i, 8 * i + 8) =~= hash_entry_bytes(entries[i]));
    }
}

/// Encoded hash records take 8 bytes each.
proof fn lemma_hash_records_len(entries: Seq<HashEntry>)
    ensures
        hash_records(entries).len() == 8 * entries.len(),
    decreases entries.len(),
{
    if entries.len() > 0 {
        lemma_hash_records_len(entries.drop_last());
    }
}

/// Encoded name records take 164 bytes each.
proof fn lemma_name_records_len(entries: Seq<NameEntry>)
    requires
        names_ascending(entries),
    ensures
        name_records(entries).len() == 164 * entries.len(),
    decreases entries.len(),
{
    if entries.len() > 0 {
        let before = entries.drop_last();
        assert forall|i: int| 0 <= i < before.len() implies #[trigger] before[i]
            == entries[i] by {}
        assert(names_ascending(before));
        lemma_name_records_len(before);
        assert(entries[entries.len() - 1].name.wf());
        crate::util::lemma_padded_len(entries.last().name@);
    }
}

/// Where a name record stands among the encoded name records.
proof fn lemma_name_record_at(entries: Seq<NameEntry>, j: int)
    requires
        names_ascending(entries),
        0 <= j < entries.len(),
    ensures
        name_records(entries).len() == 164 * entries.len(),
        name_records(entries).subrange(164 * j, 164 * j + 164) == name_entry_bytes(entries[j]),
    decreases entries.len(),
{
    let before = entries.drop_last();
    assert forall|i: int| 0 <= i < before.len() implies #[trigger] before[i] == entries[i] by {}
    assert(names_ascending(before));
    lemma_name_records_len(before);
    lemma_name_records_len(entries);
    if j < before.len() {
        lemma_name_record_at(before, j);
        assert(name_records(entries).subrange(164 * j, 164 * j + 164) =~= name_records(
            before,
        ).subrange(164 * j, 164 * j + 164));
    } else {
        assert(name_records(entries).subrange(164 * j, 164 * j + 164) =~= name_entry_bytes(
            entries[j],
        ));
    }
}

/// Two maps with the same listing are the same map.
proof fn lemma_same_listing(entries: Seq<HashEntry>, a: Map<u32, u32>, b: Map<u32, u32>)
    requires
        lists(entries, a),
        lists(entries, b),
    ensures
        a == b,
{
    assert forall|hash: u32| a.contains_key(hash) == b.contains_key(hash) by {
        if a.contains_key(hash) {
            let i = choose|i: int| 0 <= i < entries.len() && (#[trigger] entries[i]).hash == hash;
        }
        if b.contains_key(hash) {
            let i = choose|i: int| 0 <= i < entries.len() && (#[trigger] entries[i]).hash == hash;
        }
    }
    assert forall|hash: u32| a.contains_key(hash) implies a[hash] == b[hash] by {
        let i = choose|i: int| 0 <= i < entries.len() && (#[trigger] entries[i]).hash == hash;
    }
    assert(a =~= b);
}

/// The records of a sorted table are the canonical listings of what the
/// table decodes to, and every name record decodes.
pub proof fn lemma_sorted_records(reader: &ResTblReader<'_>)
    requires
        reader.wf(),
        reader.sorted(),
    ensures
        reader.decodable() == reader.name_count(),
        ascending(decode_records(reader.bytes(), reader.spec_header()).hashes) == hash_seq(
            reader.bytes(),
            reader.hash_count(),
        ),
        names_listing(decode_records(reader.bytes(), reader.spec_header()).names) == name_seq(
            reader.bytes(),
            reader.spec_header(),
            reader.name_count(),
        ),
{
    let data = reader.bytes();
    let header = reader.spec_header();
    let hashes = reader.hash_count();
    let names = reader.name_count();
    let hash_list = hash_seq(data, hashes);
    assert(hashes_ascending(hash_list)) by {
        assert forall|i: int, j: int| 0 <= i < j < hash_list.len() implies (
        #[trigger] hash_list[i]).hash < (#[trigger] hash_list[j]).hash by {
            assert(reader.hash_at(i).hash < reader.hash_at(j).hash);
        }
    }
    lemma_hashes_upto(data, hashes);
    lemma_listing_is_ascending(hash_list, hashes_upto(data, hashes));
    assert forall|j: int| 0 <= j < names implies (#[trigger] name_entry_at(data, header, j))
        is Ok by {
        assert(reader.name_at(j) is Ok);
    }
    crate::bin::lemma_decodable_is(data, header, 0, names);
    assert forall|i: int, j: int| 0 <= i < j < names implies lex_less(
        (#[trigger] name_entry_at(data, header, i))->Ok_0.name@,
        (#[trigger] name_entry_at(data, header, j))->Ok_0.name@,
    ) by {
        assert(lex_less(reader.name_at(i)->Ok_0.name@, reader.name_at(j)->Ok_0.name@));
    }
    lemma_names_upto(data, header, names);
    lemma_names_listing(name_seq(data, header, names));
}

/// In a sorted table a search finds what the decoded table holds: the
/// reader and the owned table made of it answer every key alike.
pub proof fn lemma_lookup_agrees(reader: &ResTblReader<'_>, key: crate::model::Key)
    requires
        reader.wf(),
        reader.sorted(),
    ensures
        reader.lookup(key) == decode_records(reader.bytes(), reader.spec_header()).lookup(key),
{
    let data = reader.bytes();
    let header = reader.spec_header();
    let hashes = reader.hash_count();
    let names = reader.name_count();
    let table = decode_records(data, header);
    let hash_list = hash_seq(data, hashes);
    let name_list = name_seq(data, header, names);
    assert(hashes_ascending(hash_list)) by {
        assert forall|i: int, j: int| 0 <= i < j < hash_list.len() implies (
        #[trigger] hash_list[i]).hash < (#[trigger] hash_list[j]).hash by {
            assert(reader.hash_at(i).hash < reader.hash_at(j).hash);
        }
    }
    lemma_hashes_upto(data, hashes);
    assert forall|j: int| 0 <= j < names implies (#[trigger] name_entry_at(data, header, j))
        is Ok by {
        assert(reader.name_at(j) is Ok);
    }
    crate::bin::lemma_decodable_is(data, header, 0, names);
    assert forall|i: int, j: int| 0 <= i < j < names implies lex_less(
        (#[trigger] name_entry_at(data, header, i))->Ok_0.name@,
        (#[trigger] name_entry_at(data, header, j))->Ok_0.name@,
    ) by {
        assert(lex_less(reader.name_at(i)->Ok_0.name@, reader.name_at(j)->Ok_0.name@));
    }
    lemma_names_upto(data, header, names);
    assert forall|hash: u32| reader.has_hash(hash) == table.hashes.contains_key(hash) by {
        if reader.has_hash(hash) {
            let i = choose|i: int| 0 <= i < reader.hash_count() && reader.hash_at(i).hash == hash;
            assert(hash_list[i].hash == hash);
        }
        if table.hashes.contains_key(hash) {
            let i = choose|i: int| 0 <= i < hash_list.len() && (#[trigger] hash_list[i]).hash == hash;
            assert(reader.hash_at(i).hash == hash);
        }
    }
    assert forall|hash: u32| reader.has_hash(hash) implies reader.hash_entry(hash)->Some_0.value
        == table.hashes[hash] by {
        let i = choose|i: int| 0 <= i < reader.hash_count() && reader.hash_at(i).hash == hash;
        assert(hash_list[i] == reader.hash_at(i));
    }
    assert forall|name: Seq<u8>| reader.has_name(name) == table.names.contains_key(name) by {
        if reader.has_name(name) {
            let j = choose|j: int|
                0 <= j < reader.name_count() && reader.name_at(j) is Ok && reader.name_at(
                    j,
                )->Ok_0.name@ == name;
            assert(name_list[j].name@ == name);
        }
        if table.names.contains_key(name) {
            let j = crate::names::index_of(name_list, name);
            assert(reader.name_at(j)->Ok_0.name@ == name);
        }
    }
    assert forall|name: Seq<u8>| reader.has_name(name) implies reader.name_entry(
        name,
    )->Some_0.value == table.names[name] by {
        let j = choose|j: int|
            0 <= j < reader.name_count() && reader.name_at(j) is Ok && reader.name_at(
                j,
            )->Ok_0.name@ == name;
        assert(name_list[j] == reader.name_at(j)->Ok_0);
        crate::names::lemma_index_of(name_list, j);
    }
}

/// A table that can be encoded: its names have a listing, and neither
/// sub-table has more records than a header can count.
pub open spec fn encodable(table: TableModel) -> bool {
    &&& exists|entries: Seq<NameEntry>|
        names_ascending(entries) && names_map(entries) == table.names
    &&& ascending(table.hashes).len() <= u32::MAX
    &&& names_listing(table.names).len() <= u32::MAX
}

/// An encoded file decodes to the header that it was made with, and holds
/// exactly the records that the header counts.
proof fn lemma_encoded_header(hashes: Seq<HashEntry>, names: Seq<NameEntry>)
    requires
        names_ascending(names),
        hashes.len() <= u32::MAX,
        names.len() <= u32::MAX,
    ensures
        encode_records(hashes, names).len() == 22 + 8 * hashes.len() + 164 * names.len(),
        parse_table(encode_records(hashes, names)) == Ok::<Header, Error>(
            header_of(hashes, names),
        ),
{
    let header = header_of(hashes, names);
    let data = encode_records(hashes, names);
    lemma_hash_records_len(hashes);
    lemma_name_records_len(names);
    lemma_le_decode_encode(header.version);
    lemma_le_decode_encode(header.string_block_size);
    lemma_le_decode_encode(header.crc_table_count);
    lemma_le_decode_encode(header.name_table_count);
    assert(data.take(6) =~= magic());
    assert(data.subrange(6, 10) =~= le_bytes(header.version));
    assert(data.subrange(10, 14) =~= le_bytes(header.string_block_size));
    assert(data.subrange(14, 18) =~= le_bytes(header.crc_table_count));
    assert(data.subrange(18, 22) =~= le_bytes(header.name_table_count));
    assert(parse_header(data) == Ok::<Header, Error>(header));
}

/// The hash records of an encoded file are the records that it was made
/// of.
proof fn lemma_encoded_hash_at(hashes: Seq<HashEntry>, names: Seq<NameEntry>, i: int)
    requires
        0 <= i < hashes.len(),
    ensures
        hash_entry_at(encode_records(hashes, names), i) == hashes[i],
{
    let data = encode_records(hashes, names);
    lemma_hash_record_at(hashes, i);
    let at = 22 + 8 * i;
    let record = hash_records(hashes).subrange(8 * i, 8 * i + 8);
    assert(data.subrange(at, at + 4) =~= record.subrange(0, 4));
    assert(data.subrange(at + 4, at + 8) =~= record.subrange(4, 8));
    assert(record.subrange(0, 4) =~= le_bytes(hashes[i].hash));
    assert(record.subrange(4, 8) =~= le_bytes(hashes[i].value));
    lemma_le_decode_encode(hashes[i].hash);
    lemma_le_decode_encode(hashes[i].value);
}

/// The name records of an encoded file are the records that it was made
/// of, and only zero bytes follow their names.
proof fn lemma_encoded_name_at(hashes: Seq<HashEntry>, names: Seq<NameEntry>, j: int)
    requires
        names_ascending(names),
        hashes.len() <= u32::MAX,
        names.len() <= u32::MAX,
        0 <= j < names.len(),
    ensures
        name_entry_at(encode_records(hashes, names), header_of(hashes, names), j) == Ok::<
            NameEntry,
            Error,
        >(names[j]),
        name_field_at(encode_records(hashes, names), header_of(hashes, names), j) == padded(
            names[j].name@,
        ),
{
    let data = encode_records(hashes, names);
    let header = header_of(hashes, names);
    lemma_hash_records_len(hashes);
    lemma_name_record_at(names, j);
    let at = 22 + 8 * hashes.len() + 164 * j;
    let record = data.subrange(at, at + 164);
    let entry = names[j];
    assert(entry.name.wf());
    crate::util::lemma_padded_len(entry.name@);
    assert(record =~= name_records(names).subrange(164 * j, 164 * j + 164));
    assert(record.take(160) =~= padded(entry.name@));
    assert(record.subrange(160, 164) =~= le_bytes(entry.value));
    assert(name_field_at(data, header, j) =~= record.take(160));
    crate::util::lemma_padded_prefix(entry.name@);
    entry.name.lemma_of_view();
    lemma_le_decode_encode(entry.value);
    assert(parse_name_entry(record) == Ok::<NameEntry, Error>(entry));
}

/// What a table encodes to is a canonical file that decodes to that very
/// table.
pub proof fn lemma_encode_decode(table: TableModel)
    requires
        encodable(table),
    ensures
        canonical(encode(table)),
        decode(encode(table)) == Ok::<TableModel, Error>(table),
{
    let hashes = ascending(table.hashes);
    let names = names_listing(table.names);
    let header = header_of(hashes, names);
    let data = encode(table);
    crate::listing::lemma_ascending_lists(table.hashes);
    lemma_encoded_header(hashes, names);
    assert forall|i: int| 0 <= i < hashes.len() implies hash_entry_at(data, i) == hashes[i] by {
        lemma_encoded_hash_at(hashes, names, i);
    }
    assert(hash_seq(data, hashes.len() as int) =~= hashes);
    assert forall|j: int| 0 <= j < names.len() implies (#[trigger] name_entry_at(data, header, j))
        == Ok::<NameEntry, Error>(names[j]) by {
        lemma_encoded_name_at(hashes, names, j);
    }
    assert forall|j: int| 0 <= j < names.len() implies #[trigger] name_field_at(data, header, j)
        == padded(name_prefix(name_field_at(data, header, j))) by {
        lemma_encoded_name_at(hashes, names, j);
        assert(names[j].name.wf());
        crate::util::lemma_padded_prefix(names[j].name@);
    }
    assert(name_seq(data, header, names.len() as int) =~= names);
    crate::bin::lemma_decodable_is(data, header, 0, names.len() as int);
    lemma_hashes_upto(data, hashes.len() as int);
    lemma_same_listing(hashes, hashes_upto(data, hashes.len() as int), table.hashes);
    assert forall|i: int, j: int| 0 <= i < j < names.len() implies lex_less(
        (#[trigger] name_entry_at(data, header, i))->Ok_0.name@,
        (#[trigger] name_entry_at(data, header, j))->Ok_0.name@,
    ) by {
        assert(lex_less(names[i].name@, names[j].name@));
    }
    lemma_names_upto(data, header, names.len() as int);
    assert(decode(data)->Ok_0.hashes == table.hashes);
    assert(decode(data)->Ok_0.names == table.names);
}

impl ResourceSizeTable {
    /// An owned table with the records of `parser`.
    pub fn from_parser(parser: &ResTblReader<'_>) -> (table: ResourceSizeTable)
        ensures
            table@ == decode_records(parser.bytes(), parser.spec_header()),
            table.wf(),
    {
        broadcast use vstd::std_specs::btree::group_btree_axioms;

        let mut crc_table: BTreeMap<u32, u32> = BTreeMap::new();
        let mut name_table = NameTable::new();
        let mut it = parser.iter();
        let ghost data = parser.bytes();
        let ghost header = parser.spec_header();
        let ghost hashes = parser.hash_count();
        let ghost all = parser.entries();
        let ghost mut done: int = 0;
        proof {
            use_type_invariant(parser);
            parser.lemma_wf();
        }
        proof {
            lemma_decodable(data, header, 0);
            assert(name_table@ =~= Map::<Seq<u8>, u32>::empty());
        }
        let mut next = it.next();
        while next.is_some()
            invariant
                parser.wf(),
                data == parser.bytes(),
                header == parser.spec_header(),
                hashes == parser.hash_count(),
                all == parser.entries(),
                it.table() == parser,
                name_table.wf(),
                0 <= done <= all.len(),
                all.len() == hashes + decodable_from(data, header, 0),
                it.position() == done + if next is Some {
                    1int
                } else {
                    0int
                },
                next matches Some(entry) ==> done < all.len() && entry == all[done],
                next matches Some(TableEntry::Name(entry)) ==> entry.name.wf(),
                next is None ==> done == all.len(),
                crc_table@ == hashes_upto(
                    data,
                    if done < hashes {
                        done
                    } else {
                        hashes
                    },
                ),
                name_table@ == names_upto(
                    data,
                    header,
                    if done < hashes {
                        0
                    } else {
                        done - hashes
                    },
                ),
            decreases all.len() - done,
        {
            match next {
                Some(TableEntry::Hash(entry)) => {
                    crc_table.insert(entry.hash, entry.value);
                },
                Some(TableEntry::Name(entry)) => {
                    name_table.insert(entry.name, entry.value);
                },
                None => {},
            }
            proof {
                done = done + 1;
            }
            next = it.next();
        }
        ResourceSizeTable { crc_table, name_table }
    }

    /// Decodes a file into an owned table.
    pub fn from_binary(data: &[u8]) -> (r: Result<ResourceSizeTable, Error>)
        ensures
            match decode(data@) {
                Ok(table) => r is Ok && r->Ok_0@ == table && r->Ok_0.wf(),
                Err(e) => r is Err && r->Err_0 == e,
            },
    {
        match ResTblReader::new(data) {
            Ok(parser) => Ok(ResourceSizeTable::from_parser(&parser)),
            Err(e) => Err(e),
        }
    }

    /// Encodes the table: the header, the sizes by hash in ascending order
    /// of the hashes, the sizes by name in ascending order of the names.
    pub fn to_binary(&self) -> (bytes: Vec<u8>)
        requires
            self@.hashes.len() <= u32::MAX,
            self.name_table.spec_entries().len() <= u32::MAX,
        ensures
            bytes@ == encode(self@),
    {
        broadcast use vstd::std_specs::btree::group_btree_axioms;

        let hashes = self.hash_entries();
        let names = self.name_entries();
        proof {
            crate::listing::lemma_lists_len(hashes@, self@.hashes);
            lemma_names_listing(names@);
        }
        let header = Header {
            version: 1,
            string_block_size: 160,
            crc_table_count: hashes.len() as u32,
            name_table_count: names.len() as u32,
        };
        let mut bytes: Vec<u8> = Vec::new();
        let mut head = [0u8; 22];
        header.write(&mut head);
        bytes.extend_from_slice(head.as_slice());
        proof {
            assert(bytes@ =~= header_bytes(header));
        }
        let mut i: usize = 0;
        while i < hashes.len()
            invariant
                i <= hashes@.len(),
                bytes@ == header_bytes(header) + hash_records(hashes@.take(i as int)),
            decreases hashes@.len() - i,
        {
            let mut record = [0u8; 8];
            hashes[i].write(&mut record);
            bytes.extend_from_slice(record.as_slice());
            proof {
                let next = hashes@.take(i + 1);
                assert(next.drop_last() =~= hashes@.take(i as int));
                assert(record@ =~= hash_entry_bytes(hashes@[i as int]));
                assert(bytes@ =~= header_bytes(header) + hash_records(next));
            }
            i += 1;
        }
        proof {
            assert(hashes@.take(i as int) =~= hashes@);
        }
        let mut j: usize = 0;
        while j < names.len()
            invariant
                j <= names@.len(),
                crate::names::names_ascending(names@),
                bytes@ == header_bytes(header) + hash_records(hashes@) + name_records(
                    names@.take(j as int),
                ),
            decreases names@.len() - j,
        {
            let mut record = [0u8; 164];
            names[j].write(&mut record);
            bytes.extend_from_slice(record.as_slice());
            proof {
                let next = names@.take(j + 1);
                assert(next.drop_last() =~= names@.take(j as int));
                assert(names@[j as int].name.wf());
                crate::util::lemma_padded_len(names@[j as int].name@);
                assert(record@ =~= name_entry_bytes(names@[j as int]));
                assert(bytes@ =~= header_bytes(header) + hash_records(hashes@) + name_records(
                    next,
                ));
            }
            j += 1;
        }
        proof {
            assert(names@.take(j as int) =~= names@);
        }
        bytes
    }
}

} // verus!
