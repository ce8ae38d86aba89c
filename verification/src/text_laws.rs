use vstd::prelude::*;
use crate::bin::HashEntry;
use crate::bin::NameEntry;
use crate::bin::TableEntry;
use crate::bin::ResTblReader;
use crate::codec::decode_records;
use crate::codec::hash_seq;
use crate::codec::name_seq;
use crate::listing::ascending;
use crate::listing::hashes_ascending;
use crate::listing::lists;
use crate::model::TableModel;
use crate::names::names_ascending;
use crate::names::names_listing;
use crate::names::names_map;
use crate::parse::after_first_line;
use crate::parse::all_digits;
use crate::parse::apply_line;
use crate::parse::apply_pair;
use crate::parse::decimal_value;
use crate::parse::digits_value;
use crate::parse::first_line;
use crate::parse::lemma_first_separator;
use crate::parse::lemma_line_end;
use crate::parse::lemma_parse_step;
use crate::parse::line_end;
use crate::parse::parse_lines;
use crate::parse::parse_text;
use crate::parse::separator_at;
use crate::parse::split;
use crate::parse::TextFault;
use crate::text::decimal;
use crate::table::entries_of;
use crate::text::entry_key;
use crate::text::entry_line;
use crate::text::lemma_decimal_digits;
use crate::text::lines;
use crate::text::newline;
use crate::text::separator;
use crate::text::text_of;
use crate::util::spec_hash;

verus! {

/// The digits of a number spell that number.
pub proof fn lemma_digits_of_decimal(n: nat)
    ensures
        all_digits(decimal(n)),
        digits_value(decimal(n)) == n,
    decreases n,
{
    lemma_decimal_digits(n);
    if n < 10 {
        assert(decimal(n).drop_last() =~= Seq::<u8>::empty());
        assert(digits_value(decimal(n).drop_last()) == 0);
    } else {
        lemma_digits_of_decimal(n / 10);
        assert(decimal(n).drop_last() =~= decimal(n / 10));
    }
}

/// What is written in decimal is read back.
pub proof fn lemma_decimal_value(n: u32)
    ensures
        decimal_value(decimal(n as nat)) == Some(n),
{
    lemma_decimal_digits(n as nat);
    lemma_digits_of_decimal(n as nat);
    assert(decimal(n as nat)[0] != 43);
}

/// A key that the text form gives back: it holds no line feed and no
/// colon followed by a space.
pub open spec fn plain(key: Seq<u8>) -> bool {
    &&& forall|i: int| 0 <= i < key.len() ==> key[i] != 10
    &&& forall|i: int| !separator_at(key, i)
}

/// A decimal number is a plain key.
pub proof fn lemma_decimal_plain(n: nat)
    ensures
        plain(decimal(n)),
{
    lemma_decimal_digits(n);
}

/// A text that starts with a plain key, the separator, digits and a line
/// feed has these, without the line feed, as its first line.
proof fn lemma_first_line(key: Seq<u8>, digits: Seq<u8>, rest: Seq<u8>)
    requires
        plain(key),
        all_digits(digits),
        digits.len() > 0,
    ensures
        first_line(key + separator() + digits + newline() + rest) == key + separator() + digits,
        after_first_line(key + separator() + digits + newline() + rest) == rest,
{
    let line = key + separator() + digits;
    let text = key + separator() + digits + newline() + rest;
    let end = line.len() as int;
    assert(text.len() == end + 1 + rest.len());
    assert(text[end] == 10);
    assert forall|i: int| 0 <= i < end implies text[i] != 10 by {
        if i < key.len() {
            assert(text[i] == key[i]);
        } else if i < key.len() + 2 {
            assert(text[i] == separator()[i - key.len()]);
        } else {
            assert(text[i] == digits[i - key.len() - 2]);
        }
    }
    lemma_line_end(text);
    let found = line_end(text) as int;
    assert(found == end) by {
        if found < end {
            assert(text[found] != 10);
        }
    }
    assert(text[end - 1] == digits[digits.len() - 1]);
    assert(text.take(end) =~= line);
    assert(text.skip(end + 1) =~= rest);
}

/// A plain key, the separator and digits split into the key and the
/// digits.
proof fn lemma_split(key: Seq<u8>, digits: Seq<u8>)
    requires
        plain(key),
    ensures
        split(key + separator() + digits) == Some((key, digits)),
{
    let line = key + separator() + digits;
    let at = key.len() as int;
    assert(line[at] == 58 && line[at + 1] == 32);
    assert(separator_at(line, at));
    assert forall|j: int| 0 <= j < at implies !separator_at(line, j) by {
        if j + 1 < at {
            assert(!separator_at(key, j));
            assert(line[j] == key[j]);
            assert(line[j + 1] == key[j + 1]);
        } else {
            assert(line[j + 1] == 58);
        }
    }
    lemma_first_separator(line, at);
    assert(line.take(at) =~= key);
    assert(line.skip(at + 2) =~= digits);
}

/// A line made of a plain key and a size is read as that key and that
/// size, and the text after it is read next.
pub proof fn lemma_parse_line(key: Seq<u8>, value: u32, rest: Seq<u8>, table: TableModel)
    requires
        plain(key),
    ensures
        parse_lines(key + separator() + decimal(value as nat) + newline() + rest, table)
            == match apply_pair(table, key, value) {
            Ok(next) => parse_lines(rest, next),
            Err(fault) => Err(fault),
        },
{
    let digits = decimal(value as nat);
    let line = key + separator() + digits;
    let text = key + separator() + digits + newline() + rest;
    assert(all_digits(digits) && digits.len() > 0) by {
        lemma_decimal_digits(value as nat);
    }
    assert(decimal_value(digits) == Some(value)) by {
        lemma_decimal_value(value);
    }
    assert(first_line(text) == line && after_first_line(text) == rest) by {
        lemma_first_line(key, digits, rest);
    }
    assert(split(line) == Some((key, digits))) by {
        lemma_split(key, digits);
    }
    assert(apply_line(table, line) == apply_pair(table, key, value));
    assert(text.len() > 0 && line.len() > 0);
    lemma_parse_step(text, table);
}

/// The lines of records one after the other are the lines of the first of
/// them, then the lines of the others.
pub proof fn lemma_lines_concat(a: Seq<TableEntry>, b: Seq<TableEntry>)
    ensures
        lines(a + b) == lines(a) + lines(b),
    decreases b.len(),
{
    if b.len() == 0 {
        assert(a + b =~= a);
        assert(lines(a) + lines(b) =~= lines(a));
    } else {
        lemma_lines_concat(a, b.drop_last());
        assert((a + b).drop_last() =~= a + b.drop_last());
        assert((a + b).last() == b.last());
        assert(lines(a + b) =~= lines(a) + lines(b));
    }
}

/// The sizes by hash of the first `n` of the records.
pub open spec fn hashes_of(entries: Seq<HashEntry>, n: int) -> Map<u32, u32>
    decreases n,
{
    if n <= 0 {
        Map::empty()
    } else {
        hashes_of(entries, n - 1).insert(entries[n - 1].hash, entries[n - 1].value)
    }
}

/// The sizes of ascending records hold the hashes of these records, each
/// with its size.
proof fn lemma_hashes_of(entries: Seq<HashEntry>, n: int)
    requires
        hashes_ascending(entries),
        0 <= n <= entries.len(),
    ensures
        forall|hash: u32| #[trigger]
            hashes_of(entries, n).contains_key(hash) <==> exists|i: int|
                0 <= i < n && (#[trigger] entries[i]).hash == hash,
        forall|i: int|
            0 <= i < n ==> hashes_of(entries, n)[(#[trigger] entries[i]).hash]
                == entries[i].value,
    decreases n,
{
    if n > 0 {
        lemma_hashes_of(entries, n - 1);
        let before = hashes_of(entries, n - 1);
        let now = hashes_of(entries, n);
        let last = entries[n - 1];
        assert forall|hash: u32| #[trigger] now.contains_key(hash) <==> exists|i: int|
            0 <= i < n && (#[trigger] entries[i]).hash == hash by {
            if now.contains_key(hash) {
                if hash == last.hash {
                    assert(entries[n - 1].hash == hash);
                } else {
                    assert(before.contains_key(hash));
                    let i = choose|i: int| 0 <= i < n - 1 && (#[trigger] entries[i]).hash == hash;
                    assert(entries[i].hash == hash);
                }
            }
            if exists|i: int| 0 <= i < n && (#[trigger] entries[i]).hash == hash {
                let i = choose|i: int| 0 <= i < n && (#[trigger] entries[i]).hash == hash;
                if i < n - 1 {
                    assert(before.contains_key(hash));
                }
            }
        }
        assert forall|i: int| 0 <= i < n implies now[(#[trigger] entries[i]).hash]
            == entries[i].value by {
            if i < n - 1 {
                assert(entries[i].hash < entries[n - 1].hash);
            }
        }
    }
}

/// The records of a map one after the other give the map.
proof fn lemma_hashes_of_listing(entries: Seq<HashEntry>, map: Map<u32, u32>)
    requires
        lists(entries, map),
    ensures
        hashes_of(entries, entries.len() as int) == map,
{
    lemma_hashes_of(entries, entries.len() as int);
    let made = hashes_of(entries, entries.len() as int);
    assert forall|hash: u32| made.contains_key(hash) == map.contains_key(hash) by {
        if map.contains_key(hash) {
            let i = choose|i: int| 0 <= i < entries.len() && (#[trigger] entries[i]).hash == hash;
        }
        if made.contains_key(hash) {
            let i = choose|i: int| 0 <= i < entries.len() && (#[trigger] entries[i]).hash == hash;
            assert(map.contains_key(entries[i].hash));
        }
    }
    assert forall|hash: u32| made.contains_key(hash) implies made[hash] == map[hash] by {
        let i = choose|i: int| 0 <= i < entries.len() && (#[trigger] entries[i]).hash == hash;
        assert(made[entries[i].hash] == entries[i].value);
        assert(map[entries[i].hash] == entries[i].value);
    }
    assert(made =~= map);
}

/// The first `n` hash records as records.
pub open spec fn hash_part(entries: Seq<HashEntry>, n: int) -> Seq<TableEntry> {
    Seq::new(n as nat, |i: int| TableEntry::Hash(entries[i]))
}

/// The first `n` name records as records.
pub open spec fn name_part(entries: Seq<NameEntry>, n: int) -> Seq<TableEntry> {
    Seq::new(n as nat, |i: int| TableEntry::Name(entries[i]))
}

/// The lines of ascending hash records, read into an empty table, give
/// the sizes by hash of these records.
proof fn lemma_parse_hashes(entries: Seq<HashEntry>, n: int, rest: Seq<u8>)
    requires
        hashes_ascending(entries),
        0 <= n <= entries.len(),
    ensures
        parse_lines(lines(hash_part(entries, n)) + rest, TableModel::empty()) == parse_lines(
            rest,
            TableModel { hashes: hashes_of(entries, n), names: Map::empty() },
        ),
    decreases n,
{
    if n <= 0 {
        assert(lines(hash_part(entries, n)) + rest =~= rest);
    } else {
        let entry = entries[n - 1];
        let last = TableEntry::Hash(entry);
        let line = entry_line(last);
        let part = hash_part(entries, n);
        assert(part.drop_last() =~= hash_part(entries, n - 1));
        assert(part.last() == last);
        let before = lines(hash_part(entries, n - 1));
        assert(lines(part) + rest =~= before + (line + rest));
        lemma_parse_hashes(entries, n - 1, line + rest);
        let table = TableModel { hashes: hashes_of(entries, n - 1), names: Map::empty() };
        lemma_decimal_plain(entry.hash as nat);
        lemma_parse_line(entry_key(last), entry.value, rest, table);
        assert(line + rest =~= entry_key(last) + separator() + decimal(entry.value as nat)
            + newline() + rest);
        lemma_decimal_value(entry.hash);
        lemma_hashes_of(entries, n - 1);
        assert(!table.hashes.contains_key(entry.hash)) by {
            if table.hashes.contains_key(entry.hash) {
                let i = choose|i: int|
                    0 <= i < n - 1 && (#[trigger] entries[i]).hash == entry.hash;
                assert(entries[i].hash < entries[n - 1].hash);
            }
        }
    }
}

/// The sizes by hash after the first `n` of the names are kept by their
/// hashes.
pub open spec fn rehashed(hashes: Map<u32, u32>, names: Seq<NameEntry>, n: int) -> Map<u32, u32>
    decreases n,
{
    if n <= 0 {
        hashes
    } else {
        rehashed(hashes, names, n - 1).insert(spec_hash(names[n - 1].name@), names[n - 1].value)
    }
}

/// The lines of name records whose names are plain and do not read as
/// numbers, read into a table, keep the sizes by the hashes of the names.
proof fn lemma_parse_names(names: Seq<NameEntry>, n: int, rest: Seq<u8>, table: TableModel)
    requires
        0 <= n <= names.len(),
        forall|j: int|
            0 <= j < names.len() ==> plain((#[trigger] names[j]).name@) && decimal_value(
                names[j].name@,
            ) is None,
    ensures
        parse_lines(lines(name_part(names, n)) + rest, table) == parse_lines(
            rest,
            TableModel { hashes: rehashed(table.hashes, names, n), names: table.names },
        ),
    decreases n,
{
    if n <= 0 {
        assert(lines(name_part(names, n)) + rest =~= rest);
    } else {
        let entry = names[n - 1];
        let last = TableEntry::Name(entry);
        let line = entry_line(last);
        let part = name_part(names, n);
        assert(part.drop_last() =~= name_part(names, n - 1));
        assert(part.last() == last);
        let before = lines(name_part(names, n - 1));
        assert(lines(part) + rest =~= before + (line + rest));
        lemma_parse_names(names, n - 1, line + rest, table);
        let now = TableModel { hashes: rehashed(table.hashes, names, n - 1), names: table.names };
        lemma_parse_line(entry.name@, entry.value, rest, now);
        assert(line + rest =~= entry.name@ + separator() + decimal(entry.value as nat) + newline()
            + rest);
    }
}

/// The text form of a sorted table is the same whether it is written from
/// the reader or from the owned table made of it.
pub proof fn lemma_text_agrees(reader: &ResTblReader<'_>)
    requires
        reader.wf(),
        reader.sorted(),
    ensures
        lines(reader.entries()) == text_of(
            decode_records(reader.bytes(), reader.spec_header()),
        ),
{
    let data = reader.bytes();
    let header = reader.spec_header();
    let hashes = reader.hash_count();
    let names = reader.name_count();
    let table = decode_records(data, header);
    crate::codec::lemma_sorted_records(reader);
    assert(reader.entries() =~= entries_of(table)) by {
        assert(ascending(table.hashes) == hash_seq(data, hashes));
        assert(names_listing(table.names) == name_seq(data, header, names));
        assert(reader.decodable() == names);
    }
}

/// A table whose names can be told from numbers in the text form: its
/// names have a listing, and each is plain and does not read as a number.
pub open spec fn rereadable(table: TableModel) -> bool {
    &&& names_ascending(names_listing(table.names))
    &&& names_map(names_listing(table.names)) == table.names
    &&& forall|j: int|
        0 <= j < names_listing(table.names).len() ==> plain(
            (#[trigger] names_listing(table.names)[j]).name@,
        ) && decimal_value(names_listing(table.names)[j].name@) is None
}

/// What the text form of a table is read back as: the sizes by hash as
/// they were, and the sizes by name kept by the hashes of the names.
pub open spec fn reread(table: TableModel) -> TableModel {
    let names = names_listing(table.names);
    TableModel {
        hashes: rehashed(table.hashes, names, names.len() as int),
        names: Map::empty(),
    }
}

/// The text form of a table is read back as the same sizes, those by name
/// now kept by the hashes of their names.
pub proof fn lemma_text_round_trip(table: TableModel)
    requires
        rereadable(table),
    ensures
        parse_text(text_of(table)) == Ok::<TableModel, TextFault>(reread(table)),
{
    let hashes = ascending(table.hashes);
    let names = names_listing(table.names);
    let hash_lines = hash_part(hashes, hashes.len() as int);
    let name_lines = name_part(names, names.len() as int);
    crate::listing::lemma_ascending_lists(table.hashes);
    assert(entries_of(table) =~= hash_lines + name_lines);
    lemma_lines_concat(hash_lines, name_lines);
    lemma_parse_hashes(hashes, hashes.len() as int, lines(name_lines));
    lemma_hashes_of_listing(hashes, table.hashes);
    let middle = TableModel { hashes: table.hashes, names: Map::empty() };
    lemma_parse_names(names, names.len() as int, Seq::empty(), middle);
    assert(lines(name_lines) + Seq::<u8>::empty() =~= lines(name_lines));
    lemma_parse_step(Seq::empty(), reread(table));
}

/// The text form of a table without sizes by name is read back as that
/// very table.
pub proof fn lemma_text_round_trip_hashes(table: TableModel)
    requires
        table.names == Map::<Seq<u8>, u32>::empty(),
    ensures
        parse_text(text_of(table)) == Ok::<TableModel, TextFault>(table),
{
    let none = Seq::<NameEntry>::empty();
    assert(names_map(none) =~= table.names);
    crate::names::lemma_names_listing(none);
    lemma_text_round_trip(table);
}

} // verus!
