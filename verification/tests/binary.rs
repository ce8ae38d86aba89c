use restbl::bin::HashEntry;
use restbl::bin::Header;
use restbl::bin::NameEntry;
use restbl::bin::ResTblReader;
use restbl::bin::TableEntry;
use restbl::util::hash_name;
use restbl::util::Name;
use restbl::Error;
use restbl::ResourceSizeTable;

const COOKING: &str = "Cooking/CookingTable.game__cooking__Table.bgyml";
const BAKE: &str = "Bake/Scene/MainField_G_26_43.bkres";
const MISSING: &str = "Pack/Actor/Nonexistent.pack";
const NAMED_A: &str = "Actor/Link.bfres";
const NAMED_B: &str = "Sound/Resource/Stream/Bgm.bars";

fn header_bytes(hashes: u32, names: u32) -> Vec<u8> {
    let mut out = b"RESTBL".to_vec();
    out.extend_from_slice(&1u32.to_le_bytes());
    out.extend_from_slice(&160u32.to_le_bytes());
    out.extend_from_slice(&hashes.to_le_bytes());
    out.extend_from_slice(&names.to_le_bytes());
    out
}

fn hash_record(hash: u32, value: u32) -> Vec<u8> {
    let mut out = hash.to_le_bytes().to_vec();
    out.extend_from_slice(&value.to_le_bytes());
    out
}

fn name_record(name: &[u8], value: u32) -> Vec<u8> {
    let mut out = vec![0u8; 160];
    out[..name.len()].copy_from_slice(name);
    out.extend_from_slice(&value.to_le_bytes());
    out
}

/// A canonical file with four hash records and two name records.
fn sample() -> Vec<u8> {
    let mut out = header_bytes(4, 2);
    out.extend(hash_record(0x0000B780, 31880));
    out.extend(hash_record(0x12345678, 42));
    out.extend(hash_record(0x4F6DE9B9, 4096));
    out.extend(hash_record(0xFFFFFFFE, 7));
    out.extend(name_record(NAMED_A.as_bytes(), 1000));
    out.extend(name_record(NAMED_B.as_bytes(), 2000));
    out
}

#[test]
fn parse() {
    let data = sample();
    let parser = ResTblReader::new(&data).unwrap();
    let table = ResourceSizeTable::from_parser(&parser);
    assert_eq!(parser.header().crc_table_count() as usize, table.crc_table.len());
    assert_eq!(parser.header().name_table_count() as usize, table.name_table.len());
}

#[test]
fn lookup() {
    let data = sample();
    let parser = ResTblReader::new(&data).unwrap();
    let entry = parser.get(COOKING).unwrap();
    assert_eq!(entry, 4096);
    assert!(parser.get(MISSING).is_none());
}

#[test]
fn serialize() {
    let data = sample();
    let table = ResourceSizeTable::from_binary(&data).unwrap();
    let bytes = table.to_binary();
    let table2 = ResourceSizeTable::from_binary(&bytes).unwrap();
    assert_eq!(table.crc_table.len(), table2.crc_table.len());
    for (entry1, entry2) in table.crc_table.iter().zip(table2.crc_table.iter()) {
        assert_eq!(entry1, entry2);
    }
    assert_eq!(table.name_table.len(), table2.name_table.len());
    for (entry1, entry2) in table.name_table.entries().iter().zip(table2.name_table.entries().iter()) {
        assert_eq!(entry1, entry2);
    }
    assert_eq!(data, bytes);
}

#[test]
fn header_fields_are_read_little_endian() {
    let mut data = b"RESTBL".to_vec();
    data.extend_from_slice(&[0x01, 0x02, 0x03, 0x04]);
    data.extend_from_slice(&[0xa0, 0x00, 0x00, 0x00]);
    data.extend_from_slice(&[0x00, 0x00, 0x00, 0x00]);
    data.extend_from_slice(&[0x00, 0x00, 0x00, 0x00]);
    let header = Header::read(&data).unwrap();
    assert_eq!(header.version(), 0x04030201);
    assert_eq!(header.string_block_size(), 160);
    assert_eq!(header.crc_table_count(), 0);
    assert_eq!(header.name_table_count(), 0);
}

#[test]
fn header_write_gives_the_22_bytes() {
    let header = Header { version: 1, string_block_size: 160, crc_table_count: 0x01020304, name_table_count: 5 };
    let mut buffer = vec![0xeeu8; 24];
    header.write(&mut buffer);
    let mut expected = b"RESTBL".to_vec();
    expected.extend_from_slice(&[1, 0, 0, 0, 160, 0, 0, 0, 4, 3, 2, 1, 5, 0, 0, 0]);
    expected.extend_from_slice(&[0xee, 0xee]);
    assert_eq!(buffer, expected);
    let again = Header::read(&buffer).unwrap();
    assert_eq!(again.crc_table_count(), 0x01020304);
    assert_eq!(again.name_table_count(), 5);
}

#[test]
fn reader_of_fewer_than_22_bytes_is_insufficient_data() {
    let data = sample();
    for len in [0usize, 1, 6, 21] {
        match ResTblReader::new(&data[..len]) {
            Err(Error::InsufficientData(found, expected)) => {
                assert_eq!(found, len);
                assert_eq!(expected, "0x16 bytes for header");
            }
            _ => panic!("a short buffer was not refused as too short"),
        }
    }
}

#[test]
fn reader_of_wrong_magic_is_invalid_magic() {
    let mut data = sample();
    data[5] = b'X';
    match ResTblReader::new(&data) {
        Err(Error::InvalidMagic(found)) => assert_eq!(&found, b"RESTBX"),
        _ => panic!("a wrong magic was not refused"),
    }
    let zeros = vec![0u8; 22];
    assert!(matches!(ResTblReader::new(&zeros), Err(Error::InvalidMagic([0, 0, 0, 0, 0, 0]))));
}

#[test]
fn reader_of_truncated_table_is_invalid_table_size() {
    let data = sample();
    let expected = 22 + 4 * 8 + 2 * 164;
    assert_eq!(data.len(), expected);
    match ResTblReader::new(&data[..expected - 1]) {
        Err(Error::InvalidTableSize(found, wanted)) => {
            assert_eq!(found, expected - 1);
            assert_eq!(wanted, expected as u64);
        }
        _ => panic!("a truncated table was not refused"),
    }
    let only_header = header_bytes(1, 0);
    assert!(matches!(ResTblReader::new(&only_header), Err(Error::InvalidTableSize(22, 30))));
    let huge = header_bytes(u32::MAX, u32::MAX);
    assert!(matches!(
        ResTblReader::new(&huge),
        Err(Error::InvalidTableSize(22, 738_734_374_762))
    ));
}

#[test]
fn reader_accepts_trailing_bytes() {
    let mut data = sample();
    data.extend_from_slice(&[1, 2, 3]);
    let parser = ResTblReader::new(&data).unwrap();
    assert_eq!(parser.len(), 6);
    assert_eq!(parser.get(0x12345678u32), Some(42));
}

#[test]
fn end_to_end_example() {
    let mut data = header_bytes(1, 0);
    data.extend(hash_record(0x12345678, 42));
    assert_eq!(data.len(), 30);
    let parser = ResTblReader::new(&data).unwrap();
    assert_eq!(parser.header().version(), 1);
    assert_eq!(parser.header().string_block_size(), 160);
    assert_eq!(parser.header().crc_table_count(), 1);
    assert_eq!(parser.header().name_table_count(), 0);
    assert_eq!(parser.get(0x12345678u32), Some(42));
    assert!(!parser.contains(0x99999999u32));
    let table = ResourceSizeTable::from_binary(&data).unwrap();
    assert_eq!(table.get(0x12345678u32), Some(42));
    assert!(!table.contains(0x99999999u32));
    assert_eq!(table.to_binary(), data);
}

#[test]
fn reader_len_and_is_empty() {
    let data = sample();
    let parser = ResTblReader::new(&data).unwrap();
    assert_eq!(parser.len(), 6);
    assert!(!parser.is_empty());
    let empty = header_bytes(0, 0);
    let parser = ResTblReader::new(&empty).unwrap();
    assert_eq!(parser.len(), 0);
    assert!(parser.is_empty());
}

#[test]
fn reader_offsets_and_indexed_records() {
    let data = sample();
    let parser = ResTblReader::new(&data).unwrap();
    assert_eq!(parser.name_table_offset(), 22 + 32);
    assert_eq!(parser.hash_table_index(3), Some(3));
    assert_eq!(parser.hash_table_index(4), None);
    assert_eq!(parser.parse_hash_entry(2), HashEntry { hash: 0x4F6DE9B9, value: 4096 });
    let second = parser.parse_name_entry(1).unwrap();
    assert_eq!(second.name().as_str(), NAMED_B);
    assert_eq!(second.value(), 2000);
}

#[test]
fn reader_finds_every_record_by_binary_search() {
    let data = sample();
    let parser = ResTblReader::new(&data).unwrap();
    for (hash, value) in [(0x0000B780u32, 31880u32), (0x12345678, 42), (0x4F6DE9B9, 4096), (0xFFFFFFFE, 7)] {
        assert_eq!(parser.find_hash_entry(hash), Some(HashEntry { hash, value }));
        assert_eq!(parser.get(hash), Some(value));
        assert!(parser.contains(hash));
    }
    for hash in [0u32, 0x0000B77F, 0x0000B781, 0x12345679, 0xFFFFFFFF] {
        assert_eq!(parser.find_hash_entry(hash), None);
        assert!(!parser.contains(hash));
    }
    assert_eq!(parser.find_name_entry(NAMED_A).unwrap().value(), 1000);
    assert_eq!(parser.find_name_entry(NAMED_B).unwrap().value(), 2000);
    assert!(parser.find_name_entry("Actor/Link.bfre").is_none());
    assert!(parser.find_name_entry("Actor/Link.bfres2").is_none());
    assert!(parser.find_name_entry("").is_none());
}

#[test]
fn path_falls_back_to_its_hash() {
    let data = sample();
    let parser = ResTblReader::new(&data).unwrap();
    assert_eq!(hash_name(BAKE), 0x0000B780);
    assert_eq!(parser.get(BAKE), Some(31880));
    assert_eq!(
        parser.get_entry(BAKE),
        Some(TableEntry::Hash(HashEntry { hash: 0x0000B780, value: 31880 }))
    );
    let table = ResourceSizeTable::from_parser(&parser);
    assert_eq!(table.get(BAKE), Some(31880));
}

#[test]
fn name_record_wins_over_colliding_hash_record() {
    let mut data = header_bytes(1, 1);
    data.extend(hash_record(hash_name(NAMED_A), 5));
    data.extend(name_record(NAMED_A.as_bytes(), 1000));
    let parser = ResTblReader::new(&data).unwrap();
    assert_eq!(parser.get(NAMED_A), Some(1000));
    assert_eq!(parser.get(hash_name(NAMED_A)), Some(5));
    match parser.get_entry(NAMED_A) {
        Some(TableEntry::Name(entry)) => assert_eq!(entry.value(), 1000),
        _ => panic!("the name record was not preferred"),
    }
    let table = ResourceSizeTable::from_parser(&parser);
    assert_eq!(table.get(NAMED_A), Some(1000));
    assert_eq!(table.get(hash_name(NAMED_A)), Some(5));
}

#[test]
fn missing_path_is_not_found() {
    let data = sample();
    let parser = ResTblReader::new(&data).unwrap();
    assert_eq!(parser.get(MISSING), None);
    assert!(!parser.contains(MISSING));
    assert_eq!(parser.get_entry(MISSING), None);
    let table = ResourceSizeTable::from_parser(&parser);
    assert_eq!(table.get(MISSING), None);
    assert!(!table.contains(MISSING));
}

#[test]
fn iteration_yields_hash_records_then_name_records() {
    let data = sample();
    let parser = ResTblReader::new(&data).unwrap();
    let mut it = parser.iter();
    let mut seen = Vec::new();
    while let Some(entry) = it.next() {
        seen.push(entry);
    }
    assert_eq!(seen.len(), 6);
    assert_eq!(seen[0], TableEntry::Hash(HashEntry { hash: 0x0000B780, value: 31880 }));
    assert_eq!(seen[3], TableEntry::Hash(HashEntry { hash: 0xFFFFFFFE, value: 7 }));
    match seen[4] {
        TableEntry::Name(entry) => {
            assert_eq!(entry.name().as_str(), NAMED_A);
            assert_eq!(entry.value(), 1000);
        }
        _ => panic!("the fifth record is not a name record"),
    }
    match seen[5] {
        TableEntry::Name(entry) => assert_eq!(entry.name().as_str(), NAMED_B),
        _ => panic!("the sixth record is not a name record"),
    }
    assert_eq!(it.next(), None);
    assert_eq!(it.next(), None);
}

#[test]
fn iteration_stops_at_a_name_that_does_not_decode() {
    let mut data = header_bytes(1, 3);
    data.extend(hash_record(1, 2));
    data.extend(name_record(b"A", 10));
    data.extend(name_record(&[0xff, 0xfe], 20));
    data.extend(name_record(b"C", 30));
    let parser = ResTblReader::new(&data).unwrap();
    let mut it = parser.iter();
    let mut count = 0;
    while let Some(_) = it.next() {
        count += 1;
    }
    assert_eq!(count, 2);
    assert_eq!(it.next(), None);
    let table = ResourceSizeTable::from_parser(&parser);
    assert_eq!(table.crc_table.len(), 1);
    assert_eq!(table.name_table.len(), 1);
    assert_eq!(table.get("A"), Some(10));
    assert!(matches!(parser.parse_name_entry(1), Err(Error::Utf8Error)));
    assert!(parser.find_name_entry("C").is_none());
}

#[test]
fn later_record_of_a_hash_wins_when_decoding() {
    let mut data = header_bytes(3, 2);
    data.extend(hash_record(7, 1));
    data.extend(hash_record(7, 2));
    data.extend(hash_record(3, 9));
    data.extend(name_record(b"B", 10));
    data.extend(name_record(b"B", 11));
    let table = ResourceSizeTable::from_binary(&data).unwrap();
    assert_eq!(table.crc_table.len(), 2);
    assert_eq!(table.get(7u32), Some(2));
    assert_eq!(table.get(3u32), Some(9));
    assert_eq!(table.name_table.len(), 1);
    assert_eq!(table.get("B"), Some(11));
    let mut expected = header_bytes(2, 1);
    expected.extend(hash_record(3, 9));
    expected.extend(hash_record(7, 2));
    expected.extend(name_record(b"B", 11));
    assert_eq!(table.to_binary(), expected);
}

#[test]
fn from_binary_reports_what_the_reader_reports() {
    assert!(matches!(
        ResourceSizeTable::from_binary(&[0u8; 3]),
        Err(Error::InsufficientData(3, "0x16 bytes for header"))
    ));
    assert!(matches!(
        ResourceSizeTable::from_binary(&[b'x'; 30]),
        Err(Error::InvalidMagic([b'x', b'x', b'x', b'x', b'x', b'x']))
    ));
    assert!(matches!(
        ResourceSizeTable::from_binary(&header_bytes(0, 1)),
        Err(Error::InvalidTableSize(22, 186))
    ));
}

#[test]
fn hash_entry_reads_and_writes_eight_bytes() {
    let entry = HashEntry::read(&[0x78, 0x56, 0x34, 0x12, 0x2a, 0, 0, 0, 0xff]).unwrap();
    assert_eq!(entry.hash(), 0x12345678);
    assert_eq!(entry.value(), 42);
    let mut buffer = [0xaau8; 10];
    entry.write(&mut buffer);
    assert_eq!(buffer, [0x78, 0x56, 0x34, 0x12, 0x2a, 0, 0, 0, 0xaa, 0xaa]);
    assert!(matches!(
        HashEntry::read(&[1, 2, 3, 4, 5, 6, 7]),
        Err(Error::InsufficientData(7, "8 bytes for HashEntry"))
    ));
}

#[test]
fn name_entry_reads_and_writes_164_bytes() {
    let record = name_record(b"Actor/Link.bfres", 0xdeadbeef);
    let entry = NameEntry::read(&record).unwrap();
    assert_eq!(entry.name().as_str(), "Actor/Link.bfres");
    assert_eq!(entry.value(), 0xdeadbeef);
    let mut buffer = vec![0x55u8; 166];
    entry.write(&mut buffer);
    assert_eq!(&buffer[..164], &record[..]);
    assert_eq!(&buffer[164..], &[0x55, 0x55]);
    assert!(matches!(
        NameEntry::read(&record[..163]),
        Err(Error::InsufficientData(163, "0x4a bytes for NameEntry"))
    ));
}

#[test]
fn name_entry_drops_what_follows_the_terminator() {
    let mut record = name_record(b"abc", 1);
    record[10] = b'x';
    let entry = NameEntry::read(&record).unwrap();
    assert_eq!(entry.name().as_str(), "abc");
    let mut buffer = vec![0u8; 164];
    entry.write(&mut buffer);
    assert_eq!(buffer, name_record(b"abc", 1));
}

#[test]
fn name_entry_without_terminator_or_utf8_is_refused() {
    let mut record = vec![b'a'; 160];
    record.extend_from_slice(&[1, 0, 0, 0]);
    assert!(matches!(NameEntry::read(&record), Err(Error::Utf8Error)));
    record[159] = 0;
    assert_eq!(NameEntry::read(&record).unwrap().name().len(), 159);
    let bad = name_record(&[b'a', 0xc3], 1);
    assert!(matches!(NameEntry::read(&bad), Err(Error::Utf8Error)));
}

#[test]
fn entries_compare_by_name_and_value() {
    let a = NameEntry { name: Name::from_bytes(b"a").unwrap(), value: 1 };
    let b = NameEntry { name: Name::from_bytes(b"a\0junk").unwrap(), value: 1 };
    let c = NameEntry { name: Name::from_bytes(b"a").unwrap(), value: 2 };
    assert_eq!(a, b);
    assert_ne!(a, c);
    assert_eq!(TableEntry::Name(a), TableEntry::Name(b));
    assert_ne!(TableEntry::Name(a), TableEntry::Hash(HashEntry { hash: 1, value: 1 }));
    assert_eq!(TableEntry::Name(c).value(), 2);
    assert_eq!(TableEntry::Hash(HashEntry { hash: 1, value: 9 }).value(), 9);
}

#[test]
fn edited_table_encodes_in_ascending_order() {
    let mut table = ResourceSizeTable::new();
    for hash in [900u32, 5, 70000, 1, 0xFFFFFFFF, 0] {
        table.set(hash, hash.wrapping_mul(3));
    }
    for name in ["zeta", "alpha", "Alpha", "beta", "alph"] {
        table.name_table.insert(Name::from_bytes(name.as_bytes()).unwrap(), name.len() as u32);
    }
    let hashes = table.hash_entries();
    assert_eq!(hashes.len(), 6);
    for pair in hashes.windows(2) {
        assert!(pair[0].hash() < pair[1].hash());
    }
    let names = table.name_entries();
    let spelled: Vec<&str> = names.iter().map(|entry| entry.name.as_str()).collect();
    assert_eq!(spelled, vec!["Alpha", "alph", "alpha", "beta", "zeta"]);
    let all = table.entries();
    assert_eq!(all.len(), 11);
    for (at, entry) in all.iter().enumerate() {
        if at < 6 {
            assert_eq!(*entry, TableEntry::Hash(hashes[at]));
        } else {
            assert_eq!(*entry, TableEntry::Name(names[at - 6]));
        }
    }
    let bytes = table.to_binary();
    assert_eq!(bytes.len(), 22 + 6 * 8 + 5 * 164);
    let parser = ResTblReader::new(&bytes).unwrap();
    let mut it = parser.iter();
    let mut last_hash = None;
    let mut last_name: Option<String> = None;
    while let Some(entry) = it.next() {
        match entry {
            TableEntry::Hash(entry) => {
                assert!(last_hash.map_or(true, |last| last < entry.hash()));
                last_hash = Some(entry.hash());
            }
            TableEntry::Name(entry) => {
                let name = entry.name().as_str().to_string();
                assert!(last_name.as_ref().map_or(true, |last| last.as_str() < name.as_str()));
                last_name = Some(name);
            }
        }
    }
    assert_eq!(ResourceSizeTable::from_binary(&bytes).unwrap(), table);
}

#[test]
fn empty_table_encodes_to_a_header() {
    let table = ResourceSizeTable::new();
    assert_eq!(table.to_binary(), header_bytes(0, 0));
    let again = ResourceSizeTable::from_binary(&header_bytes(0, 0)).unwrap();
    assert!(again.is_empty());
}
