use restbl::bin::HashEntry;
use restbl::bin::NameEntry;
use restbl::bin::ResTblReader;
use restbl::bin::TableEntry;
use restbl::parse::find_separator;
use restbl::parse::parse_decimal;
use restbl::parse::split_line;
use restbl::parse::take_line;
use restbl::text::push_decimal;
use restbl::text::push_line;
use restbl::text::write_line;
use restbl::util::hash_name;
use restbl::util::Name;
use restbl::Error;
use restbl::ResourceSizeTable;

fn sample() -> Vec<u8> {
    let mut table = ResourceSizeTable::new();
    table.set(0x0000B780u32, 31880);
    table.set(0x12345678u32, 42);
    table.set(0u32, 0);
    table.set(u32::MAX, u32::MAX);
    table.name_table.insert(Name::from_bytes(b"Actor/Link.bfres").unwrap(), 1000);
    table.name_table.insert(Name::from_bytes(b"Sound/Bgm.bars").unwrap(), 4_000_000_000);
    table.to_binary()
}

const SAMPLE_TEXT: &str = "0: 0\n46976: 31880\n305419896: 42\n4294967295: 4294967295\nActor/Link.bfres: 1000\nSound/Bgm.bars: 4000000000\n";

#[test]
fn write_to_string() {
    let data = sample();
    let parser = ResTblReader::new(&data).unwrap();
    let text = parser.to_text();
    println!("{text}");
    assert_eq!(text, SAMPLE_TEXT);
}

#[test]
fn write_to_buf() {
    let data = sample();
    let mut buffer = vec![0u8; 1024 * 1024 * 10];
    let parser = ResTblReader::new(&data).unwrap();
    let len = parser.write_text_to_buf(&mut buffer).unwrap();
    let text = core::str::from_utf8(&buffer[..len]).unwrap();
    println!("{text}");
    assert_eq!(text, SAMPLE_TEXT);
    assert!(buffer[len..].iter().all(|byte| *byte == 0));
}

#[test]
fn write_to_buf_wants_room_for_the_longest_lines() {
    let data = sample();
    let parser = ResTblReader::new(&data).unwrap();
    let room = 4 * 23 + 2 * 173;
    let mut small = vec![7u8; room - 1];
    match parser.write_text_to_buf(&mut small) {
        Err(Error::InsufficientBuffer(found, wanted)) => {
            assert_eq!(found, room - 1);
            assert_eq!(wanted, room as u64);
        }
        _ => panic!("a small buffer was not refused"),
    }
    assert!(small.iter().all(|byte| *byte == 7));
    let mut exact = vec![7u8; room];
    let len = parser.write_text_to_buf(&mut exact).unwrap();
    assert_eq!(len, SAMPLE_TEXT.len());
    assert_eq!(&exact[..len], SAMPLE_TEXT.as_bytes());
    assert!(exact[len..].iter().all(|byte| *byte == 7));
    let mut again = vec![7u8; room];
    assert_eq!(parser.write_text_to_buf_unchecked(&mut again), SAMPLE_TEXT.len());
    assert_eq!(again, exact);
}

#[test]
fn text_of_an_owned_table_is_the_text_of_its_file() {
    let data = sample();
    let table = ResourceSizeTable::from_binary(&data).unwrap();
    assert_eq!(table.to_text(), SAMPLE_TEXT);
    assert_eq!(ResourceSizeTable::new().to_text(), "");
}

#[test]
fn text_of_a_reader_stops_at_a_name_that_does_not_decode() {
    let mut data = b"RESTBL".to_vec();
    data.extend_from_slice(&1u32.to_le_bytes());
    data.extend_from_slice(&160u32.to_le_bytes());
    data.extend_from_slice(&1u32.to_le_bytes());
    data.extend_from_slice(&2u32.to_le_bytes());
    data.extend_from_slice(&9u32.to_le_bytes());
    data.extend_from_slice(&8u32.to_le_bytes());
    let mut bad = vec![0xffu8; 160];
    bad.extend_from_slice(&1u32.to_le_bytes());
    data.extend_from_slice(&bad);
    let mut good = vec![0u8; 160];
    good[0] = b'g';
    good.extend_from_slice(&2u32.to_le_bytes());
    data.extend_from_slice(&good);
    let parser = ResTblReader::new(&data).unwrap();
    assert_eq!(parser.to_text(), "9: 8\n");
    let mut buffer = vec![0u8; 23 + 2 * 173];
    assert_eq!(parser.write_text_to_buf(&mut buffer).unwrap(), 5);
    assert_eq!(&buffer[..5], b"9: 8\n");
}

#[test]
fn decimal_is_written_without_leading_zeros() {
    for (value, text) in [
        (0u32, "0"),
        (7, "7"),
        (10, "10"),
        (99, "99"),
        (100, "100"),
        (46976, "46976"),
        (1_000_000_000, "1000000000"),
        (4_294_967_295, "4294967295"),
    ] {
        let mut out = b"x".to_vec();
        push_decimal(&mut out, value);
        assert_eq!(out, format!("x{text}").into_bytes());
    }
}

#[test]
fn line_is_key_separator_value_and_line_feed() {
    let mut out = Vec::new();
    push_line(&mut out, &TableEntry::Hash(HashEntry { hash: 12, value: 345 }));
    let named = NameEntry { name: Name::from_bytes("Pack/\u{e9}.pack".as_bytes()).unwrap(), value: 6 };
    push_line(&mut out, &TableEntry::Name(named));
    assert_eq!(out, "12: 345\nPack/\u{e9}.pack: 6\n".as_bytes());
    let mut buffer = vec![b'.'; 200];
    let end = write_line(&mut buffer, 3, &TableEntry::Hash(HashEntry { hash: 12, value: 345 }));
    assert_eq!(end, 11);
    assert_eq!(&buffer[..12], b"...12: 345\n.");
    let end = write_line(&mut buffer, end, &TableEntry::Name(named));
    assert_eq!(&buffer[11..end], "Pack/\u{e9}.pack: 6\n".as_bytes());
    assert!(buffer[end..].iter().all(|byte| *byte == b'.'));
}

#[test]
fn decimal_is_read_as_the_standard_library_reads_it() {
    let cases = [
        "0", "7", "007", "+7", "+0", "4294967295", "4294967296", "42949672950", "+4294967295",
        "00000000000000000004294967295", "99999999999999999999999999", "", "+", "-1", "-0", "1 ",
        " 1", "1_0", "0x10", "12a", "a12", "++1", "1+", "٣", "1.0",
    ];
    for text in cases {
        assert_eq!(parse_decimal(text.as_bytes()), text.parse::<u32>().ok(), "reading {text:?}");
    }
    assert_eq!(parse_decimal(b"46976"), Some(46976));
    assert_eq!(parse_decimal(b"4294967295"), Some(u32::MAX));
    assert_eq!(parse_decimal(b"4294967296"), None);
}

#[test]
fn line_is_split_at_its_first_separator() {
    assert_eq!(find_separator(b"a: 1"), Some(1));
    assert_eq!(find_separator(b": "), Some(0));
    assert_eq!(find_separator(b"a:1: 2"), Some(3));
    assert_eq!(find_separator(b"a:: 2"), Some(2));
    assert_eq!(find_separator(b"a: b: c"), Some(1));
    assert_eq!(find_separator(b"a:"), None);
    assert_eq!(find_separator(b"a :1"), None);
    assert_eq!(find_separator(b""), None);
    assert_eq!(find_separator(b":"), None);
    assert_eq!(split_line(b"key: value"), Some((&b"key"[..], &b"value"[..])));
    assert_eq!(split_line(b"a: b: c"), Some((&b"a"[..], &b"b: c"[..])));
    assert_eq!(split_line(b": "), Some((&b""[..], &b""[..])));
    assert_eq!(split_line(b"no separator"), None);
}

#[test]
fn text_is_cut_into_lines_as_the_standard_library_cuts_it() {
    let texts = [
        "a", "a\n", "a\nb", "a\r\nb\r\n", "\n", "\n\n", "\r\n", "a\r", "a\rb\n", "\ra\n", "a\n\rb",
        "\u{e9}\n\u{20ac}\r\n", "a\r\r\n", "last\r",
    ];
    for text in texts {
        let mut mine = Vec::new();
        let mut rest = text;
        while !rest.is_empty() {
            let (line, after) = take_line(rest);
            mine.push(line);
            rest = after;
        }
        let theirs: Vec<&str> = text.lines().collect();
        assert_eq!(mine, theirs, "cutting {text:?}");
    }
}

#[test]
fn text_of_hashes_is_read_back() {
    let mut table = ResourceSizeTable::new();
    for (hash, value) in [(0u32, 0u32), (46976, 31880), (4294967295, 4294967295), (10, 100)] {
        table.set(hash, value);
    }
    let text = table.to_text();
    assert_eq!(text, "0: 0\n10: 100\n46976: 31880\n4294967295: 4294967295\n");
    assert_eq!(ResourceSizeTable::from_text(&text).unwrap(), table);
}

#[test]
fn text_of_names_is_read_back_by_their_hashes() {
    let table = ResourceSizeTable::from_binary(&sample()).unwrap();
    let again = ResourceSizeTable::from_text(&table.to_text()).unwrap();
    assert_eq!(again.name_table.len(), 0);
    assert_eq!(again.crc_table.len(), 6);
    for (hash, value) in table.crc_table.iter() {
        assert_eq!(again.get(*hash), Some(*value));
    }
    assert_eq!(again.get("Actor/Link.bfres"), Some(1000));
    assert_eq!(again.get("Sound/Bgm.bars"), Some(4_000_000_000));
    assert_eq!(again.get(hash_name("Actor/Link.bfres")), Some(1000));
}

#[test]
fn numeric_key_is_a_hash_and_on_collision_a_name() {
    let table = ResourceSizeTable::from_text("5: 1\n5: 2\n+5: 3\n005: 4\n5: 6\n").unwrap();
    assert_eq!(table.crc_table.len(), 1);
    assert_eq!(table.get(5u32), Some(1));
    assert_eq!(table.name_table.len(), 3);
    assert_eq!(table.name_table.get(b"5"), Some(6));
    assert_eq!(table.name_table.get(b"+5"), Some(3));
    assert_eq!(table.name_table.get(b"005"), Some(4));
    assert_eq!(table.get("5"), Some(6));
}

#[test]
fn other_key_is_a_path_and_goes_by_its_hash() {
    let table = ResourceSizeTable::from_text("Actor/Link.bfres: 1\nActor/Link.bfres: 2\n: 3\n").unwrap();
    assert_eq!(table.name_table.len(), 0);
    assert_eq!(table.crc_table.len(), 2);
    assert_eq!(table.get("Actor/Link.bfres"), Some(2));
    assert_eq!(table.get(hash_name("Actor/Link.bfres")), Some(2));
    assert_eq!(table.get(0u32), Some(3));
    let table = ResourceSizeTable::from_text("1187497282: 1\nActor/Link.bfres: 2").unwrap();
    assert_eq!(table.crc_table.len(), 1);
    assert_eq!(table.get(1187497282u32), Some(2));
}

#[test]
fn empty_lines_and_line_endings_are_passed_over() {
    let table = ResourceSizeTable::from_text("\n1: 2\r\n\r\n\n3: 4").unwrap();
    assert_eq!(table.len(), 2);
    assert_eq!(table.get(1u32), Some(2));
    assert_eq!(table.get(3u32), Some(4));
    assert!(ResourceSizeTable::from_text("").unwrap().is_empty());
    assert!(ResourceSizeTable::from_text("\n\n").unwrap().is_empty());
}

#[test]
fn line_without_separator_is_a_format_error() {
    match ResourceSizeTable::from_text("1: 2\nno separator here\n3: 4\n") {
        Err(Error::YamlError(line)) => assert_eq!(line, "no separator here"),
        _ => panic!("a line without separator was not refused"),
    }
    match ResourceSizeTable::from_text("key:value\r\n") {
        Err(Error::YamlError(line)) => assert_eq!(line, "key:value"),
        _ => panic!("a line without separator was not refused"),
    }
    assert!(matches!(ResourceSizeTable::from_text("\r"), Err(Error::YamlError(_))));
}

#[test]
fn value_that_is_no_decimal_u32_is_a_number_error() {
    for text in ["1: x", "1: ", "1: -2", "1: 4294967296", "1: 2 ", "a: b: 3", "1: 2\r", "1: 0x1"] {
        assert!(
            matches!(ResourceSizeTable::from_text(text), Err(Error::YamlInvalidNumber)),
            "reading {text:?}"
        );
    }
    assert_eq!(ResourceSizeTable::from_text("1: +2").unwrap().get(1u32), Some(2));
    assert_eq!(ResourceSizeTable::from_text("1: 4294967295").unwrap().get(1u32), Some(u32::MAX));
}

#[test]
fn colliding_key_that_is_too_long_for_a_name_is_refused() {
    let long_key = "0".repeat(160);
    let text = format!("0: 1\n{long_key}: 2\n");
    assert!(matches!(ResourceSizeTable::from_text(&text), Err(Error::Utf8Error)));
    let fitting_key = "0".repeat(159);
    let text = format!("0: 1\n{fitting_key}: 2\n");
    let table = ResourceSizeTable::from_text(&text).unwrap();
    assert_eq!(table.name_table.get(fitting_key.as_bytes()), Some(2));
    let text = format!("{long_key}: 2\n");
    assert_eq!(ResourceSizeTable::from_text(&text).unwrap().get(0u32), Some(2));
}

#[test]
fn lines_are_applied_one_at_a_time() {
    let mut table = ResourceSizeTable::new();
    table.insert_line("7: 8").unwrap();
    table.insert_pair(b"9", 10).unwrap();
    assert!(matches!(table.insert_line("7 8"), Err(Error::YamlError(_))));
    assert!(matches!(table.insert_line("7: eight"), Err(Error::YamlInvalidNumber)));
    assert_eq!(table.len(), 2);
    assert_eq!(table.get(7u32), Some(8));
    assert_eq!(table.get(9u32), Some(10));
}
