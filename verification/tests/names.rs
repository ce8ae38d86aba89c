use restbl::order::compare_bytes;
use restbl::order::Position;
use restbl::util::hash_bytes;
use restbl::util::hash_name;
use restbl::util::read_u32;
use restbl::util::write_u32;
use restbl::util::copy_into;
use restbl::util::Name;
use restbl::Error;
use restbl::TableIndex;

#[test]
fn hash_of_known_paths() {
    assert_eq!(hash_name("Bake/Scene/MainField_G_26_43.bkres"), 0x0000B780);
    assert_eq!(hash_name("Cooking/CookingTable.game__cooking__Table.bgyml"), 0x4F6DE9B9);
    assert_eq!(hash_name("Pack/Actor/Nonexistent.pack"), 0xF439E9A7);
    assert_eq!(hash_name("TexToGo/Etc_BaseCampWallWood_A_Alb.txtg"), 0xD814699D);
}

#[test]
fn hash_is_the_standard_crc32() {
    assert_eq!(hash_name(""), 0);
    assert_eq!(hash_name("a"), 0xE8B7BE43);
    assert_eq!(hash_name("123456789"), 0xCBF43926);
    assert_eq!(hash_bytes(b"123456789"), 0xCBF43926);
    assert_eq!(hash_bytes(&[0u8]), 0xD202EF8D);
}

#[test]
fn read_u32_is_little_endian() {
    let data = [0x01, 0x02, 0x03, 0x04, 0x05];
    assert!(matches!(read_u32(&data, None), Ok(0x04030201)));
    assert!(matches!(read_u32(&data, Some(0)), Ok(0x04030201)));
    assert!(matches!(read_u32(&data, Some(1)), Ok(0x05040302)));
    assert!(matches!(read_u32(&[0xff, 0xff, 0xff, 0xff], None), Ok(u32::MAX)));
}

#[test]
fn read_u32_of_too_few_bytes_is_insufficient_data() {
    let data = [0x01, 0x02, 0x03, 0x04, 0x05];
    assert!(matches!(read_u32(&data, Some(2)), Err(Error::InsufficientData(3, "4 bytes for u32"))));
    assert!(matches!(read_u32(&data, Some(5)), Err(Error::InsufficientData(0, "4 bytes for u32"))));
    assert!(matches!(read_u32(&[], None), Err(Error::InsufficientData(0, "4 bytes for u32"))));
}

#[test]
fn write_u32_is_little_endian() {
    let mut buffer = [9u8; 6];
    write_u32(&mut buffer, 1, 0x0A0B0C0D);
    assert_eq!(buffer, [9, 0x0D, 0x0C, 0x0B, 0x0A, 9]);
    copy_into(&mut buffer, 4, &[1, 2]);
    assert_eq!(buffer, [9, 0x0D, 0x0C, 0x0B, 1, 2]);
}

#[test]
fn name_stops_at_the_first_zero_byte() {
    let name = Name::from_bytes(b"Actor/Link.bfres\0tail").unwrap();
    assert_eq!(name.as_str(), "Actor/Link.bfres");
    assert_eq!(name.len(), 16);
    assert_eq!(name.as_bytes(), b"Actor/Link.bfres");
    let field = name.as_field();
    assert_eq!(field.len(), 160);
    assert_eq!(&field[..16], b"Actor/Link.bfres");
    assert!(field[16..].iter().all(|byte| *byte == 0));
}

#[test]
fn name_of_nothing_is_empty() {
    let name = Name::from_bytes(b"").unwrap();
    assert_eq!(name.as_str(), "");
    assert_eq!(name.len(), 0);
    let name = Name::from_bytes(&[0, b'a']).unwrap();
    assert_eq!(name.as_str(), "");
}

#[test]
fn name_holds_at_most_159_bytes() {
    let longest = vec![b'x'; 159];
    let name = Name::from_bytes(&longest).unwrap();
    assert_eq!(name.len(), 159);
    assert_eq!(name.as_bytes(), &longest[..]);
    let too_long = vec![b'x'; 160];
    assert!(matches!(Name::from_bytes(&too_long), Err(Error::Utf8Error)));
    let much_too_long = vec![b'x'; 400];
    assert!(matches!(Name::from_bytes(&much_too_long), Err(Error::Utf8Error)));
    let mut terminated = vec![b'x'; 400];
    terminated[100] = 0;
    assert_eq!(Name::from_bytes(&terminated).unwrap().len(), 100);
}

#[test]
fn name_must_be_utf8_up_to_its_terminator() {
    assert!(matches!(Name::from_bytes(&[0xff]), Err(Error::Utf8Error)));
    assert!(matches!(Name::from_bytes(&[b'a', 0xe2, 0x82]), Err(Error::Utf8Error)));
    let after = Name::from_bytes(&[b'a', 0, 0xff]).unwrap();
    assert_eq!(after.as_str(), "a");
    let euro = Name::from_bytes("a\u{20ac}".as_bytes()).unwrap();
    assert_eq!(euro.as_str(), "a\u{20ac}");
    assert_eq!(euro.len(), 4);
}

#[test]
fn try_from_is_from_bytes() {
    let bytes: &[u8] = b"Pack/Actor.pack";
    let name = Name::try_from(bytes).unwrap();
    assert_eq!(name.as_str(), "Pack/Actor.pack");
    let bad: &[u8] = &[0xc0];
    assert!(matches!(Name::try_from(bad), Err(Error::Utf8Error)));
}

#[test]
fn names_are_equal_by_their_strings() {
    let a = Name::from_bytes(b"abc").unwrap();
    let b = Name::from_bytes(b"abc\0zzz").unwrap();
    let c = Name::from_bytes(b"abd").unwrap();
    assert!(a == b);
    assert!(a != c);
}

#[test]
fn names_are_ordered_as_strings_are() {
    let name = Name::from_bytes(b"beta").unwrap();
    assert_eq!(name.compare(b"beta"), Position::Same);
    assert_eq!(name.compare(b"betb"), Position::Before);
    assert_eq!(name.compare(b"beta0"), Position::Before);
    assert_eq!(name.compare(b"bet"), Position::After);
    assert_eq!(name.compare(b"Beta"), Position::After);
    assert_eq!(name.compare(b""), Position::After);
    let pairs = ["", "a", "A", "ab", "b", "a\u{e9}", "\u{e9}", "Pack/Actor", "Pack/Actor/"];
    for left in pairs {
        for right in pairs {
            let expected = match left.cmp(right) {
                std::cmp::Ordering::Less => Position::Before,
                std::cmp::Ordering::Equal => Position::Same,
                std::cmp::Ordering::Greater => Position::After,
            };
            assert_eq!(compare_bytes(left.as_bytes(), right.as_bytes()), expected);
        }
    }
}

#[test]
fn index_is_made_of_hashes_paths_and_names() {
    assert!(matches!(TableIndex::from(7u32), TableIndex::HashIndex(7)));
    match TableIndex::from("Actor/Link.bfres") {
        TableIndex::StringIndex(path) => assert_eq!(path, "Actor/Link.bfres"),
        _ => panic!("a path did not become a path index"),
    }
    match TableIndex::from(String::from("owned")) {
        TableIndex::StringIndex(path) => assert_eq!(path, "owned"),
        _ => panic!("a string did not become a path index"),
    }
    let name = Name::from_bytes(b"Pack/Actor.pack").unwrap();
    match TableIndex::from(&name) {
        TableIndex::StringIndex(path) => assert_eq!(path, "Pack/Actor.pack"),
        _ => panic!("a name did not become a path index"),
    }
    match TableIndex::from(name) {
        TableIndex::StringIndex(path) => assert_eq!(path, "Pack/Actor.pack"),
        _ => panic!("a name did not become a path index"),
    }
    assert_eq!(TableIndex::from("p").path(), Some("p"));
    assert_eq!(TableIndex::from(3u32).path(), None);
}
