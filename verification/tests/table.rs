use restbl::names::NameTable;
use restbl::util::hash_name;
use restbl::util::Name;
use restbl::ResourceSizeTable;
use restbl::TableIndex;

const PATH: &str = "TexToGo/Etc_BaseCampWallWood_A_Alb.txtg";

fn name(text: &str) -> Name {
    Name::from_bytes(text.as_bytes()).unwrap()
}

#[test]
fn new_table_is_empty() {
    let table = ResourceSizeTable::new();
    assert_eq!(table.len(), 0);
    assert!(table.is_empty());
    assert_eq!(table, ResourceSizeTable::default());
    assert_eq!(table.get(0u32), None);
    assert_eq!(table.get(""), None);
}

#[test]
fn set_of_a_hash_is_an_upsert() {
    let mut table = ResourceSizeTable::new();
    assert_eq!(table.set(5u32, 10), None);
    assert_eq!(table.set(5u32, 11), Some(10));
    assert_eq!(table.get(5u32), Some(11));
    assert!(table.contains(5u32));
    assert!(!table.contains(6u32));
    assert_eq!(table.len(), 1);
    assert!(!table.is_empty());
}

#[test]
fn set_of_a_new_path_goes_by_its_hash() {
    let mut table = ResourceSizeTable::new();
    assert_eq!(table.set(PATH, 777), None);
    assert_eq!(table.get(PATH), Some(777));
    assert_eq!(table.get(hash_name(PATH)), Some(777));
    assert_eq!(hash_name(PATH), 0xD814699D);
    assert_eq!(table.crc_table.len(), 1);
    assert_eq!(table.crc_table.get(&0xD814699D), Some(&777));
    assert_eq!(table.name_table.len(), 0);
    assert_eq!(table.set(PATH, 778), Some(777));
    assert_eq!(table.set(String::from(PATH), 779), Some(778));
    assert_eq!(table.get(0xD814699Du32), Some(779));
}

#[test]
fn set_of_a_named_path_stays_by_name() {
    let mut table = ResourceSizeTable::new();
    table.name_table.insert(name(PATH), 1);
    assert_eq!(table.set(PATH, 2), Some(1));
    assert_eq!(table.name_table.len(), 1);
    assert_eq!(table.crc_table.len(), 0);
    assert_eq!(table.get(PATH), Some(2));
    assert_eq!(table.get(hash_name(PATH)), None);
    assert_eq!(table.name_table.get(PATH.as_bytes()), Some(2));
}

#[test]
fn name_is_looked_up_before_hash() {
    let mut table = ResourceSizeTable::new();
    table.set(hash_name(PATH), 5);
    table.name_table.insert(name(PATH), 9);
    assert_eq!(table.get(PATH), Some(9));
    assert_eq!(table.get(hash_name(PATH)), Some(5));
    assert!(table.contains(PATH));
    assert_eq!(table.len(), 2);
}

#[test]
fn remove_takes_the_name_first_and_then_the_hash() {
    let mut table = ResourceSizeTable::new();
    table.set(hash_name(PATH), 5);
    table.name_table.insert(name(PATH), 9);
    assert_eq!(table.remove(PATH), Some(9));
    assert_eq!(table.get(PATH), Some(5));
    assert_eq!(table.remove(PATH), Some(5));
    assert_eq!(table.get(PATH), None);
    assert_eq!(table.remove(PATH), None);
    assert!(table.is_empty());
}

#[test]
fn remove_of_a_hash_leaves_names_alone() {
    let mut table = ResourceSizeTable::new();
    table.set(3u32, 30);
    table.name_table.insert(name("n"), 1);
    assert_eq!(table.remove(4u32), None);
    assert_eq!(table.remove(3u32), Some(30));
    assert_eq!(table.remove(3u32), None);
    assert_eq!(table.name_table.len(), 1);
    assert!(!table.contains(3u32));
}

#[test]
fn get_mut_changes_the_size_in_place() {
    let mut table = ResourceSizeTable::new();
    table.set(3u32, 30);
    table.set(PATH, 40);
    table.name_table.insert(name("named"), 50);
    *table.get_mut(3u32).unwrap() += 1;
    *table.get_mut(PATH).unwrap() = 41;
    *table.get_mut("named").unwrap() = 51;
    assert!(table.get_mut(4u32).is_none());
    assert!(table.get_mut("absent").is_none());
    assert_eq!(table.get(3u32), Some(31));
    assert_eq!(table.get(PATH), Some(41));
    assert_eq!(table.get("named"), Some(51));
    assert_eq!(table.name_table.get(b"named"), Some(51));
    assert_eq!(table.len(), 3);
}

#[test]
fn index_forms_of_the_operations_agree() {
    let mut table = ResourceSizeTable::new();
    let by_hash = TableIndex::from(8u32);
    let by_path = TableIndex::from(PATH);
    assert_eq!(table.set_index(&by_hash, 1), None);
    assert_eq!(table.set_index(&by_path, 2), None);
    assert_eq!(table.get_index(&by_hash), Some(1));
    assert_eq!(table.get_index(&by_path), Some(2));
    assert_eq!(table.get_hash(8), Some(1));
    *table.get_mut_index(&by_path).unwrap() = 3;
    assert_eq!(table.remove_index(&by_path), Some(3));
    assert_eq!(table.remove_index(&by_hash), Some(1));
    assert!(table.is_empty());
}

#[test]
fn lookups_take_names_as_well() {
    let mut table = ResourceSizeTable::new();
    let key = name(PATH);
    table.set(&key, 12);
    assert_eq!(table.get(&key), Some(12));
    assert_eq!(table.get(key), Some(12));
    assert_eq!(table.get(PATH), Some(12));
}

#[test]
fn extend_sets_one_after_the_other() {
    let mut table = ResourceSizeTable::new();
    table.name_table.insert(name("named"), 1);
    table.extend(vec![("a", 1u32), ("named", 2), ("a", 3), ("b", 4)].into_iter());
    assert_eq!(table.get("a"), Some(3));
    assert_eq!(table.get("b"), Some(4));
    assert_eq!(table.get("named"), Some(2));
    assert_eq!(table.crc_table.len(), 2);
    assert_eq!(table.name_table.len(), 1);
    table.extend(vec![(1u32, 10u32), (2, 20)].into_iter());
    assert_eq!(table.get(1u32), Some(10));
    assert_eq!(table.len(), 5);
    table.extend(Vec::<(u32, u32)>::new().into_iter());
    assert_eq!(table.len(), 5);
}

#[test]
fn clone_is_equal_and_apart() {
    let mut table = ResourceSizeTable::new();
    table.set(1u32, 2);
    table.name_table.insert(name("n"), 3);
    let mut copy = table.clone();
    assert_eq!(copy, table);
    copy.set("n", 4);
    assert_ne!(copy, table);
    assert_eq!(table.get("n"), Some(3));
}

#[test]
fn name_table_keeps_its_names_in_order() {
    let mut names = NameTable::new();
    assert!(names.is_empty());
    for (text, value) in [("m", 1u32), ("a", 2), ("z", 3), ("ab", 4), ("", 5), ("M", 6)] {
        assert_eq!(names.insert(name(text), value), None);
    }
    assert_eq!(names.len(), 6);
    let spelled: Vec<String> = names.entries().iter().map(|e| e.name.as_str().to_string()).collect();
    assert_eq!(spelled, vec!["", "M", "a", "ab", "m", "z"]);
    assert_eq!(names.entry(1).value, 6);
    assert_eq!(names.search(b"ab"), Ok(3));
    assert_eq!(names.search(b"aa"), Err(3));
    assert_eq!(names.search(b"zz"), Err(6));
    assert_eq!(names.insert(name("ab"), 40), Some(4));
    assert_eq!(names.len(), 6);
    assert_eq!(names.get(b"ab"), Some(40));
    assert_eq!(names.get(b"abc"), None);
    assert!(names.contains_key(b""));
    assert!(!names.contains_key(b"b"));
    assert_eq!(names.replace(b"z", 30), Some(3));
    assert_eq!(names.replace(b"y", 30), None);
    assert_eq!(names.len(), 6);
    *names.get_mut(b"m").unwrap() = 10;
    assert!(names.get_mut(b"n").is_none());
    assert_eq!(names.remove(b"a"), Some(2));
    assert_eq!(names.remove(b"a"), None);
    let left: Vec<(String, u32)> =
        names.entries().iter().map(|e| (e.name.as_str().to_string(), e.value)).collect();
    assert_eq!(
        left,
        vec![
            (String::new(), 5),
            (String::from("M"), 6),
            (String::from("ab"), 40),
            (String::from("m"), 10),
            (String::from("z"), 30)
        ]
    );
    assert_eq!(names.clone(), names);
    assert!(NameTable::default().is_empty());
}
