use enxame_tracker::bytes::{equal, find, find_part, split, take_after, take_before};
use enxame_tracker::id_map::IdMap;
use enxame_tracker::number::short_number;
use enxame_tracker::order::is_before;

#[test]
fn splitting() {
    assert_eq!(split(b"a&bc&&d", b'&'), vec![&b"a"[..], b"bc", b"", b"d"]);
    assert_eq!(split(b"", b'&'), vec![&b""[..]]);
    assert_eq!(split(b"&", b'&'), vec![&b""[..], b""]);
    // The pieces of a joined text are those of its parts.
    let mut parts = split(b"x&y", b'&');
    parts.extend(split(b"&z", b'&'));
    assert_eq!(split(b"x&y&&z", b'&'), parts);
}

#[test]
fn cutting_at_the_first_separator() {
    assert_eq!(find(b"key=a=b", b'='), 3);
    assert_eq!(take_before(b"key=a=b", b'='), b"key");
    assert_eq!(take_after(b"key=a=b", b'='), b"a=b");
    assert_eq!(find(b"key", b'='), 3);
    assert_eq!(take_before(b"key", b'='), b"key");
    assert_eq!(take_after(b"key", b'='), b"");
}

#[test]
fn searching_for_a_part() {
    assert_eq!(find_part(b"1::2::3", b"::"), Some(1));
    assert_eq!(find_part(b":::", b"::"), Some(0));
    assert_eq!(find_part(b"1:2", b"::"), None);
    assert_eq!(find_part(b":", b"::"), None);
    assert_eq!(find_part(b"ab", b"ab"), Some(0));
    assert_eq!(find_part(b"xab", b"ab"), Some(1));
}

#[test]
fn comparing() {
    assert!(equal(b"abc", b"abc"));
    assert!(!equal(b"abc", b"abd"));
    assert!(!equal(b"abc", b"ab"));
    assert!(equal(b"", b""));
    assert!(is_before(b"", b"a"));
    assert!(is_before(b"incomplete", b"interval"));
    assert!(is_before(b"a", b"aa"));
    assert!(!is_before(b"aa", b"a"));
    assert!(!is_before(b"a", b"a"));
    assert!(!is_before(b"", b""));
    assert!(is_before(b"\x7f", b"\x80"));
}

#[test]
fn short_numbers() {
    assert_eq!(short_number(b"ffFF", 16, 4), Some(0xffff));
    assert_eq!(short_number(b"0001", 16, 4), Some(1));
    assert_eq!(short_number(b"999", 10, 3), Some(999));
    assert_eq!(short_number(b"1000", 10, 3), None);
    assert_eq!(short_number(b"", 10, 3), None);
    assert_eq!(short_number(b"1a", 10, 3), None);
    assert_eq!(short_number(b"1g", 16, 4), None);
}

#[test]
fn a_map_keeps_its_identities_in_order() {
    let mut map: IdMap<u32> = IdMap::new();
    assert!(map.is_empty());
    for id in [7u8, 2, 9, 4] {
        map.insert([id; 20], u32::from(id));
    }
    map.insert([2u8; 20], 22);
    assert_eq!(map.len(), 4);
    let mut seen = vec![];
    for i in 0..map.len() {
        seen.push((map.id_at(i)[0], *map.value_at(i)));
    }
    assert_eq!(seen, vec![(2, 22), (4, 4), (7, 7), (9, 9)]);
    assert_eq!(map.find(&[7u8; 20]), Some(2));
    assert_eq!(map.find(&[8u8; 20]), None);
    *map.value_at_mut(2) = 70;
    map.remove(&[4u8; 20]);
    map.remove(&[5u8; 20]);
    assert_eq!(map.len(), 3);
    assert_eq!(*map.value_at(1), 70);
}
