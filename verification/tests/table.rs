use onebrc::slots::{collect_entries, free_table};
use onebrc::table::{thread_insert_or_update, Entry, HASH_TABLE_SIZE};
use onebrc::words::{hash_to_idx, load_u64_masked, name_words_of};

#[test]
fn loads_little_endian_words() {
    assert_eq!(load_u64_masked(b"abc", 0, 3), 0x636261);
    assert_eq!(load_u64_masked(b"xabc", 1, 0), 0);
    // a length past eight takes eight bytes
    assert_eq!(load_u64_masked(b"abcdefghij", 0, 12), 0x6867666564636261);
    assert_eq!(load_u64_masked(b"abcdefghij", 2, 8), 0x6a69686766656463);
    assert_eq!(name_words_of(b"IstanbulExtra", 0, 13), (0x6c75626e61747349, 0x6172747845));
    assert_eq!(name_words_of(b"Hamburg", 0, 7), (0x677275626d6148, 0));
}

#[test]
fn hashes_into_the_table() {
    assert_eq!(hash_to_idx(0x677275626d6148, 0, HASH_TABLE_SIZE), 7336);
    assert_eq!(hash_to_idx(0x6c75626e61747349, 0x6172747845, HASH_TABLE_SIZE), 39947);
    assert_eq!(hash_to_idx(u64::MAX, 0, 1), 0);
    assert!(hash_to_idx(12345, 678, 16) < 16);
}

#[test]
fn entry_keeps_statistics() {
    let mut e = Entry::new(1, 2, 50, 3);
    assert_eq!((e.min, e.max, e.sum, e.count), (50, 50, 50, 1));
    e.update(-20);
    e.update(70);
    assert_eq!((e.min, e.max, e.sum, e.count), (-20, 70, 100, 3));
}

#[test]
fn entry_sum_goes_past_i32() {
    let mut e = Entry::new(0, 0, 999, 1);
    for _ in 1..2_200_000 {
        e.update(999);
    }
    assert_eq!(e.count, 2_200_000);
    assert_eq!(e.sum, 2_197_800_000);
    assert_eq!((e.min, e.max), (999, 999));
}

#[test]
fn entry_sum_wraps_only_at_i64() {
    let mut e = Entry::new(0, 0, 999, 1);
    e.sum = i64::MAX;
    e.update(1);
    assert_eq!(e.sum, i64::MIN);
}

#[test]
fn entry_names_inline_and_by_offset() {
    let map = b"Oslo;1.0\nPalmerston North;2.0\n";
    let mut short = Entry::new(0, 0, 10, 4);
    short.write_inline_name(map, 0, 4);
    assert_eq!(&short.inline_name[..4], b"Oslo");
    assert!(short.entry_name_eq(&map[0..4], map));
    assert!(!short.entry_name_eq(&map[9..13], map));
    let mut long = Entry::new(0, 0, 20, 16);
    long.write_inline_name(map, 9, 16);
    assert_eq!(long.name_offset, 9);
    assert!(long.entry_name_eq(&map[9..25], map));
    assert!(!long.entry_name_eq(&map[9..24], map));
    // any byte string, not only a range of the file
    assert!(short.entry_name_eq(b"Oslo", map));
    assert!(!short.entry_name_eq(b"Osla", map));
    assert!(long.entry_name_eq(b"Palmerston North", map));
    assert!(!long.entry_name_eq(b"Palmerston Nortx", map));
}

#[test]
fn insert_then_update_same_station() {
    let map = b"Oslo;Oslo;Rome";
    let mut t = free_table();
    assert!(thread_insert_or_update(&mut t, map, 0, 4, 10));
    assert!(!thread_insert_or_update(&mut t, map, 5, 4, -30));
    assert!(thread_insert_or_update(&mut t, map, 10, 4, 250));
    let v = collect_entries(&t, map);
    assert_eq!(v.len(), 2);
    let oslo = v.iter().find(|e| &e.inline_name[..4] == b"Oslo").unwrap();
    assert_eq!((oslo.min, oslo.max, oslo.sum, oslo.count), (-30, 10, -20, 2));
    let rome = v.iter().find(|e| &e.inline_name[..4] == b"Rome").unwrap();
    assert_eq!((rome.min, rome.max, rome.sum, rome.count), (250, 250, 250, 1));
}

#[test]
fn colliding_stations_stay_apart() {
    // two names whose first sixteen bytes, and so whose words and home slot, are the same
    let map = b"aaaaaaaaaaaaaaaaXaaaaaaaaaaaaaaaaY";
    assert_eq!(name_words_of(map, 0, 17), name_words_of(map, 17, 17));
    let mut t = free_table();
    assert!(thread_insert_or_update(&mut t, map, 0, 17, 1));
    assert!(thread_insert_or_update(&mut t, map, 17, 17, 2));
    assert!(!thread_insert_or_update(&mut t, map, 0, 17, 3));
    let v = collect_entries(&t, map);
    assert_eq!(v.len(), 2);
    let total: u64 = v.iter().map(|e| e.count).sum();
    assert_eq!(total, 3);
}

#[test]
fn finds_held_stations_only() {
    let map = b"Oslo;Rome;Lima";
    let mut t = free_table();
    thread_insert_or_update(&mut t, map, 0, 4, 10);
    thread_insert_or_update(&mut t, map, 5, 4, 20);
    let i = onebrc::slots::find_entry(&t, map, 0, 4).unwrap();
    assert_eq!(t[i].unwrap().sum, 10);
    assert!(onebrc::slots::find_entry(&t, map, 10, 4).is_none());
}

#[test]
fn writes_name_whatever_the_length_field() {
    let map = b"Oslo;Palmerston North";
    let mut e = Entry::new(0, 0, 10, 3);
    e.write_inline_name(map, 0, 4);
    assert_eq!(&e.inline_name[..4], b"Oslo");
    assert_eq!(&e.inline_name[4..], &[0u8; 12]);
    assert_eq!((e.name_len, e.name_offset), (3, 0));
    let mut e = Entry::new(0, 0, 10, 4);
    e.write_inline_name(map, 5, 16);
    assert_eq!(e.name_offset, 5);
    assert_eq!(e.inline_name, [0u8; 16]);
    assert_eq!(e.name_len, 4);
}
