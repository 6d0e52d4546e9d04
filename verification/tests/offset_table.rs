use onebrc::offset_table::{bytes_equal, insert_or_update, process_chunk, Entry};
use onebrc::chunk::chunk_file;
use onebrc::slots::{collect_entries, free_table};
use onebrc::sorted::{merge_results, sort_by_name};

fn stats(t: &[Option<Entry>], map: &[u8]) -> Vec<(String, i32, i32, i64, usize)> {
    let mut v: Vec<_> = t
        .iter()
        .flatten()
        .map(|e| {
            let name = &map[e.name_offset..e.name_offset + e.name_len];
            (String::from_utf8(name.to_vec()).unwrap(), e.min, e.max, e.sum, e.count)
        })
        .collect();
    v.sort();
    v
}

#[test]
fn inserts_and_updates_by_offset() {
    let map = b"Oslo Oslo Rome";
    let mut t = free_table();
    assert!(insert_or_update(&mut t, map, 0, 4, 10));
    assert!(!insert_or_update(&mut t, map, 5, 4, -30));
    assert!(insert_or_update(&mut t, map, 10, 4, 7));
    assert_eq!(
        stats(&t, map),
        vec![("Oslo".to_string(), -30, 10, -20, 2), ("Rome".to_string(), 7, 7, 7, 1)]
    );
    assert!(bytes_equal(map, 0, 5, 4));
    assert!(!bytes_equal(map, 0, 10, 4));
}

#[test]
fn processes_chunk_reading_bytes() {
    let data = b"Oslo;1.0\n\nRome;-22.5\nOslo;3.5\n";
    let t = process_chunk(data, 0, data.len()).unwrap();
    assert_eq!(
        stats(&t, data),
        vec![("Oslo".to_string(), 10, 35, 45, 2), ("Rome".to_string(), -225, -225, -225, 1)]
    );
}

#[test]
fn refuses_line_without_semicolon() {
    let data = b"Oslo;1.0\nRome\n";
    assert!(process_chunk(data, 0, data.len()).is_none());
    let data = b"Oslo;1 0\n";
    assert!(process_chunk(data, 0, data.len()).is_none());
}

#[test]
fn positional_chunk_skips_lines_without_semicolon() {
    let data = b"Oslo;1.0\nRome\nOslo;12.5\n";
    let t = onebrc::offset_table::thread_process_chunk(data, 0, data.len()).unwrap();
    assert_eq!(stats(&t, data), vec![("Oslo".to_string(), 10, 125, 135, 2)]);
    let bad = b"Oslo;1\n";
    assert!(onebrc::offset_table::thread_process_chunk(bad, 0, bad.len()).is_none());
}

fn merged(v: &[Entry], map: &[u8]) -> Vec<(String, i32, i32, i64, usize)> {
    v.iter()
        .map(|e| {
            let name = &map[e.name_offset..e.name_offset + e.name_len];
            (String::from_utf8(name.to_vec()).unwrap(), e.min, e.max, e.sum, e.count)
        })
        .collect()
}

const DATA: &[u8] = b"Oslo;1.0\nRome;22.5\nOslo;-3.0\nLima;19.9\nRome;-0.5\n";

#[test]
fn offset_tables_merge_sorted_by_name() {
    let whole = process_chunk(DATA, 0, DATA.len()).unwrap();
    let expected = vec![
        ("Lima".to_string(), 199, 199, 199, 1),
        ("Oslo".to_string(), -30, 10, -20, 2),
        ("Rome".to_string(), -5, 225, 220, 2),
    ];
    assert_eq!(merged(&merge_results(&vec![collect_entries(&whole, DATA)], DATA), DATA), expected);
    for n in 1..7 {
        let results: Vec<Vec<Entry>> = chunk_file(DATA, n)
            .iter()
            .map(|&(s, e)| collect_entries(&onebrc::offset_table::thread_process_chunk(DATA, s, e).unwrap(), DATA))
            .collect();
        assert_eq!(merged(&merge_results(&results, DATA), DATA), expected, "{n} workers");
    }
}

#[test]
fn split_offset_chunk_merges_to_whole() {
    // split after the second line: both halves, merged, give the whole chunk
    let split = 19;
    assert_eq!(DATA[split - 1], b'\n');
    let x = collect_entries(&process_chunk(DATA, 0, split).unwrap(), DATA);
    let y = collect_entries(&process_chunk(DATA, split, DATA.len()).unwrap(), DATA);
    let whole = collect_entries(&process_chunk(DATA, 0, DATA.len()).unwrap(), DATA);
    assert_eq!(
        merged(&merge_results(&vec![x, y], DATA), DATA),
        merged(&merge_results(&vec![whole], DATA), DATA)
    );
}

#[test]
fn line_order_does_not_change_offset_statistics() {
    let other: &[u8] = b"Rome;-0.5\nLima;19.9\nOslo;-3.0\nRome;22.5\nOslo;1.0";
    let a = collect_entries(&process_chunk(DATA, 0, DATA.len()).unwrap(), DATA);
    let b = collect_entries(&process_chunk(other, 0, other.len()).unwrap(), other);
    assert_eq!(
        merged(&merge_results(&vec![a], DATA), DATA),
        merged(&merge_results(&vec![b], other), other)
    );
}

#[test]
fn counts_inserted_entries() {
    let map = b"OsloRomeOslo";
    let mut t = free_table();
    let mut inserted = 0;
    for (start, temp) in [(0, 1), (4, 2), (8, 3)] {
        if insert_or_update(&mut t, map, start, 4, temp) {
            inserted += 1;
        }
    }
    assert_eq!(inserted, 2);
    assert_eq!(t.iter().flatten().count(), 2);
}

#[test]
fn sorts_one_table_by_name() {
    let data = b"Rome;1.0\nLima;2.0\nOslo;3.0\nLima;4.0\n";
    let entries = collect_entries(&process_chunk(data, 0, data.len()).unwrap(), data);
    let sorted = sort_by_name(&entries, data);
    assert_eq!(
        merged(&sorted, data),
        vec![
            ("Lima".to_string(), 20, 40, 60, 2),
            ("Oslo".to_string(), 30, 30, 30, 1),
            ("Rome".to_string(), 10, 10, 10, 1),
        ]
    );
}

#[test]
fn whole_chunk_refused_exactly_when_a_part_is() {
    let data = b"Oslo;1.0\nRome\nLima;2.0\n";
    let split = 9;
    assert!(process_chunk(data, 0, split).is_some());
    assert!(process_chunk(data, split, data.len()).is_none());
    assert!(process_chunk(data, 0, data.len()).is_none());
}
