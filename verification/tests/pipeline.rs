use onebrc::chunk::chunk_file;
use onebrc::sorted::merge_results;
use onebrc::process::thread_process_chunk;
use onebrc::table::Entry;

const DATA: &[u8] = b"Oslo;1.0\nRome;22.5\nOslo;-3.0\nLima;19.9\nRome;-0.5\n";

fn name_of<'a>(e: &'a Entry, map: &'a [u8]) -> &'a [u8] {
    let len = e.name_len as usize;
    if len < 16 {
        &e.inline_name[..len]
    } else {
        &map[e.name_offset..e.name_offset + len]
    }
}

fn summary(entries: &[Entry], map: &[u8]) -> Vec<(String, i16, i16, i64, u64)> {
    entries
        .iter()
        .map(|e| (String::from_utf8(name_of(e, map).to_vec()).unwrap(), e.min, e.max, e.sum, e.count))
        .collect()
}

#[test]
fn chunks_end_on_newlines() {
    assert_eq!(chunk_file(DATA, 3), vec![(0, 18), (19, 38), (39, 49)]);
    assert_eq!(chunk_file(DATA, 1), vec![(0, 49)]);
    assert_eq!(chunk_file(b"", 4), vec![(0, 0)]);
    let many = chunk_file(DATA, 100);
    assert_eq!(many, vec![(0, 8), (9, 18), (19, 28), (29, 38), (39, 48), (49, 49)]);
}

#[test]
fn last_line_without_newline_stays_in_one_chunk() {
    assert_eq!(chunk_file(b"ab;1.0", 2), vec![(0, 6)]);
    assert_eq!(chunk_file(b"a;1.0", 3), vec![(0, 5)]);
    assert_eq!(chunk_file(b"a;1.0\nbb;2.0", 2), vec![(0, 12)]);
    assert_eq!(chunk_file(b"a;1.0\nbb;2.0", 3), vec![(0, 5), (6, 12)]);
    let data = b"a;1.0\nbb;2.0";
    for n in 1..6 {
        for (s, e) in chunk_file(data, n) {
            assert!(s <= e && e <= data.len());
        }
    }
}

#[test]
fn processes_one_chunk() {
    let v = thread_process_chunk(DATA, 0, DATA.len()).unwrap();
    let mut s = summary(&v, DATA);
    s.sort();
    assert_eq!(
        s,
        vec![
            ("Lima".to_string(), 199, 199, 199, 1),
            ("Oslo".to_string(), -30, 10, -20, 2),
            ("Rome".to_string(), -5, 225, 220, 2),
        ]
    );
}

#[test]
fn skips_empty_lines_and_lines_without_semicolon() {
    let data = b"\nOslo;1.0\nnot a measurement\n\nOslo;2.0";
    let v = thread_process_chunk(data, 0, data.len()).unwrap();
    assert_eq!(summary(&v, data), vec![("Oslo".to_string(), 10, 20, 30, 2)]);
}

#[test]
fn refuses_unreadable_temperature() {
    let data = b"Oslo;1.0\nRome;7\n";
    assert!(thread_process_chunk(data, 0, data.len()).is_none());
    let long_name = format!("{};1.0\n", "x".repeat(300));
    assert!(thread_process_chunk(long_name.as_bytes(), 0, long_name.len()).is_none());
}

#[test]
fn long_names_are_kept_by_offset() {
    let data = b"Palmerston North;1.5\nPalmerston North;2.5\n";
    let v = thread_process_chunk(data, 0, data.len()).unwrap();
    assert_eq!(v.len(), 1);
    assert_eq!(v[0].name_offset, 0);
    assert_eq!(summary(&v, data), vec![("Palmerston North".to_string(), 15, 25, 40, 2)]);
}

#[test]
fn merged_chunks_equal_whole_file() {
    let whole = thread_process_chunk(DATA, 0, DATA.len()).unwrap();
    let whole = merge_results(&vec![whole], DATA);
    for n in 1..8 {
        let chunks = chunk_file(DATA, n);
        let results: Vec<Vec<Entry>> = chunks
            .iter()
            .map(|&(s, e)| thread_process_chunk(DATA, s, e).unwrap())
            .collect();
        let merged = merge_results(&results, DATA);
        assert_eq!(summary(&merged, DATA), summary(&whole, DATA), "{n} workers");
    }
}

#[test]
fn merged_results_are_sorted_by_name() {
    let merged = merge_results(&vec![thread_process_chunk(DATA, 0, DATA.len()).unwrap()], DATA);
    let names: Vec<String> = summary(&merged, DATA).into_iter().map(|s| s.0).collect();
    assert_eq!(names, vec!["Lima", "Oslo", "Rome"]);
}

#[test]
fn merge_combines_statistics_of_the_same_station() {
    let v1 = thread_process_chunk(DATA, 0, 18).unwrap();
    let v2 = thread_process_chunk(DATA, 19, 49).unwrap();
    let merged = merge_results(&vec![v2, v1], DATA);
    let s = summary(&merged, DATA);
    assert_eq!(s[1], ("Oslo".to_string(), -30, 10, -20, 2));
}

#[test]
fn merge_order_does_not_matter() {
    let chunks = chunk_file(DATA, 3);
    let results: Vec<Vec<Entry>> = chunks
        .iter()
        .map(|&(s, e)| thread_process_chunk(DATA, s, e).unwrap())
        .collect();
    let forward = merge_results(&results, DATA);
    let mut reversed_results = results.clone();
    reversed_results.reverse();
    let backward = merge_results(&reversed_results, DATA);
    assert_eq!(summary(&forward, DATA), summary(&backward, DATA));
}

#[test]
fn merged_order_is_bytewise_with_long_names() {
    let data = b"Palmerston North;1.0\nPalma;2.0\nPalmerston;3.0\n";
    let v = thread_process_chunk(data, 0, data.len()).unwrap();
    let merged = merge_results(&vec![v], data);
    let names: Vec<String> = summary(&merged, data).into_iter().map(|s| s.0).collect();
    assert_eq!(names, vec!["Palma", "Palmerston", "Palmerston North"]);
}

#[test]
fn line_order_does_not_change_statistics() {
    let other: &[u8] = b"Rome;-0.5\nLima;19.9\nOslo;-3.0\nRome;22.5\nOslo;1.0\n";
    let a = merge_results(&vec![thread_process_chunk(DATA, 0, DATA.len()).unwrap()], DATA);
    let b = merge_results(&vec![thread_process_chunk(other, 0, other.len()).unwrap()], other);
    assert_eq!(summary(&a, DATA), summary(&b, other));
}

#[test]
fn split_chunk_merges_to_whole() {
    for split in [0, 9, 19, 29, 39, DATA.len()] {
        assert!(split == 0 || DATA[split - 1] == b'\n');
        let x = thread_process_chunk(DATA, 0, split).unwrap();
        let y = thread_process_chunk(DATA, split, DATA.len()).unwrap();
        let whole = thread_process_chunk(DATA, 0, DATA.len()).unwrap();
        assert_eq!(
            summary(&merge_results(&vec![x, y], DATA), DATA),
            summary(&merge_results(&vec![whole], DATA), DATA)
        );
    }
}
