use onebrc::args::{batch_count, batch_len, check_args, parse_usize, progress_percent, remove_underscores};
use onebrc::stations::parse_station_list;

fn args(v: &[&str]) -> Vec<String> {
    v.iter().map(|s| s.to_string()).collect()
}

#[test]
fn reads_row_count() {
    assert_eq!(check_args(&args(&["gen", "1_000_000_000"])), Some(1_000_000_000));
    assert_eq!(check_args(&args(&["gen", "42"])), Some(42));
    assert_eq!(check_args(&args(&["gen", "+7"])), Some(7));
}

#[test]
fn refuses_bad_command_lines() {
    assert_eq!(check_args(&args(&["gen"])), None);
    assert_eq!(check_args(&args(&["gen", "1", "2"])), None);
    assert_eq!(check_args(&args(&["gen", "0"])), None);
    assert_eq!(check_args(&args(&["gen", "-3"])), None);
    assert_eq!(check_args(&args(&["gen", "12a"])), None);
    assert_eq!(check_args(&args(&["gen", "_"])), None);
    assert_eq!(check_args(&args(&["gen", "99999999999999999999999"])), None);
}

#[test]
fn parses_like_std() {
    for s in ["", "+", "0", "+0", "18446744073709551615", "18446744073709551616", "1 2", "-1", "007"] {
        assert_eq!(parse_usize(s.as_bytes()), s.parse::<usize>().ok(), "{s:?}");
    }
    assert_eq!(remove_underscores(b"1_0_0"), b"100".to_vec());
}

#[test]
fn lists_station_names_sorted_once() {
    let csv = b"# Adapted from somewhere\nZurich;47.4\nAbha;18.2\n\nZurich;1.0\nno separator\nAbidjan;5.3";
    let names = parse_station_list(csv);
    assert_eq!(names, vec![b"Abha".to_vec(), b"Abidjan".to_vec(), b"Zurich".to_vec()]);
    assert!(parse_station_list(b"").is_empty());
}

#[test]
fn writes_every_row_asked_for() {
    assert_eq!(batch_count(0), 0);
    assert_eq!(batch_count(1), 1);
    assert_eq!(batch_count(9_999), 1);
    assert_eq!(batch_count(10_000), 1);
    assert_eq!(batch_count(15_000), 2);
    assert_eq!((batch_len(15_000, 0), batch_len(15_000, 1)), (10_000, 5_000));
    assert_eq!(batch_len(7, 0), 7);
    for rows in [1usize, 9_999, 10_000, 10_001, 1_234_567] {
        let total: usize = (0..batch_count(rows)).map(|b| batch_len(rows, b)).sum();
        assert_eq!(total, rows);
    }
}

#[test]
fn reports_progress_in_percent() {
    assert_eq!(progress_percent(0, 1), 100);
    assert_eq!(progress_percent(0, 3), 33);
    assert_eq!(progress_percent(1, 3), 66);
    assert_eq!(progress_percent(2, 3), 100);
    assert_eq!(progress_percent(49, 200), 25);
}
